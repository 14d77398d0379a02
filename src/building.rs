use vstd::prelude::*;

verus! {

/// The location of a building: district, street and house number.
#[derive(Debug, Clone, PartialEq, Eq)]
pub struct Address {
    pub dist: String,
    pub str: String,
    pub num: u8,
}

/// A validated record: an address and the year the building was built.
#[derive(Debug, Clone, PartialEq, Eq)]
pub struct Building {
    pub add: Address,
    pub build_year: u32,
}

/// The mathematical content of a building record.
pub struct BuildingModel {
    pub dist: Seq<char>,
    pub street: Seq<char>,
    pub num: int,
    pub year: int,
}

/// The field of a row that a rule refused.
#[derive(Debug, Clone, Copy, PartialEq, Eq, Structural)]
pub enum Field {
    Dist,
    Street,
    Num,
    Year,
}

/// Why a dataset was refused.
#[derive(Debug, Clone, PartialEq, Eq)]
pub enum AppError {
    /// The field holds a value that its rule refuses; the raw text is kept.
    NotValidValue(Field, String),
    /// A numeric field does not hold a decimal number; the raw text is kept.
    NotNumber(Field, String),
    /// The building's address was already taken by an earlier row.
    NotUniqueValue(Building),
}

/// The mathematical content of an error.
pub enum ErrorModel {
    NotValidValue(Field, Seq<char>),
    NotNumber(Field, Seq<char>),
    NotUniqueValue(BuildingModel),
}

impl Field {
    /// The name under which the field is reported.
    pub fn name(&self) -> (r: &'static str)
        ensures
            *self == Field::Dist ==> r@ == "dist"@,
            *self == Field::Street ==> r@ == "street"@,
            *self == Field::Num ==> r@ == "num"@,
            *self == Field::Year ==> r@ == "year"@,
    {
        match self {
            Field::Dist => "dist",
            Field::Street => "street",
            Field::Num => "num",
            Field::Year => "year",
        }
    }
}

impl View for Building {
    type V = BuildingModel;

    open spec fn view(&self) -> BuildingModel {
        BuildingModel {
            dist: self.add.dist@,
            street: self.add.str@,
            num: self.add.num as int,
            year: self.build_year as int,
        }
    }
}

impl View for AppError {
    type V = ErrorModel;

    open spec fn view(&self) -> ErrorModel {
        match self {
            AppError::NotValidValue(f, v) => ErrorModel::NotValidValue(*f, v@),
            AppError::NotNumber(f, v) => ErrorModel::NotNumber(*f, v@),
            AppError::NotUniqueValue(b) => ErrorModel::NotUniqueValue(b@),
        }
    }
}

/// Two records stand at the same address: district, street and number agree.
pub open spec fn same_address(a: BuildingModel, b: BuildingModel) -> bool {
    a.dist == b.dist && a.street == b.street && a.num == b.num
}

/// The models of a list of buildings, in order.
pub open spec fn models(v: Seq<Building>) -> Seq<BuildingModel> {
    v.map_values(|b: Building| b@)
}

impl Address {
    pub fn new(dist: String, str: String, num: u8) -> (r: Self)
        ensures
            r.dist@ == dist@,
            r.str@ == str@,
            r.num == num,
    {
        Address { dist, str, num }
    }

    /// Whether the two addresses agree in all three fields.
    pub fn is_same(&self, add: &Address) -> (r: bool)
        ensures
            r == (self.dist@ == add.dist@ && self.str@ == add.str@ && self.num == add.num),
    {
        self.dist == add.dist && self.str == add.str && self.num == add.num
    }
}

impl Building {
    pub fn new(dist: String, str: String, num: u8, build_year: u32) -> (r: Self)
        ensures
            r@ == (BuildingModel {
                dist: dist@,
                street: str@,
                num: num as int,
                year: build_year as int,
            }),
    {
        Building { add: Address::new(dist, str, num), build_year }
    }

    pub fn dist(&self) -> (r: &String)
        ensures
            r@ == self.add.dist@,
    {
        &self.add.dist
    }

    pub fn street(&self) -> (r: &String)
        ensures
            r@ == self.add.str@,
    {
        &self.add.str
    }

    pub fn num(&self) -> (r: u8)
        ensures
            r == self.add.num,
    {
        self.add.num
    }

    pub fn build_year(&self) -> (r: u32)
        ensures
            r == self.build_year,
    {
        self.build_year
    }
}

} // verus!
