use vstd::prelude::*;
use chrono::Datelike;
use crate::building::{Building, AppError, BuildingModel, ErrorModel, same_address, models};
use crate::validate::{check_row, row_model, validate_row};

verus! {

/// Some accepted record already stands at the address of `b`.
pub open spec fn has_address(acc: Seq<BuildingModel>, b: BuildingModel) -> bool {
    exists|i: int| 0 <= i < acc.len() && same_address(#[trigger] acc[i], b)
}

/// The texts of every raw row.
pub open spec fn rows_model(rows: Seq<Vec<String>>) -> Seq<Seq<Seq<char>>> {
    rows.map_values(|row: Vec<String>| row_model(row@))
}

/// Every raw row has the four fields of a record.
pub open spec fn rows_well_formed(rows: Seq<Seq<Seq<char>>>) -> bool {
    forall|i: int| 0 <= i < rows.len() ==> (#[trigger] rows[i]).len() == 4
}

/// The outcome of building a dataset from rows in order: each row is validated
/// and checked against the addresses accepted before it, and the first failure
/// is the result.
pub open spec fn build_model(rows: Seq<Seq<Seq<char>>>, current_year: int) -> Result<Seq<BuildingModel>, ErrorModel>
    decreases rows.len(),
{
    if rows.len() == 0 {
        Ok(Seq::empty())
    } else {
        match build_model(rows.drop_last(), current_year) {
            Err(e) => Err(e),
            Ok(acc) => match check_row(rows.last(), current_year) {
                Err(e) => Err(e),
                Ok(b) => if has_address(acc, b) {
                    Err(ErrorModel::NotUniqueValue(b))
                } else {
                    Ok(acc.push(b))
                },
            },
        }
    }
}

/// The buildings of an accepted dataset.
pub open spec fn accepted(rows: Seq<Seq<Seq<char>>>, current_year: int) -> Seq<BuildingModel> {
    build_model(rows, current_year)->Ok_0
}

pub open spec fn dataset_outcome(r: Result<Vec<Building>, AppError>) -> Result<Seq<BuildingModel>, ErrorModel> {
    match r {
        Ok(v) => Ok(models(v@)),
        Err(e) => Err(e@),
    }
}

/// Whether no building of `vec` stands at the address of `b`.
pub fn is_unique(b: &Building, vec: &Vec<Building>) -> (r: bool)
    ensures
        r == !has_address(models(vec@), b@),
{
    let ghost m = models(vec@);
    let mut i: usize = 0;
    while i < vec.len()
        invariant
            i <= vec@.len(),
            m == models(vec@),
            forall|j: int| 0 <= j < i ==> !same_address(#[trigger] m[j], b@),
        decreases vec@.len() - i,
    {
        if vec[i].add.is_same(&b.add) {
            assert(same_address(m[i as int], b@));
            return false;
        }
        i = i + 1;
    }
    true
}

/// Validates the rows in order and keeps the accepted buildings, stopping at the
/// first row that breaks a rule or repeats an address.
pub fn get_data_from_rows(rows: &Vec<Vec<String>>, current_year: i32) -> (r: Result<Vec<Building>, AppError>)
    requires
        rows_well_formed(rows_model(rows@)),
    ensures
        dataset_outcome(r) == build_model(rows_model(rows@), current_year as int),
{
    let ghost all = rows_model(rows@);
    let mut res: Vec<Building> = Vec::new();
    let mut i: usize = 0;
    assert(all.take(0) =~= Seq::<Seq<Seq<char>>>::empty());
    assert(models(res@) =~= Seq::<BuildingModel>::empty());
    while i < rows.len()
        invariant
            i <= rows@.len(),
            all == rows_model(rows@),
            rows_well_formed(all),
            build_model(all.take(i as int), current_year as int) == Ok::<Seq<BuildingModel>, ErrorModel>(models(res@)),
        decreases rows@.len() - i,
    {
        let ghost pre = all.take(i as int);
        let ghost next = all.take(i + 1);
        assert(next.drop_last() =~= pre);
        assert(next.last() == all[i as int]);
        assert(all[i as int] == row_model(rows@[i as int]@));
        assert(all[i as int].len() == 4);
        let bld = match validate_row(&rows[i], current_year) {
            Ok(b) => b,
            Err(e) => {
                assert(build_model(all, current_year as int) == Err::<Seq<BuildingModel>, ErrorModel>(e@)) by {
                    lemma_error_stays(all, i + 1, current_year as int);
                }
                return Err(e);
            },
        };
        if !is_unique(&bld, &res) {
            proof {
                lemma_error_stays(all, i + 1, current_year as int);
            }
            return Err(AppError::NotUniqueValue(bld));
        }
        let ghost before = res@;
        let ghost b = bld@;
        res.push(bld);
        assert(models(res@) =~= models(before).push(b));
        i = i + 1;
    }
    assert(all.take(rows@.len() as int) =~= all);
    Ok(res)
}

/// Once a prefix of the rows fails, every longer prefix fails with the same error.
pub proof fn lemma_error_stays(rows: Seq<Seq<Seq<char>>>, k: int, current_year: int)
    requires
        0 <= k <= rows.len(),
        build_model(rows.take(k), current_year).is_err(),
    ensures
        build_model(rows, current_year) == build_model(rows.take(k), current_year),
    decreases rows.len() - k,
{
    if k < rows.len() {
        let next = rows.take(k + 1);
        assert(next.drop_last() =~= rows.take(k));
        lemma_error_stays(rows, k + 1, current_year);
    } else {
        assert(rows.take(k) =~= rows);
    }
}

/// An accepted prefix holds, in order, the building of each of its rows.
pub proof fn lemma_accepted_rows(rows: Seq<Seq<Seq<char>>>, current_year: int)
    requires
        build_model(rows, current_year).is_ok(),
    ensures
        accepted(rows, current_year).len() == rows.len(),
        forall|i: int| 0 <= i < rows.len() ==> check_row(#[trigger] rows[i], current_year)
            == Ok::<BuildingModel, ErrorModel>(accepted(rows, current_year)[i]),
    decreases rows.len(),
{
    if rows.len() > 0 {
        let pre = rows.drop_last();
        lemma_accepted_rows(pre, current_year);
        assert forall|i: int| 0 <= i < rows.len() implies check_row(#[trigger] rows[i], current_year)
            == Ok::<BuildingModel, ErrorModel>(accepted(rows, current_year)[i]) by {
            if i < rows.len() - 1 {
                assert(rows[i] == pre[i]);
            }
        }
    }
}

/// A dataset that is accepted holds no two buildings at the same address.
pub proof fn lemma_addresses_unique(rows: Seq<Seq<Seq<char>>>, current_year: int)
    requires
        build_model(rows, current_year).is_ok(),
    ensures
        forall|i: int, j: int|
            0 <= i < j < accepted(rows, current_year).len() ==> !same_address(
                #[trigger] accepted(rows, current_year)[i],
                #[trigger] accepted(rows, current_year)[j],
            ),
    decreases rows.len(),
{
    if rows.len() > 0 {
        let pre = rows.drop_last();
        lemma_addresses_unique(pre, current_year);
        let acc = accepted(pre, current_year);
        let all = accepted(rows, current_year);
        assert forall|i: int, j: int| 0 <= i < j < all.len() implies !same_address(
            #[trigger] all[i],
            #[trigger] all[j],
        ) by {
            if j == all.len() - 1 {
                assert(all[i] == acc[i]);
                if same_address(all[i], all[j]) {
                    assert(has_address(acc, all[j]));
                }
            } else {
                assert(all[i] == acc[i] && all[j] == acc[j]);
            }
        }
    }
}

/// Fail-fast: when the rows before row `k` are all accepted and row `k` breaks a
/// rule, the whole dataset is refused with exactly the error of row `k`; nothing
/// of the accepted rows reaches the result.
pub proof fn lemma_fail_fast(rows: Seq<Seq<Seq<char>>>, k: int, current_year: int)
    requires
        0 <= k < rows.len(),
        build_model(rows.take(k), current_year).is_ok(),
        check_row(rows[k], current_year).is_err(),
    ensures
        build_model(rows, current_year) == Err::<Seq<BuildingModel>, ErrorModel>(
            check_row(rows[k], current_year)->Err_0,
        ),
{
    let next = rows.take(k + 1);
    assert(next.drop_last() =~= rows.take(k));
    assert(next.last() == rows[k]);
    lemma_error_stays(rows, k + 1, current_year);
}

/// The build year is no part of an address: a valid row whose district, street
/// and house number repeat those of an earlier accepted row refuses the dataset
/// with that row's building, whatever the two years are.
pub proof fn lemma_duplicate_address(rows: Seq<Seq<Seq<char>>>, i: int, k: int, current_year: int)
    requires
        0 <= i < k < rows.len(),
        build_model(rows.take(k), current_year).is_ok(),
        check_row(rows[k], current_year).is_ok(),
        rows[i][0] == rows[k][0],
        rows[i][1] == rows[k][1],
        rows[i][2] == rows[k][2],
    ensures
        build_model(rows, current_year) == Err::<Seq<BuildingModel>, ErrorModel>(
            ErrorModel::NotUniqueValue(check_row(rows[k], current_year)->Ok_0),
        ),
{
    let pre = rows.take(k);
    let next = rows.take(k + 1);
    lemma_accepted_rows(pre, current_year);
    let acc = accepted(pre, current_year);
    assert(pre[i] == rows[i]);
    assert(check_row(pre[i], current_year) == Ok::<BuildingModel, ErrorModel>(acc[i]));
    assert(same_address(acc[i], check_row(rows[k], current_year)->Ok_0));
    assert(next.drop_last() =~= pre);
    assert(next.last() == rows[k]);
    lemma_error_stays(rows, k + 1, current_year);
}

/// Relies on chrono::Local::now and chrono::Datelike::year: the calendar year of
/// the local clock at the moment of the call. It depends on the clock, so
/// nothing is promised of it.
#[verifier::external_body]
fn current_year() -> (r: i32) {
    chrono::Local::now().year()
}

/// Builds the dataset from the rows against the current calendar year, read
/// once for the whole run.
pub fn get_data(rows: &Vec<Vec<String>>) -> (r: Result<Vec<Building>, AppError>)
    requires
        rows_well_formed(rows_model(rows@)),
    ensures
        exists|year: i32| dataset_outcome(r) == build_model(rows_model(rows@), year as int),
{
    let year = current_year();
    get_data_from_rows(rows, year)
}

} // verus!
