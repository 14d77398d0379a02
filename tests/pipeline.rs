use buildings::building::{Address, AppError, Building, Field};
use buildings::dataset::{get_data, get_data_from_rows, is_unique};
use buildings::oldest::get_oldest;
use buildings::validate::{num_between, parse_number, rus_only, validate_row, NUMBER_CAP};

fn row(d: &str, s: &str, n: &str, y: &str) -> Vec<String> {
    vec![d.to_string(), s.to_string(), n.to_string(), y.to_string()]
}

fn summary(list: &[&Building]) -> Vec<(String, String, u8, u32)> {
    let mut v: Vec<(String, String, u8, u32)> = list
        .iter()
        .map(|b| (b.dist().clone(), b.street().clone(), b.num(), b.build_year()))
        .collect();
    v.sort();
    v
}

#[test]
fn plain_ascii_text_is_rejected() {
    assert!(!rus_only("Center"));
    assert!(!rus_only("Lenina 5"));
    assert!(!rus_only("Hello world!?'"));
    assert!(!rus_only("abc\u{3000}def"));
    assert!(!rus_only("tab\there"));
}

#[test]
fn text_with_other_characters_is_accepted() {
    assert!(rus_only("Центр"));
    assert!(rus_only("Lenina-5"));
    assert!(rus_only("Ленина 5"));
    assert!(rus_only("a.b"));
}

#[test]
fn empty_text_is_rejected() {
    assert!(!rus_only(""));
}

#[test]
fn numbers_are_read_in_decimal() {
    assert_eq!(parse_number("3"), Some(3));
    assert_eq!(parse_number("+7"), Some(7));
    assert_eq!(parse_number("1990"), Some(1990));
    assert_eq!(parse_number("007"), Some(7));
    assert_eq!(parse_number(""), None);
    assert_eq!(parse_number("+"), None);
    assert_eq!(parse_number("12a"), None);
    assert_eq!(parse_number("-1"), Some(-1));
    assert_eq!(parse_number("-0"), Some(0));
    assert_eq!(parse_number("-"), None);
    assert_eq!(parse_number("+-1"), None);
    assert_eq!(parse_number("-99999999999999999999"), Some(-NUMBER_CAP));
    assert_eq!(parse_number(" 1"), None);
    assert_eq!(parse_number("99999999999999999999"), Some(NUMBER_CAP));
}

#[test]
fn between_is_inclusive() {
    assert!(num_between(1, 1, 255));
    assert!(num_between(255, 1, 255));
    assert!(!num_between(0, 1, 255));
    assert!(!num_between(256, 1, 255));
}

#[test]
fn house_number_bounds() {
    assert!(validate_row(&row("Центр", "Мира", "1", "1990"), 2024).is_ok());
    assert!(validate_row(&row("Центр", "Мира", "255", "1990"), 2024).is_ok());
    assert_eq!(
        validate_row(&row("Центр", "Мира", "0", "1990"), 2024),
        Err(AppError::NotValidValue(Field::Num, "0".to_string()))
    );
    assert_eq!(
        validate_row(&row("Центр", "Мира", "256", "1990"), 2024),
        Err(AppError::NotValidValue(Field::Num, "256".to_string()))
    );
    assert_eq!(
        validate_row(&row("Центр", "Мира", "-5", "1990"), 2024),
        Err(AppError::NotValidValue(Field::Num, "-5".to_string()))
    );
}

#[test]
fn build_year_bounds() {
    assert!(validate_row(&row("Центр", "Мира", "3", "1"), 2024).is_ok());
    assert!(validate_row(&row("Центр", "Мира", "3", "2024"), 2024).is_ok());
    assert_eq!(
        validate_row(&row("Центр", "Мира", "3", "0"), 2024),
        Err(AppError::NotValidValue(Field::Year, "0".to_string()))
    );
    assert_eq!(
        validate_row(&row("Центр", "Мира", "3", "2025"), 2024),
        Err(AppError::NotValidValue(Field::Year, "2025".to_string()))
    );
    assert_eq!(
        validate_row(&row("Центр", "Мира", "3", "-1990"), 2024),
        Err(AppError::NotValidValue(Field::Year, "-1990".to_string()))
    );
}

#[test]
fn fields_are_checked_in_order() {
    assert_eq!(
        validate_row(&row("Center", "Street", "x", "y"), 2024),
        Err(AppError::NotValidValue(Field::Dist, "Center".to_string()))
    );
    assert_eq!(
        validate_row(&row("", "Street", "x", "y"), 2024),
        Err(AppError::NotValidValue(Field::Dist, "".to_string()))
    );
    assert_eq!(
        validate_row(&row("Центр", "Street", "x", "y"), 2024),
        Err(AppError::NotValidValue(Field::Street, "Street".to_string()))
    );
    assert_eq!(
        validate_row(&row("Центр", "Мира", "x", "y"), 2024),
        Err(AppError::NotNumber(Field::Num, "x".to_string()))
    );
    assert_eq!(
        validate_row(&row("Центр", "Мира", "3", "y"), 2024),
        Err(AppError::NotNumber(Field::Year, "y".to_string()))
    );
}

#[test]
fn valid_row_gives_building() {
    let b = validate_row(&row("Центр", "Мира", "+3", "1985"), 2024).unwrap();
    assert_eq!(b, Building::new("Центр".to_string(), "Мира".to_string(), 3, 1985));
}

#[test]
fn field_names() {
    assert_eq!(Field::Dist.name(), "dist");
    assert_eq!(Field::Street.name(), "street");
    assert_eq!(Field::Num.name(), "num");
    assert_eq!(Field::Year.name(), "year");
}

#[test]
fn addresses_compare_all_fields() {
    let a = Address::new("Центр".to_string(), "Мира".to_string(), 3);
    assert!(a.is_same(&Address::new("Центр".to_string(), "Мира".to_string(), 3)));
    assert!(!a.is_same(&Address::new("Центр".to_string(), "Мира".to_string(), 4)));
    assert!(!a.is_same(&Address::new("Север".to_string(), "Мира".to_string(), 3)));
    assert!(!a.is_same(&Address::new("Центр".to_string(), "Ленина".to_string(), 3)));
}

#[test]
fn uniqueness_ignores_year() {
    let list = vec![Building::new("Центр".to_string(), "Мира".to_string(), 3, 1985)];
    let same = Building::new("Центр".to_string(), "Мира".to_string(), 3, 1999);
    let other = Building::new("Центр".to_string(), "Мира".to_string(), 4, 1985);
    assert!(!is_unique(&same, &list));
    assert!(is_unique(&other, &list));
    assert!(is_unique(&same, &Vec::new()));
}

#[test]
fn end_to_end_report() {
    let rows = vec![
        row("Центр", "Ленина", "5", "1990"),
        row("Центр", "Мира", "3", "1985"),
        row("Север", "Садовая", "1", "2000"),
    ];
    let data = get_data_from_rows(&rows, 2024).unwrap();
    assert_eq!(data.len(), 3);
    let report = get_oldest(&data);
    assert_eq!(
        summary(&report),
        vec![
            ("Север".to_string(), "Садовая".to_string(), 1, 2000),
            ("Центр".to_string(), "Мира".to_string(), 3, 1985),
        ]
    );
}

#[test]
fn end_to_end_rejection() {
    let rows = vec![row("Center", "Lenina", "5", "1990")];
    assert_eq!(
        get_data_from_rows(&rows, 2024),
        Err(AppError::NotValidValue(Field::Dist, "Center".to_string()))
    );
}

#[test]
fn end_to_end_duplicate() {
    let rows = vec![row("Центр", "Мира", "3", "1985"), row("Центр", "Мира", "3", "1999")];
    assert_eq!(
        get_data_from_rows(&rows, 2024),
        Err(AppError::NotUniqueValue(Building::new(
            "Центр".to_string(),
            "Мира".to_string(),
            3,
            1999
        )))
    );
}

#[test]
fn first_failure_wins() {
    let rows = vec![
        row("Центр", "Мира", "3", "1985"),
        row("Центр", "Мира", "0", "1990"),
        row("Center", "Мира", "4", "1990"),
    ];
    assert_eq!(
        get_data_from_rows(&rows, 2024),
        Err(AppError::NotValidValue(Field::Num, "0".to_string()))
    );
}

#[test]
fn empty_dataset_is_accepted() {
    let rows: Vec<Vec<String>> = Vec::new();
    let data = get_data_from_rows(&rows, 2024).unwrap();
    assert!(data.is_empty());
    assert!(get_oldest(&data).is_empty());
}

#[test]
fn tie_keeps_first_oldest() {
    let data = vec![
        Building::new("Центр".to_string(), "Ленина".to_string(), 1, 1990),
        Building::new("Центр".to_string(), "Мира".to_string(), 2, 1985),
        Building::new("Центр".to_string(), "Садовая".to_string(), 3, 1985),
    ];
    let report = get_oldest(&data);
    assert_eq!(report.len(), 1);
    assert_eq!(report[0].street(), "Мира");
    assert_eq!(report[0].build_year(), 1985);
}

#[test]
fn aggregation_twice_gives_same_report() {
    let data = vec![
        Building::new("Центр".to_string(), "Ленина".to_string(), 1, 1990),
        Building::new("Север".to_string(), "Мира".to_string(), 2, 1985),
        Building::new("Центр".to_string(), "Садовая".to_string(), 3, 1970),
        Building::new("Юг".to_string(), "Садовая".to_string(), 4, 2001),
    ];
    let first = summary(&get_oldest(&data));
    let second = summary(&get_oldest(&data));
    assert_eq!(first, second);
    assert_eq!(first.len(), 3);
}

#[test]
fn current_year_bounds_build_year() {
    assert!(get_data(&vec![row("Центр", "Мира", "3", "1990")]).is_ok());
    assert_eq!(
        get_data(&vec![row("Центр", "Мира", "3", "99999")]),
        Err(AppError::NotValidValue(Field::Year, "99999".to_string()))
    );
}
