use city_catalog::catalog::Catalog;
use city_catalog::clocks::Clock;
use city_catalog::loader::load_records;
use city_catalog::loader::parse_city_line;

fn paris_line() -> String {
    [
        "2988507",
        "Paris",
        "Paris",
        "Parigi,Parij",
        "48.85341",
        "2.3488",
        "P",
        "PPLC",
        "FR",
        "",
        "11",
        "75",
        "751",
        "75056",
        "2138551",
        "42",
        "42",
        "Europe/Paris",
        "2023-01-01",
    ]
    .join("\t")
}

#[test]
fn short_row_is_skipped() {
    assert!(parse_city_line("2988507\tParis").is_none());
    assert!(parse_city_line("").is_none());
}

#[test]
fn full_row_parses() {
    let c = parse_city_line(&paris_line()).expect("well-formed row");
    assert_eq!(c.geonameid, 2988507);
    assert_eq!(c.name, "Paris");
    assert_eq!(c.asciiname, "Paris");
    assert_eq!(c.alternatenames, "Parigi,Parij");
    assert_eq!(c.country_code, "FR");
    assert_eq!(c.timezone, "Europe/Paris");
}

#[test]
fn bad_identifier_defaults_to_zero() {
    let line = paris_line().replace("2988507", "notanumber");
    let c = parse_city_line(&line).expect("well-formed row");
    assert_eq!(c.geonameid, 0);
}

#[test]
fn plus_signed_identifier_parses() {
    let line = paris_line().replace("2988507", "+2988507");
    let c = parse_city_line(&line).expect("well-formed row");
    assert_eq!(c.geonameid, 2988507);
}

#[test]
fn malformed_rows_reach_neither_store_nor_index() {
    let lines = vec!["bad\trow".to_string(), paris_line(), "x".to_string()];
    let records = load_records(&lines);
    assert_eq!(records.len(), 1);
    assert_eq!(records[0].geonameid, 2988507);
    let cat = Catalog::build(records).expect("build");
    assert_eq!(cat.search("par").len(), 1);
    assert_eq!(cat.search("bad").len(), 0);
    assert!(cat.lookup(0).is_err());
}

#[test]
fn clock_keeps_fields_and_gets_timestamp_id() {
    let clock = Clock::new("Paris".to_string(), "Europe/Paris".to_string());
    assert_eq!(clock.city_name, "Paris");
    assert_eq!(clock.timezone, "Europe/Paris");
    assert!(clock.id.starts_with("clock_"));
    let digits = &clock.id["clock_".len()..];
    assert!(!digits.is_empty());
    assert!(digits.chars().all(|c| c.is_ascii_digit()));
}
