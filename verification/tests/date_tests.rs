use meilisearch_cli::date::{format_date, parse_date, MAX_EPOCH};
use meilisearch_cli::{Document, SerializationType};

#[test]
fn date_encodings_agree_on_one_instant() {
    let e = parse_date("2021-01-02").unwrap();
    assert_eq!(e, 1609545600);
    assert_eq!(parse_date("2021-01-02T00:00:00"), Some(e));
    assert_eq!(parse_date("2021-01-02T00:00:00Z"), Some(e));
    assert_eq!(parse_date("1609545600"), Some(e));
}

#[test]
fn date_with_time_of_day() {
    assert_eq!(parse_date("1970-01-01T00:01:05"), Some(65));
    assert_eq!(parse_date("2021-01-02T03:04:05Z"), Some(1609545600 + 3 * 3600 + 4 * 60 + 5));
}

#[test]
fn leap_year_days() {
    assert!(parse_date("2020-02-29").is_some());
    assert_eq!(parse_date("2021-02-29"), None);
    assert_eq!(parse_date("2000-02-29").unwrap(), 951782400);
    assert_eq!(parse_date("1900-02-29"), None);
}

#[test]
fn date_rejections() {
    assert_eq!(parse_date(""), None);
    assert_eq!(parse_date("2021-13-01"), None);
    assert_eq!(parse_date("2021-00-10"), None);
    assert_eq!(parse_date("2021-01-32"), None);
    assert_eq!(parse_date("1969-12-31"), None);
    assert_eq!(parse_date("2021-01-02T24:00:00"), None);
    assert_eq!(parse_date("999999999999999999999"), None);
}

#[test]
fn decimal_cap_is_enforced() {
    assert_eq!(parse_date(&MAX_EPOCH.to_string()), Some(MAX_EPOCH as i64));
    assert_eq!(parse_date(&(MAX_EPOCH + 1).to_string()), None);
}

#[test]
fn format_then_parse_is_identity() {
    assert_eq!(format_date(0), "1970-01-01T00:00:00Z");
    assert_eq!(format_date(1609545600), "2021-01-02T00:00:00Z");
    assert_eq!(format_date(951782400), "2000-02-29T00:00:00Z");
    for e in [0u64, 1, 86399, 86400, 951782400, 1609545600, MAX_EPOCH] {
        let text = format_date(e);
        assert_eq!(parse_date(&text), Some(e as i64));
    }
}

#[test]
fn storage_date_is_canonical_disk_date_is_formatted() {
    let mut d = Document::new();
    d.title = String::from("T");
    d.id = String::from("i");
    d.parentid = String::from("i");
    d.date = 1609545600;
    assert!(d.render().contains("date: 1609545600\n"));
    d.serialization_type = SerializationType::Disk;
    assert!(d.render().contains("date: 2021-01-02T00:00:00Z\n"));
}
