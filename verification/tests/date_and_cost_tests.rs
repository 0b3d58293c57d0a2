use wardrobe::cost::Cost;
use wardrobe::date::Date;
use wardrobe::date::parse_date_str;

#[test]
fn parse_date_accepts_the_fixed_form() {
    assert_eq!(
        parse_date_str("2024-01-15"),
        Some(Date { year: 2024, month: 1, day: 15 })
    );
    assert_eq!(
        parse_date_str("0000-01-01"),
        Some(Date { year: 0, month: 1, day: 1 })
    );
    assert_eq!(
        parse_date_str("9999-12-31"),
        Some(Date { year: 9999, month: 12, day: 31 })
    );
}

#[test]
fn parse_date_rejects_other_shapes() {
    for bad in [
        "15-01-2024",
        "2024/01/15",
        "2024-1-15",
        "24-01-15",
        "2024-01-15T00",
        "2024 01 15",
        "abcd-ef-gh",
        "2024--1-5",
        "",
    ] {
        assert_eq!(parse_date_str(bad), None, "accepted {:?}", bad);
    }
}

#[test]
fn parse_date_checks_the_calendar() {
    assert_eq!(parse_date_str("2024-02-30"), None);
    assert_eq!(parse_date_str("2023-02-29"), None);
    assert_eq!(parse_date_str("2024-04-31"), None);
    assert_eq!(parse_date_str("2024-00-10"), None);
    assert_eq!(parse_date_str("2024-13-10"), None);
    assert_eq!(parse_date_str("2024-01-00"), None);
    assert!(parse_date_str("2024-01-31").is_some());
    assert!(parse_date_str("2024-06-30").is_some());
    assert_eq!(parse_date_str("2024-06-31"), None);
}

#[test]
fn cost_accepts_number_texts() {
    for good in [
        "0", "7", "10", "89.99", "-12.50", "0.01", "-0.5", "123456789.000", "1e5", "1E5",
        "1.5e+10", "-2E-3", "0e0", "3e05",
    ] {
        let c = Cost::new(good.to_string());
        assert!(c.is_some(), "rejected {:?}", good);
        assert_eq!(c.unwrap().text(), good);
    }
}

#[test]
fn cost_rejects_other_texts() {
    for bad in [
        "", "-", ".", "1.", ".5", "01", "01.5", "--1", "1.2.3", " 1", "1 ", "+1", "ten", "0x10",
        "1,5", "e5", "1e", "1e+", "1.e5", "1e5.2", "1e5e5", "1e-", "-e5",
    ] {
        assert!(Cost::new(bad.to_string()).is_none(), "accepted {:?}", bad);
    }
}

#[test]
fn cost_zero_forms() {
    assert!(Cost::new("0".to_string()).is_some());
    assert!(Cost::new("0.0".to_string()).is_some());
    assert!(Cost::new("-0".to_string()).is_some());
    assert!(Cost::new("00".to_string()).is_none());
}
