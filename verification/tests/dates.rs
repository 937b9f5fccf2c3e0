use edf::edf_file::Date;
use edf::reader::header::parse_start_date;

// Check that month and date are in the right order.
#[test]
fn parse_start_date_simple() {
    let s = "31.01.01".as_bytes().to_vec();
    assert_eq!(parse_start_date(&s), Ok(Date::new(2001, 1, 31)));
}

#[test]
fn parse_start_date_y2k() {
    let s = "01.01.00".as_bytes().to_vec();
    assert_eq!(parse_start_date(&s), Ok(Date::new(2000, 1, 1)));
}

#[test]
fn parse_start_date_before_clip() {
    let s = "01.01.85".as_bytes().to_vec();
    assert_eq!(parse_start_date(&s), Ok(Date::new(1985, 1, 1)));
}

#[test]
fn parse_start_date_after_clip() {
    let s = "31.12.84".as_bytes().to_vec();
    assert_eq!(parse_start_date(&s), Ok(Date::new(2084, 12, 31)));
}

#[test]
fn parse_start_date_rejects_nonsense() {
    assert!(parse_start_date(&"31/01/01".as_bytes().to_vec()).is_err());
    assert!(parse_start_date(&"32.01.01".as_bytes().to_vec()).is_err());
    assert!(parse_start_date(&"29.02.01".as_bytes().to_vec()).is_err());
    assert!(parse_start_date(&"01.13.01".as_bytes().to_vec()).is_err());
    assert!(parse_start_date(&"00.01.01".as_bytes().to_vec()).is_err());
}

#[test]
fn parse_start_date_leap_year() {
    // 2000 is a leap year (divisible by 400), 2001 is not.
    assert_eq!(
        parse_start_date(&"29.02.00".as_bytes().to_vec()),
        Ok(Date::new(2000, 2, 29))
    );
    assert!(parse_start_date(&"29.02.01".as_bytes().to_vec()).is_err());
}
