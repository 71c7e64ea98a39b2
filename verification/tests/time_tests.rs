use memo_search::error::SearchError;
use memo_search::time::{build_time_range, parse_datetime};

#[test]
fn a_day_parses_to_its_midnight() {
    assert_eq!(parse_datetime("2024-01-02").unwrap(), 1704153600000);
}

#[test]
fn a_minute_stamp_parses_exactly() {
    assert_eq!(parse_datetime("2024-01-02 03:04").unwrap(), 1704164640000);
}

#[test]
fn garbage_is_rejected() {
    assert_eq!(parse_datetime("last tuesday").unwrap_err(), SearchError::InvalidDateFormat);
    assert_eq!(parse_datetime("2024-13-40").unwrap_err(), SearchError::InvalidDateFormat);
}

#[test]
fn no_bounds_mean_no_filter() {
    assert!(build_time_range(None, None).unwrap().is_none());
}

#[test]
fn both_bounds_are_carried() {
    let tr = build_time_range(Some("2024-01-01"), Some("2024-01-02 03:04")).unwrap().unwrap();
    assert_eq!(tr.after, Some(1704067200000));
    assert_eq!(tr.before, Some(1704164640000));
}

#[test]
fn a_reversed_range_rejects_the_request() {
    assert_eq!(
        build_time_range(Some("2024-01-02"), Some("2024-01-01")).unwrap_err(),
        SearchError::EmptyTimeRange
    );
}

#[test]
fn one_bad_bound_rejects_the_request() {
    assert_eq!(
        build_time_range(Some("not a date"), None).unwrap_err(),
        SearchError::InvalidDateFormat
    );
    assert_eq!(
        build_time_range(Some("2024-01-01"), Some("nope")).unwrap_err(),
        SearchError::InvalidDateFormat
    );
}
