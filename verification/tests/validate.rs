use ohlcv_tools::validate::first_failed_row;

#[test]
fn all_passing_reports_no_row() {
    assert_eq!(first_failed_row(&[true, true, true]), None);
    assert_eq!(first_failed_row(&[]), None);
}

#[test]
fn first_failure_is_reported_one_based() {
    assert_eq!(first_failed_row(&[true, false]), Some(2));
    assert_eq!(first_failed_row(&[false]), Some(1));
    assert_eq!(first_failed_row(&[true, false, false]), Some(2));
}
