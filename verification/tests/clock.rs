use task_tracker::clock::{finished_span, finished_span_at};

#[test]
fn span_starts_at_zero_and_ends_now_by_default() {
    assert_eq!(finished_span_at(None, None, 1700000000), (0, 1700000000));
    assert_eq!(finished_span_at(Some(100), None, 500), (100, 500));
    assert_eq!(finished_span_at(None, Some(400), 500), (0, 400));
    assert_eq!(finished_span_at(Some(100), Some(400), 500), (100, 400));
}

#[test]
fn span_stays_within_32_bits() {
    assert_eq!(finished_span_at(Some(-1), Some(-5), 0), (0, 0));
    assert_eq!(finished_span_at(None, None, -7), (0, 0));
    assert_eq!(finished_span_at(Some(u32::MAX as i64), Some(u32::MAX as i64 + 1), 0), (u32::MAX, u32::MAX));
    assert_eq!(finished_span_at(Some(i64::MIN), Some(i64::MAX), 0), (0, u32::MAX));
}

#[test]
fn span_of_days_starts_at_midnight_utc() {
    let start = Some("2015-05-15".to_string());
    let end = Some("2015-05-16".to_string());
    assert_eq!(finished_span(&start, &end), Some((1431648000, 1431734400)));
    assert_eq!(finished_span(&Some("1970-01-01".to_string()), &Some("1970-1-2".to_string())), Some((0, 86400)));
    assert_eq!(finished_span(&Some("1969-12-31".to_string()), &end), Some((0, 1431734400)));
}

#[test]
fn span_up_to_now_ends_at_the_time_of_the_call() {
    let before = std::time::SystemTime::now()
        .duration_since(std::time::UNIX_EPOCH)
        .unwrap()
        .as_secs();
    let (from, to) = finished_span(&None, &None).unwrap();
    assert_eq!(from, 0);
    assert!(to as u64 >= before && to as u64 <= before + 60);
    let (from, _) = finished_span(&Some("2015-05-15".to_string()), &None).unwrap();
    assert_eq!(from, 1431648000);
}

#[test]
fn span_of_something_that_is_no_day_is_refused() {
    for bad in ["", "yesterday", "2015-13-01", "2015-02-30", "2015/05/15", "15-05-2015x"] {
        assert_eq!(finished_span(&Some(bad.to_string()), &None), None);
        assert_eq!(finished_span(&None, &Some(bad.to_string())), None);
    }
}
