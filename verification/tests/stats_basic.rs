use slog_extlog::stats::change::{update_bucket_values, ChangeType, StatValue};

#[test]
fn stat_value_update_incr() {
    let mut v = StatValue::new(0, 1);
    assert!(v.update(&ChangeType::Incr(3)));
    assert_eq!(v.num, 3);
    assert_eq!(v.divisor, 1);
}

#[test]
fn stat_value_update_decr_goes_negative() {
    let mut v = StatValue::new(2, 1);
    assert!(v.update(&ChangeType::Decr(5)));
    assert_eq!(v.num, -3);
}

#[test]
fn stat_value_set_to_reports_change_only_when_different() {
    let mut v = StatValue::new(7, 1);
    assert!(!v.update(&ChangeType::SetTo(7)));
    assert_eq!(v.num, 7);
    assert!(v.update(&ChangeType::SetTo(42)));
    assert_eq!(v.num, 42);
    // Setting twice to the same value is the same as setting once.
    assert!(!v.update(&ChangeType::SetTo(42)));
    assert_eq!(v.num, 42);
}

#[test]
fn stat_value_incr_wraps_on_overflow() {
    let mut v = StatValue::new(isize::MAX, 1);
    assert!(v.update(&ChangeType::Incr(1)));
    assert_eq!(v.num, isize::MIN);
}

#[test]
fn stat_value_incr_then_decr_gives_back_original() {
    for start in [0isize, -17, isize::MAX, isize::MIN] {
        let mut v = StatValue::new(start, 1);
        v.update(&ChangeType::Incr(1000));
        v.update(&ChangeType::Decr(1000));
        assert_eq!(v.num, start);
    }
}

#[test]
fn update_bucket_values_counts_repeats() {
    let mut vals = vec![StatValue::new(0, 1), StatValue::new(10, 1), StatValue::new(20, 1)];
    update_bucket_values(&mut vals, &vec![0, 2, 2], &ChangeType::Incr(4));
    assert_eq!(vals[0].num, 4);
    assert_eq!(vals[1].num, 10);
    assert_eq!(vals[2].num, 28);
    assert_eq!(vals.len(), 3);
}

#[test]
fn update_bucket_values_nothing_to_update() {
    let mut vals = vec![StatValue::new(5, 1)];
    update_bucket_values(&mut vals, &vec![], &ChangeType::SetTo(9));
    assert_eq!(vals[0].num, 5);
}

#[test]
fn stat_value_update_reports_whether_value_changed() {
    let mut s = StatValue::new(5, 1);
    assert!(!s.update(&ChangeType::Incr(0)));
    assert!(!s.update(&ChangeType::SetTo(5)));
    assert!(!s.update(&ChangeType::Decr(0)));
    assert!(s.update(&ChangeType::Incr(2)));
    assert_eq!(s.num, 7);
}
