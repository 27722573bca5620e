use slog_extlog::slog_test::{log_id_in_range, logs_in_range_order, str_less};

#[test]
fn ids_in_half_open_range() {
    assert!(log_id_in_range("ABC", "ABD", Some("ABC123")));
    assert!(log_id_in_range("ABC", "ABD", Some("ABC")));
    assert!(!log_id_in_range("ABC", "ABD", Some("ABD")));
    assert!(!log_id_in_range("ABC", "ABD", Some("XYZ123")));
    assert!(!log_id_in_range("ABC", "ABD", Some("AB")));
    assert!(!log_id_in_range("ABC", "ABD", None));
}

#[test]
fn string_order_matches_std() {
    for (a, b) in [("a", "b"), ("b", "a"), ("a", "a"), ("", "a"), ("ab", "a"), ("ABC1", "ABC12"), ("é", "z")] {
        assert_eq!(str_less(a, b), a < b, "{:?} < {:?}", a, b);
    }
}

#[test]
fn logs_in_range_sorted_and_filtered() {
    let ids: Vec<Option<String>> = vec![
        Some("ABC123".to_string()),
        None,
        Some("XYZ123".to_string()),
        Some("ABC001".to_string()),
        Some("ABC123".to_string()),
    ];
    assert_eq!(logs_in_range_order("ABC", "ABD", &ids), vec![3, 0, 4]);
    assert_eq!(logs_in_range_order("B", "C", &ids), Vec::<usize>::new());
}
