use slog_extlog::attrs::{
    log_id, parse_fixed_groups, parse_i64, parse_log_level, parse_u64, str_eq, LogLevel,
    StatTriggerAction,
};

#[test]
fn action_names_parse() {
    assert_eq!(StatTriggerAction::from_str("Incr"), Ok(StatTriggerAction::Increment));
    assert_eq!(StatTriggerAction::from_str("Decr"), Ok(StatTriggerAction::Decrement));
    assert_eq!(StatTriggerAction::from_str("SetVal"), Ok(StatTriggerAction::SetValue));
    assert_eq!(StatTriggerAction::from_str("None"), Ok(StatTriggerAction::Ignore));
}

#[test]
fn unknown_action_is_an_error() {
    assert_eq!(
        StatTriggerAction::from_str("Increment"),
        Err("Unknown StatTrigger action Increment".to_string())
    );
    assert_eq!(StatTriggerAction::from_str(""), Err("Unknown StatTrigger action ".to_string()));
}

#[test]
fn parse_u64_values() {
    assert_eq!(parse_u64("123"), Some(123));
    assert_eq!(parse_u64("+7"), Some(7));
    assert_eq!(parse_u64("0"), Some(0));
    assert_eq!(parse_u64("18446744073709551615"), Some(u64::MAX));
    assert_eq!(parse_u64("18446744073709551616"), None);
    assert_eq!(parse_u64(""), None);
    assert_eq!(parse_u64("+"), None);
    assert_eq!(parse_u64("-1"), None);
    assert_eq!(parse_u64("12a"), None);
}

#[test]
fn parse_i64_values() {
    assert_eq!(parse_i64("42"), Some(42));
    assert_eq!(parse_i64("-42"), Some(-42));
    assert_eq!(parse_i64("+5"), Some(5));
    assert_eq!(parse_i64("9223372036854775807"), Some(i64::MAX));
    assert_eq!(parse_i64("9223372036854775808"), None);
    assert_eq!(parse_i64("-9223372036854775808"), Some(i64::MIN));
    assert_eq!(parse_i64("-9223372036854775809"), None);
    assert_eq!(parse_i64("-"), None);
    assert_eq!(parse_i64("1.5"), None);
}

#[test]
fn parse_agrees_with_std() {
    for s in ["0", "1", "+1", "-1", "", "99999999999999999999", "007", " 1", "-0"] {
        assert_eq!(parse_u64(s), s.parse::<u64>().ok(), "u64 {:?}", s);
        assert_eq!(parse_i64(s), s.parse::<i64>().ok(), "i64 {:?}", s);
    }
}

#[test]
fn log_levels() {
    assert_eq!(parse_log_level("Warning"), Some(LogLevel::Warning));
    assert_eq!(parse_log_level("Info"), Some(LogLevel::Info));
    assert_eq!(parse_log_level("Error"), Some(LogLevel::Error));
    assert_eq!(parse_log_level("critical"), Some(LogLevel::Critical));
    assert_eq!(parse_log_level("Nonsense"), None);
    assert_eq!(LogLevel::Warning.variant_name(), "Warning");
    assert_eq!(LogLevel::Trace.variant_name(), "Trace");
}

#[test]
fn log_id_is_crate_name_and_number() {
    assert_eq!(log_id("SLOGTST", 123), "SLOGTST-123");
    assert_eq!(log_id("SLOG_STATS_TRACKER_TEST", 1), "SLOG_STATS_TRACKER_TEST-1");
    assert_eq!(log_id("X", 0), "X-0");
    assert_eq!(log_id("X", u64::MAX), "X-18446744073709551615");
}

#[test]
fn log_id_number_reads_back() {
    for n in [0u64, 9, 10, 4242, u64::MAX] {
        let id = log_id("ABC", n);
        let number = &id[4..];
        assert_eq!(parse_u64(number), Some(n));
    }
}

#[test]
fn fixed_groups_parse() {
    assert_eq!(
        parse_fixed_groups("name=foo"),
        Some(vec![("name".to_string(), "foo".to_string())])
    );
    assert_eq!(
        parse_fixed_groups("name=foo,error=23"),
        Some(vec![
            ("name".to_string(), "foo".to_string()),
            ("error".to_string(), "23".to_string())
        ])
    );
}

#[test]
fn fixed_groups_later_pair_overrides() {
    assert_eq!(
        parse_fixed_groups("name=foo,name=bar"),
        Some(vec![("name".to_string(), "bar".to_string())])
    );
}

#[test]
fn fixed_groups_split_at_first_equals() {
    assert_eq!(
        parse_fixed_groups("expr=a=b"),
        Some(vec![("expr".to_string(), "a=b".to_string())])
    );
}

#[test]
fn fixed_groups_without_equals_is_none() {
    assert_eq!(parse_fixed_groups("name"), None);
    assert_eq!(parse_fixed_groups("name=foo,bar"), None);
    assert_eq!(parse_fixed_groups(""), None);
}

#[test]
fn string_equality() {
    assert!(str_eq("abc", "abc"));
    assert!(!str_eq("abc", "abd"));
    assert!(!str_eq("", "a"));
}

#[test]
fn log_level_prefixes_and_short_names() {
    assert_eq!(parse_log_level("I"), Some(LogLevel::Info));
    assert_eq!(parse_log_level("w"), Some(LogLevel::Warning));
    assert_eq!(parse_log_level("Warn"), Some(LogLevel::Warning));
    assert_eq!(parse_log_level("De"), Some(LogLevel::Debug));
    assert_eq!(parse_log_level("ERRO"), Some(LogLevel::Error));
    assert_eq!(parse_log_level("trce"), Some(LogLevel::Trace));
    assert_eq!(parse_log_level("O"), None);
    assert_eq!(parse_log_level("Off"), None);
    assert_eq!(parse_log_level(""), None);
    assert_eq!(parse_log_level("Infos"), None);
    assert_eq!(parse_log_level("Ïnfo"), None);
}
