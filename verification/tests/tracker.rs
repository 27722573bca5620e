use slog_extlog::stats::buckets::{BucketLimit, BucketMethod};
use slog_extlog::stats::change::ChangeType;
use slog_extlog::stats::defn::{StatDefinition, StatTrigger, StatType};
use slog_extlog::stats::stat::Stat;
use slog_extlog::stats::tracker::{StatsError, StatsTracker};

fn defn(name: &str, desc: &str, stype: StatType, groups: &[&str]) -> StatDefinition {
    StatDefinition::new(
        name,
        desc,
        stype,
        groups.iter().map(|g| g.to_string()).collect(),
        BucketMethod::Freq,
        vec![],
    )
}

fn bucket_defn(name: &str, groups: &[&str], method: BucketMethod, limits: Vec<f64>) -> StatDefinition {
    StatDefinition::new(
        name,
        "Test bucket counter",
        StatType::BucketCounter,
        groups.iter().map(|g| g.to_string()).collect(),
        method,
        limits.iter().map(|l| l.to_bits()).collect(),
    )
}

fn trigger(name: &str, change: ChangeType, tags: &[(&str, &str)], bucket: Option<f64>) -> StatTrigger {
    StatTrigger {
        stat_name: name.to_string(),
        condition: true,
        change: Some(change),
        tags: tags.iter().map(|(n, v)| (n.to_string(), v.to_string())).collect(),
        bucket_value: bucket.map(f64::to_bits),
    }
}

/// (group values, bucket index, value) of each value of the snapshot of stat `i`.
fn values_of(tracker: &StatsTracker, i: usize) -> Vec<(Vec<String>, Option<usize>, isize)> {
    tracker.get_stats()[i]
        .values
        .iter()
        .map(|v| (v.group_values.clone(), v.bucket_index, v.value))
        .collect()
}

fn strs(v: &[&str]) -> Vec<String> {
    v.iter().map(|s| s.to_string()).collect()
}

#[test]
fn tracker_with_no_stats_reports_nothing() {
    let tracker = StatsTracker::from_definitions(vec![]);
    assert_eq!(tracker.len(), 0);
    assert_eq!(tracker.get_stats().len(), 0);
    assert_eq!(tracker.log_all().len(), 0);
}

#[test]
fn tracker_single_counter_starts_at_zero() {
    let tracker = StatsTracker::from_definitions(vec![vec![defn("test_counter", "Test counter", StatType::Counter, &[])]]);
    let stats = tracker.get_stats();
    assert_eq!(stats.len(), 1);
    assert_eq!(stats[0].definition.name(), "test_counter");
    assert_eq!(stats[0].definition.description(), "Test counter");
    assert_eq!(stats[0].definition.stype(), StatType::Counter);
    assert_eq!(values_of(&tracker, 0), vec![(vec![], None, 0)]);
}

#[test]
fn tracker_updated_metrics() {
    let mut tracker = StatsTracker::from_definitions(vec![vec![
        defn("test_counter", "Test counter", StatType::Counter, &[]),
        defn("test_gauge", "Test gauge", StatType::Gauge, &[]),
    ]]);
    let log1 = vec![trigger("test_counter", ChangeType::Incr(1), &[], None)];
    let log2 = vec![trigger("test_gauge", ChangeType::Incr(2), &[], None)];
    assert_eq!(tracker.validate_log(&log1), Ok(()));
    tracker.update_stats(&log1);
    assert_eq!(tracker.validate_log(&log2), Ok(()));
    tracker.update_stats(&log2);
    assert_eq!(values_of(&tracker, 0), vec![(vec![], None, 1)]);
    assert_eq!(values_of(&tracker, 1), vec![(vec![], None, 2)]);
}

#[test]
fn tracker_grouped_counter_without_values_reports_none() {
    let tracker = StatsTracker::from_definitions(vec![vec![defn(
        "test_grouped_counter",
        "Test grouped counter",
        StatType::Counter,
        &["counter_group_one", "counter_group_two"],
    )]]);
    assert_eq!(values_of(&tracker, 0), vec![]);
}

#[test]
fn tracker_grouped_counter_with_two_values() {
    let mut tracker = StatsTracker::from_definitions(vec![vec![defn(
        "test_grouped_counter",
        "Test grouped counter",
        StatType::Counter,
        &["counter_group_one", "counter_group_two"],
    )]]);
    tracker.update_stats(&vec![trigger(
        "test_grouped_counter",
        ChangeType::Incr(1),
        &[("counter_group_one", "value one"), ("counter_group_two", "100")],
        None,
    )]);
    tracker.update_stats(&vec![trigger(
        "test_grouped_counter",
        ChangeType::Incr(2),
        &[("counter_group_two", "200"), ("counter_group_one", "value two")],
        None,
    )]);
    assert_eq!(
        values_of(&tracker, 0),
        vec![
            (strs(&["value one", "100"]), None, 1),
            (strs(&["value two", "200"]), None, 2),
        ]
    );
    let logged = tracker.log_all();
    assert_eq!(logged.len(), 2);
    assert_eq!(logged[1].name, "test_grouped_counter");
    assert_eq!(logged[1].value, 2);
    assert_eq!(
        logged[1].tags,
        vec![
            ("counter_group_one".to_string(), "value two".to_string()),
            ("counter_group_two".to_string(), "200".to_string())
        ]
    );
    assert_eq!(logged[1].bucket, None);
}

#[test]
fn tracker_grouped_counter_same_group_accumulates() {
    let mut tracker = StatsTracker::from_definitions(vec![vec![defn(
        "test_grouped_counter",
        "Test grouped counter",
        StatType::Counter,
        &["name"],
    )]]);
    for _ in 0..3 {
        tracker.update_stats(&vec![trigger("test_grouped_counter", ChangeType::Incr(1), &[("name", "foo")], None)]);
    }
    tracker.update_stats(&vec![trigger("test_grouped_counter", ChangeType::Incr(1), &[("name", "bar")], None)]);
    assert_eq!(
        values_of(&tracker, 0),
        vec![(strs(&["foo"]), None, 3), (strs(&["bar"]), None, 1)]
    );
}

#[test]
fn tracker_bucket_counter_freq_starts_at_zero() {
    let tracker = StatsTracker::from_definitions(vec![vec![bucket_defn(
        "test_bucket_counter_freq",
        &[],
        BucketMethod::Freq,
        vec![1.0, 2.0, 3.0],
    )]]);
    assert_eq!(
        values_of(&tracker, 0),
        vec![(vec![], Some(0), 0), (vec![], Some(1), 0), (vec![], Some(2), 0), (vec![], Some(3), 0)]
    );
    let logged = tracker.log_all();
    let limits: Vec<Option<BucketLimit>> = logged.iter().map(|d| d.bucket).collect();
    assert_eq!(
        limits,
        vec![
            Some(BucketLimit::Num(1.0f64.to_bits())),
            Some(BucketLimit::Num(2.0f64.to_bits())),
            Some(BucketLimit::Num(3.0f64.to_bits())),
            Some(BucketLimit::Unbounded)
        ]
    );
}

#[test]
fn tracker_bucket_counter_freq_one_value() {
    let mut tracker = StatsTracker::from_definitions(vec![vec![bucket_defn(
        "test_bucket_counter_freq",
        &[],
        BucketMethod::Freq,
        vec![1.0, 2.0, 3.0],
    )]]);
    tracker.update_stats(&vec![trigger("test_bucket_counter_freq", ChangeType::Incr(1), &[], Some(1.5))]);
    assert_eq!(
        values_of(&tracker, 0),
        vec![(vec![], Some(0), 0), (vec![], Some(1), 1), (vec![], Some(2), 0), (vec![], Some(3), 0)]
    );
}

#[test]
fn tracker_bucket_counter_with_groups_and_two_values() {
    let mut tracker = StatsTracker::from_definitions(vec![vec![bucket_defn(
        "test_group_bucket_counter",
        &["group1", "group2"],
        BucketMethod::CumulFreq,
        vec![-8.0, 0.0],
    )]]);
    tracker.update_stats(&vec![trigger(
        "test_group_bucket_counter",
        ChangeType::Incr(3),
        &[("group1", "one"), ("group2", "two")],
        Some(7.4),
    )]);
    tracker.update_stats(&vec![trigger(
        "test_group_bucket_counter",
        ChangeType::Incr(4),
        &[("group1", "three"), ("group2", "four")],
        Some(-20.0),
    )]);
    assert_eq!(
        values_of(&tracker, 0),
        vec![
            (strs(&["one", "two"]), Some(0), 0),
            (strs(&["one", "two"]), Some(1), 0),
            (strs(&["one", "two"]), Some(2), 3),
            (strs(&["three", "four"]), Some(0), 4),
            (strs(&["three", "four"]), Some(1), 4),
            (strs(&["three", "four"]), Some(2), 4),
        ]
    );
}

#[test]
fn tracker_false_condition_changes_nothing() {
    let mut tracker = StatsTracker::from_definitions(vec![vec![defn("test_counter", "Test counter", StatType::Counter, &[])]]);
    let mut t = trigger("test_counter", ChangeType::Incr(5), &[], None);
    t.condition = false;
    tracker.update_stats(&vec![t]);
    assert_eq!(values_of(&tracker, 0), vec![(vec![], None, 0)]);
}

#[test]
fn tracker_set_to_and_decrement() {
    let mut tracker = StatsTracker::from_definitions(vec![vec![defn("test_gauge", "Test gauge", StatType::Gauge, &[])]]);
    tracker.update_stats(&vec![
        trigger("test_gauge", ChangeType::SetTo(42), &[], None),
        trigger("test_gauge", ChangeType::Decr(50), &[], None),
    ]);
    assert_eq!(values_of(&tracker, 0), vec![(vec![], None, -8)]);
}

#[test]
fn tracker_multiple_definition_lists_and_replacement() {
    let mut tracker = StatsTracker::from_definitions(vec![
        vec![defn("test_counter", "Test counter", StatType::Counter, &[])],
        vec![defn("test_special_counter", "An extra-special Test counter", StatType::Counter, &[])],
    ]);
    assert_eq!(tracker.len(), 2);
    tracker.update_stats(&vec![trigger("test_counter", ChangeType::Incr(7), &[], None)]);
    // Adding a definition of the same name starts it again from zero.
    tracker.add_statistic(defn("test_counter", "Replaced", StatType::Gauge, &[]));
    assert_eq!(tracker.len(), 2);
    let stats = tracker.get_stats();
    assert_eq!(stats[0].definition.description(), "Replaced");
    assert_eq!(values_of(&tracker, 0), vec![(vec![], None, 0)]);
    assert_eq!(stats[1].definition.name(), "test_special_counter");
}

#[test]
fn validate_log_unknown_stat() {
    let tracker = StatsTracker::from_definitions(vec![vec![defn("test_counter", "Test counter", StatType::Counter, &[])]]);
    let log = vec![
        trigger("test_counter", ChangeType::Incr(1), &[], None),
        trigger("no_such_stat", ChangeType::Incr(1), &[], None),
    ];
    assert_eq!(tracker.validate_log(&log), Err(StatsError::UnknownStat("no_such_stat".to_string())));
}

#[test]
fn validate_log_missing_change() {
    let tracker = StatsTracker::from_definitions(vec![vec![defn("test_counter", "Test counter", StatType::Counter, &[])]]);
    let mut t = trigger("test_counter", ChangeType::Incr(1), &[], None);
    t.change = None;
    assert_eq!(tracker.validate_log(&vec![t]), Err(StatsError::MissingChange("test_counter".to_string())));
}

#[test]
fn validate_log_missing_bucket_value() {
    let tracker = StatsTracker::from_definitions(vec![vec![bucket_defn("b", &[], BucketMethod::Freq, vec![1.0])]]);
    let t = trigger("b", ChangeType::Incr(1), &[], None);
    assert_eq!(tracker.validate_log(&vec![t]), Err(StatsError::MissingBucketValue("b".to_string())));
}

#[test]
fn validate_log_ignores_triggers_whose_condition_fails() {
    let tracker = StatsTracker::from_definitions(vec![vec![defn("test_counter", "Test counter", StatType::Counter, &[])]]);
    let mut t = trigger("no_such_stat", ChangeType::Incr(1), &[], None);
    t.condition = false;
    assert_eq!(tracker.validate_log(&vec![t]), Ok(()));
}

#[test]
fn stat_name_vals_and_tags() {
    let mut stat = Stat::new(defn("test_double_grouped", "d", StatType::Counter, &["name", "error"]));
    stat.update(&trigger("test_double_grouped", ChangeType::Incr(1), &[("name", "foo"), ("error", "23")], None));
    stat.update(&trigger("test_double_grouped", ChangeType::Incr(1), &[("name", "bar"), ("error", "42")], None));
    assert_eq!(
        stat.get_bucket_group_name_vals(),
        vec![(Some("foo,23".to_string()), None, 1), (Some("bar,42".to_string()), None, 1)]
    );
    assert_eq!(
        stat.get_tags("bar,42"),
        vec![("name".to_string(), "bar".to_string()), ("error".to_string(), "42".to_string())]
    );
}

#[test]
fn stat_missing_tag_groups_under_empty_value() {
    let mut stat = Stat::new(defn("g", "d", StatType::Counter, &["name", "error"]));
    stat.update(&trigger("g", ChangeType::Incr(2), &[("name", "foo")], None));
    assert_eq!(stat.get_bucket_group_name_vals(), vec![(Some("foo,".to_string()), None, 2)]);
}

#[test]
fn tracker_only_named_stat_changes() {
    let mut tracker = StatsTracker::from_definitions(vec![vec![
        defn("test_counter", "Test counter", StatType::Counter, &[]),
        defn("test_gauge", "Test gauge", StatType::Gauge, &[]),
    ]]);
    tracker.update_stats(&vec![trigger("test_gauge", ChangeType::SetTo(9), &[], None)]);
    assert_eq!(values_of(&tracker, 0), vec![(vec![], None, 0)]);
    assert_eq!(values_of(&tracker, 1), vec![(vec![], None, 9)]);
    assert_eq!(tracker.get_stats()[0].definition.name(), "test_counter");
}

#[test]
fn tracker_two_logs_same_as_one_log_with_both_triggers() {
    let defs = || {
        vec![vec![
            defn("c", "d", StatType::Counter, &["name"]),
            bucket_defn("b", &[], BucketMethod::CumulFreq, vec![0.0, 10.0]),
        ]]
    };
    let t1 = trigger("c", ChangeType::Incr(2), &[("name", "x")], None);
    let t2 = trigger("b", ChangeType::Incr(1), &[], Some(5.0));
    let mut split = StatsTracker::from_definitions(defs());
    split.update_stats(&vec![t1.clone()]);
    split.update_stats(&vec![t2.clone()]);
    let mut joined = StatsTracker::from_definitions(defs());
    joined.update_stats(&vec![t1, t2]);
    assert_eq!(split.len(), 2);
    assert_eq!(joined.len(), 2);
    for i in 0..2 {
        assert_eq!(values_of(&split, i), values_of(&joined, i));
    }
}

#[test]
fn tracker_cumul_last_bucket_follows_total() {
    let mut tracker = StatsTracker::from_definitions(vec![vec![bucket_defn(
        "test_bucket_counter_cumul_freq",
        &[],
        BucketMethod::CumulFreq,
        vec![1.0, 2.0, 3.0, 4.0],
    )]]);
    tracker.update_stats(&vec![trigger("test_bucket_counter_cumul_freq", ChangeType::Incr(1), &[], Some(2.5))]);
    tracker.update_stats(&vec![trigger("test_bucket_counter_cumul_freq", ChangeType::Incr(1), &[], Some(10.0))]);
    assert_eq!(
        values_of(&tracker, 0),
        vec![
            (vec![], Some(0), 0),
            (vec![], Some(1), 0),
            (vec![], Some(2), 1),
            (vec![], Some(3), 1),
            (vec![], Some(4), 2)
        ]
    );
}

#[test]
fn tracker_freq_buckets_sum_to_total() {
    let mut tracker = StatsTracker::from_definitions(vec![vec![bucket_defn(
        "test_bucket_counter_freq",
        &[],
        BucketMethod::Freq,
        vec![1.0, 2.0, 3.0, 4.0],
    )]]);
    for (v, n) in [(2.5f64, 1usize), (10.0, 2), (-4.0, 3), (1.0, 4)] {
        tracker.update_stats(&vec![trigger("test_bucket_counter_freq", ChangeType::Incr(n), &[], Some(v))]);
    }
    let vals = values_of(&tracker, 0);
    assert_eq!(
        vals,
        vec![
            (vec![], Some(0), 7),
            (vec![], Some(1), 0),
            (vec![], Some(2), 1),
            (vec![], Some(3), 0),
            (vec![], Some(4), 2)
        ]
    );
    assert_eq!(vals.iter().map(|v| v.2).sum::<isize>(), 10);
}

#[test]
fn record_log_updates_or_changes_nothing() {
    let mut tracker = StatsTracker::from_definitions(vec![vec![defn("test_counter", "Test counter", StatType::Counter, &[])]]);
    let good = vec![trigger("test_counter", ChangeType::Incr(4), &[], None)];
    assert_eq!(tracker.record_log(&good), Ok(()));
    assert_eq!(values_of(&tracker, 0), vec![(vec![], None, 4)]);
    // The first trigger is fine but the second is not: nothing changes.
    let bad = vec![
        trigger("test_counter", ChangeType::Incr(4), &[], None),
        trigger("missing", ChangeType::Incr(1), &[], None),
    ];
    assert_eq!(tracker.record_log(&bad), Err(StatsError::UnknownStat("missing".to_string())));
    assert_eq!(values_of(&tracker, 0), vec![(vec![], None, 4)]);
}
