use slog_extlog::stats::buckets::{BucketLimit, BucketMethod};
use slog_extlog::stats::config::{
    DefaultStatisticsLogFormatter, StatsConfig, StatsConfigBuilder, DEFAULT_LOG_ID,
    DEFAULT_LOG_INTERVAL_SECS,
};
use slog_extlog::stats::defn::{StatDefinition, StatTrigger, StatType};
use slog_extlog::stats::groups::{join_tag_values, split_tag_values};

#[test]
fn join_and_split_tag_values() {
    let parts = vec!["value one".to_string(), "100".to_string()];
    let joined = join_tag_values(&parts);
    assert_eq!(joined, "value one,100");
    assert_eq!(split_tag_values(&joined), parts);
}

#[test]
fn split_keeps_empty_pieces() {
    assert_eq!(split_tag_values(""), vec!["".to_string()]);
    assert_eq!(split_tag_values("a,,b,"), vec!["a", "", "b", ""].iter().map(|s| s.to_string()).collect::<Vec<_>>());
    assert_eq!(join_tag_values(&vec![]), "");
}

#[test]
fn format_tags_default() {
    let tags = vec![("name".to_string(), "bar".to_string()), ("error".to_string(), "0".to_string())];
    assert_eq!(DefaultStatisticsLogFormatter::format_tags(&tags, None, ""), "name=bar,error=0");
    assert_eq!(DefaultStatisticsLogFormatter::format_tags(&vec![], None, ""), "");
}

#[test]
fn format_tags_ends_with_bucket() {
    let tags = vec![("name".to_string(), "first".to_string()), ("error".to_string(), "1".to_string())];
    let five = BucketLimit::Num((-5.0f64).to_bits());
    assert_eq!(
        DefaultStatisticsLogFormatter::format_tags(&tags, Some(five), "-5"),
        "name=first,error=1,bucket=-5"
    );
    assert_eq!(DefaultStatisticsLogFormatter::format_tags(&vec![], Some(BucketLimit::Num(1.0f64.to_bits())), "1"), "bucket=1");
    assert_eq!(
        DefaultStatisticsLogFormatter::format_tags(&vec![], Some(BucketLimit::Unbounded), "ignored"),
        "bucket=Unbounded"
    );
}

#[test]
fn metric_type_names() {
    assert_eq!(StatType::Counter.metric_type(), "counter");
    assert_eq!(StatType::Gauge.metric_type(), "gauge");
    assert_eq!(StatType::BucketCounter.metric_type(), "bucket counter");
}

#[test]
fn definition_buckets_only_for_bucket_counters() {
    let c = StatDefinition::new("c", "d", StatType::Counter, vec![], BucketMethod::Freq, vec![1.0f64.to_bits(), 2.0f64.to_bits()]);
    assert!(c.buckets().is_none());
    let b = StatDefinition::new("b", "d", StatType::BucketCounter, vec!["g".to_string()], BucketMethod::CumulFreq, vec![1.0f64.to_bits(), 2.0f64.to_bits()]);
    let buckets = b.buckets().as_ref().unwrap();
    assert_eq!(buckets.len(), 3);
    assert_eq!(buckets.method(), BucketMethod::CumulFreq);
    assert_eq!(b.group_by(), &vec!["g".to_string()]);
}

#[test]
fn trigger_tag_value_lookup() {
    let t = StatTrigger {
        stat_name: "s".to_string(),
        condition: true,
        change: None,
        tags: vec![("a".to_string(), "1".to_string()), ("a".to_string(), "2".to_string())],
        bucket_value: None,
    };
    assert_eq!(t.tag_value("a"), "1");
    assert_eq!(t.tag_value("b"), "");
}

#[test]
fn config_defaults() {
    let cfg: StatsConfig<DefaultStatisticsLogFormatter> = StatsConfig::default();
    assert_eq!(cfg.interval_secs, Some(DEFAULT_LOG_INTERVAL_SECS));
    assert_eq!(cfg.stats.len(), 1);
    assert!(cfg.stats[0].is_empty());
    assert!(cfg.handle.is_none());
    assert_eq!(DEFAULT_LOG_ID, "STATS-1");
}

#[test]
fn config_builder_sets_fields() {
    let defns = vec![vec![StatDefinition::new("c", "d", StatType::Counter, vec![], BucketMethod::Freq, vec![])]];
    let cfg: StatsConfig<DefaultStatisticsLogFormatter> = StatsConfigBuilder::new()
        .with_stats(defns)
        .with_log_interval(30)
        .fuse();
    assert_eq!(cfg.interval_secs, Some(30));
    assert_eq!(cfg.stats.len(), 1);
    assert_eq!(cfg.stats[0][0].name(), "c");
}
