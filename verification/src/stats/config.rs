//! Configuration of the statistics to track and how often to log them.

use std::marker::PhantomData;
use vstd::prelude::*;

use crate::stats::buckets::BucketLimit;
use crate::stats::defn::StatDefinition;
use crate::stats::groups::join_tags;
use crate::stats::report::pair_views;

verus! {

/// The tokio reactor handle on which statistics may be logged.
#[verifier::external_type_specification]
#[verifier::external_body]
pub struct ExHandle(tokio_core::reactor::Handle);

/// The default period between logging all statistics.
pub const DEFAULT_LOG_INTERVAL_SECS: u64 = 300;

/// The log identifier for the default formatter.
pub const DEFAULT_LOG_ID: &'static str = "STATS-1";

/// Configuration required for tracking statistics.
///
/// Construct either with `Default::default()` for the default logging
/// interval and no stats at all, or else use a `StatsConfigBuilder`.
pub struct StatsConfig<T> {
    /// The period, in seconds, to log the generated metrics into the log
    /// stream.  `None` indicates stats should never be logged.
    pub interval_secs: Option<u64>,
    /// The lists of statistics to track.
    pub stats: Vec<Vec<StatDefinition>>,
    /// The tokio reactor core to run the stats logging on, if the user is
    /// using tokio already.  If this is `None`, a new core is created for
    /// logging stats.
    pub handle: Option<tokio_core::reactor::Handle>,
    /// The formatter of the individual statistic values into logs.
    pub stat_formatter: PhantomData<T>,
}

impl<F> Default for StatsConfig<F> {
    fn default() -> (r: Self)
        ensures
            r.interval_secs == Some(DEFAULT_LOG_INTERVAL_SECS),
            r.stats@.len() == 1,
            r.stats@[0]@.len() == 0,
            r.handle is None,
    {
        let mut stats: Vec<Vec<StatDefinition>> = Vec::new();
        stats.push(Vec::new());
        StatsConfig {
            interval_secs: Some(DEFAULT_LOG_INTERVAL_SECS),
            stats,
            handle: None,
            stat_formatter: PhantomData,
        }
    }
}

/// A builder to allow customization of stats config.
///
/// Create the builder using `new()` and chain other methods as required,
/// ending with `fuse()` to return the `StatsConfig`.
pub struct StatsConfigBuilder<T> {
    cfg: StatsConfig<T>,
}

impl<T> StatsConfigBuilder<T> {
    /// The configuration built so far.
    pub closed spec fn config(&self) -> StatsConfig<T> {
        self.cfg
    }

    /// Create a new config builder: no statistics, no logging interval and no
    /// reactor handle.
    pub fn new() -> (r: Self)
        ensures
            r.config().interval_secs is None,
            r.config().stats@.len() == 0,
            r.config().handle is None,
    {
        StatsConfigBuilder {
            cfg: StatsConfig {
                stats: Vec::new(),
                stat_formatter: PhantomData,
                handle: None,
                interval_secs: None,
            },
        }
    }

    /// Set the list of statistics to track.
    pub fn with_stats(self, defns: Vec<Vec<StatDefinition>>) -> (r: Self)
        ensures
            r.config().stats == defns,
            r.config().interval_secs == self.config().interval_secs,
            r.config().handle == self.config().handle,
    {
        let mut s = self;
        s.cfg.stats = defns;
        s
    }

    /// Set the logging interval.
    pub fn with_log_interval(self, interval: u64) -> (r: Self)
        ensures
            r.config().interval_secs == Some(interval),
            r.config().stats == self.config().stats,
            r.config().handle == self.config().handle,
    {
        let mut s = self;
        s.cfg.interval_secs = Some(interval);
        s
    }

    /// Set the tokio reactor core to use for the logging of the statistics.
    pub fn with_core(self, handle: tokio_core::reactor::Handle) -> (r: Self)
        ensures
            r.config().handle == Some(handle),
            r.config().stats == self.config().stats,
            r.config().interval_secs == self.config().interval_secs,
    {
        let mut s = self;
        s.cfg.handle = Some(handle);
        s
    }

    /// Return the built configuration.
    pub fn fuse(self) -> (r: StatsConfig<T>)
        ensures
            r == self.config(),
    {
        self.cfg
    }
}

/// The tag pairs of a statistic value as the default formatter logs them:
/// `name=value` for each pair, joined with commas.
pub open spec fn formatted_tags(tags: Seq<(Seq<char>, Seq<char>)>) -> Seq<char> {
    join_tags(tags.map_values(|p: (Seq<char>, Seq<char>)| p.0 + seq!['='] + p.1))
}

/// Structure to use for the default format of logged statistics.
#[derive(Debug, Clone, Copy)]
pub struct DefaultStatisticsLogFormatter;

/// The tag pairs a statistic value is logged with: its group tags, then, for
/// a bucketed value, the tag `bucket` with the text of the bucket's limit
/// (`limit_text` for a numerical limit, `Unbounded` otherwise).
pub open spec fn logged_tags(
    tags: Seq<(Seq<char>, Seq<char>)>,
    bucket: Option<BucketLimit>,
    limit_text: Seq<char>,
) -> Seq<(Seq<char>, Seq<char>)> {
    match bucket {
        Some(BucketLimit::Num(_)) => tags.push(("bucket"@, limit_text)),
        Some(BucketLimit::Unbounded) => tags.push(("bucket"@, "Unbounded"@)),
        None => tags,
    }
}

impl DefaultStatisticsLogFormatter {
    /// Format the tags of a statistic value as the default formatter logs
    /// them: the group tags `tags`, then for a bucketed value the tag
    /// `bucket`, whose value is `limit_text` (the text of the numerical
    /// limit) or `Unbounded`.
    pub fn format_tags(tags: &Vec<(String, String)>, bucket: Option<BucketLimit>, limit_text: &str) -> (r: String)
        ensures
            r@ == formatted_tags(logged_tags(pair_views(tags@), bucket, limit_text@)),
    {
        let ghost parts = pair_views(tags@).map_values(
            |p: (Seq<char>, Seq<char>)| p.0 + seq!['='] + p.1,
        );
        let mut r = String::new();
        let mut i: usize = 0;
        while i < tags.len()
            invariant
                i <= tags@.len(),
                parts == pair_views(tags@).map_values(
                    |p: (Seq<char>, Seq<char>)| p.0 + seq!['='] + p.1,
                ),
                r@ == join_tags(parts.take(i as int)),
            decreases tags@.len() - i,
        {
            proof {
                reveal_strlit(",");
                reveal_strlit("=");
                assert(parts.take(i + 1).drop_last() =~= parts.take(i as int));
            }
            let ghost before = r@;
            if i > 0 {
                r.append(",");
            }
            r.append(tags[i].0.as_str());
            r.append("=");
            r.append(tags[i].1.as_str());
            proof {
                let piece = tags@[i as int].0@ + seq!['='] + tags@[i as int].1@;
                assert(parts[i as int] == piece);
                if i == 0 {
                    assert(r@ =~= piece);
                    assert(r@ =~= parts.take(1)[0]);
                } else {
                    assert(r@ =~= before + seq![','] + piece);
                }
            }
            i = i + 1;
        }
        proof {
            assert(parts.take(i as int) =~= parts);
        }
        let value: Option<&str> = match bucket {
            Some(BucketLimit::Num(_)) => Some(limit_text),
            Some(BucketLimit::Unbounded) => Some("Unbounded"),
            None => None,
        };
        if let Some(v) = value {
            let ghost before = r@;
            if tags.len() > 0 {
                r.append(",");
            }
            r.append("bucket=");
            r.append(v);
            proof {
                reveal_strlit(",");
                reveal_strlit("=");
                reveal_strlit("bucket");
                reveal_strlit("bucket=");
                let all = logged_tags(pair_views(tags@), bucket, limit_text@);
                let f = |p: (Seq<char>, Seq<char>)| p.0 + seq!['='] + p.1;
                let piece = "bucket"@ + seq!['='] + v@;
                assert(all == pair_views(tags@).push(("bucket"@, v@)));
                assert(all.map_values(f) =~= parts.push(piece));
                assert(parts.push(piece).drop_last() =~= parts);
                assert("bucket="@ =~= "bucket"@ + seq!['=']);
                if tags.len() > 0 {
                    assert(r@ =~= before + seq![','] + piece);
                } else {
                    assert(parts.len() == 0);
                    assert(r@ =~= piece);
                }
            }
        }
        r
    }
}

} // verus!
