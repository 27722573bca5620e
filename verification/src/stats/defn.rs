use vstd::prelude::*;

use crate::stats::buckets::{BucketMethod, Buckets, BucketsView, limits_from};
use crate::stats::change::ChangeType;

verus! {

/// Types of statistics.
#[derive(Debug, Clone, Copy, PartialEq, Eq, Structural)]
pub enum StatType {
    /// A counter - a value that only increments.
    Counter,
    /// A gauge - a value that represents a current value and can go up or down.
    Gauge,
    /// A counter that is additionally grouped into numerical buckets.
    BucketCounter,
}

impl StatType {
    /// The name under which this type of statistic is reported in logs.
    pub fn metric_type(&self) -> (r: &'static str)
        ensures
            r@ == match *self {
                StatType::Counter => "counter"@,
                StatType::Gauge => "gauge"@,
                StatType::BucketCounter => "bucket counter"@,
            },
    {
        match self {
            StatType::Counter => "counter",
            StatType::Gauge => "gauge",
            StatType::BucketCounter => "bucket counter",
        }
    }
}

/// The abstract content of a statistic definition.
pub struct StatDefinitionView {
    pub name: Seq<char>,
    pub description: Seq<char>,
    pub stype: StatType,
    pub group_by: Seq<Seq<char>>,
    pub buckets: Option<BucketsView>,
}

/// The views of a list of strings.
pub open spec fn string_views(v: Seq<String>) -> Seq<Seq<char>> {
    v.map_values(|s: String| s@)
}

/// A configured statistic, defined in terms of the logs that trigger it to
/// change.
#[derive(Debug, Clone)]
pub struct StatDefinition {
    name: String,
    description: String,
    stype: StatType,
    group_by: Vec<String>,
    buckets: Option<Buckets>,
}

impl View for StatDefinition {
    type V = StatDefinitionView;

    closed spec fn view(&self) -> StatDefinitionView {
        StatDefinitionView {
            name: self.name@,
            description: self.description@,
            stype: self.stype,
            group_by: string_views(self.group_by@),
            buckets: match self.buckets {
                Some(b) => Some(b@),
                None => None,
            },
        }
    }
}

/// Whether a definition is as `StatDefinition::new` makes them: bucketed
/// exactly when it is a bucket counter, with well-formed buckets.
pub open spec fn defn_wf(d: StatDefinitionView) -> bool {
    match d.buckets {
        Some(b) => d.stype == StatType::BucketCounter && crate::stats::buckets::limits_wf(b.limits),
        None => d.stype != StatType::BucketCounter,
    }
}

impl StatDefinition {
    /// Whether this definition is well formed.
    pub open spec fn wf(&self) -> bool {
        defn_wf(self@)
    }

    /// Define a statistic.
    ///
    /// `bucket_method` and `bucket_limits` (the bits of `f64` limits) are
    /// used only for bucket counters, which get one bucket per limit plus an
    /// unbounded bucket.
    pub fn new(
        name: &str,
        description: &str,
        stype: StatType,
        group_by: Vec<String>,
        bucket_method: BucketMethod,
        bucket_limits: Vec<u64>,
    ) -> (r: StatDefinition)
        requires
            bucket_limits@.len() < usize::MAX,
        ensures
            r@.name == name@,
            r@.description == description@,
            r@.stype == stype,
            r@.group_by == string_views(group_by@),
            r@.buckets == if stype == StatType::BucketCounter {
                Some(BucketsView { method: bucket_method, limits: limits_from(bucket_limits@) })
            } else {
                None::<BucketsView>
            },
            r.wf(),
    {
        let buckets = match stype {
            StatType::BucketCounter => Some(Buckets::new(bucket_method, bucket_limits)),
            _ => None,
        };
        StatDefinition {
            name: String::from_str(name),
            description: String::from_str(description),
            stype,
            group_by,
            buckets,
        }
    }

    /// The name of this metric.
    pub fn name(&self) -> (r: &str)
        ensures
            r@ == self@.name,
    {
        self.name.as_str()
    }

    /// A human readable description of the statistic.
    pub fn description(&self) -> (r: &str)
        ensures
            r@ == self@.description,
    {
        self.description.as_str()
    }

    /// The type of statistic.
    pub fn stype(&self) -> (r: StatType)
        ensures
            r == self@.stype,
    {
        self.stype
    }

    /// The field names that the statistic is grouped by.
    pub fn group_by(&self) -> (r: &Vec<String>)
        ensures
            string_views(r@) == self@.group_by,
    {
        &self.group_by
    }

    /// The numerical buckets that the statistic is grouped by, if any.
    pub fn buckets(&self) -> (r: &Option<Buckets>)
        ensures
            match *r {
                Some(b) => self@.buckets == Some(b@),
                None => self@.buckets is None,
            },
    {
        &self.buckets
    }
}

/// The value of the tag named `name` among `tags`: the value of the first
/// pair with that name, or the empty string if there is none.
pub open spec fn tag_lookup(tags: Seq<(String, String)>, name: Seq<char>) -> Seq<char>
    decreases tags.len(),
{
    if tags.len() == 0 {
        Seq::empty()
    } else if tags[0].0@ == name {
        tags[0].1@
    } else {
        tag_lookup(tags.drop_first(), name)
    }
}

/// What a log gives for one statistic that it triggers: whether the statistic
/// changes, how, with which tag values and by which value it is bucketed.
///
/// A log triggers a list of these, one per statistic it names, in order.
#[derive(Debug, Clone)]
pub struct StatTrigger {
    /// The name of the statistic to change.
    pub stat_name: String,
    /// Whether the condition for this statistic to change holds.
    pub condition: bool,
    /// The change to make, if the condition holds.
    pub change: Option<ChangeType>,
    /// The values of the log's fields that group the statistic, by field name.
    pub tags: Vec<(String, String)>,
    /// The value by which the statistic is sorted into buckets: the bits of
    /// an `f64` (`f64::to_bits`).
    pub bucket_value: Option<u64>,
}

impl StatTrigger {
    /// The value of the tag `tag_name` for this trigger, or the empty string
    /// if the trigger gives none.
    pub fn tag_value(&self, tag_name: &str) -> (r: String)
        ensures
            r@ == tag_lookup(self.tags@, tag_name@),
    {
        let name = String::from_str(tag_name);
        let mut i: usize = 0;
        proof {
            assert(self.tags@.skip(0) =~= self.tags@);
        }
        while i < self.tags.len()
            invariant
                i <= self.tags@.len(),
                name@ == tag_name@,
                tag_lookup(self.tags@, tag_name@) == tag_lookup(self.tags@.skip(i as int), tag_name@),
            decreases self.tags@.len() - i,
        {
            proof {
                assert(self.tags@.skip(i as int).drop_first() =~= self.tags@.skip(i + 1));
            }
            if self.tags[i].0 == name {
                return self.tags[i].1.clone();
            }
            i = i + 1;
        }
        String::new()
    }
}

} // verus!
