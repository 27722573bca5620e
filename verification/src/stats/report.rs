//! What the tracker reports of its statistics: snapshots of their current
//! values, and the data for logging each value.

use vstd::prelude::*;

use crate::stats::buckets::BucketLimit;
use crate::stats::defn::{string_views, StatDefinition, StatType};

verus! {

/// A snapshot of a current (possibly grouped and/or bucketed) value of a stat.
#[derive(Debug, Clone)]
pub struct StatSnapshotValue {
    /// The values of the tags of the group (empty for an ungrouped value).
    pub group_values: Vec<String>,
    /// The index of the bucket (for a bucketed value).
    pub bucket_index: Option<usize>,
    /// The value.
    pub value: isize,
}

/// The abstract content of a snapshot value.
pub struct StatSnapshotValueView {
    pub group_values: Seq<Seq<char>>,
    pub bucket_index: Option<usize>,
    pub value: isize,
}

impl View for StatSnapshotValue {
    type V = StatSnapshotValueView;

    open spec fn view(&self) -> StatSnapshotValueView {
        StatSnapshotValueView {
            group_values: string_views(self.group_values@),
            bucket_index: self.bucket_index,
            value: self.value,
        }
    }
}

impl StatSnapshotValue {
    /// Create a new snapshot value.
    pub fn new(group_values: Vec<String>, bucket_index: Option<usize>, value: isize) -> (r: Self)
        ensures
            r.group_values == group_values,
            r.bucket_index == bucket_index,
            r.value == value,
    {
        StatSnapshotValue { group_values, bucket_index, value }
    }
}

/// A snapshot of the current values of a particular stat.
#[derive(Debug)]
pub struct StatSnapshot<'a> {
    /// The definition of the stat.
    pub definition: &'a StatDefinition,
    /// Its current values.
    pub values: Vec<StatSnapshotValue>,
}

impl<'a> StatSnapshot<'a> {
    /// Create a new snapshot of a stat.
    pub fn new(definition: &'a StatDefinition, values: Vec<StatSnapshotValue>) -> (r: Self)
        ensures
            r.definition == definition,
            r.values == values,
    {
        StatSnapshot { definition, values }
    }
}

/// The data for logging one (possibly grouped and/or bucketed) value of a stat.
#[derive(Debug)]
pub struct StatLogData<'a> {
    /// The description, as provided on the definition.
    pub description: &'a str,
    /// The statistic type, as provided on the definition.
    pub stype: StatType,
    /// The statistic name, as provided on the definition.
    pub name: &'a str,
    /// The current value.
    pub value: isize,
    /// The (tag name, tag value) pairs of the group.
    pub tags: Vec<(String, String)>,
    /// The upper bound of the bucket the value is in.
    pub bucket: Option<BucketLimit>,
}

/// The views of a list of string pairs.
pub open spec fn pair_views(v: Seq<(String, String)>) -> Seq<(Seq<char>, Seq<char>)> {
    v.map_values(|p: (String, String)| (p.0@, p.1@))
}

/// The abstract content of the data for logging a value.
pub struct StatLogDataView {
    pub description: Seq<char>,
    pub stype: StatType,
    pub name: Seq<char>,
    pub value: isize,
    pub tags: Seq<(Seq<char>, Seq<char>)>,
    pub bucket: Option<BucketLimit>,
}

impl<'a> View for StatLogData<'a> {
    type V = StatLogDataView;

    open spec fn view(&self) -> StatLogDataView {
        StatLogDataView {
            description: self.description@,
            stype: self.stype,
            name: self.name@,
            value: self.value,
            tags: pair_views(self.tags@),
            bucket: self.bucket,
        }
    }
}

} // verus!
