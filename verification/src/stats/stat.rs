//! The tracked state of a single statistic and how a trigger changes it.

use vstd::prelude::*;

use crate::stats::buckets::{
    bucket_hit, is_cumul_buckets, is_freq_bucket, limits_wf, BucketMethod, BucketsView,
};
use crate::stats::change::{apply_change, count_of, update_bucket_values, ChangeType, StatValue};
use crate::stats::defn::{defn_wf, string_views, tag_lookup, StatDefinition, StatDefinitionView, StatTrigger};
use crate::stats::groups::{join_tag_values, join_tags, split_commas, split_tag_values};
use crate::stats::report::{
    pair_views, StatLogData, StatLogDataView, StatSnapshot, StatSnapshotValue,
    StatSnapshotValueView,
};

verus! {

/// The abstract state of a tracked statistic.
pub struct StatView {
    /// The definition of the statistic.
    pub defn: StatDefinitionView,
    /// The value; for a grouped statistic, the total across all groups.
    pub value: isize,
    /// The value of each group seen so far, keyed by its comma-joined tag
    /// values, in the order the groups were first seen.
    pub group_values: Seq<(Seq<char>, isize)>,
    /// The value of each bucket (empty if the statistic is not bucketed).
    pub bucket_values: Seq<isize>,
    /// The bucket values of each group seen so far (only for statistics that
    /// are both grouped and bucketed).
    pub bucket_group_values: Seq<(Seq<char>, Seq<isize>)>,
}

/// The number of buckets of a statistic (0 if it is not bucketed).
pub open spec fn num_buckets(d: StatDefinitionView) -> nat {
    match d.buckets {
        Some(b) => b.limits.len(),
        None => 0,
    }
}

/// Whether the keys of `entries` are pairwise distinct.
pub open spec fn distinct_keys<V>(entries: Seq<(Seq<char>, V)>) -> bool {
    forall|i: int, j: int|
        0 <= i < entries.len() && 0 <= j < entries.len() && i != j ==> #[trigger] entries[i].0
            != #[trigger] entries[j].0
}

/// Whether `entries` holds the key `key`.
pub open spec fn has_key<V>(entries: Seq<(Seq<char>, V)>, key: Seq<char>) -> bool {
    exists|i: int| 0 <= i < entries.len() && #[trigger] entries[i].0 == key
}

/// The invariant of a tracked statistic.
pub open spec fn stat_wf(s: StatView) -> bool {
    &&& defn_wf(s.defn)
    &&& s.bucket_values.len() == num_buckets(s.defn)
    &&& distinct_keys(s.group_values)
    &&& distinct_keys(s.bucket_group_values)
    &&& forall|i: int|
        0 <= i < s.bucket_group_values.len() ==> (#[trigger] s.bucket_group_values[i]).1.len()
            == num_buckets(s.defn)
    &&& s.defn.group_by.len() == 0 ==> s.group_values.len() == 0
    &&& (s.defn.group_by.len() == 0 || s.defn.buckets is None) ==> s.bucket_group_values.len() == 0
}

/// The state of a statistic that has just been added: everything zero, no
/// group seen.
pub open spec fn fresh_stat(d: StatDefinitionView) -> StatView {
    StatView {
        defn: d,
        value: 0,
        group_values: Seq::empty(),
        bucket_values: Seq::new(num_buckets(d), |i: int| 0isize),
        bucket_group_values: Seq::empty(),
    }
}

/// The key under which the trigger `t` changes the grouped values of `s`:
/// the trigger's values of the statistic's tags, joined with commas.
pub open spec fn group_key(s: StatView, t: StatTrigger) -> Seq<char> {
    join_tags(s.defn.group_by.map_values(|n: Seq<char>| tag_lookup(t.tags@, n)))
}

/// The bucket values `vals` after `change` is recorded for `value`.
pub open spec fn bump_buckets(vals: Seq<isize>, b: BucketsView, value: u64, change: ChangeType) -> Seq<isize> {
    Seq::new(
        vals.len(),
        |i: int|
            if bucket_hit(b.method, b.limits, value, i) {
                apply_change(vals[i], change)
            } else {
                vals[i]
            },
    )
}

/// The value of the group `key` (zero if it has not been seen).
pub open spec fn group_value(entries: Seq<(Seq<char>, isize)>, key: Seq<char>) -> isize {
    if has_key(entries, key) {
        entries[choose|i: int| 0 <= i < entries.len() && #[trigger] entries[i].0 == key].1
    } else {
        0
    }
}

/// The grouped values after `change` is applied to the group `key`, which is
/// added (from zero) if it was not seen before.
pub open spec fn upsert_group(entries: Seq<(Seq<char>, isize)>, key: Seq<char>, change: ChangeType) -> Seq<(Seq<char>, isize)> {
    if has_key(entries, key) {
        entries.map_values(
            |e: (Seq<char>, isize)|
                if e.0 == key {
                    (e.0, apply_change(e.1, change))
                } else {
                    e
                },
        )
    } else {
        entries.push((key, apply_change(0, change)))
    }
}

/// The grouped bucket values after `change` is recorded for `value` in the
/// group `key`, which is added (with zero buckets) if it was not seen before.
pub open spec fn upsert_bucket_group(
    entries: Seq<(Seq<char>, Seq<isize>)>,
    key: Seq<char>,
    b: BucketsView,
    value: u64,
    change: ChangeType,
) -> Seq<(Seq<char>, Seq<isize>)> {
    if has_key(entries, key) {
        entries.map_values(
            |e: (Seq<char>, Seq<isize>)|
                if e.0 == key {
                    (e.0, bump_buckets(e.1, b, value, change))
                } else {
                    e
                },
        )
    } else {
        entries.push((key, bump_buckets(Seq::new(b.limits.len(), |i: int| 0isize), b, value, change)))
    }
}

/// The statistic `s` after the trigger `t` (whose condition holds) changes it.
pub open spec fn stat_updated(s: StatView, t: StatTrigger) -> StatView {
    let change = t.change->0;
    let key = group_key(s, t);
    let grouped = s.defn.group_by.len() > 0;
    StatView {
        defn: s.defn,
        value: apply_change(s.value, change),
        group_values: if grouped {
            upsert_group(s.group_values, key, change)
        } else {
            s.group_values
        },
        bucket_values: match s.defn.buckets {
            Some(b) => bump_buckets(s.bucket_values, b, t.bucket_value->0, change),
            None => s.bucket_values,
        },
        bucket_group_values: match s.defn.buckets {
            Some(b) => if grouped {
                upsert_bucket_group(s.bucket_group_values, key, b, t.bucket_value->0, change)
            } else {
                s.bucket_group_values
            },
            None => s.bucket_group_values,
        },
    }
}

/// Whether the trigger `t` can change the statistic `s` (otherwise the
/// update has no change to make, or no value to bucket by).
pub open spec fn trigger_fits(s: StatView, t: StatTrigger) -> bool {
    &&& t.change is Some
    &&& s.defn.buckets is Some ==> t.bucket_value is Some
}

/// A value of a statistic as reported: the group key (if grouped), the
/// bucket index (if bucketed) and the value.
pub open spec fn bucket_entries(name: Option<Seq<char>>, vals: Seq<isize>) -> Seq<(Option<Seq<char>>, Option<usize>, isize)> {
    Seq::new(vals.len(), |i: int| (name, Some(i as usize), vals[i]))
}

/// The reported values of the buckets of each group of a grouped and
/// bucketed statistic.
pub open spec fn bucket_group_entries(entries: Seq<(Seq<char>, Seq<isize>)>) -> Seq<Seq<(Option<Seq<char>>, Option<usize>, isize)>> {
    entries.map_values(|e: (Seq<char>, Seq<isize>)| bucket_entries(Some(e.0), e.1))
}

/// The reported values of the groups of a grouped statistic.
pub open spec fn group_entries(entries: Seq<(Seq<char>, isize)>) -> Seq<(Option<Seq<char>>, Option<usize>, isize)> {
    entries.map_values(|e: (Seq<char>, isize)| (Some(e.0), None, e.1))
}

/// All the values of a statistic as reported, in order: for a bucketed
/// statistic one per bucket (per group, if grouped); otherwise one per group
/// seen, or the single value of an ungrouped statistic.
pub open spec fn name_vals(s: StatView) -> Seq<(Option<Seq<char>>, Option<usize>, isize)> {
    if s.defn.buckets is Some {
        if s.defn.group_by.len() > 0 {
            bucket_group_entries(s.bucket_group_values).flatten()
        } else {
            bucket_entries(None, s.bucket_values)
        }
    } else if s.defn.group_by.len() > 0 {
        group_entries(s.group_values)
    } else {
        seq![(None, None, s.value)]
    }
}

/// The abstract content of a reported value.
pub open spec fn name_val_view(t: (Option<String>, Option<usize>, isize)) -> (Option<Seq<char>>, Option<usize>, isize) {
    (
        match t.0 {
            Some(n) => Some(n@),
            None => None,
        },
        t.1,
        t.2,
    )
}

/// The abstract content of a list of reported values.
pub open spec fn name_vals_view(v: Seq<(Option<String>, Option<usize>, isize)>) -> Seq<(Option<Seq<char>>, Option<usize>, isize)> {
    v.map_values(|t: (Option<String>, Option<usize>, isize)| name_val_view(t))
}

/// Append one reported value per bucket value in `vals`.
fn push_bucket_entries(
    out: &mut Vec<(Option<String>, Option<usize>, isize)>,
    name: &Option<String>,
    vals: &Vec<StatValue>,
)
    ensures
        name_vals_view(final(out)@) == name_vals_view(old(out)@) + bucket_entries(
            match *name {
                Some(n) => Some(n@),
                None => None,
            },
            nums(vals@),
        ),
{
    let ghost start = name_vals_view(out@);
    let ghost nv = match name {
        Some(n) => Some(n@),
        None => None::<Seq<char>>,
    };
    let mut i: usize = 0;
    while i < vals.len()
        invariant
            i <= vals@.len(),
            name_vals_view(out@) == start + bucket_entries(nv, nums(vals@).take(i as int)),
            nv == match name {
                Some(n) => Some(n@),
                None => None::<Seq<char>>,
            },
        decreases vals@.len() - i,
    {
        let n = match name {
            Some(n) => Some(n.clone()),
            None => None,
        };
        let ghost prev = out@;
        let t = (n, Some(i), vals[i].num);
        out.push(t);
        i = i + 1;
        proof {
            assert(name_vals_view(out@) =~= name_vals_view(prev).push(
                name_val_view((n, Some((i - 1) as usize), vals@[i - 1].num)),
            ));
            assert(bucket_entries(nv, nums(vals@).take(i as int)) =~= bucket_entries(
                nv,
                nums(vals@).take(i - 1),
            ).push((nv, Some((i - 1) as usize), nums(vals@)[i - 1])));
            assert(name_vals_view(out@) =~= start + bucket_entries(nv, nums(vals@).take(i as int)));
        }
    }
    proof {
        assert(nums(vals@).take(i as int) =~= nums(vals@));
    }
}

/// The (tag name, tag value) pairs of the group whose comma-joined tag values
/// are `key`: each tag the statistic is grouped by, paired in order with the
/// pieces of the key (as many pairs as there are of the fewer).
pub open spec fn tags_of(group_by: Seq<Seq<char>>, key: Seq<char>) -> Seq<(Seq<char>, Seq<char>)> {
    let pieces = split_commas(key);
    Seq::new(
        if group_by.len() <= pieces.len() {
            group_by.len()
        } else {
            pieces.len()
        },
        |i: int| (group_by[i], pieces[i]),
    )
}

/// A reported value as it appears in a snapshot: the group key is split
/// back into the tag values.
pub open spec fn snapshot_value(t: (Option<Seq<char>>, Option<usize>, isize)) -> StatSnapshotValueView {
    StatSnapshotValueView {
        group_values: match t.0 {
            Some(k) => split_commas(k),
            None => Seq::empty(),
        },
        bucket_index: t.1,
        value: t.2,
    }
}

/// The values in a snapshot of the statistic `s`.
pub open spec fn snapshot_values(s: StatView) -> Seq<StatSnapshotValueView> {
    name_vals(s).map_values(|t: (Option<Seq<char>>, Option<usize>, isize)| snapshot_value(t))
}

/// The upper limit of bucket `i` of the statistic, if there is one.
pub open spec fn bucket_limit_of(d: StatDefinitionView, i: Option<usize>) -> Option<crate::stats::buckets::BucketLimit> {
    match i {
        Some(i) => match d.buckets {
            Some(b) => if i < b.limits.len() {
                Some(b.limits[i as int])
            } else {
                None
            },
            None => None,
        },
        None => None,
    }
}

/// The data for logging the reported value `t` of the statistic `s`.
pub open spec fn log_data(s: StatView, t: (Option<Seq<char>>, Option<usize>, isize)) -> StatLogDataView {
    StatLogDataView {
        description: s.defn.description,
        stype: s.defn.stype,
        name: s.defn.name,
        value: t.2,
        tags: match t.0 {
            Some(k) => tags_of(s.defn.group_by, k),
            None => Seq::empty(),
        },
        bucket: bucket_limit_of(s.defn, t.1),
    }
}

/// The data for logging every value of the statistic `s`.
pub open spec fn log_datas(s: StatView) -> Seq<StatLogDataView> {
    name_vals(s).map_values(|t: (Option<Seq<char>>, Option<usize>, isize)| log_data(s, t))
}

/// The views of a list of log data.
pub open spec fn log_data_views<'a>(v: Seq<StatLogData<'a>>) -> Seq<StatLogDataView> {
    v.map_values(|d: StatLogData<'a>| d@)
}

/// The views of a list of snapshot values.
pub open spec fn snapshot_value_views(v: Seq<StatSnapshotValue>) -> Seq<StatSnapshotValueView> {
    v.map_values(|d: StatSnapshotValue| d@)
}

/// The internal representation of a tracked statistic.
#[derive(Debug)]
pub struct Stat {
    defn: StatDefinition,
    value: StatValue,
    is_grouped: bool,
    group_keys: Vec<String>,
    group_vals: Vec<StatValue>,
    bucket_values: Vec<StatValue>,
    bucket_group_keys: Vec<String>,
    bucket_group_vals: Vec<Vec<StatValue>>,
}

/// The numbers held by a list of values.
pub open spec fn nums(vals: Seq<StatValue>) -> Seq<isize> {
    vals.map_values(|v: StatValue| v.num)
}

/// Whether every value in `vals` has divisor 1.
pub open spec fn unit_divisors(vals: Seq<StatValue>) -> bool {
    forall|i: int| 0 <= i < vals.len() ==> (#[trigger] vals[i]).divisor == 1
}

impl View for Stat {
    type V = StatView;

    closed spec fn view(&self) -> StatView {
        StatView {
            defn: self.defn@,
            value: self.value.num,
            group_values: Seq::new(
                self.group_keys@.len(),
                |i: int| (self.group_keys@[i]@, self.group_vals@[i].num),
            ),
            bucket_values: nums(self.bucket_values@),
            bucket_group_values: Seq::new(
                self.bucket_group_keys@.len(),
                |i: int| (self.bucket_group_keys@[i]@, nums(self.bucket_group_vals@[i]@)),
            ),
        }
    }
}

/// Zeroed values, one per bucket.
fn zero_values(n: usize) -> (r: Vec<StatValue>)
    ensures
        nums(r@) == Seq::new(n as nat, |i: int| 0isize),
        unit_divisors(r@),
{
    let mut r: Vec<StatValue> = Vec::new();
    let mut i: usize = 0;
    while i < n
        invariant
            i <= n,
            r@.len() == i,
            forall|k: int| 0 <= k < i ==> (#[trigger] r@[k]).num == 0 && r@[k].divisor == 1,
        decreases n - i,
    {
        r.push(StatValue::new(0, 1));
        i = i + 1;
    }
    proof {
        assert(nums(r@) =~= Seq::new(n as nat, |i: int| 0isize));
    }
    r
}

/// The position of `key` among `keys`, if it is there.
fn find_key(keys: &Vec<String>, key: &String) -> (r: Option<usize>)
    ensures
        match r {
            Some(i) => i < keys@.len() && keys@[i as int]@ == key@,
            None => forall|i: int| 0 <= i < keys@.len() ==> (#[trigger] keys@[i])@ != key@,
        },
{
    let mut i: usize = 0;
    while i < keys.len()
        invariant
            i <= keys@.len(),
            forall|j: int| 0 <= j < i ==> (#[trigger] keys@[j])@ != key@,
        decreases keys@.len() - i,
    {
        if keys[i] == *key {
            return Some(i);
        }
        i = i + 1;
    }
    None
}

/// For the buckets that `assign_buckets` gives, each bucket is listed once
/// if it is hit and not at all otherwise.
proof fn lemma_assigned_counts(b: BucketsView, value: u64, r: Seq<usize>)
    requires
        limits_wf(b.limits),
        b.limits.len() <= usize::MAX,
        match b.method {
            BucketMethod::CumulFreq => is_cumul_buckets(b.limits, value, r),
            BucketMethod::Freq => r.len() == 1 && is_freq_bucket(b.limits, value, r[0] as int),
        },
    ensures
        forall|i: int|
            0 <= i < b.limits.len() ==> #[trigger] count_of(r, i) == if bucket_hit(
                b.method,
                b.limits,
                value,
                i,
            ) {
                1nat
            } else {
                0nat
            },
{
    assert forall|i: int| 0 <= i < b.limits.len() implies #[trigger] count_of(r, i) == if bucket_hit(
        b.method,
        b.limits,
        value,
        i,
    ) {
        1nat
    } else {
        0nat
    } by {
        match b.method {
            BucketMethod::Freq => {
                assert(r.drop_last() =~= Seq::<usize>::empty());
                assert(count_of(r.drop_last(), i) == 0);
                crate::stats::buckets::lemma_freq_bucket_unique(b.limits, value, r[0] as int, i);
            },
            BucketMethod::CumulFreq => {
                let iu = i as usize;
                assert(iu as int == i);
                lemma_count_increasing(r, iu);
                if crate::stats::buckets::within_limit(b.limits[i], value) {
                    assert(r.contains(iu));
                } else {
                    if r.contains(iu) {
                        let k = choose|k: int| 0 <= k < r.len() && r[k] == iu;
                        assert(crate::stats::buckets::within_limit(b.limits[r[k] as int], value));
                    }
                }
            },
        }
    }
}

/// In a strictly increasing sequence, each element occurs once.
proof fn lemma_count_increasing(r: Seq<usize>, x: usize)
    requires
        forall|k1: int, k2: int| 0 <= k1 < k2 < r.len() ==> r[k1] < r[k2],
    ensures
        count_of(r, x as int) == if r.contains(x) {
            1nat
        } else {
            0nat
        },
    decreases r.len(),
{
    if r.len() > 0 {
        let init = r.drop_last();
        assert forall|k1: int, k2: int| 0 <= k1 < k2 < init.len() implies init[k1] < init[k2] by {
            assert(init[k1] == r[k1] && init[k2] == r[k2]);
        }
        lemma_count_increasing(init, x);
        if r.last() == x {
            assert(r[r.len() - 1] == x);
            if init.contains(x) {
                let k = choose|k: int| 0 <= k < init.len() && init[k] == x;
                assert(r[k] < r[r.len() - 1]);
            }
        } else {
            if r.contains(x) {
                let k = choose|k: int| 0 <= k < r.len() && r[k] == x;
                if k == r.len() - 1 {
                    assert(r.last() == x);
                } else {
                    assert(init[k] == x);
                }
            }
            if init.contains(x) {
                let k = choose|k: int| 0 <= k < init.len() && init[k] == x;
                assert(r[k] == x);
            }
        }
    }
}

/// Recording a value with the buckets `assign_buckets` gives bumps exactly
/// the buckets that the value hits.
proof fn lemma_bumped(
    before: Seq<StatValue>,
    after: Seq<StatValue>,
    r: Seq<usize>,
    b: BucketsView,
    value: u64,
    change: ChangeType,
)
    requires
        limits_wf(b.limits),
        b.limits.len() <= usize::MAX,
        match b.method {
            BucketMethod::CumulFreq => is_cumul_buckets(b.limits, value, r),
            BucketMethod::Freq => r.len() == 1 && is_freq_bucket(b.limits, value, r[0] as int),
        },
        before.len() == b.limits.len(),
        after.len() == before.len(),
        forall|i: int|
            #![trigger after[i]]
            0 <= i < before.len() ==> {
                &&& after[i].num == crate::stats::change::apply_change_times(
                    before[i].num,
                    change,
                    count_of(r, i),
                )
                &&& after[i].divisor == before[i].divisor
            },
    ensures
        nums(after) == bump_buckets(nums(before), b, value, change),
        unit_divisors(before) ==> unit_divisors(after),
{
    lemma_assigned_counts(b, value, r);
    assert forall|i: int| 0 <= i < before.len() implies #[trigger] nums(after)[i] == bump_buckets(
        nums(before),
        b,
        value,
        change,
    )[i] by {
        assert(after[i].num == crate::stats::change::apply_change_times(
            before[i].num,
            change,
            count_of(r, i),
        ));
        reveal_with_fuel(crate::stats::change::apply_change_times, 2);
    }
    assert(nums(after) =~= bump_buckets(nums(before), b, value, change));
    if unit_divisors(before) {
        assert forall|i: int| 0 <= i < after.len() implies (#[trigger] after[i]).divisor == 1 by {
            assert(before[i].divisor == 1);
        }
    }
}

impl Stat {
    /// The internal invariant of a tracked statistic.
    pub closed spec fn inv(&self) -> bool {
        &&& self.defn.wf()
        &&& self.is_grouped == (self.defn@.group_by.len() > 0)
        &&& self.value.divisor == 1
        &&& self.group_keys@.len() == self.group_vals@.len()
        &&& unit_divisors(self.group_vals@)
        &&& unit_divisors(self.bucket_values@)
        &&& self.bucket_group_keys@.len() == self.bucket_group_vals@.len()
        &&& forall|i: int|
            0 <= i < self.bucket_group_vals@.len() ==> unit_divisors(
                #[trigger] self.bucket_group_vals@[i]@,
            )
        &&& self.bucket_values@.len() <= usize::MAX
        &&& stat_wf(self@)
    }

    /// A statistic that keeps its internal invariant is well formed.
    pub proof fn lemma_inv(&self)
        requires
            self.inv(),
        ensures
            stat_wf(self@),
    {
    }

    /// A new statistic with the given definition, all values zero.
    pub fn new(defn: StatDefinition) -> (r: Stat)
        requires
            defn.wf(),
        ensures
            r.inv(),
            r@ == fresh_stat(defn@),
    {
        let is_grouped = defn.group_by().len() > 0;
        let bucket_values = match defn.buckets() {
            Some(b) => zero_values(b.len()),
            None => Vec::new(),
        };
        let r = Stat {
            defn,
            value: StatValue::new(0, 1),
            is_grouped,
            group_keys: Vec::new(),
            group_vals: Vec::new(),
            bucket_values,
            bucket_group_keys: Vec::new(),
            bucket_group_vals: Vec::new(),
        };
        proof {
            assert(r@.group_values =~= Seq::<(Seq<char>, isize)>::empty());
            assert(r@.bucket_group_values =~= Seq::<(Seq<char>, Seq<isize>)>::empty());
            assert(r@.bucket_values =~= fresh_stat(r.defn@).bucket_values);
        }
        r
    }

    /// The comma-joined values that `trigger` gives for the tags this
    /// statistic is grouped by.
    fn tag_key(&self, trigger: &StatTrigger) -> (r: String)
        requires
            self.inv(),
        ensures
            r@ == group_key(self@, *trigger),
    {
        let group_by = self.defn.group_by();
        let mut values: Vec<String> = Vec::new();
        let mut i: usize = 0;
        while i < group_by.len()
            invariant
                i <= group_by@.len(),
                string_views(group_by@) == self.defn@.group_by,
                values@.len() == i,
                forall|k: int|
                    0 <= k < i ==> (#[trigger] values@[k])@ == tag_lookup(
                        trigger.tags@,
                        group_by@[k]@,
                    ),
            decreases group_by@.len() - i,
        {
            let v = trigger.tag_value(group_by[i].as_str());
            values.push(v);
            i = i + 1;
        }
        let r = join_tag_values(&values);
        proof {
            assert(string_views(values@) =~= self@.defn.group_by.map_values(
                |n: Seq<char>| tag_lookup(trigger.tags@, n),
            ));
        }
        r
    }

    /// Apply `change` to the grouped value under `key`, adding the group if
    /// it is new.
    fn update_group(&mut self, key: &String, change: &ChangeType)
        requires
            old(self).group_keys@.len() == old(self).group_vals@.len(),
            unit_divisors(old(self).group_vals@),
            distinct_keys(old(self)@.group_values),
        ensures
            final(self).group_keys@.len() == final(self).group_vals@.len(),
            unit_divisors(final(self).group_vals@),
            final(self)@.group_values == upsert_group(old(self)@.group_values, key@, *change),
            final(self).defn == old(self).defn,
            final(self).value == old(self).value,
            final(self).is_grouped == old(self).is_grouped,
            final(self).bucket_values == old(self).bucket_values,
            final(self).bucket_group_keys == old(self).bucket_group_keys,
            final(self).bucket_group_vals == old(self).bucket_group_vals,
    {
        let ghost old_gv = self@.group_values;
        match find_key(&self.group_keys, key) {
            Some(i) => {
                let mut v = self.group_vals[i];
                v.update(change);
                self.group_vals.set(i, v);
                proof {
                    assert(old_gv[i as int].0 == key@);
                    assert(has_key(old_gv, key@));
                    assert forall|k: int| 0 <= k < old_gv.len() && k != i implies old_gv[k].0
                        != key@ by {
                        assert(old_gv[k].0 != old_gv[i as int].0);
                    }
                    assert(self@.group_values =~= upsert_group(old_gv, key@, *change));
                }
            },
            None => {
                let mut v = StatValue::new(0, 1);
                v.update(change);
                self.group_keys.push(key.clone());
                self.group_vals.push(v);
                proof {
                    assert(!has_key(old_gv, key@));
                    assert(self@.group_values =~= upsert_group(old_gv, key@, *change));
                }
            },
        }
    }

    /// Record `value` with `change` in the bucket values of the group `key`,
    /// adding the group (with zero buckets) if it is new.
    fn update_bucket_group(&mut self, key: String, value: u64, change: &ChangeType)
        requires
            old(self).inv(),
            old(self).defn@.buckets is Some,
        ensures
            final(self).bucket_group_keys@.len() == final(self).bucket_group_vals@.len(),
            forall|i: int|
                0 <= i < final(self).bucket_group_vals@.len() ==> unit_divisors(
                    #[trigger] final(self).bucket_group_vals@[i]@,
                ),
            final(self)@.bucket_group_values == upsert_bucket_group(
                old(self)@.bucket_group_values,
                key@,
                old(self).defn@.buckets->0,
                value,
                *change,
            ),
            final(self).defn == old(self).defn,
            final(self).value == old(self).value,
            final(self).is_grouped == old(self).is_grouped,
            final(self).group_keys == old(self).group_keys,
            final(self).group_vals == old(self).group_vals,
            final(self).bucket_values == old(self).bucket_values,
    {
        let buckets = self.defn.buckets().as_ref().unwrap();
        let ghost b = buckets@;
        let ghost old_bg = self@.bucket_group_values;
        let ghost old_vals = self.bucket_group_vals@;
        assert(b.limits.len() <= usize::MAX) by {
            assert(b.limits.len() == self.bucket_values@.len());
        }
        let to_update = buckets.assign_buckets(value);
        match find_key(&self.bucket_group_keys, &key) {
            Some(i) => {
                let mut vals = self.bucket_group_vals.remove(i);
                let ghost before = vals@;
                assert(before.len() == b.limits.len()) by {
                    assert(nums(before) == old_bg[i as int].1);
                }
                update_bucket_values(&mut vals, &to_update, change);
                proof {
                    lemma_bumped(before, vals@, to_update@, b, value, *change);
                }
                self.bucket_group_vals.insert(i, vals);
                proof {
                    assert(self.bucket_group_vals@ =~= old_vals.update(i as int, vals));
                    assert(old_bg[i as int].0 == key@);
                    assert(has_key(old_bg, key@));
                    assert forall|k: int| 0 <= k < old_bg.len() && k != i implies old_bg[k].0
                        != key@ by {
                        assert(old_bg[k].0 != old_bg[i as int].0);
                    }
                    assert forall|k: int| 0 <= k < self.bucket_group_vals@.len() implies unit_divisors(
                        #[trigger] self.bucket_group_vals@[k]@) by {
                        if k != i {
                            assert(self.bucket_group_vals@[k] == old_vals[k]);
                        }
                    }
                    assert(self@.bucket_group_values =~= upsert_bucket_group(
                        old_bg, key@, b, value, *change));
                }
            },
            None => {
                let mut vals = zero_values(buckets.len());
                let ghost before = vals@;
                assert(before.len() == b.limits.len()) by {
                    assert(nums(before).len() == before.len());
                }
                update_bucket_values(&mut vals, &to_update, change);
                proof {
                    lemma_bumped(before, vals@, to_update@, b, value, *change);
                }
                self.bucket_group_keys.push(key);
                self.bucket_group_vals.push(vals);
                proof {
                    assert(!has_key(old_bg, key@));
                    assert forall|k: int| 0 <= k < self.bucket_group_vals@.len() implies unit_divisors(
                        #[trigger] self.bucket_group_vals@[k]@) by {
                        if k < old_vals.len() {
                            assert(self.bucket_group_vals@[k] == old_vals[k]);
                        }
                    }
                    assert(self@.bucket_group_values =~= upsert_bucket_group(
                        old_bg, key@, b, value, *change));
                }
            },
        }
    }

    /// Record `value` with `change` in the (ungrouped) bucket values.
    fn update_buckets(&mut self, value: u64, change: &ChangeType)
        requires
            old(self).inv(),
            old(self).defn@.buckets is Some,
        ensures
            unit_divisors(final(self).bucket_values@),
            final(self).bucket_values@.len() == old(self).bucket_values@.len(),
            final(self)@.bucket_values == bump_buckets(
                old(self)@.bucket_values,
                old(self).defn@.buckets->0,
                value,
                *change,
            ),
            final(self).defn == old(self).defn,
            final(self).value == old(self).value,
            final(self).is_grouped == old(self).is_grouped,
            final(self).group_keys == old(self).group_keys,
            final(self).group_vals == old(self).group_vals,
            final(self).bucket_group_keys == old(self).bucket_group_keys,
            final(self).bucket_group_vals == old(self).bucket_group_vals,
    {
        let buckets = self.defn.buckets().as_ref().unwrap();
        let ghost b = buckets@;
        let ghost before = self.bucket_values@;
        assert(before.len() == b.limits.len());
        let to_update = buckets.assign_buckets(value);
        update_bucket_values(&mut self.bucket_values, &to_update, change);
        proof {
            lemma_bumped(before, self.bucket_values@, to_update@, b, value, *change);
        }
    }

    /// Update the statistic's value(s) according to the given trigger.
    pub fn update(&mut self, trigger: &StatTrigger)
        requires
            old(self).inv(),
            trigger_fits(old(self)@, *trigger),
        ensures
            final(self).inv(),
            final(self)@ == stat_updated(old(self)@, *trigger),
    {
        let change = trigger.change.unwrap();
        self.value.update(&change);
        let bucketed = self.defn.buckets().is_some();
        if self.is_grouped {
            let key = self.tag_key(trigger);
            self.update_group(&key, &change);
            if bucketed {
                self.update_bucket_group(key, trigger.bucket_value.unwrap(), &change);
            }
        }
        if bucketed {
            self.update_buckets(trigger.bucket_value.unwrap(), &change);
        }
    }

    /// Get all the grouped/bucketed values currently tracked, as (group key,
    /// bucket index, value).
    pub fn get_bucket_group_name_vals(&self) -> (r: Vec<(Option<String>, Option<usize>, isize)>)
        requires
            self.inv(),
        ensures
            name_vals_view(r@) == name_vals(self@),
    {
        let mut out: Vec<(Option<String>, Option<usize>, isize)> = Vec::new();
        proof {
            assert(name_vals_view(out@) =~= Seq::<(Option<Seq<char>>, Option<usize>, isize)>::empty());
        }
        if self.defn.buckets().is_some() {
            if self.is_grouped {
                let ghost entries = self@.bucket_group_values;
                let mut j: usize = 0;
                while j < self.bucket_group_keys.len()
                    invariant
                        self.inv(),
                        entries == self@.bucket_group_values,
                        j <= entries.len(),
                        name_vals_view(out@) == bucket_group_entries(entries.take(j as int)).flatten(),
                    decreases entries.len() - j,
                {
                    let name = Some(self.bucket_group_keys[j].clone());
                    let ghost prev = name_vals_view(out@);
                    push_bucket_entries(&mut out, &name, &self.bucket_group_vals[j]);
                    proof {
                        assert(entries[j as int].0 == self.bucket_group_keys@[j as int]@);
                        assert(entries[j as int].1 == nums(self.bucket_group_vals@[j as int]@));
                        let e = bucket_entries(Some(entries[j as int].0), entries[j as int].1);
                        assert(name_vals_view(out@) == prev + e);
                        assert(bucket_group_entries(entries.take(j + 1)) =~= bucket_group_entries(
                            entries.take(j as int),
                        ).push(e));
                        bucket_group_entries(entries.take(j as int)).lemma_flatten_push(e);
                    }
                    j = j + 1;
                }
                proof {
                    assert(entries.take(j as int) =~= entries);
                }
            } else {
                push_bucket_entries(&mut out, &None, &self.bucket_values);
                proof {
                    assert(name_vals_view(out@) =~= name_vals(self@));
                }
            }
        } else if self.is_grouped {
            let ghost entries = self@.group_values;
            let mut j: usize = 0;
            while j < self.group_keys.len()
                invariant
                    self.inv(),
                    entries == self@.group_values,
                    j <= entries.len(),
                    name_vals_view(out@) == group_entries(entries.take(j as int)),
                decreases entries.len() - j,
            {
                let ghost prev = out@;
                let t = (Some(self.group_keys[j].clone()), None, self.group_vals[j].num);
                out.push(t);
                proof {
                    assert(name_vals_view(out@) =~= name_vals_view(prev).push(name_val_view(t)));
                    assert(name_vals_view(out@) =~= group_entries(entries.take(j + 1)));
                }
                j = j + 1;
            }
            proof {
                assert(entries.take(j as int) =~= entries);
            }
        } else {
            out.push((None, None, self.value.num));
            proof {
                assert(name_vals_view(out@) =~= name_vals(self@));
            }
        }
        out
    }

    /// The definition of this statistic.
    pub fn definition(&self) -> (r: &StatDefinition)
        ensures
            r@ == self@.defn,
    {
        &self.defn
    }

    /// Get all the tags for the group whose comma-joined tag values are
    /// `name`, as (tag name, tag value) pairs.
    pub fn get_tags(&self, name: &str) -> (r: Vec<(String, String)>)
        requires
            self.inv(),
        ensures
            pair_views(r@) == tags_of(self@.defn.group_by, name@),
    {
        let group_by = self.defn.group_by();
        let pieces = split_tag_values(name);
        let mut r: Vec<(String, String)> = Vec::new();
        let mut i: usize = 0;
        while i < group_by.len() && i < pieces.len()
            invariant
                string_views(group_by@) == self@.defn.group_by,
                string_views(pieces@) == split_commas(name@),
                i <= group_by@.len(),
                i <= pieces@.len(),
                r@.len() == i,
                forall|k: int|
                    0 <= k < i ==> (#[trigger] r@[k]).0@ == group_by@[k]@ && r@[k].1@
                        == pieces@[k]@,
            decreases group_by@.len() - i,
        {
            r.push((group_by[i].clone(), pieces[i].clone()));
            i = i + 1;
        }
        proof {
            assert(pair_views(r@) =~= tags_of(self@.defn.group_by, name@));
        }
        r
    }

    /// Get the current values of this stat as a snapshot.
    pub fn get_snapshot(&self) -> (r: StatSnapshot<'_>)
        requires
            self.inv(),
        ensures
            r.definition@ == self@.defn,
            snapshot_value_views(r.values@) == snapshot_values(self@),
    {
        let vals = self.get_bucket_group_name_vals();
        let mut values: Vec<StatSnapshotValue> = Vec::new();
        let mut i: usize = 0;
        while i < vals.len()
            invariant
                i <= vals@.len(),
                values@.len() == i,
                forall|k: int|
                    0 <= k < i ==> (#[trigger] values@[k])@ == snapshot_value(
                        name_val_view(vals@[k]),
                    ),
            decreases vals@.len() - i,
        {
            let group_values = match &vals[i].0 {
                Some(key) => split_tag_values(key.as_str()),
                None => Vec::new(),
            };
            proof {
                assert(string_views(group_values@) == snapshot_value(name_val_view(vals@[i as int])).group_values);
            }
            values.push(StatSnapshotValue::new(group_values, vals[i].1, vals[i].2));
            i = i + 1;
        }
        proof {
            assert(snapshot_value_views(values@) =~= snapshot_values(self@));
        }
        StatSnapshot::new(&self.defn, values)
    }

    /// The data for logging each value of this stat.
    pub fn get_log_data(&self) -> (r: Vec<StatLogData<'_>>)
        requires
            self.inv(),
        ensures
            log_data_views(r@) == log_datas(self@),
    {
        let vals = self.get_bucket_group_name_vals();
        let mut out: Vec<StatLogData<'_>> = Vec::new();
        let mut i: usize = 0;
        while i < vals.len()
            invariant
                self.inv(),
                i <= vals@.len(),
                out@.len() == i,
                forall|k: int|
                    0 <= k < i ==> (#[trigger] out@[k])@ == log_data(self@, name_val_view(vals@[k])),
            decreases vals@.len() - i,
        {
            let tags = match &vals[i].0 {
                Some(key) => self.get_tags(key.as_str()),
                None => Vec::new(),
            };
            let bucket = match vals[i].1 {
                Some(index) => match self.defn.buckets() {
                    Some(b) => b.get(index),
                    None => None,
                },
                None => None,
            };
            proof {
                assert(pair_views(tags@) == log_data(self@, name_val_view(vals@[i as int])).tags);
            }
            out.push(
                StatLogData {
                    description: self.defn.description(),
                    stype: self.defn.stype(),
                    name: self.defn.name(),
                    value: vals[i].2,
                    tags,
                    bucket,
                },
            );
            i = i + 1;
        }
        proof {
            assert(log_data_views(out@) =~= log_datas(self@));
        }
        out
    }
}

} // verus!