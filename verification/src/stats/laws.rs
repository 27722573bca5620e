//! Properties of the statistics tracker that span its operations.

use vstd::prelude::*;

use crate::stats::buckets::{bucket_hit, lemma_cumul_includes_unbounded, BucketMethod};
use crate::stats::change::{apply_change, ChangeType};
use crate::stats::defn::{defn_wf, tag_lookup, StatDefinitionView, StatTrigger};
use crate::stats::groups::{comma_free, join_tags, lemma_split_join};
use crate::stats::stat::{
    bump_buckets, distinct_keys, fresh_stat, group_key, group_value, has_key, num_buckets,
    snapshot_values, stat_updated, stat_wf, trigger_fits, upsert_bucket_group, upsert_group,
    StatView,
};
use crate::stats::tracker::{stats_after_log, stats_after_trigger};

verus! {

/// Recording a trigger whose condition does not hold changes nothing.
pub proof fn lemma_false_condition_changes_nothing(stats: Seq<StatView>, t: StatTrigger)
    requires
        !t.condition,
    ensures
        stats_after_trigger(stats, t) == stats,
{
}

/// Recording a trigger changes only the statistic it names; every statistic
/// keeps its definition.
pub proof fn lemma_only_named_stat_changes(stats: Seq<StatView>, t: StatTrigger, i: int)
    requires
        0 <= i < stats.len(),
    ensures
        stats_after_trigger(stats, t).len() == stats.len(),
        stats_after_trigger(stats, t)[i].defn == stats[i].defn,
        stats[i].defn.name != t.stat_name@ ==> stats_after_trigger(stats, t)[i] == stats[i],
{
}

/// Recording two logs one after the other is the same as recording the
/// triggers of both, in order.
pub proof fn lemma_log_concat(stats: Seq<StatView>, a: Seq<StatTrigger>, b: Seq<StatTrigger>)
    ensures
        stats_after_log(stats, a + b) == stats_after_log(stats_after_log(stats, a), b),
    decreases b.len(),
{
    if b.len() == 0 {
        assert(a + b =~= a);
    } else {
        lemma_log_concat(stats, a, b.drop_last());
        assert((a + b).drop_last() =~= a + b.drop_last());
        assert((a + b).last() == b.last());
    }
}

/// Recording a log keeps the number of statistics and their definitions.
pub proof fn lemma_log_keeps_definitions(stats: Seq<StatView>, log: Seq<StatTrigger>)
    ensures
        stats_after_log(stats, log).len() == stats.len(),
        forall|i: int|
            0 <= i < stats.len() ==> (#[trigger] stats_after_log(stats, log)[i]).defn
                == stats[i].defn,
    decreases log.len(),
{
    if log.len() > 0 {
        lemma_log_keeps_definitions(stats, log.drop_last());
    }
}

/// A statistic that has just been added reports zero: a single zero value if
/// it is neither grouped nor bucketed, a zero per bucket if it is bucketed
/// but not grouped, and nothing if it is grouped (no group has been seen).
pub proof fn lemma_fresh_snapshot(d: StatDefinitionView)
    ensures
        d.group_by.len() > 0 ==> snapshot_values(fresh_stat(d)).len() == 0,
        d.group_by.len() == 0 && d.buckets is None ==> snapshot_values(fresh_stat(d)) == seq![
            crate::stats::report::StatSnapshotValueView {
                group_values: Seq::empty(),
                bucket_index: None,
                value: 0,
            },
        ],
        d.group_by.len() == 0 && d.buckets is Some ==> {
            &&& snapshot_values(fresh_stat(d)).len() == d.buckets->0.limits.len()
            &&& forall|i: int|
                0 <= i < d.buckets->0.limits.len() ==> #[trigger] snapshot_values(fresh_stat(d))[i]
                    == crate::stats::report::StatSnapshotValueView {
                    group_values: Seq::empty(),
                    bucket_index: Some(i as usize),
                    value: 0,
                }
        },
{
    let s = fresh_stat(d);
    if d.group_by.len() > 0 {
        if d.buckets is Some {
            assert(crate::stats::stat::bucket_group_entries(s.bucket_group_values) =~= Seq::empty());
        }
    }
}

/// With cumulative buckets, the unbounded last bucket counts every change:
/// it keeps following the statistic's value.
pub proof fn lemma_cumul_last_bucket_is_total(s: StatView, t: StatTrigger)
    requires
        stat_wf(s),
        t.change is Some,
        s.defn.buckets matches Some(b) && b.method == BucketMethod::CumulFreq,
        t.bucket_value is Some,
        s.bucket_values.last() == s.value,
    ensures
        stat_updated(s, t).bucket_values.last() == stat_updated(s, t).value,
{
    let b = s.defn.buckets->0;
    let n = b.limits.len();
    lemma_cumul_includes_unbounded(b.limits, t.bucket_value->0);
    let after = bump_buckets(s.bucket_values, b, t.bucket_value->0, t.change->0);
    assert(after[n - 1] == apply_change(s.bucket_values[n - 1], t.change->0));
}

/// The sum of a list of values.
pub open spec fn sum_values(vals: Seq<isize>) -> int
    decreases vals.len(),
{
    if vals.len() == 0 {
        0
    } else {
        sum_values(vals.drop_last()) + vals.last()
    }
}

/// The sum of the values of the groups.
pub open spec fn sum_groups(entries: Seq<(Seq<char>, isize)>) -> int
    decreases entries.len(),
{
    if entries.len() == 0 {
        0
    } else {
        sum_groups(entries.drop_last()) + entries.last().1
    }
}

/// How much an increment or decrement changes a value (zero for setting).
pub open spec fn delta(change: ChangeType) -> int {
    match change {
        ChangeType::Incr(a) => a as int,
        ChangeType::Decr(a) => -(a as int),
        ChangeType::SetTo(_) => 0,
    }
}

/// Whether `change` increments or decrements `v` without wrapping around.
pub open spec fn adds_without_overflow(v: isize, change: ChangeType) -> bool {
    &&& !(change is SetTo)
    &&& isize::MIN <= v + delta(change) <= isize::MAX
    &&& match change {
        ChangeType::Incr(a) => a <= isize::MAX,
        ChangeType::Decr(a) => a <= isize::MAX,
        ChangeType::SetTo(_) => true,
    }
}

/// An increment or decrement without wrapping adds its delta.
pub proof fn lemma_apply_delta(v: isize, change: ChangeType)
    requires
        adds_without_overflow(v, change),
    ensures
        apply_change(v, change) == v + delta(change),
{
}

proof fn lemma_sum_values_update(vals: Seq<isize>, i: int, x: isize)
    requires
        0 <= i < vals.len(),
    ensures
        sum_values(vals.update(i, x)) == sum_values(vals) - vals[i] + x,
    decreases vals.len(),
{
    if i == vals.len() - 1 {
        assert(vals.update(i, x).drop_last() =~= vals.drop_last());
    } else {
        lemma_sum_values_update(vals.drop_last(), i, x);
        assert(vals.update(i, x).drop_last() =~= vals.drop_last().update(i, x));
    }
}

proof fn lemma_sum_groups_update(entries: Seq<(Seq<char>, isize)>, i: int, x: isize)
    requires
        0 <= i < entries.len(),
    ensures
        sum_groups(entries.update(i, (entries[i].0, x))) == sum_groups(entries) - entries[i].1 + x,
    decreases entries.len(),
{
    let e = entries.update(i, (entries[i].0, x));
    if i == entries.len() - 1 {
        assert(e.drop_last() =~= entries.drop_last());
    } else {
        lemma_sum_groups_update(entries.drop_last(), i, x);
        assert(e.drop_last() =~= entries.drop_last().update(i, (entries[i].0, x)));
    }
}

/// For a grouped statistic the value is the total across all groups: an
/// increment or decrement that wraps neither the total nor the group it
/// changes keeps it so.
pub proof fn lemma_group_total_kept(s: StatView, t: StatTrigger)
    requires
        stat_wf(s),
        s.defn.group_by.len() > 0,
        t.change is Some,
        sum_groups(s.group_values) == s.value,
        adds_without_overflow(s.value, t.change->0),
        forall|i: int|
            0 <= i < s.group_values.len() && (#[trigger] s.group_values[i]).0 == group_key(s, t)
                ==> adds_without_overflow(s.group_values[i].1, t.change->0),
    ensures
        sum_groups(stat_updated(s, t).group_values) == stat_updated(s, t).value,
{
    let c = t.change->0;
    let key = group_key(s, t);
    let entries = s.group_values;
    lemma_apply_delta(s.value, c);
    if crate::stats::stat::has_key(entries, key) {
        let i = choose|i: int| 0 <= i < entries.len() && #[trigger] entries[i].0 == key;
        lemma_apply_delta(entries[i].1, c);
        let updated = crate::stats::stat::upsert_group(entries, key, c);
        assert(updated =~= entries.update(i, (entries[i].0, apply_change(entries[i].1, c)))) by {
            assert forall|j: int| 0 <= j < entries.len() && j != i implies entries[j].0 != key by {
                assert(entries[j].0 != entries[i].0);
            }
        }
        lemma_sum_groups_update(entries, i, apply_change(entries[i].1, c));
    } else {
        lemma_apply_delta(0, c);
        let updated = crate::stats::stat::upsert_group(entries, key, c);
        assert(updated.drop_last() =~= entries);
    }
}

/// With single-bucket counting, the buckets hold the total of the values
/// recorded: an increment or decrement that wraps neither the total nor the
/// bucket it changes keeps the sum of the buckets equal to the value.
pub proof fn lemma_freq_bucket_total_kept(s: StatView, t: StatTrigger)
    requires
        stat_wf(s),
        t.change is Some,
        t.bucket_value is Some,
        s.defn.buckets matches Some(b) && b.method == BucketMethod::Freq,
        sum_values(s.bucket_values) == s.value,
        adds_without_overflow(s.value, t.change->0),
        forall|i: int|
            0 <= i < s.bucket_values.len() && bucket_hit(
                BucketMethod::Freq,
                s.defn.buckets->0.limits,
                t.bucket_value->0,
                i,
            ) ==> adds_without_overflow(#[trigger] s.bucket_values[i], t.change->0),
    ensures
        sum_values(stat_updated(s, t).bucket_values) == stat_updated(s, t).value,
{
    let b = s.defn.buckets->0;
    let v = t.bucket_value->0;
    let c = t.change->0;
    let idx = crate::stats::buckets::lemma_freq_bucket_exists(b.limits, v);
    crate::stats::buckets::lemma_freq_bucket_admits(b.limits, v, idx);
    lemma_apply_delta(s.value, c);
    lemma_apply_delta(s.bucket_values[idx], c);
    let after = bump_buckets(s.bucket_values, b, v, c);
    assert(after =~= s.bucket_values.update(idx, apply_change(s.bucket_values[idx], c))) by {
        assert forall|j: int| 0 <= j < s.bucket_values.len() implies after[j] == s.bucket_values.update(
            idx,
            apply_change(s.bucket_values[idx], c),
        )[j] by {
            crate::stats::buckets::lemma_freq_bucket_unique(b.limits, v, idx, j);
        }
    }
    lemma_sum_values_update(s.bucket_values, idx, apply_change(s.bucket_values[idx], c));
}

/// After a grouped statistic is updated, its snapshot shows a value for the
/// group of the trigger's tag values (when no tag value holds a comma),
/// holding the change applied to what that group held before (zero if it
/// was new).
pub proof fn lemma_snapshot_shows_group(s: StatView, t: StatTrigger)
    requires
        stat_wf(s),
        s.defn.group_by.len() > 0,
        s.defn.buckets is None,
        t.change is Some,
        forall|i: int|
            0 <= i < s.defn.group_by.len() ==> comma_free(
                #[trigger] tag_lookup(t.tags@, s.defn.group_by[i]),
            ),
    ensures
        exists|k: int|
            0 <= k < snapshot_values(stat_updated(s, t)).len() && (#[trigger] snapshot_values(
                stat_updated(s, t),
            )[k]).group_values == s.defn.group_by.map_values(
                |n: Seq<char>| tag_lookup(t.tags@, n),
            ) && snapshot_values(stat_updated(s, t))[k].value == apply_change(
                crate::stats::stat::group_value(s.group_values, group_key(s, t)),
                t.change->0,
            ),
{
    let tv = s.defn.group_by.map_values(|n: Seq<char>| tag_lookup(t.tags@, n));
    assert forall|i: int| 0 <= i < tv.len() implies comma_free(#[trigger] tv[i]) by {
        assert(tv[i] == tag_lookup(t.tags@, s.defn.group_by[i]));
    }
    lemma_split_join(tv);
    let key = group_key(s, t);
    let c = t.change->0;
    let entries = s.group_values;
    let updated = crate::stats::stat::upsert_group(entries, key, c);
    let snap = snapshot_values(stat_updated(s, t));
    if crate::stats::stat::has_key(entries, key) {
        let i = choose|i: int| 0 <= i < entries.len() && #[trigger] entries[i].0 == key;
        assert forall|j: int| 0 <= j < entries.len() && j != i implies entries[j].0 != key by {
            assert(entries[j].0 != entries[i].0);
        }
        assert(updated[i] == (key, apply_change(entries[i].1, c)));
        assert(snap[i].group_values == tv);
    } else {
        let i = entries.len() as int;
        assert(updated[i] == (key, apply_change(0, c)));
        assert(snap[i].group_values == tv);
    }
}

/// Each combination of tag values is counted separately: recording a trigger
/// leaves the value of every other combination of (comma-free) tag values as
/// it was.
pub proof fn lemma_groups_counted_separately(s: StatView, t: StatTrigger, other: Seq<Seq<char>>)
    requires
        stat_wf(s),
        s.defn.group_by.len() > 0,
        t.change is Some,
        other.len() == s.defn.group_by.len(),
        forall|i: int| 0 <= i < other.len() ==> comma_free(#[trigger] other[i]),
        forall|i: int|
            0 <= i < s.defn.group_by.len() ==> comma_free(
                #[trigger] tag_lookup(t.tags@, s.defn.group_by[i]),
            ),
        other != s.defn.group_by.map_values(|n: Seq<char>| tag_lookup(t.tags@, n)),
    ensures
        group_value(stat_updated(s, t).group_values, join_tags(other)) == group_value(
            s.group_values,
            join_tags(other),
        ),
{
    let tv = s.defn.group_by.map_values(|n: Seq<char>| tag_lookup(t.tags@, n));
    assert forall|i: int| 0 <= i < tv.len() implies comma_free(#[trigger] tv[i]) by {
        assert(tv[i] == tag_lookup(t.tags@, s.defn.group_by[i]));
    }
    lemma_split_join(tv);
    lemma_split_join(other);
    let key = group_key(s, t);
    let k = join_tags(other);
    assert(k != key);
    let c = t.change->0;
    let entries = s.group_values;
    let updated = upsert_group(entries, key, c);
    assert(stat_updated(s, t).group_values == updated);
    if has_key(entries, key) {
        assert(updated.len() == entries.len());
        assert forall|j: int| 0 <= j < entries.len() implies (#[trigger] updated[j]).0
            == entries[j].0 && (entries[j].0 != key ==> updated[j] == entries[j]) by {}
        if has_key(entries, k) {
            let j = choose|j: int| 0 <= j < entries.len() && #[trigger] entries[j].0 == k;
            assert(updated[j].0 == k);
            let i = choose|i: int| 0 <= i < updated.len() && #[trigger] updated[i].0 == k;
            assert(entries[i].0 == k);
            assert(i == j) by {
                if i != j {
                    assert(entries[i].0 != entries[j].0);
                }
            }
        } else {
            assert(!has_key(updated, k)) by {
                if has_key(updated, k) {
                    let i = choose|i: int| 0 <= i < updated.len() && #[trigger] updated[i].0 == k;
                    assert(entries[i].0 == k);
                }
            }
        }
    } else {
        assert(updated == entries.push((key, apply_change(0, c))));
        if has_key(entries, k) {
            let j = choose|j: int| 0 <= j < entries.len() && #[trigger] entries[j].0 == k;
            assert(updated[j] == entries[j]);
            let i = choose|i: int| 0 <= i < updated.len() && #[trigger] updated[i].0 == k;
            assert(i < entries.len());
            assert(updated[i] == entries[i]);
            assert(i == j) by {
                if i != j {
                    assert(entries[i].0 != entries[j].0);
                }
            }
        } else {
            assert(!has_key(updated, k)) by {
                if has_key(updated, k) {
                    let i = choose|i: int| 0 <= i < updated.len() && #[trigger] updated[i].0 == k;
                    assert(i < entries.len());
                    assert(updated[i] == entries[i]);
                }
            }
        }
    }
}

/// Recording a trigger that fits a well-formed statistic keeps it well
/// formed.
pub proof fn lemma_stat_updated_wf(s: StatView, t: StatTrigger)
    requires
        stat_wf(s),
        trigger_fits(s, t),
    ensures
        stat_wf(stat_updated(s, t)),
{
    let u = stat_updated(s, t);
    let c = t.change->0;
    let key = group_key(s, t);
    if s.defn.group_by.len() > 0 {
        let e = s.group_values;
        let ue = upsert_group(e, key, c);
        if has_key(e, key) {
            assert(distinct_keys(ue)) by {
                assert forall|i: int, j: int|
                    0 <= i < ue.len() && 0 <= j < ue.len() && i != j implies #[trigger] ue[i].0
                    != #[trigger] ue[j].0 by {
                    assert(ue[i].0 == e[i].0 && ue[j].0 == e[j].0);
                }
            }
        } else {
            assert(distinct_keys(ue)) by {
                assert forall|i: int, j: int|
                    0 <= i < ue.len() && 0 <= j < ue.len() && i != j implies #[trigger] ue[i].0
                    != #[trigger] ue[j].0 by {
                    if i < e.len() && j < e.len() {
                        assert(ue[i] == e[i] && ue[j] == e[j]);
                    } else if i < e.len() {
                        assert(ue[i] == e[i]);
                    } else {
                        assert(ue[j] == e[j]);
                    }
                }
            }
        }
        if let Some(b) = s.defn.buckets {
            let bg = s.bucket_group_values;
            let v = t.bucket_value->0;
            let ubg = upsert_bucket_group(bg, key, b, v, c);
            if has_key(bg, key) {
                assert forall|i: int, j: int|
                    0 <= i < ubg.len() && 0 <= j < ubg.len() && i != j implies #[trigger] ubg[i].0
                    != #[trigger] ubg[j].0 by {
                    assert(ubg[i].0 == bg[i].0 && ubg[j].0 == bg[j].0);
                }
                assert forall|i: int| 0 <= i < ubg.len() implies (#[trigger] ubg[i]).1.len() == num_buckets(
                    s.defn,
                ) by {
                    assert(bg[i].1.len() == num_buckets(s.defn));
                }
            } else {
                assert forall|i: int, j: int|
                    0 <= i < ubg.len() && 0 <= j < ubg.len() && i != j implies #[trigger] ubg[i].0
                    != #[trigger] ubg[j].0 by {
                    if i < bg.len() && j < bg.len() {
                        assert(ubg[i] == bg[i] && ubg[j] == bg[j]);
                    } else if i < bg.len() {
                        assert(ubg[i] == bg[i]);
                    } else {
                        assert(ubg[j] == bg[j]);
                    }
                }
                assert forall|i: int| 0 <= i < ubg.len() implies (#[trigger] ubg[i]).1.len() == num_buckets(
                    s.defn,
                ) by {
                    if i < bg.len() {
                        assert(ubg[i] == bg[i]);
                    }
                }
            }
            assert(u.bucket_group_values == ubg);
        }
    }
}

/// The sum, over the groups of a grouped and bucketed statistic, of their
/// values in bucket `k`.
pub open spec fn column_sum(entries: Seq<(Seq<char>, Seq<isize>)>, k: int) -> int
    decreases entries.len(),
{
    if entries.len() == 0 {
        0
    } else {
        column_sum(entries.drop_last(), k) + entries.last().1[k]
    }
}

proof fn lemma_column_sum_update(entries: Seq<(Seq<char>, Seq<isize>)>, i: int, row: Seq<isize>, k: int)
    requires
        0 <= i < entries.len(),
    ensures
        column_sum(entries.update(i, (entries[i].0, row)), k) == column_sum(entries, k) - entries[i].1[k]
            + row[k],
    decreases entries.len(),
{
    let e = entries.update(i, (entries[i].0, row));
    if i == entries.len() - 1 {
        assert(e.drop_last() =~= entries.drop_last());
    } else {
        lemma_column_sum_update(entries.drop_last(), i, row, k);
        assert(e.drop_last() =~= entries.drop_last().update(i, (entries[i].0, row)));
    }
}

/// The totals a statistic keeps while it only counts up and down: a grouped
/// statistic's value is the sum over its groups; a single-bucket counter's
/// value is the sum over its buckets; a cumulative counter's unbounded
/// bucket holds its value; and each bucket of a grouped bucket counter is
/// the sum of that bucket over the groups.
pub open spec fn totals_kept(s: StatView) -> bool {
    &&& s.defn.group_by.len() > 0 ==> sum_groups(s.group_values) == s.value
    &&& (s.defn.buckets is Some && s.defn.buckets->0.method == BucketMethod::Freq) ==> sum_values(
        s.bucket_values,
    ) == s.value
    &&& (s.defn.buckets is Some && s.defn.buckets->0.method == BucketMethod::CumulFreq)
        ==> s.bucket_values.last() == s.value
    &&& s.defn.group_by.len() > 0 && s.defn.buckets is Some ==> forall|k: int|
        0 <= k < s.bucket_values.len() ==> #[trigger] s.bucket_values[k] == column_sum(
            s.bucket_group_values,
            k,
        )
}

/// The value of bucket `i` of the group `key` of a grouped bucket counter
/// (zero if the group has not been seen).
pub open spec fn group_bucket_value(entries: Seq<(Seq<char>, Seq<isize>)>, key: Seq<char>, i: int) -> isize {
    if has_key(entries, key) {
        entries[choose|j: int| 0 <= j < entries.len() && #[trigger] entries[j].0 == key].1[i]
    } else {
        0
    }
}

/// Whether recording the trigger `t` wraps none of the values of `s` that
/// it changes: the value, the value of the trigger's group, and the buckets
/// (overall and of the group) that the trigger's value lands in.
pub open spec fn updates_without_wrap(s: StatView, t: StatTrigger) -> bool {
    let c = t.change->0;
    let key = group_key(s, t);
    &&& adds_without_overflow(s.value, c)
    &&& s.defn.group_by.len() > 0 ==> adds_without_overflow(group_value(s.group_values, key), c)
    &&& s.defn.buckets matches Some(b) ==> forall|i: int|
        0 <= i < s.bucket_values.len() && #[trigger] bucket_hit(b.method, b.limits, t.bucket_value->0, i)
            ==> adds_without_overflow(s.bucket_values[i], c)
    &&& (s.defn.group_by.len() > 0 && s.defn.buckets is Some) ==> forall|i: int|
        0 <= i < s.bucket_values.len() && #[trigger] bucket_hit(
            s.defn.buckets->0.method,
            s.defn.buckets->0.limits,
            t.bucket_value->0,
            i,
        ) ==> adds_without_overflow(group_bucket_value(s.bucket_group_values, key, i), c)
}

/// One increment or decrement that wraps no value it changes keeps the
/// totals of a statistic.
pub proof fn lemma_totals_step(s: StatView, t: StatTrigger)
    requires
        stat_wf(s),
        trigger_fits(s, t),
        totals_kept(s),
        updates_without_wrap(s, t),
    ensures
        stat_wf(stat_updated(s, t)),
        totals_kept(stat_updated(s, t)),
{
    let u = stat_updated(s, t);
    let c = t.change->0;
    let key = group_key(s, t);
    lemma_stat_updated_wf(s, t);
    if s.defn.group_by.len() > 0 {
        let e = s.group_values;
        assert forall|i: int| 0 <= i < e.len() && (#[trigger] e[i]).0 == key implies adds_without_overflow(
            e[i].1,
            c,
        ) by {
            let w = choose|j: int| 0 <= j < e.len() && #[trigger] e[j].0 == key;
            if w != i {
                assert(e[w].0 != e[i].0);
            }
        }
        lemma_group_total_kept(s, t);
    }
    if let Some(bk) = s.defn.buckets {
        let v = t.bucket_value->0;
        let vals = s.bucket_values;
        if bk.method == BucketMethod::Freq {
            lemma_freq_bucket_total_kept(s, t);
        } else {
            lemma_cumul_last_bucket_is_total(s, t);
        }
        let ub = bump_buckets(vals, bk, v, c);
        if s.defn.group_by.len() > 0 {
            let bg = s.bucket_group_values;
            let ubg = upsert_bucket_group(bg, key, bk, v, c);
            assert(u.bucket_group_values == ubg);
            if has_key(bg, key) {
                let w = choose|i: int| 0 <= i < bg.len() && #[trigger] bg[i].0 == key;
                assert forall|i: int| 0 <= i < bg.len() && i != w implies #[trigger] bg[i].0 != key by {
                    assert(bg[i].0 != bg[w].0);
                }
                let row = bump_buckets(bg[w].1, bk, v, c);
                assert(ubg =~= bg.update(w, (bg[w].0, row)));
                assert forall|k: int| 0 <= k < ub.len() implies #[trigger] ub[k] == column_sum(ubg, k) by {
                    lemma_column_sum_update(bg, w, row, k);
                    assert(bg[w].1.len() == num_buckets(s.defn));
                    assert(vals[k] == column_sum(bg, k));
                    if bucket_hit(bk.method, bk.limits, v, k) {
                        assert(group_bucket_value(bg, key, k) == bg[w].1[k]);
                        lemma_apply_delta(bg[w].1[k], c);
                        lemma_apply_delta(vals[k], c);
                    }
                }
            } else {
                let zeros = Seq::new(bk.limits.len(), |i: int| 0isize);
                let row = bump_buckets(zeros, bk, v, c);
                assert(ubg == bg.push((key, row)));
                assert forall|k: int| 0 <= k < ub.len() implies #[trigger] ub[k] == column_sum(ubg, k) by {
                    assert(ubg.drop_last() =~= bg);
                    assert(vals[k] == column_sum(bg, k));
                    if bucket_hit(bk.method, bk.limits, v, k) {
                        lemma_apply_delta(0, c);
                        lemma_apply_delta(vals[k], c);
                    }
                }
            }
        }
    }
}

/// The statistic `s` after the triggers `ts` (whose conditions hold) change
/// it, in order.
pub open spec fn stat_after(s: StatView, ts: Seq<StatTrigger>) -> StatView
    decreases ts.len(),
{
    if ts.len() == 0 {
        s
    } else {
        stat_updated(stat_after(s, ts.drop_last()), ts.last())
    }
}

/// The sum of a list of zeros is zero.
proof fn lemma_sum_zeros(n: nat)
    ensures
        sum_values(Seq::new(n, |i: int| 0isize)) == 0,
    decreases n,
{
    if n > 0 {
        lemma_sum_zeros((n - 1) as nat);
        assert(Seq::new(n, |i: int| 0isize).drop_last() =~= Seq::new((n - 1) as nat, |i: int| 0isize));
    }
}

/// A statistic that has just been added keeps its totals.
proof fn lemma_fresh_totals(d: StatDefinitionView)
    requires
        defn_wf(d),
    ensures
        totals_kept(fresh_stat(d)),
        stat_wf(fresh_stat(d)),
{
    lemma_sum_zeros(num_buckets(d));
    let f = fresh_stat(d);
    if let Some(b) = d.buckets {
        assert(f.bucket_values.last() == 0isize);
    }
}

/// A statistic that starts from zero and only counts up and down keeps its
/// totals: a grouped statistic's value is the sum over its groups, a
/// single-bucket counter's value the sum over its buckets, a cumulative
/// counter's unbounded bucket its value, and each bucket of a grouped bucket
/// counter the sum of that bucket over the groups.  This holds as long as
/// no update wraps a value it changes.
#[verifier::spinoff_prover]
pub proof fn lemma_totals_over_updates(d: StatDefinitionView, ts: Seq<StatTrigger>)
    requires
        defn_wf(d),
        forall|i: int| 0 <= i < ts.len() ==> (#[trigger] ts[i]).change is Some,
        d.buckets is Some ==> forall|i: int| 0 <= i < ts.len() ==> (#[trigger] ts[i]).bucket_value is Some,
        forall|k: int|
            0 <= k < ts.len() ==> updates_without_wrap(stat_after(fresh_stat(d), ts.take(k)), #[trigger] ts[k]),
    ensures
        totals_kept(stat_after(fresh_stat(d), ts)),
        stat_wf(stat_after(fresh_stat(d), ts)),
        stat_after(fresh_stat(d), ts).defn == d,
    decreases ts.len(),
{
    if ts.len() == 0 {
        lemma_fresh_totals(d);
    } else {
        let prev = ts.drop_last();
        let t = ts.last();
        let n = ts.len() - 1;
        assert(ts[n] == t);
        assert forall|k: int| 0 <= k < prev.len() implies updates_without_wrap(
            stat_after(fresh_stat(d), prev.take(k)),
            #[trigger] prev[k],
        ) by {
            assert(prev.take(k) =~= ts.take(k));
            assert(prev[k] == ts[k]);
        }
        assert forall|i: int| 0 <= i < prev.len() implies #[trigger] prev[i] == ts[i] by {}
        lemma_totals_over_updates(d, prev);
        assert(ts.take(n) =~= prev);
        lemma_totals_step(stat_after(fresh_stat(d), prev), t);
    }
}

} // verus!
