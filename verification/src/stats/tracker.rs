//! The statistics tracker: the set of tracked statistics, keyed by name.

use vstd::prelude::*;

use crate::stats::defn::{StatDefinition, StatDefinitionView, StatTrigger};
use crate::stats::report::{StatLogData, StatLogDataView, StatSnapshot};
use crate::stats::stat::{
    fresh_stat, log_data_views, log_datas, snapshot_value_views, snapshot_values, stat_updated,
    stat_wf, trigger_fits, Stat, StatView,
};

verus! {

/// Whether the names of the statistics in `stats` are pairwise distinct.
pub open spec fn distinct_names(stats: Seq<StatView>) -> bool {
    forall|i: int, j: int|
        0 <= i < stats.len() && 0 <= j < stats.len() && i != j ==> (#[trigger] stats[i]).defn.name
            != (#[trigger] stats[j]).defn.name
}

/// The invariant of the tracked statistics.
pub open spec fn tracker_wf(stats: Seq<StatView>) -> bool {
    &&& distinct_names(stats)
    &&& forall|i: int| 0 <= i < stats.len() ==> stat_wf(#[trigger] stats[i])
}

/// Whether a statistic named `name` is tracked.
pub open spec fn has_stat(stats: Seq<StatView>, name: Seq<char>) -> bool {
    exists|i: int| 0 <= i < stats.len() && (#[trigger] stats[i]).defn.name == name
}

/// The statistics after the definition `d` is added: a statistic of the same
/// name is replaced by a fresh one, otherwise a fresh one is added at the end.
pub open spec fn stats_with(stats: Seq<StatView>, d: StatDefinitionView) -> Seq<StatView> {
    if has_stat(stats, d.name) {
        stats.map_values(
            |s: StatView|
                if s.defn.name == d.name {
                    fresh_stat(d)
                } else {
                    s
                },
        )
    } else {
        stats.push(fresh_stat(d))
    }
}

/// The statistics after the trigger `t` is recorded: if its condition holds,
/// the statistic it names is updated.
pub open spec fn stats_after_trigger(stats: Seq<StatView>, t: StatTrigger) -> Seq<StatView> {
    if t.condition {
        stats.map_values(
            |s: StatView|
                if s.defn.name == t.stat_name@ {
                    stat_updated(s, t)
                } else {
                    s
                },
        )
    } else {
        stats
    }
}

/// The statistics after the triggers of a log are recorded, in order.
pub open spec fn stats_after_log(stats: Seq<StatView>, log: Seq<StatTrigger>) -> Seq<StatView>
    decreases log.len(),
{
    if log.len() == 0 {
        stats
    } else {
        stats_after_trigger(stats_after_log(stats, log.drop_last()), log.last())
    }
}

/// Whether the trigger `t` can be recorded: if its condition holds, it names
/// a tracked statistic and gives what that statistic needs.
pub open spec fn trigger_applies(stats: Seq<StatView>, t: StatTrigger) -> bool {
    t.condition ==> exists|i: int|
        0 <= i < stats.len() && (#[trigger] stats[i]).defn.name == t.stat_name@ && trigger_fits(
            stats[i],
            t,
        )
}

/// Whether every trigger of a log can be recorded.
pub open spec fn log_applies(stats: Seq<StatView>, log: Seq<StatTrigger>) -> bool {
    forall|k: int| 0 <= k < log.len() ==> trigger_applies(stats, #[trigger] log[k])
}

/// Why the triggers of a log cannot be recorded.
#[derive(Debug, Clone, PartialEq, Eq)]
pub enum StatsError {
    /// A trigger whose condition holds names a statistic that is not tracked.
    UnknownStat(String),
    /// A trigger whose condition holds gives no change to make.
    MissingChange(String),
    /// A trigger whose condition holds gives no value to bucket a bucketed
    /// statistic by.
    MissingBucketValue(String),
}

/// Whether `e` describes why the trigger `t` cannot be recorded.
pub open spec fn describes_problem(stats: Seq<StatView>, t: StatTrigger, e: StatsError) -> bool {
    &&& t.condition
    &&& match e {
        StatsError::UnknownStat(n) => n@ == t.stat_name@ && !has_stat(stats, t.stat_name@),
        StatsError::MissingChange(n) => n@ == t.stat_name@ && has_stat(stats, t.stat_name@)
            && t.change is None,
        StatsError::MissingBucketValue(n) => {
            &&& n@ == t.stat_name@
            &&& t.change is Some
            &&& t.bucket_value is None
            &&& exists|i: int|
                0 <= i < stats.len() && (#[trigger] stats[i]).defn.name == t.stat_name@
                    && stats[i].defn.buckets is Some
        },
    }
}

/// All the data for logging every value of every statistic, statistic by
/// statistic.
pub open spec fn all_log_datas(stats: Seq<StatView>) -> Seq<StatLogDataView> {
    stats.map_values(|s: StatView| log_datas(s)).flatten()
}

/// The statistics after the definitions `defns` are added in order to an
/// empty tracker.
pub open spec fn stats_from(defns: Seq<StatDefinitionView>) -> Seq<StatView>
    decreases defns.len(),
{
    if defns.len() == 0 {
        Seq::empty()
    } else {
        stats_with(stats_from(defns.drop_last()), defns.last())
    }
}

/// The views of a list of definitions.
pub open spec fn defn_views(v: Seq<StatDefinition>) -> Seq<StatDefinitionView> {
    v.map_values(|d: StatDefinition| d@)
}

/// The views of the definitions in a list of lists of definitions, in order.
pub open spec fn defn_set_views(sets: Seq<Vec<StatDefinition>>) -> Seq<StatDefinitionView> {
    sets.map_values(|v: Vec<StatDefinition>| defn_views(v@)).flatten()
}

/// An object that tracks statistics.
#[derive(Debug)]
pub struct StatsTracker {
    stats: Vec<Stat>,
}

impl View for StatsTracker {
    type V = Seq<StatView>;

    closed spec fn view(&self) -> Seq<StatView> {
        self.stats@.map_values(|s: Stat| s@)
    }
}

impl StatsTracker {
    /// The internal invariant of the tracker.
    pub closed spec fn wf(&self) -> bool {
        &&& forall|i: int| 0 <= i < self.stats@.len() ==> (#[trigger] self.stats@[i]).inv()
        &&& tracker_wf(self@)
    }

    /// A well-formed tracker keeps its statistics well formed and their names
    /// distinct.
    pub proof fn lemma_wf(&self)
        requires
            self.wf(),
        ensures
            tracker_wf(self@),
    {
    }

    /// Create a new tracker with no statistics.
    pub fn new() -> (r: StatsTracker)
        ensures
            r.wf(),
            r@ == Seq::<StatView>::empty(),
    {
        let r = StatsTracker { stats: Vec::new() };
        proof {
            assert(r@ =~= Seq::<StatView>::empty());
        }
        r
    }

    /// The number of tracked statistics.
    pub fn len(&self) -> (r: usize)
        ensures
            r == self@.len(),
    {
        self.stats.len()
    }

    /// The position of the statistic named `name`, if it is tracked.
    fn find(&self, name: &str) -> (r: Option<usize>)
        requires
            self.wf(),
        ensures
            match r {
                Some(i) => i < self@.len() && self@[i as int].defn.name == name@,
                None => !has_stat(self@, name@),
            },
    {
        let target = String::from_str(name);
        let mut i: usize = 0;
        while i < self.stats.len()
            invariant
                self.wf(),
                target@ == name@,
                i <= self@.len(),
                forall|j: int| 0 <= j < i ==> (#[trigger] self@[j]).defn.name != name@,
            decreases self@.len() - i,
        {
            let found = {
                let d = self.stats[i].definition();
                String::from_str(d.name()) == target
            };
            if found {
                return Some(i);
            }
            i = i + 1;
        }
        None
    }

    /// Add a new statistic to this tracker.  A statistic of the same name is
    /// replaced, and starts again from zero.
    pub fn add_statistic(&mut self, defn: StatDefinition)
        requires
            old(self).wf(),
            defn.wf(),
        ensures
            final(self).wf(),
            final(self)@ == stats_with(old(self)@, defn@),
    {
        let ghost old_view = self@;
        let ghost d = defn@;
        let stat = Stat::new(defn);
        let found = self.find(stat.definition().name());
        match found {
            Some(i) => {
                self.stats.set(i, stat);
                proof {
                    assert(has_stat(old_view, d.name));
                    assert forall|j: int| 0 <= j < old_view.len() && j != i implies old_view[j].defn.name
                        != d.name by {
                        assert(old_view[j].defn.name != old_view[i as int].defn.name);
                    }
                    assert(self@ =~= stats_with(old_view, d));
                    assert forall|j: int| 0 <= j < self.stats@.len() implies (
                    #[trigger] self.stats@[j]).inv() by {
                        if j != i {
                            assert(self.stats@[j] == old(self).stats@[j]);
                        }
                    }
                    assert forall|j: int| 0 <= j < self@.len() implies stat_wf(#[trigger] self@[j]) by {
                        self.stats@[j].lemma_inv();
                    }
                }
            },
            None => {
                self.stats.push(stat);
                proof {
                    assert(self@ =~= stats_with(old_view, d));
                    assert forall|j: int| 0 <= j < self.stats@.len() implies (
                    #[trigger] self.stats@[j]).inv() by {
                        if j < old_view.len() {
                            assert(self.stats@[j] == old(self).stats@[j]);
                        }
                    }
                    assert forall|j: int| 0 <= j < self@.len() implies stat_wf(#[trigger] self@[j]) by {
                        self.stats@[j].lemma_inv();
                    }
                }
            },
        }
    }

    /// Update the statistics for a log: for each of its triggers whose
    /// condition holds, in order, update the statistic it names.
    pub fn update_stats(&mut self, log: &Vec<StatTrigger>)
        requires
            old(self).wf(),
            log_applies(old(self)@, log@),
        ensures
            final(self).wf(),
            final(self)@ == stats_after_log(old(self)@, log@),
    {
        let ghost start = self@;
        let mut k: usize = 0;
        while k < log.len()
            invariant
                self.wf(),
                k <= log@.len(),
                log_applies(start, log@),
                self@ == stats_after_log(start, log@.take(k as int)),
                self@.len() == start.len(),
                forall|i: int| 0 <= i < start.len() ==> (#[trigger] self@[i]).defn == start[i].defn,
            decreases log@.len() - k,
        {
            let t = &log[k];
            let ghost prev = self@;
            proof {
                assert(log@.take(k + 1).drop_last() =~= log@.take(k as int));
                assert(trigger_applies(start, log@[k as int]));
            }
            if t.condition {
                let found = self.find(t.stat_name.as_str());
                proof {
                    let w = choose|w: int|
                        0 <= w < start.len() && (#[trigger] start[w]).defn.name == t.stat_name@
                            && trigger_fits(start[w], *t);
                    assert(prev[w].defn == start[w].defn);
                }
                match found {
                    Some(i) => {
                        proof {
                            assert(self@[i as int].defn.name == t.stat_name@);
                            let w = choose|w: int|
                                0 <= w < start.len() && (#[trigger] start[w]).defn.name
                                    == t.stat_name@ && trigger_fits(start[w], *t);
                            assert(prev[w].defn == start[w].defn);
                            if w != i {
                                assert(prev[w].defn.name != prev[i as int].defn.name);
                            }
                            assert(trigger_fits(prev[i as int], *t));
                            assert(self.stats@[i as int].inv());
                        }
                        let ghost old_stats = self.stats@;
                        let mut stat = self.stats.remove(i);
                        stat.update(t);
                        self.stats.insert(i, stat);
                        proof {
                            assert(self.stats@ =~= old_stats.update(i as int, stat));
                            assert forall|j: int| 0 <= j < prev.len() && j != i implies prev[j].defn.name
                                != t.stat_name@ by {
                                assert(prev[j].defn.name != prev[i as int].defn.name);
                            }
                            assert(self@ =~= stats_after_trigger(prev, *t));
                            assert forall|j: int| 0 <= j < self.stats@.len() implies (
                            #[trigger] self.stats@[j]).inv() by {
                                if j != i {
                                    assert(self.stats@[j] == old_stats[j]);
                                }
                            }
                            assert forall|j: int| 0 <= j < self@.len() implies stat_wf(
                                #[trigger] self@[j],
                            ) by {
                                self.stats@[j].lemma_inv();
                            }
                            assert(self@[i as int].defn == prev[i as int].defn);
                            assert(distinct_names(self@)) by {
                                assert forall|a: int, b: int|
                                    0 <= a < self@.len() && 0 <= b < self@.len() && a != b implies (
                                #[trigger] self@[a]).defn.name != (#[trigger] self@[b]).defn.name by {
                                    assert(self@[a].defn == prev[a].defn);
                                    assert(self@[b].defn == prev[b].defn);
                                }
                            }
                        }
                    },
                    None => {
                        proof {
                            let w = choose|w: int|
                                0 <= w < start.len() && (#[trigger] start[w]).defn.name
                                    == t.stat_name@ && trigger_fits(start[w], *t);
                            assert(prev[w].defn == start[w].defn);
                            assert(has_stat(prev, t.stat_name@));
                        }
                    },
                }
            } else {
                proof {
                    assert(self@ =~= stats_after_trigger(prev, *t));
                }
            }
            k = k + 1;
        }
        proof {
            assert(log@.take(k as int) =~= log@);
        }
    }

    /// Check that every trigger of a log can be recorded; if not, say why
    /// the first one that cannot fails.
    pub fn validate_log(&self, log: &Vec<StatTrigger>) -> (r: Result<(), StatsError>)
        requires
            self.wf(),
        ensures
            r is Ok <==> log_applies(self@, log@),
            r matches Err(e) ==> exists|k: int|
                0 <= k < log@.len() && describes_problem(self@, #[trigger] log@[k], e) && forall|
                    j: int,
                | 0 <= j < k ==> trigger_applies(self@, #[trigger] log@[j]),
    {
        let mut k: usize = 0;
        while k < log.len()
            invariant
                self.wf(),
                k <= log@.len(),
                forall|j: int| 0 <= j < k ==> trigger_applies(self@, #[trigger] log@[j]),
            decreases log@.len() - k,
        {
            let t = &log[k];
            if t.condition {
                match self.find(t.stat_name.as_str()) {
                    None => {
                        let e = StatsError::UnknownStat(t.stat_name.clone());
                        proof {
                            assert(describes_problem(self@, log@[k as int], e));
                        }
                        return Err(e);
                    },
                    Some(i) => {
                        if t.change.is_none() {
                            let e = StatsError::MissingChange(t.stat_name.clone());
                            proof {
                                assert(describes_problem(self@, log@[k as int], e));
                                assert(!trigger_applies(self@, log@[k as int]));
                            }
                            return Err(e);
                        }
                        let bucketed = self.stats[i].definition().buckets().is_some();
                        if bucketed && t.bucket_value.is_none() {
                            let e = StatsError::MissingBucketValue(t.stat_name.clone());
                            proof {
                                assert(describes_problem(self@, log@[k as int], e));
                                assert(!trigger_applies(self@, log@[k as int])) by {
                                    assert forall|w: int|
                                        0 <= w < self@.len() && (#[trigger] self@[w]).defn.name
                                            == t.stat_name@ implies !trigger_fits(self@[w], *t) by {
                                        if w != i {
                                            assert(self@[w].defn.name != self@[i as int].defn.name);
                                        }
                                    }
                                }
                            }
                            return Err(e);
                        }
                        proof {
                            assert(trigger_fits(self@[i as int], *t));
                        }
                    },
                }
            }
            k = k + 1;
        }
        Ok(())
    }

    /// Record a log if every trigger of it can be recorded; otherwise change
    /// nothing and say why the first trigger that cannot fails.
    pub fn record_log(&mut self, log: &Vec<StatTrigger>) -> (r: Result<(), StatsError>)
        requires
            old(self).wf(),
        ensures
            final(self).wf(),
            r is Ok <==> log_applies(old(self)@, log@),
            r is Ok ==> final(self)@ == stats_after_log(old(self)@, log@),
            r matches Err(e) ==> final(self)@ == old(self)@ && exists|k: int|
                0 <= k < log@.len() && describes_problem(old(self)@, #[trigger] log@[k], e)
                    && forall|j: int| 0 <= j < k ==> trigger_applies(old(self)@, #[trigger] log@[j]),
    {
        match self.validate_log(log) {
            Ok(()) => {
                self.update_stats(log);
                Ok(())
            },
            Err(e) => Err(e),
        }
    }

    /// Retrieve the current values of all stats tracked, one snapshot per
    /// statistic.
    pub fn get_stats(&self) -> (r: Vec<StatSnapshot<'_>>)
        requires
            self.wf(),
        ensures
            r@.len() == self@.len(),
            forall|i: int|
                0 <= i < self@.len() ==> (#[trigger] r@[i]).definition@ == self@[i].defn
                    && snapshot_value_views(r@[i].values@) == snapshot_values(self@[i]),
    {
        let mut r: Vec<StatSnapshot<'_>> = Vec::new();
        let mut i: usize = 0;
        while i < self.stats.len()
            invariant
                self.wf(),
                i <= self@.len(),
                r@.len() == i,
                forall|j: int|
                    0 <= j < i ==> (#[trigger] r@[j]).definition@ == self@[j].defn
                        && snapshot_value_views(r@[j].values@) == snapshot_values(self@[j]),
            decreases self@.len() - i,
        {
            r.push(self.stats[i].get_snapshot());
            i = i + 1;
        }
        r
    }

    /// The data for logging every value of every tracked statistic.
    pub fn log_all(&self) -> (r: Vec<StatLogData<'_>>)
        requires
            self.wf(),
        ensures
            log_data_views(r@) == all_log_datas(self@),
    {
        let ghost all = self@;
        let mut r: Vec<StatLogData<'_>> = Vec::new();
        let mut i: usize = 0;
        proof {
            assert(log_data_views(r@) =~= all_log_datas(all.take(0)));
        }
        while i < self.stats.len()
            invariant
                self.wf(),
                all == self@,
                i <= self@.len(),
                log_data_views(r@) == all_log_datas(all.take(i as int)),
            decreases self@.len() - i,
        {
            let mut datas = self.stats[i].get_log_data();
            let ghost before = r@;
            let ghost added = datas@;
            r.append(&mut datas);
            proof {
                assert(log_data_views(r@) =~= log_data_views(before) + log_data_views(added));
                let f = |s: StatView| log_datas(s);
                assert(all.take(i + 1).map_values(f) =~= all.take(i as int).map_values(f).push(
                    log_datas(all[i as int]),
                ));
                all.take(i as int).map_values(f).lemma_flatten_push(log_datas(all[i as int]));
            }
            i = i + 1;
        }
        proof {
            assert(all.take(i as int) =~= all);
        }
        r
    }

    /// Create a tracker of the statistics defined in a list of lists of
    /// definitions, adding them in order.
    pub fn from_definitions(sets: Vec<Vec<StatDefinition>>) -> (r: StatsTracker)
        requires
            forall|i: int, j: int|
                0 <= i < sets@.len() && 0 <= j < sets@[i]@.len() ==> (#[trigger] sets@[i]@[j]).wf(),
        ensures
            r.wf(),
            r@ == stats_from(defn_set_views(sets@)),
    {
        let ghost orig = sets@;
        let mut remaining = sets;
        let mut tracker = StatsTracker::new();
        let mut j: usize = 0;
        let n = remaining.len();
        proof {
            assert(orig.skip(0) =~= orig);
            assert(defn_set_views(orig.take(0)) =~= Seq::<StatDefinitionView>::empty());
        }
        while j < n
            invariant
                n == orig.len(),
                j <= n,
                remaining@ == orig.skip(j as int),
                tracker.wf(),
                tracker@ == stats_from(defn_set_views(orig.take(j as int))),
                forall|a: int, b: int|
                    0 <= a < orig.len() && 0 <= b < orig[a]@.len() ==> (#[trigger] orig[a]@[b]).wf(),
            decreases n - j,
        {
            let mut set = remaining.remove(0);
            let ghost done = defn_set_views(orig.take(j as int));
            let ghost views = defn_views(orig[j as int]@);
            proof {
                assert(set == orig[j as int]);
                assert(remaining@ =~= orig.skip(j + 1));
                assert(done + views.take(0) =~= done);
            }
            let m_total = set.len();
            let mut m: usize = 0;
            while m < m_total
                invariant
                    m_total == views.len(),
                    m <= m_total,
                    views == defn_views(orig[j as int]@),
                    set@ == orig[j as int]@.skip(m as int),
                    tracker.wf(),
                    tracker@ == stats_from(done + views.take(m as int)),
                    forall|a: int, b: int|
                        0 <= a < orig.len() && 0 <= b < orig[a]@.len() ==> (#[trigger] orig[a]@[b]).wf(),
                    j < orig.len(),
                decreases m_total - m,
            {
                let d = set.remove(0);
                proof {
                    assert(d == orig[j as int]@[m as int]);
                    assert(set@ =~= orig[j as int]@.skip(m + 1));
                    assert((done + views.take(m + 1)).drop_last() =~= done + views.take(m as int));
                    assert((done + views.take(m + 1)).last() == d@);
                }
                tracker.add_statistic(d);
                m = m + 1;
            }
            proof {
                assert(views.take(m as int) =~= views);
                let f = |v: Vec<StatDefinition>| defn_views(v@);
                assert(orig.take(j + 1).map_values(f) =~= orig.take(j as int).map_values(f).push(
                    views,
                ));
                orig.take(j as int).map_values(f).lemma_flatten_push(views);
            }
            j = j + 1;
        }
        proof {
            assert(orig.take(n as int) =~= orig);
        }
        tracker
    }
}

} // verus!