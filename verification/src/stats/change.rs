use vstd::prelude::*;

verus! {

/// Types of changes made to a statistic.
#[derive(Debug, Clone, Copy, PartialEq, Eq, Hash, Structural)]
pub enum ChangeType {
    /// Increment by a fixed amount.
    Incr(usize),
    /// Decrement by a fixed amount.
    Decr(usize),
    /// Set to a specific value.
    SetTo(isize),
}

/// The value a statistic holds after `change` is applied to `num`.
///
/// Increments and decrements wrap around on overflow, as atomic additions do.
pub open spec fn apply_change(num: isize, change: ChangeType) -> isize {
    match change {
        ChangeType::Incr(i) => vstd::wrapping::isize_specs::wrapping_add(num, i as isize),
        ChangeType::Decr(d) => vstd::wrapping::isize_specs::wrapping_sub(num, d as isize),
        ChangeType::SetTo(v) => v,
    }
}

/// The value after `change` has been applied `n` times to `num`.
pub open spec fn apply_change_times(num: isize, change: ChangeType, n: nat) -> isize
    decreases n,
{
    if n == 0 {
        num
    } else {
        apply_change(apply_change_times(num, change, (n - 1) as nat), change)
    }
}

/// The number of times `x` occurs in `s`.
pub open spec fn count_of(s: Seq<usize>, x: int) -> nat
    decreases s.len(),
{
    if s.len() == 0 {
        0
    } else {
        count_of(s.drop_last(), x) + if s.last() == x {
            1nat
        } else {
            0nat
        }
    }
}

/// A single statistic value.
#[derive(Debug, Clone, Copy, PartialEq, Eq, Structural)]
pub struct StatValue {
    /// The tracked integer value.
    pub num: isize,
    /// A divisor for displaying the value only.  The trackers here always use 1.
    pub divisor: u64,
}

impl StatValue {
    /// Create a new value.
    pub fn new(num: isize, divisor: u64) -> (r: StatValue)
        ensures
            r.num == num,
            r.divisor == divisor,
    {
        StatValue { num, divisor }
    }

    /// Update the stat and return whether it has changed.
    pub fn update(&mut self, change: &ChangeType) -> (changed: bool)
        ensures
            final(self).num == apply_change(old(self).num, *change),
            final(self).divisor == old(self).divisor,
            changed == (final(self).num != old(self).num),
            *change matches ChangeType::SetTo(v) ==> final(self).num == v,
    {
        let before = self.num;
        self.num = match *change {
            ChangeType::Incr(i) => self.num.wrapping_add(i as isize),
            ChangeType::Decr(d) => self.num.wrapping_sub(d as isize),
            ChangeType::SetTo(v) => v,
        };
        self.num != before
    }
}

/// Apply `change` to each bucket value named in `buckets_to_update`.
///
/// A bucket named `k` times changes `k` times; the others are untouched.
pub fn update_bucket_values(
    bucket_values: &mut Vec<StatValue>,
    buckets_to_update: &Vec<usize>,
    change: &ChangeType,
)
    requires
        forall|k: int|
            0 <= k < buckets_to_update@.len() ==> #[trigger] buckets_to_update@[k] < old(
                bucket_values,
            )@.len(),
    ensures
        final(bucket_values)@.len() == old(bucket_values)@.len(),
        forall|i: int|
            #![trigger final(bucket_values)@[i]]
            0 <= i < old(bucket_values)@.len() ==> {
                &&& final(bucket_values)@[i].num == apply_change_times(
                    old(bucket_values)@[i].num,
                    *change,
                    count_of(buckets_to_update@, i),
                )
                &&& final(bucket_values)@[i].divisor == old(bucket_values)@[i].divisor
            },
{
    let ghost start = bucket_values@;
    let mut k: usize = 0;
    while k < buckets_to_update.len()
        invariant
            k <= buckets_to_update@.len(),
            bucket_values@.len() == start.len(),
            forall|j: int|
                0 <= j < buckets_to_update@.len() ==> #[trigger] buckets_to_update@[j]
                    < start.len(),
            forall|i: int|
                #![trigger bucket_values@[i]]
                0 <= i < start.len() ==> {
                    &&& bucket_values@[i].num == apply_change_times(
                        start[i].num,
                        *change,
                        count_of(buckets_to_update@.take(k as int), i),
                    )
                    &&& bucket_values@[i].divisor == start[i].divisor
                },
        decreases buckets_to_update@.len() - k,
    {
        let index = buckets_to_update[k];
        let mut value = bucket_values[index];
        value.update(change);
        bucket_values.set(index, value);
        proof {
            let prefix = buckets_to_update@.take(k + 1);
            assert(prefix.drop_last() =~= buckets_to_update@.take(k as int));
            assert(prefix.last() == index);
        }
        k = k + 1;
    }
    proof {
        assert(buckets_to_update@.take(k as int) =~= buckets_to_update@);
    }
}

/// Incrementing by an amount and then decrementing by the same amount gives
/// back the value it started from, overflow or not.
pub proof fn lemma_incr_then_decr(num: isize, amount: usize)
    ensures
        apply_change(apply_change(num, ChangeType::Incr(amount)), ChangeType::Decr(amount)) == num,
{
    let a = amount as isize;
    let x = vstd::wrapping::isize_specs::wrapping_add(num, a);
    assert(vstd::wrapping::isize_specs::wrapping_sub(x, a) == num);
}

/// Setting a value to `v` leaves exactly `v`, whatever it held before, and
/// the value changes exactly when it held something else.
pub proof fn lemma_set_to_sets(num: isize, v: isize)
    ensures
        apply_change(num, ChangeType::SetTo(v)) == v,
        (apply_change(num, ChangeType::SetTo(v)) != num) <==> (num != v),
{
}

/// Setting a value twice to the same number is the same as setting it once.
pub proof fn lemma_set_to_idempotent(num: isize, v: isize)
    ensures
        apply_change(apply_change(num, ChangeType::SetTo(v)), ChangeType::SetTo(v)) == apply_change(
            num,
            ChangeType::SetTo(v),
        ),
{
}

/// When no overflow occurs, an increment adds its amount and a decrement
/// subtracts it.
pub proof fn lemma_change_without_overflow(num: isize, amount: usize)
    ensures
        amount <= isize::MAX && num + amount <= isize::MAX ==> apply_change(
            num,
            ChangeType::Incr(amount),
        ) == num + amount,
        amount <= isize::MAX && num - amount >= isize::MIN ==> apply_change(
            num,
            ChangeType::Decr(amount),
        ) == num - amount,
{
}

/// An increment or decrement that overflows wraps around once: the value
/// is the exact sum or difference moved by the size of the `isize` range.
pub proof fn lemma_change_wraps_around(num: isize, amount: usize)
    requires
        amount <= isize::MAX,
    ensures
        num + amount > isize::MAX ==> apply_change(num, ChangeType::Incr(amount)) == num + amount
            - (isize::MAX - isize::MIN + 1),
        num - amount < isize::MIN ==> apply_change(num, ChangeType::Decr(amount)) == num - amount
            + (isize::MAX - isize::MIN + 1),
{
}

} // verus!
