use vstd::prelude::*;

verus! {

/// Used to determine which buckets to update when a bucket counter is updated.
#[derive(Debug, Clone, Copy, PartialEq, Eq, Structural)]
pub enum BucketMethod {
    /// When a value is recorded, only update the bucket it lands in.
    Freq,
    /// When a value is recorded, update its bucket and every higher bucket.
    CumulFreq,
}

/// The upper limit of a bucket.
#[derive(Debug, Clone, Copy, PartialEq, Eq, Structural)]
pub enum BucketLimit {
    /// A numerical upper limit: the bits of an `f64` (`f64::to_bits`).
    Num(u64),
    /// A bucket with no upper limit.
    Unbounded,
}

/// The sign bit of the bits of an `f64`.
pub open spec fn sign_bit() -> int {
    0x8000_0000_0000_0000int
}

/// Whether the `f64` with the bits `b` is NaN: every exponent bit is set and
/// some fraction bit is set.
pub open spec fn is_nan_bits(b: u64) -> bool {
    (b as int) % sign_bit() > 0x7FF0_0000_0000_0000int
}

/// The place of the (non-NaN) `f64` with the bits `b` in the order of
/// `f64` values: the bits without the sign, negated for a negative value.
/// IEEE 754 lays out the magnitudes so that their bits grow with them, and
/// `-0.0` and `0.0` share the place 0.
pub open spec fn float_key(b: u64) -> int {
    if b >= sign_bit() {
        -(b - sign_bit())
    } else {
        b as int
    }
}

/// Whether the `f64` with the bits `a` is less than or equal to the one with
/// the bits `b`, as `<=` on `f64` compares them: never when either is NaN.
pub open spec fn float_le(a: u64, b: u64) -> bool {
    !is_nan_bits(a) && !is_nan_bits(b) && float_key(a) <= float_key(b)
}

/// Whether the `f64` with the bits `a` is at most the one with the bits `b`.
pub fn float_bits_le(a: u64, b: u64) -> (r: bool)
    ensures
        r == float_le(a, b),
{
    let sign: u64 = 0x8000_0000_0000_0000;
    let nan_from: u64 = 0x7FF0_0000_0000_0000;
    let ma = if a >= sign { a - sign } else { a };
    let mb = if b >= sign { b - sign } else { b };
    if ma > nan_from || mb > nan_from {
        return false;
    }
    // Compare the places: negative values (with their magnitude) below the
    // positive ones, and zero of either sign at 0.
    if a >= sign {
        if b >= sign {
            mb <= ma
        } else {
            true
        }
    } else {
        if b >= sign {
            ma == 0 && mb == 0
        } else {
            ma <= mb
        }
    }
}

/// Whether the limit `a` is less than or equal to the limit `b`.
///
/// Every numerical limit lies below the unbounded one; a NaN limit is
/// comparable with no numerical limit, itself included.
pub open spec fn limit_le(a: BucketLimit, b: BucketLimit) -> bool {
    match (a, b) {
        (BucketLimit::Num(f1), BucketLimit::Num(f2)) => float_le(f1, f2),
        (BucketLimit::Unbounded, BucketLimit::Num(_)) => false,
        _ => true,
    }
}

/// Whether a value (the bits of an `f64`) lies within the upper limit
/// `limit`.
pub open spec fn within_limit(limit: BucketLimit, value: u64) -> bool {
    match limit {
        BucketLimit::Num(f) => float_le(value, f),
        BucketLimit::Unbounded => true,
    }
}

impl BucketLimit {
    /// Returns whether another `BucketLimit` is less than or equal to self.
    pub fn le(&self, other: &BucketLimit) -> (r: bool)
        ensures
            r == limit_le(*other, *self),
    {
        match (self, other) {
            (BucketLimit::Num(f1), BucketLimit::Num(f2)) => float_bits_le(*f2, *f1),
            (BucketLimit::Num(_), BucketLimit::Unbounded) => false,
            _ => true,
        }
    }
}

/// The limits of a set of buckets as `Buckets::new` makes them: one
/// numerical limit per given number, in order, then the unbounded bucket.
pub open spec fn limits_wf(limits: Seq<BucketLimit>) -> bool {
    &&& limits.len() >= 1
    &&& limits.last() == BucketLimit::Unbounded
    &&& forall|i: int| 0 <= i < limits.len() - 1 ==> (#[trigger] limits[i]) is Num
}

/// The limits that `Buckets::new` makes from the numbers `nums`.
pub open spec fn limits_from(nums: Seq<u64>) -> Seq<BucketLimit> {
    nums.map_values(|f: u64| BucketLimit::Num(f)).push(BucketLimit::Unbounded)
}

/// Whether bucket `i` is one whose numerical limit admits `value`.
pub open spec fn is_candidate(limits: Seq<BucketLimit>, value: u64, i: int) -> bool {
    &&& 0 <= i < limits.len()
    &&& limits[i] is Num
    &&& float_le(value, limits[i]->Num_0)
}

/// Whether `idx` is the single bucket that a value lands in: the bucket with
/// the smallest numerical limit at or above the value (the last of them if
/// several share that limit), or the unbounded last bucket if there is none.
pub open spec fn is_freq_bucket(limits: Seq<BucketLimit>, value: u64, idx: int) -> bool {
    if exists|i: int| is_candidate(limits, value, i) {
        &&& is_candidate(limits, value, idx)
        &&& forall|j: int|
            #![trigger is_candidate(limits, value, j)]
            is_candidate(limits, value, j) ==> {
                ||| float_key(limits[idx]->Num_0) < float_key(limits[j]->Num_0)
                ||| (float_key(limits[idx]->Num_0) == float_key(limits[j]->Num_0) && j <= idx)
            }
    } else {
        idx == limits.len() - 1
    }
}

/// Whether `r` lists, in increasing order, exactly the buckets whose limits
/// admit `value`.
pub open spec fn is_cumul_buckets(limits: Seq<BucketLimit>, value: u64, r: Seq<usize>) -> bool {
    &&& forall|k: int|
        0 <= k < r.len() ==> #[trigger] r[k] < limits.len() && within_limit(limits[r[k] as int], value)
    &&& forall|k1: int, k2: int| 0 <= k1 < k2 < r.len() ==> r[k1] < r[k2]
    &&& forall|i: int|
        0 <= i < limits.len() && within_limit(#[trigger] limits[i], value) ==> r.contains(i as usize)
}

/// Whether bucket `i` changes when `value` is recorded with `method`.
pub open spec fn bucket_hit(method: BucketMethod, limits: Seq<BucketLimit>, value: u64, i: int) -> bool {
    match method {
        BucketMethod::Freq => is_freq_bucket(limits, value, i),
        BucketMethod::CumulFreq => within_limit(limits[i], value),
    }
}

/// The abstract content of a set of buckets.
pub struct BucketsView {
    pub method: BucketMethod,
    pub limits: Seq<BucketLimit>,
}

/// A set of numerical buckets together with a method for sorting values into them.
#[derive(Debug, Clone)]
pub struct Buckets {
    /// The method to use to sort values into buckets.
    method: BucketMethod,
    /// The upper bounds of the buckets.
    limits: Vec<BucketLimit>,
}

impl View for Buckets {
    type V = BucketsView;

    closed spec fn view(&self) -> BucketsView {
        BucketsView { method: self.method, limits: self.limits@ }
    }
}

impl Buckets {
    /// Whether these buckets are as `new` makes them.
    pub open spec fn wf(&self) -> bool {
        limits_wf(self@.limits)
    }

    /// Create a new set of buckets: one per given limit (the bits of an
    /// `f64`), in order, followed by an unbounded bucket.
    pub fn new(method: BucketMethod, limits: Vec<u64>) -> (r: Buckets)
        requires
            limits@.len() < usize::MAX,
        ensures
            r@.method == method,
            r@.limits == limits_from(limits@),
            r.wf(),
    {
        let mut bucket_limits: Vec<BucketLimit> = Vec::new();
        let mut i: usize = 0;
        while i < limits.len()
            invariant
                i <= limits@.len(),
                bucket_limits@ == limits@.take(i as int).map_values(|f: u64| BucketLimit::Num(f)),
            decreases limits@.len() - i,
        {
            bucket_limits.push(BucketLimit::Num(limits[i]));
            i = i + 1;
            proof {
                assert(limits@.take(i as int).map_values(|f: u64| BucketLimit::Num(f))
                    =~= limits@.take(i - 1).map_values(|f: u64| BucketLimit::Num(f)).push(
                    BucketLimit::Num(limits@[i - 1]),
                ));
            }
        }
        proof {
            assert(limits@.take(i as int) =~= limits@);
        }
        bucket_limits.push(BucketLimit::Unbounded);
        let r = Buckets { method, limits: bucket_limits };
        proof {
            assert(r@.limits =~= limits_from(limits@));
        }
        r
    }

    /// The method used to sort values into these buckets.
    pub fn method(&self) -> (r: BucketMethod)
        ensures
            r == self@.method,
    {
        self.method
    }

    /// Return the indices of the buckets that should be updated when `value`
    /// is recorded.
    ///
    /// With `CumulFreq` these are all the buckets whose limit admits the
    /// value, in increasing order; with `Freq` it is the single bucket the
    /// value lands in.
    pub fn assign_buckets(&self, value: u64) -> (r: Vec<usize>)
        requires
            self.wf(),
        ensures
            match self@.method {
                BucketMethod::CumulFreq => is_cumul_buckets(self@.limits, value, r@),
                BucketMethod::Freq => r@.len() == 1 && is_freq_bucket(
                    self@.limits,
                    value,
                    r@[0] as int,
                ),
            },
            forall|k: int| 0 <= k < r@.len() ==> #[trigger] r@[k] < self@.limits.len(),
    {
        let limits = &self.limits;
        let n = limits.len();
        match self.method {
            BucketMethod::CumulFreq => {
                let mut buckets: Vec<usize> = Vec::new();
                let mut i: usize = 0;
                while i < n
                    invariant
                        n == limits@.len(),
                        i <= n,
                        forall|k: int|
                            0 <= k < buckets@.len() ==> #[trigger] buckets@[k] < i
                                && within_limit(limits@[buckets@[k] as int], value),
                        forall|k1: int, k2: int|
                            0 <= k1 < k2 < buckets@.len() ==> buckets@[k1] < buckets@[k2],
                        forall|j: int|
                            0 <= j < i && within_limit(#[trigger] limits@[j], value)
                                ==> buckets@.contains(j as usize),
                    decreases n - i,
                {
                    let admits = match limits[i] {
                        BucketLimit::Num(f) => float_bits_le(value, f),
                        BucketLimit::Unbounded => true,
                    };
                    if admits {
                        let ghost before = buckets@;
                        buckets.push(i);
                        proof {
                            assert forall|j: int|
                                0 <= j < i + 1 && within_limit(#[trigger] limits@[j], value)
                                implies buckets@.contains(j as usize) by {
                                if j < i {
                                    let w = choose|w: int|
                                        0 <= w < before.len() && before[w] == j as usize;
                                    assert(buckets@[w] == j as usize);
                                } else {
                                    assert(buckets@[before.len() as int] == j as usize);
                                }
                            }
                        }
                    } else {
                        proof {
                            assert forall|j: int|
                                0 <= j < i + 1 && within_limit(#[trigger] limits@[j], value)
                                implies buckets@.contains(j as usize) by {
                                if j == i {
                                    assert(false);
                                }
                            }
                        }
                    }
                    i = i + 1;
                }
                buckets
            },
            BucketMethod::Freq => {
                let mut min_limit_index: usize = n - 1;
                let mut i: usize = 0;
                while i < n
                    invariant
                        n == limits@.len(),
                        limits_wf(limits@),
                        i <= n,
                        min_limit_index < n,
                        if exists|j: int| 0 <= j < i && is_candidate(limits@, value, j) {
                            &&& min_limit_index < i
                            &&& is_candidate(limits@, value, min_limit_index as int)
                            &&& forall|j: int|
                                #![trigger is_candidate(limits@, value, j)]
                                0 <= j < i && is_candidate(limits@, value, j) ==> {
                                    ||| float_key(limits@[min_limit_index as int]->Num_0) < float_key(limits@[j]->Num_0)
                                    ||| (float_key(limits@[min_limit_index as int]->Num_0)
                                        == float_key(limits@[j]->Num_0) && j <= min_limit_index)
                                }
                        } else {
                            min_limit_index == n - 1
                        },
                    decreases n - i,
                {
                    let ghost old_min = min_limit_index;
                    let ghost had = exists|j: int| 0 <= j < i && is_candidate(limits@, value, j);
                    let limit = limits[i];
                    if let BucketLimit::Num(f) = limit {
                        if float_bits_le(value, f) && limits[min_limit_index].le(&limit) {
                            min_limit_index = i;
                        }
                    }
                    proof {
                        if had {
                            let w = choose|j: int| 0 <= j < i && is_candidate(limits@, value, j);
                            assert(0 <= w < i + 1 && is_candidate(limits@, value, w));
                        } else {
                            assert(!exists|j: int| 0 <= j < i && is_candidate(limits@, value, j));
                            if is_candidate(limits@, value, i as int) {
                                assert(limits@[old_min as int] == BucketLimit::Unbounded);
                                assert(min_limit_index == i);
                                assert forall|j: int|
                                    #![trigger is_candidate(limits@, value, j)]
                                    0 <= j < i + 1 && is_candidate(limits@, value, j) implies j
                                    == i by {
                                    if j < i {
                                        assert(exists|j2: int|
                                            0 <= j2 < i && is_candidate(limits@, value, j2));
                                    }
                                }
                            } else {
                                assert forall|j: int|
                                    0 <= j < i + 1 implies !is_candidate(limits@, value, j) by {
                                    if j < i {
                                        if is_candidate(limits@, value, j) {
                                            assert(exists|j2: int|
                                                0 <= j2 < i && is_candidate(limits@, value, j2));
                                        }
                                    }
                                }
                            }
                        }
                    }
                    i = i + 1;
                }
                proof {
                    if exists|j: int| is_candidate(limits@, value, j) {
                        let w = choose|j: int| is_candidate(limits@, value, j);
                        assert(0 <= w < i && is_candidate(limits@, value, w));
                    }
                }
                let mut r: Vec<usize> = Vec::new();
                r.push(min_limit_index);
                r
            },
        }
    }

    /// The number of buckets.
    pub fn len(&self) -> (r: usize)
        ensures
            r == self@.limits.len(),
    {
        self.limits.len()
    }

    /// Get the bound of an individual bucket by index.
    pub fn get(&self, index: usize) -> (r: Option<BucketLimit>)
        ensures
            r == if index < self@.limits.len() {
                Some(self@.limits[index as int])
            } else {
                None::<BucketLimit>
            },
    {
        if index < self.limits.len() {
            Some(self.limits[index])
        } else {
            None
        }
    }
}


/// A value lands in at most one bucket.
pub proof fn lemma_freq_bucket_unique(limits: Seq<BucketLimit>, value: u64, a: int, b: int)
    requires
        is_freq_bucket(limits, value, a),
    ensures
        is_freq_bucket(limits, value, b) <==> a == b,
{
    if is_freq_bucket(limits, value, b) {
        if exists|i: int| is_candidate(limits, value, i) {
            assert(is_candidate(limits, value, a));
            assert(is_candidate(limits, value, b));
        }
    }
}


/// The order on bucket limits that are not NaN is a total preorder with
/// the unbounded limit at the top.
pub proof fn lemma_limit_le_total_preorder(a: BucketLimit, b: BucketLimit, c: BucketLimit)
    requires
        a matches BucketLimit::Num(f) ==> !is_nan_bits(f),
        b matches BucketLimit::Num(f) ==> !is_nan_bits(f),
        c matches BucketLimit::Num(f) ==> !is_nan_bits(f),
    ensures
        limit_le(a, a),
        limit_le(a, b) || limit_le(b, a),
        limit_le(a, b) && limit_le(b, c) ==> limit_le(a, c),
        limit_le(a, BucketLimit::Unbounded),
{
}

/// The bucket a value lands in is one whose limit admits it, so it is always
/// among the buckets a cumulative count of the value updates.
pub proof fn lemma_freq_bucket_admits(limits: Seq<BucketLimit>, value: u64, idx: int)
    requires
        limits_wf(limits),
        is_freq_bucket(limits, value, idx),
    ensures
        0 <= idx < limits.len(),
        within_limit(limits[idx], value),
{
}

/// Every value lands in some bucket.
pub proof fn lemma_freq_bucket_exists(limits: Seq<BucketLimit>, value: u64) -> (idx: int)
    requires
        limits_wf(limits),
    ensures
        is_freq_bucket(limits, value, idx),
{
    if exists|i: int| is_candidate(limits, value, i) {
        lemma_best_candidate(limits, value, limits.len() as int)
    } else {
        limits.len() - 1
    }
}

/// The best candidate among the buckets below `n`, if there is a candidate.
proof fn lemma_best_candidate(limits: Seq<BucketLimit>, value: u64, n: int) -> (idx: int)
    requires
        0 <= n <= limits.len(),
        exists|i: int| 0 <= i < n && is_candidate(limits, value, i),
    ensures
        0 <= idx < n,
        is_candidate(limits, value, idx),
        forall|j: int|
            #![trigger is_candidate(limits, value, j)]
            0 <= j < n && is_candidate(limits, value, j) ==> {
                ||| float_key(limits[idx]->Num_0) < float_key(limits[j]->Num_0)
                ||| (float_key(limits[idx]->Num_0) == float_key(limits[j]->Num_0) && j <= idx)
            },
    decreases n,
{
    if exists|i: int| 0 <= i < n - 1 && is_candidate(limits, value, i) {
        let prev = lemma_best_candidate(limits, value, n - 1);
        if is_candidate(limits, value, n - 1) && float_key(limits[n - 1]->Num_0) <= float_key(limits[prev]->Num_0) {
            n - 1
        } else {
            prev
        }
    } else {
        assert(is_candidate(limits, value, n - 1));
        n - 1
    }
}

/// A cumulative count always includes the unbounded last bucket.
pub proof fn lemma_cumul_includes_unbounded(limits: Seq<BucketLimit>, value: u64)
    requires
        limits_wf(limits),
    ensures
        within_limit(limits[limits.len() - 1], value),
        bucket_hit(BucketMethod::CumulFreq, limits, value, limits.len() - 1),
{
}

/// With strictly increasing limits, a cumulative count updates exactly the
/// bucket the value lands in and every higher bucket.
pub proof fn lemma_sorted_cumul_is_suffix(limits: Seq<BucketLimit>, value: u64, idx: int, i: int)
    requires
        limits_wf(limits),
        forall|a: int, b: int|
            0 <= a < b < limits.len() - 1 ==> float_key(limits[a]->Num_0) < float_key(
                limits[b]->Num_0,
            ),
        forall|a: int| 0 <= a < limits.len() - 1 ==> !is_nan_bits(#[trigger] limits[a]->Num_0),
        is_freq_bucket(limits, value, idx),
        0 <= i < limits.len(),
    ensures
        within_limit(limits[i], value) <==> idx <= i,
{
    if exists|c: int| is_candidate(limits, value, c) {
        if i < limits.len() - 1 {
            if within_limit(limits[i], value) {
                assert(is_candidate(limits, value, i));
                if i < idx {
                    assert(float_key(limits[i]->Num_0) < float_key(limits[idx]->Num_0));
                }
            } else if idx <= i {
                assert(float_key(limits[idx]->Num_0) <= float_key(limits[i]->Num_0));
            }
        }
    } else {
        if i < limits.len() - 1 {
            assert(!is_candidate(limits, value, i));
        }
    }
}

/// The buckets made from limits `nums`: one per number, in order, then the
/// unbounded one.
pub proof fn lemma_limits_from(nums: Seq<u64>)
    ensures
        limits_from(nums).len() == nums.len() + 1,
        forall|i: int| 0 <= i < nums.len() ==> limits_from(nums)[i] == BucketLimit::Num(#[trigger] nums[i]),
        limits_from(nums)[nums.len() as int] == BucketLimit::Unbounded,
        limits_wf(limits_from(nums)),
{
}

} // verus!
