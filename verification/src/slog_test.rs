//! The logic of the helpers for testing logs: which logs lie in a range of
//! log identifiers.

use vstd::prelude::*;

verus! {

/// Whether the string `a` comes strictly before `b` in lexicographic order
/// of characters (for UTF-8 text this is the order in which `str` values
/// compare, byte by byte).
pub open spec fn str_lt(a: Seq<char>, b: Seq<char>) -> bool
    decreases a.len(),
{
    if b.len() == 0 {
        false
    } else if a.len() == 0 {
        true
    } else if a[0] != b[0] {
        (a[0] as int) < (b[0] as int)
    } else {
        str_lt(a.drop_first(), b.drop_first())
    }
}

/// Whether `a` comes before `b` or equals it.
pub open spec fn str_le(a: Seq<char>, b: Seq<char>) -> bool {
    a == b || str_lt(a, b)
}

/// Whether `a` comes strictly before `b`.
pub fn str_less(a: &str, b: &str) -> (r: bool)
    ensures
        r == str_lt(a@, b@),
{
    let na = a.unicode_len();
    let nb = b.unicode_len();
    let mut i: usize = 0;
    proof {
        assert(a@.skip(0) =~= a@);
        assert(b@.skip(0) =~= b@);
    }
    while i < na && i < nb
        invariant
            na == a@.len(),
            nb == b@.len(),
            i <= na,
            i <= nb,
            str_lt(a@, b@) == str_lt(a@.skip(i as int), b@.skip(i as int)),
        decreases na - i,
    {
        let ca = a.get_char(i);
        let cb = b.get_char(i);
        proof {
            assert(a@.skip(i as int)[0] == ca);
            assert(b@.skip(i as int)[0] == cb);
            assert(a@.skip(i as int).drop_first() =~= a@.skip(i + 1));
            assert(b@.skip(i as int).drop_first() =~= b@.skip(i + 1));
        }
        if ca != cb {
            return ca < cb;
        }
        i = i + 1;
    }
    proof {
        if i == nb {
            assert(b@.skip(i as int).len() == 0);
        } else {
            assert(a@.skip(i as int).len() == 0);
        }
    }
    i < nb
}

/// Whether a log with identifier `log_id` lies in the range from `min_id`
/// (inclusive) to `max_id` (exclusive).  A log without an identifier lies in
/// no range.
pub fn log_id_in_range(min_id: &str, max_id: &str, log_id: Option<&str>) -> (r: bool)
    ensures
        r == match log_id {
            Some(id) => str_le(min_id@, id@) && str_lt(id@, max_id@),
            None => false,
        },
{
    match log_id {
        Some(id) => {
            let below_min = str_less(id, min_id);
            proof {
                lemma_str_lt_total(id@, min_id@);
            }
            !below_min && str_less(id, max_id)
        },
        None => false,
    }
}

/// No string comes strictly before itself.
pub proof fn lemma_str_lt_irreflexive(a: Seq<char>)
    ensures
        !str_lt(a, a),
    decreases a.len(),
{
    if a.len() > 0 {
        lemma_str_lt_irreflexive(a.drop_first());
    }
}

/// The order of strings is total and strict: exactly one of `a < b`,
/// `a == b` and `b < a` holds.
pub proof fn lemma_str_lt_total(a: Seq<char>, b: Seq<char>)
    ensures
        str_lt(a, b) || a == b || str_lt(b, a),
        !(str_lt(a, b) && str_lt(b, a)),
        !str_lt(a, a),
    decreases a.len(),
{
    lemma_str_lt_irreflexive(a);
    if a.len() > 0 && b.len() > 0 {
        if a[0] == b[0] {
            lemma_str_lt_total(a.drop_first(), b.drop_first());
            if a.drop_first() == b.drop_first() {
                assert(a =~= seq![a[0]] + a.drop_first());
                assert(b =~= seq![b[0]] + b.drop_first());
            }
        }
    } else if a.len() == 0 && b.len() == 0 {
        assert(a =~= b);
    }
}

/// At the first place where two strings differ, the one whose character
/// there has the smaller code point comes first.
pub proof fn lemma_str_lt_first_difference(a: Seq<char>, b: Seq<char>, k: int)
    requires
        0 <= k < a.len(),
        k < b.len(),
        a[k] != b[k],
        forall|j: int| 0 <= j < k ==> a[j] == b[j],
    ensures
        str_lt(a, b) <==> (a[k] as int) < (b[k] as int),
    decreases k,
{
    if k > 0 {
        assert(a[0] == b[0]);
        assert forall|j: int| 0 <= j < k - 1 implies a.drop_first()[j] == b.drop_first()[j] by {
            assert(a[j + 1] == b[j + 1]);
        }
        lemma_str_lt_first_difference(a.drop_first(), b.drop_first(), k - 1);
    }
}

/// A string comes before every longer string that it begins, and after or
/// equal to every string that begins it.
pub proof fn lemma_str_lt_prefix(a: Seq<char>, b: Seq<char>)
    requires
        a.len() <= b.len(),
        forall|j: int| 0 <= j < a.len() ==> a[j] == b[j],
    ensures
        str_lt(a, b) <==> a.len() < b.len(),
        !str_lt(b, a),
    decreases a.len(),
{
    if a.len() > 0 {
        assert(a[0] == b[0]);
        assert forall|j: int| 0 <= j < a.len() - 1 implies a.drop_first()[j] == b.drop_first()[j] by {
            assert(a[j + 1] == b[j + 1]);
        }
        lemma_str_lt_prefix(a.drop_first(), b.drop_first());
    }
}

/// The order of strings is transitive.
pub proof fn lemma_str_lt_transitive(a: Seq<char>, b: Seq<char>, c: Seq<char>)
    requires
        str_lt(a, b),
        str_lt(b, c),
    ensures
        str_lt(a, c),
    decreases a.len(),
{
    if a.len() > 0 && a[0] == b[0] && b[0] == c[0] {
        lemma_str_lt_transitive(a.drop_first(), b.drop_first(), c.drop_first());
    }
}

/// The identifier of a log, as the text it sorts by (empty if it has none).
pub open spec fn id_key(id: Option<String>) -> Seq<char> {
    match id {
        Some(s) => s@,
        None => Seq::empty(),
    }
}

/// Whether a log with identifier `id` lies in the range from `min_id`
/// (inclusive) to `max_id` (exclusive).
pub open spec fn id_in_range(min_id: Seq<char>, max_id: Seq<char>, id: Option<String>) -> bool {
    match id {
        Some(s) => str_le(min_id, s@) && str_lt(s@, max_id),
        None => false,
    }
}

/// Whether log `i` comes before log `j` when logs are sorted by identifier,
/// keeping the given order of logs with the same identifier.
pub open spec fn sorted_before(ids: Seq<Option<String>>, i: int, j: int) -> bool {
    ||| str_lt(id_key(ids[i]), id_key(ids[j]))
    ||| (id_key(ids[i]) == id_key(ids[j]) && i < j)
}

/// The positions of the logs whose identifiers lie in the range from
/// `min_id` (inclusive) to `max_id` (exclusive), in ascending order of
/// identifier; logs with the same identifier keep their order.
pub fn logs_in_range_order(min_id: &str, max_id: &str, log_ids: &Vec<Option<String>>) -> (r: Vec<usize>)
    ensures
        forall|k: int|
            0 <= k < r@.len() ==> #[trigger] r@[k] < log_ids@.len() && id_in_range(
                min_id@,
                max_id@,
                log_ids@[r@[k] as int],
            ),
        forall|i: int|
            0 <= i < log_ids@.len() && id_in_range(min_id@, max_id@, #[trigger] log_ids@[i])
                ==> r@.contains(i as usize),
        forall|k1: int, k2: int|
            0 <= k1 < k2 < r@.len() ==> sorted_before(log_ids@, r@[k1] as int, r@[k2] as int),
{
    let ghost ids = log_ids@;
    let n = log_ids.len();
    let mut r: Vec<usize> = Vec::new();
    let mut i: usize = 0;
    while i < n
        invariant
            n == ids.len(),
            ids == log_ids@,
            i <= n,
            forall|k: int|
                0 <= k < r@.len() ==> #[trigger] r@[k] < i && id_in_range(
                    min_id@,
                    max_id@,
                    ids[r@[k] as int],
                ),
            forall|j: int|
                0 <= j < i && id_in_range(min_id@, max_id@, #[trigger] ids[j]) ==> r@.contains(
                    j as usize,
                ),
            forall|k1: int, k2: int|
                0 <= k1 < k2 < r@.len() ==> sorted_before(ids, r@[k1] as int, r@[k2] as int),
        decreases n - i,
    {
        let key = match &log_ids[i] {
            Some(s) => Some(s.as_str()),
            None => None,
        };
        let keep = log_id_in_range(min_id, max_id, key);
        if keep {
            let id = key.unwrap();
            let mut p: usize = 0;
            while p < r.len() && !str_less(id, id_of(log_ids, r[p]))
                invariant
                    ids == log_ids@,
                    n == ids.len(),
                    i < n,
                    id@ == id_key(ids[i as int]),
                    p <= r@.len(),
                    forall|k: int| 0 <= k < r@.len() ==> #[trigger] r@[k] < i,
                    forall|q: int|
                        0 <= q < p ==> !str_lt(id@, id_key(ids[#[trigger] r@[q] as int])),
                decreases r@.len() - p,
            {
                p = p + 1;
            }
            let ghost before = r@;
            proof {
                lemma_insert_sorted(ids, before, i as int, p as int, before.insert(p as int, i));
            }
            r.insert(p, i);
            proof {
                assert forall|j: int|
                    0 <= j < i + 1 && id_in_range(min_id@, max_id@, #[trigger] ids[j]) implies r@.contains(
                    j as usize,
                ) by {
                    if j < i {
                        let w = choose|w: int| 0 <= w < before.len() && before[w] == j as usize;
                        if w < p {
                            assert(r@[w] == j as usize);
                        } else {
                            assert(r@[w + 1] == j as usize);
                        }
                    } else {
                        assert(r@[p as int] == j as usize);
                    }
                }
            }
        } else {
            proof {
                assert forall|j: int|
                    0 <= j < i + 1 && id_in_range(min_id@, max_id@, #[trigger] ids[j]) implies r@.contains(
                    j as usize,
                ) by {
                    if j == i {
                        assert(false);
                    }
                }
            }
        }
        i = i + 1;
    }
    r
}

/// The identifier of the log at position `i` (empty if it has none).
fn id_of(log_ids: &Vec<Option<String>>, i: usize) -> (r: &str)
    requires
        i < log_ids@.len(),
    ensures
        r@ == id_key(log_ids@[i as int]),
{
    proof {
        reveal_strlit("");
    }
    match &log_ids[i] {
        Some(s) => s.as_str(),
        None => "",
    }
}

/// Inserting log `i` (later than every log in `r`) in sorted position `p`,
/// after every log whose identifier it does not precede, keeps `r` sorted,
/// provided the log at `p` (if any) has an identifier it precedes.
proof fn lemma_insert_sorted(ids: Seq<Option<String>>, r: Seq<usize>, i: int, p: int, r2: Seq<usize>)
    requires
        r2 == r.insert(p, i as usize),
        0 <= p <= r.len(),
        forall|k: int| 0 <= k < r.len() ==> #[trigger] r[k] < i,
        forall|k1: int, k2: int|
            0 <= k1 < k2 < r.len() ==> sorted_before(ids, r[k1] as int, r[k2] as int),
        forall|q: int| 0 <= q < p ==> !str_lt(id_key(ids[i]), id_key(ids[#[trigger] r[q] as int])),
        p < r.len() ==> str_lt(id_key(ids[i]), id_key(ids[r[p] as int])),
        0 <= i <= usize::MAX,
    ensures
        forall|k1: int, k2: int|
            0 <= k1 < k2 < r2.len() ==> sorted_before(ids, #[trigger] r2[k1] as int, #[trigger] r2[k2] as int),
{
    let ki = id_key(ids[i]);
    assert forall|k1: int, k2: int| 0 <= k1 < k2 < r2.len() implies sorted_before(
        ids,
        r2[k1] as int,
        r2[k2] as int,
    ) by {
        if k1 < p && k2 < p {
            assert(r2[k1] == r[k1] && r2[k2] == r[k2]);
        } else if k1 > p && k2 > p {
            assert(r2[k1] == r[k1 - 1] && r2[k2] == r[k2 - 1]);
        } else if k1 < p && k2 > p {
            assert(r2[k1] == r[k1] && r2[k2] == r[k2 - 1]);
        } else if k1 == p {
            assert(r2[k1] == i as usize && r2[k2] == r[k2 - 1]);
            let kq = id_key(ids[r[k2 - 1] as int]);
            let kp = id_key(ids[r[p] as int]);
            if k2 - 1 > p {
                assert(sorted_before(ids, r[p] as int, r[k2 - 1] as int));
                if str_lt(kp, kq) {
                    lemma_str_lt_transitive(ki, kp, kq);
                }
            }
        } else {
            assert(k2 == p);
            assert(r2[k1] == r[k1] && r2[k2] == i as usize);
            let kq = id_key(ids[r[k1] as int]);
            lemma_str_lt_total(ki, kq);
        }
    }
}

} // verus!
