//! Joining the tag values of a grouped statistic into the key under which
//! its grouped value is tracked, and splitting such a key again.

use vstd::prelude::*;

use crate::stats::defn::string_views;

verus! {

/// The tag values `parts` joined with commas.
pub open spec fn join_tags(parts: Seq<Seq<char>>) -> Seq<char>
    decreases parts.len(),
{
    if parts.len() == 0 {
        Seq::empty()
    } else if parts.len() == 1 {
        parts[0]
    } else {
        join_tags(parts.drop_last()) + seq![','] + parts.last()
    }
}

/// The pieces of `s` between commas, as `str::split(',')` gives them: one
/// more piece than there are commas, some of which may be empty.
pub open spec fn split_commas(s: Seq<char>) -> Seq<Seq<char>>
    decreases s.len(),
{
    if s.len() == 0 {
        seq![Seq::empty()]
    } else {
        let prev = split_commas(s.drop_last());
        if s.last() == ',' {
            prev.push(Seq::empty())
        } else {
            prev.update(prev.len() - 1, prev.last().push(s.last()))
        }
    }
}

/// Whether `s` holds no comma.
pub open spec fn comma_free(s: Seq<char>) -> bool {
    !s.contains(',')
}

/// Join tag values with commas.
pub fn join_tag_values(parts: &Vec<String>) -> (r: String)
    ensures
        r@ == join_tags(string_views(parts@)),
{
    let ghost views = string_views(parts@);
    let mut r = String::new();
    let mut i: usize = 0;
    while i < parts.len()
        invariant
            i <= parts@.len(),
            views == string_views(parts@),
            r@ == join_tags(views.take(i as int)),
        decreases parts@.len() - i,
    {
        proof {
            reveal_strlit(",");
            assert(views.take(i + 1).drop_last() =~= views.take(i as int));
        }
        if i > 0 {
            r.append(",");
        }
        r.append(parts[i].as_str());
        proof {
            if i == 0 {
                assert(r@ =~= views.take(1)[0]);
            } else {
                assert(r@ =~= join_tags(views.take(i as int)) + seq![','] + views[i as int]);
            }
        }
        i = i + 1;
    }
    proof {
        assert(views.take(i as int) =~= views);
    }
    r
}

/// Split a string at its commas.
pub fn split_tag_values(s: &str) -> (r: Vec<String>)
    ensures
        string_views(r@) == split_commas(s@),
{
    let n = s.unicode_len();
    let mut segs: Vec<String> = Vec::new();
    let mut start: usize = 0;
    let mut i: usize = 0;
    proof {
        assert(s@.take(0) =~= Seq::<char>::empty());
        assert(string_views(segs@).push(s@.subrange(0, 0)) =~= seq![Seq::<char>::empty()]);
    }
    while i < n
        invariant
            n == s@.len(),
            start <= i <= n,
            split_commas(s@.take(i as int)) == string_views(segs@).push(
                s@.subrange(start as int, i as int),
            ),
        decreases n - i,
    {
        let c = s.get_char(i);
        let ghost prev_segs = segs@;
        proof {
            assert(s@.take(i + 1).drop_last() =~= s@.take(i as int));
            assert(s@.take(i + 1).last() == c);
        }
        if c == ',' {
            let piece = String::from_str(s.substring_char(start, i));
            segs.push(piece);
            start = i + 1;
            proof {
                assert(string_views(segs@) =~= string_views(prev_segs).push(piece@));
                assert(s@.subrange(start as int, i + 1) =~= Seq::<char>::empty());
            }
        } else {
            proof {
                assert(s@.subrange(start as int, i + 1) =~= s@.subrange(start as int, i as int).push(c));
            }
        }
        i = i + 1;
    }
    let last = String::from_str(s.substring_char(start, n));
    let ghost prev_segs = segs@;
    segs.push(last);
    proof {
        assert(s@.take(n as int) =~= s@);
        assert(string_views(segs@) =~= string_views(prev_segs).push(last@));
    }
    segs
}

/// Splitting a comma-free string gives the string itself.
pub proof fn lemma_split_comma_free(s: Seq<char>)
    requires
        comma_free(s),
    ensures
        split_commas(s) == seq![s],
    decreases s.len(),
{
    if s.len() == 0 {
        assert(s =~= Seq::<char>::empty());
        assert(split_commas(s) =~= seq![s]);
    } else {
        assert(comma_free(s.drop_last())) by {
            if s.drop_last().contains(',') {
                let k = choose|k: int| 0 <= k < s.drop_last().len() && s.drop_last()[k] == ',';
                assert(s[k] == ',');
            }
        }
        lemma_split_comma_free(s.drop_last());
        assert(s.last() != ',') by {
            assert(s[s.len() - 1] == s.last());
        }
        assert(split_commas(s) =~= seq![s.drop_last().push(s.last())]);
        assert(s.drop_last().push(s.last()) =~= s);
    }
}

/// Splitting `a`, a comma and a comma-free `b` gives the pieces of `a`
/// followed by `b`.
pub proof fn lemma_split_append_piece(a: Seq<char>, b: Seq<char>)
    requires
        comma_free(b),
    ensures
        split_commas(a + seq![','] + b) == split_commas(a).push(b),
    decreases b.len(),
{
    if b.len() == 0 {
        assert(b =~= Seq::<char>::empty());
        assert(a + seq![','] + b =~= a.push(','));
        assert((a.push(',')).drop_last() =~= a);
        assert(split_commas(a).push(Seq::<char>::empty()) =~= split_commas(a).push(b));
    } else {
        let b0 = b.drop_last();
        assert(comma_free(b0)) by {
            if b0.contains(',') {
                let k = choose|k: int| 0 <= k < b0.len() && b0[k] == ',';
                assert(b[k] == ',');
            }
        }
        lemma_split_append_piece(a, b0);
        let whole = a + seq![','] + b;
        assert(whole.drop_last() =~= a + seq![','] + b0);
        assert(whole.last() == b.last());
        assert(b.last() != ',') by {
            assert(b[b.len() - 1] == b.last());
        }
        assert(b0.push(b.last()) =~= b);
        assert(split_commas(whole) =~= split_commas(a).push(b));
    }
}

/// Splitting the comma-joined list of comma-free tag values gives back the
/// list (for a non-empty list).
pub proof fn lemma_split_join(parts: Seq<Seq<char>>)
    requires
        parts.len() >= 1,
        forall|i: int| 0 <= i < parts.len() ==> comma_free(#[trigger] parts[i]),
    ensures
        split_commas(join_tags(parts)) == parts,
    decreases parts.len(),
{
    if parts.len() == 1 {
        lemma_split_comma_free(parts[0]);
        assert(seq![parts[0]] =~= parts);
    } else {
        let init = parts.drop_last();
        assert forall|i: int| 0 <= i < init.len() implies comma_free(#[trigger] init[i]) by {
            assert(init[i] == parts[i]);
        }
        lemma_split_join(init);
        assert(comma_free(parts.last())) by {
            assert(parts[parts.len() - 1] == parts.last());
        }
        lemma_split_append_piece(join_tags(init), parts.last());
        assert(init.push(parts.last()) =~= parts);
    }
}

} // verus!
