//! Lexicographic ordering of strings by character scalar value: the
//! specification-level order, a verified executable comparison, the lemmas
//! that make it a total order, and a sorting routine built on it.

use vstd::multiset::Multiset;
use vstd::prelude::*;
use vstd::string::StrSliceExecFns;

verus! {

/// Lexicographic "less than or equal" on character sequences, by scalar
/// value, position by position; a proper prefix precedes its extensions.
pub open spec fn seq_le(a: Seq<char>, b: Seq<char>) -> bool
    decreases a.len(),
{
    if a.len() == 0 {
        true
    } else if b.len() == 0 {
        false
    } else if a[0] == b[0] {
        seq_le(a.skip(1), b.skip(1))
    } else {
        (a[0] as int) < (b[0] as int)
    }
}

pub proof fn lemma_seq_le_refl(a: Seq<char>)
    ensures
        seq_le(a, a),
    decreases a.len(),
{
    if a.len() > 0 {
        lemma_seq_le_refl(a.skip(1));
    }
}

pub proof fn lemma_seq_le_total(a: Seq<char>, b: Seq<char>)
    ensures
        seq_le(a, b) || seq_le(b, a),
    decreases a.len(),
{
    if a.len() > 0 && b.len() > 0 {
        if a[0] == b[0] {
            lemma_seq_le_total(a.skip(1), b.skip(1));
        } else {
            assert((a[0] as int) < (b[0] as int) || (b[0] as int) < (a[0] as int));
        }
    }
}

pub proof fn lemma_seq_le_antisym(a: Seq<char>, b: Seq<char>)
    requires
        seq_le(a, b),
        seq_le(b, a),
    ensures
        a == b,
    decreases a.len(),
{
    if a.len() == 0 {
        assert(b.len() == 0);
        assert(a =~= b);
    } else if a[0] == b[0] {
        lemma_seq_le_antisym(a.skip(1), b.skip(1));
        assert forall|i: int| 0 <= i < a.len() implies a[i] == b[i] by {
            if i >= 1 {
                assert(a[i] == a.skip(1)[i - 1]);
                assert(b[i] == b.skip(1)[i - 1]);
            }
        }
        assert(a =~= b);
    } else {
        assert((a[0] as int) < (b[0] as int) && (b[0] as int) < (a[0] as int));
        assert(false);
    }
}

pub proof fn lemma_seq_le_trans(a: Seq<char>, b: Seq<char>, c: Seq<char>)
    requires
        seq_le(a, b),
        seq_le(b, c),
    ensures
        seq_le(a, c),
    decreases a.len(),
{
    if a.len() > 0 && b.len() > 0 && c.len() > 0 && a[0] == b[0] && b[0] == c[0] {
        lemma_seq_le_trans(a.skip(1), b.skip(1), c.skip(1));
    }
}

/// Compares two strings in the order `seq_le` describes.
pub fn str_le(a: &str, b: &str) -> (r: bool)
    ensures
        r == seq_le(a@, b@),
{
    let a_len = a.unicode_len();
    let b_len = b.unicode_len();
    let mut i: usize = 0;
    proof {
        assert(a@.skip(0) =~= a@);
        assert(b@.skip(0) =~= b@);
    }
    while i < a_len && i < b_len
        invariant
            a_len == a@.len(),
            b_len == b@.len(),
            i <= a_len,
            i <= b_len,
            seq_le(a@, b@) == seq_le(a@.skip(i as int), b@.skip(i as int)),
        decreases a_len - i,
    {
        let ca = a.get_char(i);
        let cb = b.get_char(i);
        proof {
            assert(a@.skip(i as int)[0] == a@[i as int]);
            assert(b@.skip(i as int)[0] == b@[i as int]);
        }
        if ca != cb {
            return (ca as u32) < (cb as u32);
        }
        proof {
            assert(a@.skip(i as int).skip(1) =~= a@.skip(i + 1));
            assert(b@.skip(i as int).skip(1) =~= b@.skip(i + 1));
        }
        i = i + 1;
    }
    i == a_len
}

/// A sequence of strings arranged in non-decreasing `seq_le` order.
pub open spec fn sorted_strs(s: Seq<Seq<char>>) -> bool {
    forall|i: int, j: int| 0 <= i <= j < s.len() ==> #[trigger] seq_le(s[i], s[j])
}

/// Two sorted runs whose boundary elements are in order concatenate to a
/// sorted run.
pub proof fn lemma_sorted_append(a: Seq<Seq<char>>, b: Seq<Seq<char>>)
    requires
        sorted_strs(a),
        sorted_strs(b),
        a.len() > 0 && b.len() > 0 ==> seq_le(a.last(), b.first()),
    ensures
        sorted_strs(a + b),
{
    assert forall|i: int, j: int| 0 <= i <= j < (a + b).len() implies #[trigger] seq_le(
        (a + b)[i],
        (a + b)[j],
    ) by {
        if j < a.len() {
            assert(seq_le(a[i], a[j]));
        } else if i >= a.len() {
            assert(seq_le(b[i - a.len()], b[j - a.len()]));
        } else {
            assert(seq_le(a[i], a[a.len() - 1]));
            assert(seq_le(b[0], b[j - a.len()]));
            lemma_seq_le_trans(a[i], a.last(), b.first());
            lemma_seq_le_trans(a[i], b.first(), b[j - a.len()]);
        }
    }
}

/// A sorted concatenation splits into sorted runs with ordered boundary
/// elements.
pub proof fn lemma_sorted_split(a: Seq<Seq<char>>, b: Seq<Seq<char>>)
    requires
        sorted_strs(a + b),
    ensures
        sorted_strs(a),
        sorted_strs(b),
        a.len() > 0 && b.len() > 0 ==> seq_le(a.last(), b.first()),
{
    assert forall|i: int, j: int| 0 <= i <= j < a.len() implies #[trigger] seq_le(a[i], a[j]) by {
        assert(seq_le((a + b)[i], (a + b)[j]));
    }
    assert forall|i: int, j: int| 0 <= i <= j < b.len() implies #[trigger] seq_le(b[i], b[j]) by {
        assert(seq_le((a + b)[a.len() + i], (a + b)[a.len() + j]));
    }
    if a.len() > 0 && b.len() > 0 {
        assert(seq_le((a + b)[a.len() - 1], (a + b)[a.len() as int]));
    }
}

/// The character sequences carried by a sequence of strings.
pub open spec fn str_views(s: Seq<String>) -> Seq<Seq<char>> {
    s.map_values(|x: String| x@)
}

proof fn lemma_insert_to_multiset(s: Seq<Seq<char>>, x: Seq<char>, i: int)
    requires
        0 <= i <= s.len(),
    ensures
        s.insert(i, x).to_multiset() =~= s.to_multiset().insert(x),
{
    let pre = s.take(i);
    let post = s.skip(i);
    assert(s.insert(i, x) =~= pre + (seq![x] + post));
    assert(s =~= pre + post);
    vstd::seq_lib::lemma_multiset_commutative(pre, seq![x] + post);
    vstd::seq_lib::lemma_multiset_commutative(seq![x], post);
    vstd::seq_lib::lemma_multiset_commutative(pre, post);
    assert(seq![x] =~= Seq::<Seq<char>>::empty().push(x));
    broadcast use vstd::seq_lib::group_to_multiset_ensures;

    assert(seq![x].to_multiset() =~= Multiset::<Seq<char>>::empty().insert(x));
}

/// The position at which `x` can be placed in the sorted vector `v` so the
/// result stays sorted.
fn insert_pos(v: &Vec<String>, x: &String) -> (pos: usize)
    requires
        sorted_strs(str_views(v@)),
    ensures
        pos <= v@.len(),
        forall|k: int| 0 <= k < pos ==> seq_le(#[trigger] v@[k]@, x@),
        forall|k: int| pos <= k < v@.len() ==> seq_le(x@, #[trigger] v@[k]@),
{
    let mut lo: usize = 0;
    let mut hi: usize = v.len();
    while lo < hi
        invariant
            lo <= hi <= v@.len(),
            sorted_strs(str_views(v@)),
            forall|k: int| 0 <= k < lo ==> seq_le(#[trigger] v@[k]@, x@),
            forall|k: int| hi <= k < v@.len() ==> seq_le(x@, #[trigger] v@[k]@),
        decreases hi - lo,
    {
        let mid = lo + (hi - lo) / 2;
        if str_le(v[mid].as_str(), x.as_str()) {
            proof {
                assert forall|k: int| 0 <= k < mid + 1 implies seq_le(#[trigger] v@[k]@, x@) by {
                    assert(seq_le(str_views(v@)[k], str_views(v@)[mid as int]));
                    lemma_seq_le_trans(v@[k]@, v@[mid as int]@, x@);
                }
            }
            lo = mid + 1;
        } else {
            proof {
                lemma_seq_le_total(v@[mid as int]@, x@);
                assert forall|k: int| mid <= k < v@.len() implies seq_le(x@, #[trigger] v@[k]@) by {
                    assert(seq_le(str_views(v@)[mid as int], str_views(v@)[k]));
                    lemma_seq_le_trans(x@, v@[mid as int]@, v@[k]@);
                }
            }
            hi = mid;
        }
    }
    lo
}

/// Rearranges the strings of `v` into non-decreasing `seq_le` order,
/// keeping exactly the same collection of strings.
pub fn sort_strings(v: &mut Vec<String>)
    ensures
        final(v)@.len() == old(v)@.len(),
        sorted_strs(str_views(final(v)@)),
        str_views(final(v)@).to_multiset() == str_views(old(v)@).to_multiset(),
{
    let mut out: Vec<String> = Vec::new();
    let mut i: usize = 0;
    proof {
        assert(str_views(out@) =~= str_views(v@.take(0)));
    }
    while i < v.len()
        invariant
            i <= v@.len(),
            out@.len() == i,
            sorted_strs(str_views(out@)),
            str_views(out@).to_multiset() == str_views(v@.take(i as int)).to_multiset(),
        decreases v@.len() - i,
    {
        let x = v[i].clone();
        let pos = insert_pos(&out, &x);
        let ghost pre = out@;
        proof {
            lemma_insert_to_multiset(str_views(pre), x@, pos as int);
            assert(str_views(pre.insert(pos as int, x)) =~= str_views(pre).insert(pos as int, x@));
            assert(str_views(v@.take(i + 1)) =~= str_views(v@.take(i as int)).push(v@[i as int]@));
            broadcast use vstd::seq_lib::group_to_multiset_ensures;

        }
        out.insert(pos, x);
        proof {
            pre.insert_ensures(pos as int, x);
            assert forall|p: int, q: int|
                0 <= p <= q < out@.len() implies #[trigger] seq_le(
                str_views(out@)[p],
                str_views(out@)[q],
            ) by {
                let vp = out@[p]@;
                let vq = out@[q]@;
                if p < pos {
                    assert(out@[p] == pre[p]);
                }
                if q < pos {
                    assert(out@[q] == pre[q]);
                }
                if p > pos {
                    assert(out@[p] == pre[p - 1]);
                }
                if q > pos {
                    assert(out@[q] == pre[q - 1]);
                }
                if p == q {
                    lemma_seq_le_refl(vp);
                } else if q < pos {
                    assert(seq_le(str_views(pre)[p], str_views(pre)[q]));
                } else if p < pos && q == pos {
                    assert(seq_le(pre[p]@, x@));
                } else if p < pos && q > pos {
                    assert(seq_le(str_views(pre)[p], str_views(pre)[q - 1]));
                } else if p == pos {
                    assert(seq_le(x@, pre[q - 1]@));
                } else {
                    assert(seq_le(str_views(pre)[p - 1], str_views(pre)[q - 1]));
                }
            }
        }
        i = i + 1;
    }
    proof {
        assert(v@.take(i as int) =~= v@);
    }
    *v = out;
}

} // verus!
