//! A Merkle tree that keeps its items in the leaves, sorted, together with
//! per-node bounds on the largest item reachable through each child. The
//! bounds give logarithmic search, and let whole subtrees irrelevant to a
//! retained item set be collapsed destructively into bare digests while the
//! root digest stays verifiable.

use crate::hash::{concat_hashes, hash_of};
pub use crate::hash::{Block, Hashable};
pub use crate::merkle::MrklVR;
use crate::merkle::{clog2, vr_kind, Verdict};
use crate::order::{
    lemma_seq_le_antisym, lemma_seq_le_refl, lemma_seq_le_total, lemma_seq_le_trans, seq_le,
    sort_strings, sorted_strs, str_le, str_views,
};
use vstd::prelude::*;
use vstd::string::StringExecFns;

verus! {

/// A child of a tree node: a full subtree, a leaf holding an item and the
/// item's content digest, the bare digest left behind by pruning, or
/// nothing (the right child of a node built from an odd-length row).
pub enum MerkleBranch {
    Branch(Box<MerkleTree>),
    Leaf(String, String),
    Partial(String),
    Empty,
}

/// A node of the bound-tracking Merkle tree. `l_bound` is the largest item
/// reachable through the left child, `r_bound` the largest reachable
/// through the right child (or through the left one again when the right
/// child is empty); `mrkl_root` is the hash of the concatenated digests of
/// the children; `height` is the distance down to the deepest fringe node.
pub struct MerkleTree {
    pub left: MerkleBranch,
    pub right: MerkleBranch,
    pub l_bound: String,
    pub r_bound: String,
    pub mrkl_root: String,
    pub height: usize,
}

/// The items stored under a branch, left to right. A pruned branch keeps
/// none of its items.
pub open spec fn branch_items(b: MerkleBranch) -> Seq<Seq<char>>
    decreases b,
{
    match b {
        MerkleBranch::Branch(t) => items(*t),
        MerkleBranch::Leaf(it, _) => seq![it@],
        MerkleBranch::Partial(_) => Seq::empty(),
        MerkleBranch::Empty => Seq::empty(),
    }
}

/// The items stored in a tree, left to right.
pub open spec fn items(t: MerkleTree) -> Seq<Seq<char>>
    decreases t,
{
    branch_items(t.left) + branch_items(t.right)
}

/// Strict consistency: every node's digest is the hash of its children's
/// digests in order, every leaf's stored digest is the hash of its item,
/// heights descend by one, and no pruned branch appears anywhere.
pub open spec fn hash_valid(t: MerkleTree) -> bool
    decreases t,
{
    match (t.left, t.right) {
        (MerkleBranch::Branch(l), MerkleBranch::Branch(r)) => hash_valid(*l) && hash_valid(*r)
            && t.height == l.height + 1 && t.height == r.height + 1 && t.mrkl_root@ == hash_of(
            l.mrkl_root@ + r.mrkl_root@,
        ),
        (MerkleBranch::Branch(l), MerkleBranch::Empty) => hash_valid(*l) && t.height == l.height
            + 1 && t.mrkl_root@ == hash_of(l.mrkl_root@),
        (MerkleBranch::Leaf(li, lh), MerkleBranch::Leaf(ri, rh)) => lh@ == hash_of(li@) && rh@
            == hash_of(ri@) && t.height == 0 && t.mrkl_root@ == hash_of(lh@ + rh@),
        (MerkleBranch::Leaf(li, lh), MerkleBranch::Empty) => lh@ == hash_of(li@) && t.height == 0
            && t.mrkl_root@ == hash_of(lh@),
        _ => false,
    }
}

/// Consistency of a possibly pruned tree: as `hash_valid`, except that one
/// child of a node (never both) may survive only as a digest, which then
/// takes its place in the parent's hash derivation.
pub open spec fn pruned_valid(t: MerkleTree) -> bool
    decreases t,
{
    match (t.left, t.right) {
        (MerkleBranch::Branch(l), MerkleBranch::Branch(r)) => pruned_valid(*l) && pruned_valid(*r)
            && t.height == l.height + 1 && t.height == r.height + 1 && t.mrkl_root@ == hash_of(
            l.mrkl_root@ + r.mrkl_root@,
        ),
        (MerkleBranch::Branch(l), MerkleBranch::Empty) => pruned_valid(*l) && t.height == l.height
            + 1 && t.mrkl_root@ == hash_of(l.mrkl_root@),
        (MerkleBranch::Leaf(li, lh), MerkleBranch::Leaf(ri, rh)) => lh@ == hash_of(li@) && rh@
            == hash_of(ri@) && t.height == 0 && t.mrkl_root@ == hash_of(lh@ + rh@),
        (MerkleBranch::Leaf(li, lh), MerkleBranch::Empty) => lh@ == hash_of(li@) && t.height == 0
            && t.mrkl_root@ == hash_of(lh@),
        (MerkleBranch::Partial(dl), MerkleBranch::Branch(r)) => pruned_valid(*r) && t.mrkl_root@
            == hash_of(dl@ + r.mrkl_root@),
        (MerkleBranch::Branch(l), MerkleBranch::Partial(dr)) => pruned_valid(*l) && t.mrkl_root@
            == hash_of(l.mrkl_root@ + dr@),
        (MerkleBranch::Partial(dl), MerkleBranch::Leaf(ri, rh)) => rh@ == hash_of(ri@)
            && t.mrkl_root@ == hash_of(dl@ + rh@),
        (MerkleBranch::Leaf(li, lh), MerkleBranch::Partial(dr)) => lh@ == hash_of(li@)
            && t.mrkl_root@ == hash_of(lh@ + dr@),
        _ => false,
    }
}

/// A strictly consistent tree is also consistent as a pruned tree.
pub proof fn lemma_hash_valid_pruned(t: MerkleTree)
    requires
        hash_valid(t),
    ensures
        pruned_valid(t),
    decreases t,
{
    match (t.left, t.right) {
        (MerkleBranch::Branch(l), MerkleBranch::Branch(r)) => {
            lemma_hash_valid_pruned(*l);
            lemma_hash_valid_pruned(*r);
        }
        (MerkleBranch::Branch(l), MerkleBranch::Empty) => {
            lemma_hash_valid_pruned(*l);
        }
        _ => {}
    }
}

/// Whether a pruned branch appears anywhere under a branch.
pub open spec fn branch_has_partial(b: MerkleBranch) -> bool
    decreases b,
{
    match b {
        MerkleBranch::Branch(n) => has_partial(*n),
        MerkleBranch::Partial(_) => true,
        _ => false,
    }
}

/// Whether a pruned branch appears anywhere in a tree.
pub open spec fn has_partial(t: MerkleTree) -> bool
    decreases t,
{
    branch_has_partial(t.left) || branch_has_partial(t.right)
}

proof fn lemma_hash_valid_no_partial(t: MerkleTree)
    requires
        hash_valid(t),
    ensures
        !has_partial(t),
    decreases t,
{
    match (t.left, t.right) {
        (MerkleBranch::Branch(l), MerkleBranch::Branch(r)) => {
            lemma_hash_valid_no_partial(*l);
            lemma_hash_valid_no_partial(*r);
        }
        (MerkleBranch::Branch(l), MerkleBranch::Empty) => {
            lemma_hash_valid_no_partial(*l);
        }
        _ => {}
    }
}

/// Strict validation rejects every tree that holds a pruned branch
/// anywhere; only `validate_pruned` can accept such a tree.
pub proof fn lemma_strict_rejects_partial(t: MerkleTree)
    requires
        has_partial(t),
    ensures
        !(spec_validate(t, false) is Good),
{
    lemma_validate_good(t);
    if hash_valid(t) {
        lemma_hash_valid_no_partial(t);
    }
}

/// The verdict on one internal node, taken in isolation.
pub open spec fn internal_verdict(t: MerkleTree, l: MerkleTree, r: Option<MerkleTree>) -> Verdict {
    let combined = match r {
        Some(rn) => hash_of(l.mrkl_root@ + rn.mrkl_root@),
        None => hash_of(l.mrkl_root@),
    };
    let heights_ok = t.height == l.height + 1 && (match r {
        Some(rn) => t.height == rn.height + 1,
        None => true,
    });
    if combined == t.mrkl_root@ && heights_ok {
        Verdict::Good
    } else if !heights_ok {
        Verdict::BadTree
    } else {
        Verdict::BadHash
    }
}

/// The verdict on one fringe node, taken in isolation: the leaf digests
/// must hash together to the node's digest, each item must hash to its
/// stored digest, and the height must be zero. A digest mismatch at the
/// node takes precedence over a wrong height, which takes precedence over
/// a stale leaf digest.
pub open spec fn fringe_verdict(
    t: MerkleTree,
    li: Seq<char>,
    lh: Seq<char>,
    rr: Option<(Seq<char>, Seq<char>)>,
) -> Verdict {
    let combined = match rr {
        Some(p) => hash_of(lh + p.1),
        None => hash_of(lh),
    };
    let leaves_ok = lh == hash_of(li) && (match rr {
        Some(p) => p.1 == hash_of(p.0),
        None => true,
    });
    if leaves_ok && t.mrkl_root@ == combined && t.height == 0 {
        Verdict::Good
    } else if t.mrkl_root@ != combined {
        Verdict::BadHash
    } else if t.height != 0 {
        Verdict::BadTree
    } else {
        Verdict::BadHash
    }
}

/// How child verdicts propagate at a two-branch node: a hash fault below
/// wins over any shape fault, the left child over the right.
pub open spec fn combine_verdicts(lv: Verdict, rv: Verdict, own: Verdict) -> Verdict {
    if lv is Good && rv is Good {
        own
    } else if lv is BadHash || rv is BadHash {
        Verdict::BadHash
    } else if !(lv is Good) {
        lv
    } else {
        rv
    }
}

/// The verdict on a node one of whose children survives only as the digest
/// `d`: the other child is revalidated in full, and `d` takes the pruned
/// side's place in the node's hash derivation.
pub open spec fn pruned_partner_verdict(
    t: MerkleTree,
    pruned_on_left: bool,
    d: Seq<char>,
    other: MerkleBranch,
) -> Verdict
    decreases other,
{
    match other {
        MerkleBranch::Branch(n) => {
            if spec_validate(*n, true) is Good {
                let combined = if pruned_on_left {
                    hash_of(d + n.mrkl_root@)
                } else {
                    hash_of(n.mrkl_root@ + d)
                };
                if t.mrkl_root@ == combined {
                    Verdict::Good
                } else {
                    Verdict::BadHash
                }
            } else {
                spec_validate(*n, true)
            }
        },
        MerkleBranch::Leaf(it, ih) => {
            let combined = if pruned_on_left {
                hash_of(d + ih@)
            } else {
                hash_of(ih@ + d)
            };
            if ih@ == hash_of(it@) && combined == t.mrkl_root@ {
                Verdict::Good
            } else {
                Verdict::BadHash
            }
        },
        MerkleBranch::Partial(_) => Verdict::BadTree,
        MerkleBranch::Empty => Verdict::BadTree,
    }
}

/// The verdict validation reaches on a tree; `pruned` selects whether a
/// branch surviving only as a digest is tolerated.
pub open spec fn spec_validate(t: MerkleTree, pruned: bool) -> Verdict
    decreases t,
{
    match (t.left, t.right) {
        (MerkleBranch::Branch(l), MerkleBranch::Branch(r)) => combine_verdicts(
            spec_validate(*l, pruned),
            spec_validate(*r, pruned),
            internal_verdict(t, *l, Some(*r)),
        ),
        (MerkleBranch::Branch(l), MerkleBranch::Empty) => {
            if spec_validate(*l, pruned) is Good {
                internal_verdict(t, *l, None)
            } else {
                spec_validate(*l, pruned)
            }
        },
        (MerkleBranch::Leaf(li, lh), MerkleBranch::Leaf(ri, rh)) => fringe_verdict(
            t,
            li@,
            lh@,
            Some((ri@, rh@)),
        ),
        (MerkleBranch::Leaf(li, lh), MerkleBranch::Empty) => fringe_verdict(t, li@, lh@, None),
        (MerkleBranch::Partial(_), MerkleBranch::Partial(_)) => Verdict::BadTree,
        (MerkleBranch::Partial(dl), other) => {
            if !pruned {
                Verdict::BadTree
            } else {
                pruned_partner_verdict(t, true, dl@, other)
            }
        },
        (other, MerkleBranch::Partial(dr)) => {
            if !pruned {
                Verdict::BadTree
            } else {
                pruned_partner_verdict(t, false, dr@, other)
            }
        },
        _ => Verdict::BadTree,
    }
}

/// Strict validation passes exactly on strictly consistent trees.
pub proof fn lemma_validate_good(t: MerkleTree)
    ensures
        (spec_validate(t, false) is Good) <==> hash_valid(t),
    decreases t,
{
    match (t.left, t.right) {
        (MerkleBranch::Branch(l), MerkleBranch::Branch(r)) => {
            lemma_validate_good(*l);
            lemma_validate_good(*r);
        }
        (MerkleBranch::Branch(l), MerkleBranch::Empty) => {
            lemma_validate_good(*l);
        }
        _ => {}
    }
}

/// Pruned validation passes exactly on consistent possibly-pruned trees.
pub proof fn lemma_validate_pruned_good(t: MerkleTree)
    ensures
        (spec_validate(t, true) is Good) <==> pruned_valid(t),
    decreases t,
{
    reveal_with_fuel(spec_validate, 2);
    match (t.left, t.right) {
        (MerkleBranch::Branch(l), MerkleBranch::Branch(r)) => {
            lemma_validate_pruned_good(*l);
            lemma_validate_pruned_good(*r);
        }
        (MerkleBranch::Branch(l), MerkleBranch::Empty) => {
            lemma_validate_pruned_good(*l);
        }
        (MerkleBranch::Partial(_), MerkleBranch::Branch(r)) => {
            lemma_validate_pruned_good(*r);
        }
        (MerkleBranch::Branch(l), MerkleBranch::Partial(_)) => {
            lemma_validate_pruned_good(*l);
        }
        _ => {}
    }
}

/// Full well-formedness as construction guarantees it: strict consistency,
/// items in non-decreasing order across the leaves, and each node's bounds
/// equal to the largest item reachable through the respective child.
pub open spec fn wf(t: MerkleTree) -> bool
    decreases t,
{
    match (t.left, t.right) {
        (MerkleBranch::Branch(l), MerkleBranch::Branch(r)) => wf(*l) && wf(*r) && t.height
            == l.height + 1 && t.height == r.height + 1 && t.mrkl_root@ == hash_of(
            l.mrkl_root@ + r.mrkl_root@,
        ) && t.l_bound@ == items(*l).last() && t.r_bound@ == items(*r).last() && seq_le(
            items(*l).last(),
            items(*r).first(),
        ),
        (MerkleBranch::Branch(l), MerkleBranch::Empty) => wf(*l) && t.height == l.height + 1
            && t.mrkl_root@ == hash_of(l.mrkl_root@) && t.l_bound@ == items(*l).last()
            && t.r_bound@ == items(*l).last(),
        (MerkleBranch::Leaf(li, lh), MerkleBranch::Leaf(ri, rh)) => lh@ == hash_of(li@) && rh@
            == hash_of(ri@) && t.height == 0 && t.mrkl_root@ == hash_of(lh@ + rh@) && seq_le(
            li@,
            ri@,
        ) && t.l_bound@ == li@ && t.r_bound@ == ri@,
        (MerkleBranch::Leaf(li, lh), MerkleBranch::Empty) => lh@ == hash_of(li@) && t.height == 0
            && t.mrkl_root@ == hash_of(lh@) && t.l_bound@ == li@ && t.r_bound@ == li@,
        _ => false,
    }
}

/// What well-formedness yields about a tree's items: they exist, they are
/// sorted, and the stored bounds delimit them.
pub proof fn lemma_wf_items(t: MerkleTree)
    requires
        wf(t),
    ensures
        hash_valid(t),
        branch_items(t.left).len() >= 1,
        items(t).len() >= 1,
        sorted_strs(items(t)),
        branch_items(t.left).last() == t.l_bound@,
        items(t).last() == t.r_bound@,
        items(t).first() == branch_items(t.left).first(),
        !(t.right is Empty) ==> branch_items(t.right).len() >= 1 && branch_items(t.right).last()
            == t.r_bound@ && seq_le(t.l_bound@, branch_items(t.right).first()),
        t.right is Empty ==> branch_items(t.right).len() == 0,
    decreases t,
{
    match (t.left, t.right) {
        (MerkleBranch::Branch(l), MerkleBranch::Branch(r)) => {
            lemma_wf_items(*l);
            lemma_wf_items(*r);
            crate::order::lemma_sorted_append(items(*l), items(*r));
            assert(items(t).last() == items(*r).last());
            assert(items(t).first() == items(*l).first());
        }
        (MerkleBranch::Branch(l), MerkleBranch::Empty) => {
            lemma_wf_items(*l);
            assert(items(t) =~= items(*l));
        }
        (MerkleBranch::Leaf(li, lh), MerkleBranch::Leaf(ri, rh)) => {
            let s = items(t);
            assert(s.len() == 2 && s[0] == li@ && s[1] == ri@);
            assert forall|i: int, j: int| 0 <= i <= j < s.len() implies #[trigger] seq_le(
                s[i],
                s[j],
            ) by {
                lemma_seq_le_refl(s[i]);
            }
        }
        (MerkleBranch::Leaf(li, lh), MerkleBranch::Empty) => {
            let s = items(t);
            assert(s.len() == 1 && s[0] == li@);
            assert forall|i: int, j: int| 0 <= i <= j < s.len() implies #[trigger] seq_le(
                s[i],
                s[j],
            ) by {
                lemma_seq_le_refl(s[i]);
            }
        }
        _ => {}
    }
}

/// The items stored across a row of trees, left to right.
pub open spec fn row_items(v: Seq<MerkleTree>) -> Seq<Seq<char>>
    decreases v.len(),
{
    if v.len() == 0 {
        Seq::empty()
    } else {
        items(v[0]) + row_items(v.skip(1))
    }
}

proof fn lemma_row_items_empty()
    ensures
        row_items(Seq::<MerkleTree>::empty()) == Seq::<Seq<char>>::empty(),
{
}

proof fn lemma_row_items_first(v: Seq<MerkleTree>)
    requires
        v.len() >= 1,
    ensures
        row_items(v) == items(v[0]) + row_items(v.skip(1)),
{
}

proof fn lemma_row_items_push(v: Seq<MerkleTree>, t: MerkleTree)
    ensures
        row_items(v.push(t)) =~= row_items(v) + items(t),
    decreases v.len(),
{
    lemma_row_items_first(v.push(t));
    if v.len() == 0 {
        assert(v.push(t)[0] == t);
        assert(v.push(t).skip(1) =~= Seq::<MerkleTree>::empty());
        lemma_row_items_empty();
    } else {
        assert(v.push(t)[0] == v[0]);
        assert(v.push(t).skip(1) =~= v.skip(1).push(t));
        lemma_row_items_push(v.skip(1), t);
        lemma_row_items_first(v);
        assert(items(v[0]) + (row_items(v.skip(1)) + items(t)) =~= (items(v[0]) + row_items(
            v.skip(1),
        )) + items(t));
    }
}

/// The outcome the bound-routed search reaches: `Some(b)` when it can
/// decide presence, `None` when it runs into a pruned branch.
pub open spec fn spec_search(t: MerkleTree, q: Seq<char>) -> Option<bool>
    decreases t,
{
    let b = if seq_le(q, t.l_bound@) {
        t.left
    } else {
        t.right
    };
    match b {
        MerkleBranch::Branch(n) => spec_search(*n, q),
        MerkleBranch::Leaf(it, _) => Some(it@ == q),
        MerkleBranch::Partial(_) => None,
        MerkleBranch::Empty => Some(false),
    }
}

/// The item the leftmost-descent finds, when no pruned branch blocks it.
pub open spec fn spec_min(t: MerkleTree) -> Option<Seq<char>>
    decreases t,
{
    match t.left {
        MerkleBranch::Branch(n) => spec_min(*n),
        MerkleBranch::Leaf(it, _) => Some(it@),
        _ => None,
    }
}

/// The item the leftmost descent into the right child finds.
pub open spec fn spec_min_right(t: MerkleTree) -> Option<Seq<char>>
    decreases t,
{
    match t.right {
        MerkleBranch::Branch(n) => spec_min(*n),
        MerkleBranch::Leaf(it, _) => Some(it@),
        _ => None,
    }
}

/// On a well-formed tree the leftmost descent reaches the least item.
pub proof fn lemma_wf_min(t: MerkleTree)
    requires
        wf(t),
    ensures
        spec_min(t) == Some(items(t).first()),
        !(t.right is Empty) ==> spec_min_right(t) == Some(branch_items(t.right).first()),
        t.right is Empty ==> spec_min_right(t) is None,
    decreases t,
{
    lemma_wf_items(t);
    match t.left {
        MerkleBranch::Branch(l) => {
            lemma_wf_min(*l);
            lemma_wf_items(*l);
        }
        _ => {}
    }
    match t.right {
        MerkleBranch::Branch(r) => {
            lemma_wf_min(*r);
            lemma_wf_items(*r);
        }
        _ => {}
    }
}

/// Membership completeness on a well-formed tree: the bound-routed search
/// always decides, and it answers exactly whether the query is one of the
/// stored items.
pub proof fn lemma_contains_complete(t: MerkleTree, q: Seq<char>)
    requires
        wf(t),
    ensures
        spec_search(t, q) == Some(items(t).contains(q)),
    decreases t,
{
    lemma_wf_items(t);
    let lb = t.l_bound@;
    let li = branch_items(t.left);
    let ri = branch_items(t.right);
    lemma_items_append(t, q);
    crate::order::lemma_sorted_split(li, ri);
    if seq_le(q, lb) {
        // the query can only live on the left: every right item is at least
        // lb, so a right occurrence forces q == lb, which the left holds too
        assert forall|k: int| 0 <= k < ri.len() && ri[k] == q implies li.contains(q) by {
            assert(seq_le(ri[0], ri[k]));
            lemma_seq_le_trans(lb, ri.first(), ri[k]);
            assert(seq_le(lb, ri[k]));
            lemma_seq_le_antisym(q, lb);
            assert(li.last() == q);
        }
        match t.left {
            MerkleBranch::Branch(n) => {
                lemma_contains_complete(*n, q);
                assert(items(t).contains(q) == li.contains(q));
            }
            MerkleBranch::Leaf(it, _) => {
                assert(li =~= seq![it@]);
                assert(li.contains(q) <==> it@ == q) by {
                    if li.contains(q) {
                        let i = choose|i: int| 0 <= i < li.len() && li[i] == q;
                        assert(li[0] == it@);
                    }
                    if it@ == q {
                        assert(li[0] == q);
                    }
                }
            }
            _ => {}
        }
    } else {
        // q is strictly above every left item, so only the right side counts
        lemma_seq_le_total(q, lb);
        assert(seq_le(lb, q));
        assert forall|k: int| 0 <= k < li.len() && li[k] == q implies false by {
            assert(seq_le(li[k], li[li.len() - 1]));
            assert(seq_le(li[k], lb));
            lemma_seq_le_antisym(q, lb);
        }
        match t.right {
            MerkleBranch::Branch(n) => {
                lemma_contains_complete(*n, q);
                assert(items(t).contains(q) == ri.contains(q));
            }
            MerkleBranch::Leaf(it, _) => {
                assert(ri =~= seq![it@]);
                assert(ri.contains(q) <==> it@ == q) by {
                    if ri.contains(q) {
                        let i = choose|i: int| 0 <= i < ri.len() && ri[i] == q;
                        assert(ri[0] == it@);
                    }
                    if it@ == q {
                        assert(ri[0] == q);
                    }
                }
                assert(items(t).contains(q) == ri.contains(q));
            }
            MerkleBranch::Empty => {
                assert(!items(t).contains(q));
            }
            _ => {}
        }
    }
}

/// Containment in a node's items splits over its two children.
proof fn lemma_items_append(t: MerkleTree, q: Seq<char>)
    ensures
        items(t).contains(q) <==> branch_items(t.left).contains(q) || branch_items(
            t.right,
        ).contains(q),
{
    let a = branch_items(t.left);
    let b = branch_items(t.right);
    if a.contains(q) {
        let i = choose|i: int| 0 <= i < a.len() && a[i] == q;
        assert((a + b)[i] == q);
    }
    if b.contains(q) {
        let i = choose|i: int| 0 <= i < b.len() && b[i] == q;
        assert((a + b)[a.len() + i] == q);
    }
    if (a + b).contains(q) {
        let i = choose|i: int| 0 <= i < (a + b).len() && (a + b)[i] == q;
        if i < a.len() {
            assert(a[i] == q);
        } else {
            assert(b[i - a.len()] == q);
        }
    }
}

/// The digest a branch contributes to its parent's hash derivation.
pub open spec fn branch_digest(b: MerkleBranch) -> Seq<char> {
    match b {
        MerkleBranch::Branch(n) => n.mrkl_root@,
        MerkleBranch::Leaf(_, h) => h@,
        MerkleBranch::Partial(d) => d@,
        MerkleBranch::Empty => Seq::empty(),
    }
}

/// `b` is what pruning can leave of `b0`: unchanged, collapsed to the
/// digest `b0` carried, or a subtree pruned the same way inside.
pub open spec fn branch_prunes_to(b0: MerkleBranch, b: MerkleBranch) -> bool
    decreases b0,
{
    ||| b == b0
    ||| ((b0 is Branch || b0 is Leaf || b0 is Partial) && (b matches MerkleBranch::Partial(d)
        && d@ == branch_digest(b0)))
    ||| (b0 matches MerkleBranch::Branch(n0) && (b matches MerkleBranch::Branch(n) && prunes_to(
        *n0,
        *n,
    )))
}

/// `t` is what pruning can leave of `t0`: the node's own digest, bounds and
/// height are untouched, and each child is unchanged, collapsed to its
/// digest, or pruned the same way inside.
pub open spec fn prunes_to(t0: MerkleTree, t: MerkleTree) -> bool
    decreases t0,
{
    &&& t.mrkl_root@ == t0.mrkl_root@
    &&& t.height == t0.height
    &&& t.l_bound@ == t0.l_bound@
    &&& t.r_bound@ == t0.r_bound@
    &&& branch_prunes_to(t0.left, t.left)
    &&& branch_prunes_to(t0.right, t.right)
}

/// Each retained key either is one of the tree's items or falls outside the
/// span of its leaves. A set of keys drawn from the tree's own items always
/// satisfies this.
pub open spec fn keep_hyp(t: MerkleTree, ks: Seq<Seq<char>>) -> bool {
    forall|i: int|
        0 <= i < ks.len() ==> items(t).contains(#[trigger] ks[i]) || !seq_le(
            items(t).first(),
            ks[i],
        ) || !seq_le(ks[i], items(t).last())
}

/// `keep_hyp` together with at least one key not above the span: what a
/// non-empty subset of the tree's items always satisfies, and what pruning
/// needs to leave every node verifiable.
pub open spec fn keep_ok(t: MerkleTree, ks: Seq<Seq<char>>) -> bool {
    &&& keep_hyp(t, ks)
    &&& exists|i: int| 0 <= i < ks.len() && seq_le(#[trigger] ks[i], items(t).last())
}

/// No retained key lies at or below `bound`: the condition under which the
/// left child is collapsed.
pub open spec fn no_keep_le(ks: Seq<Seq<char>>, bound: Seq<char>) -> bool {
    forall|i: int| 0 <= i < ks.len() ==> !seq_le(#[trigger] ks[i], bound)
}

/// No retained key lies at or above `bound`: the condition under which the
/// right child is collapsed.
pub open spec fn no_keep_ge(ks: Seq<Seq<char>>, bound: Seq<char>) -> bool {
    forall|i: int| 0 <= i < ks.len() ==> !seq_le(bound, #[trigger] ks[i])
}

/// A non-empty set of keys drawn from the tree's items satisfies `keep_ok`.
pub proof fn lemma_subset_keep_ok(t: MerkleTree, ks: Seq<Seq<char>>)
    requires
        wf(t),
        ks.len() > 0,
        forall|i: int| 0 <= i < ks.len() ==> items(t).contains(#[trigger] ks[i]),
    ensures
        keep_ok(t, ks),
{
    lemma_wf_items(t);
    let e = ks[0];
    let j = choose|j: int| 0 <= j < items(t).len() && items(t)[j] == e;
    assert(seq_le(items(t)[j], items(t)[items(t).len() - 1]));
    assert(seq_le(ks[0], items(t).last()));
}

/// Under `keep_ok`, the two collapse conditions cannot hold at once: some
/// key forbids one side or the other.
proof fn lemma_flags_not_both(t: MerkleTree, ks: Seq<Seq<char>>)
    requires
        wf(t),
        keep_ok(t, ks),
        !(t.right is Empty),
    ensures
        !(no_keep_le(ks, t.l_bound@) && no_keep_ge(ks, branch_items(t.right).first())),
{
    lemma_wf_items(t);
    lemma_items_split(t);
    let lb = t.l_bound@;
    let mr = branch_items(t.right).first();
    if no_keep_le(ks, lb) && no_keep_ge(ks, mr) {
        let i = choose|i: int| 0 <= i < ks.len() && seq_le(#[trigger] ks[i], items(t).last());
        let e = ks[i];
        assert(!seq_le(e, lb));
        assert(!seq_le(mr, e));
        lemma_seq_le_total(e, lb);
        lemma_seq_le_total(mr, e);
        // e sits strictly between the left child's last item and the right
        // child's first item, where keep_hyp allows no key
        if items(t).contains(e) {
            let j = choose|j: int| 0 <= j < items(t).len() && items(t)[j] == e;
            let li = branch_items(t.left);
            let ri = branch_items(t.right);
            if j < li.len() {
                assert(e == li[j]);
                assert(seq_le(li[j], li[li.len() - 1]));
            } else {
                assert(e == ri[j - li.len()]);
                assert(seq_le(ri[0], ri[j - li.len()]));
                lemma_seq_le_trans(mr, e, lb);
            }
        } else {
            assert(!seq_le(items(t).first(), e) || !seq_le(e, items(t).last()));
            assert(seq_le(items(t).first(), items(t)[items(t).len() - 1]));
            let fi = items(t).first();
            assert(seq_le(fi, lb)) by {
                assert(fi == branch_items(t.left).first());
                assert(seq_le(
                    branch_items(t.left)[0],
                    branch_items(t.left)[branch_items(t.left).len() - 1],
                ));
            }
            lemma_seq_le_trans(fi, lb, e);
        }
    }
}

/// The items of a well-formed tree split into the two children's sorted
/// runs.
proof fn lemma_items_split(t: MerkleTree)
    requires
        wf(t),
    ensures
        sorted_strs(branch_items(t.left)),
        sorted_strs(branch_items(t.right)),
    decreases t,
{
    lemma_wf_items(t);
    crate::order::lemma_sorted_split(branch_items(t.left), branch_items(t.right));
}

/// At a node whose right child is empty, some retained key always lies at
/// or below the left bound, so the left child is never collapsed there.
proof fn lemma_empty_right_no_prune(t: MerkleTree, ks: Seq<Seq<char>>)
    requires
        wf(t),
        keep_ok(t, ks),
        t.right is Empty,
    ensures
        !no_keep_le(ks, t.l_bound@),
{
    lemma_wf_items(t);
    let i = choose|i: int| 0 <= i < ks.len() && seq_le(#[trigger] ks[i], items(t).last());
    assert(items(t) =~= branch_items(t.left));
    assert(seq_le(ks[i], t.l_bound@));
}

/// `keep_ok` passes from a node to a left child that is not collapsed.
proof fn lemma_keep_ok_left(t: MerkleTree, ks: Seq<Seq<char>>)
    requires
        wf(t),
        keep_hyp(t, ks),
        t.left matches MerkleBranch::Branch(l),
        !no_keep_le(ks, t.l_bound@),
    ensures
        t.left matches MerkleBranch::Branch(l) ==> keep_ok(*l, ks),
{
    lemma_wf_items(t);
    lemma_items_split(t);
    if let MerkleBranch::Branch(l) = t.left {
        lemma_wf_items(*l);
        let li = branch_items(t.left);
        let ri = branch_items(t.right);
        assert(items(*l) == li);
        // the witness: a key at or below the left child's last item
        let w = choose|i: int| 0 <= i < ks.len() && seq_le(#[trigger] ks[i], t.l_bound@);
        assert(seq_le(ks[w], items(*l).last()));
        // the span hypothesis passes down
        assert forall|i: int|
            0 <= i < ks.len() implies items(*l).contains(#[trigger] ks[i]) || !seq_le(
            items(*l).first(),
            ks[i],
        ) || !seq_le(ks[i], items(*l).last()) by {
            let e = ks[i];
            if items(t).contains(e) {
                let j = choose|j: int| 0 <= j < items(t).len() && items(t)[j] == e;
                if j < li.len() {
                    assert(li[j] == e);
                    assert(li.contains(e));
                } else {
                    // e lives on the right: it is at least the left child's
                    // last item, so it is that item or above the left span
                    assert(e == ri[j - li.len()]);
                    assert(seq_le(ri[0], ri[j - li.len()]));
                    lemma_seq_le_trans(li.last(), ri.first(), e);
                    if seq_le(e, li.last()) {
                        lemma_seq_le_antisym(e, li.last());
                        assert(li[li.len() - 1] == e);
                        assert(li.contains(e));
                    }
                }
            } else {
                assert(!seq_le(items(t).first(), e) || !seq_le(e, items(t).last()));
                if !seq_le(items(t).first(), e) {
                    assert(items(t).first() == items(*l).first());
                } else {
                    // e is above the whole span, hence above the left span
                    assert(seq_le(items(*l).last(), items(t).last())) by {
                        if t.right is Empty {
                            assert(items(t) =~= li);
                        } else {
                            lemma_seq_le_trans(li.last(), ri.first(), ri.last());
                            assert(ri[0] == ri.first() && seq_le(ri[0], ri[ri.len() - 1]));
                        }
                    }
                    if seq_le(e, items(*l).last()) {
                        lemma_seq_le_trans(e, items(*l).last(), items(t).last());
                    }
                }
            }
        }
    }
}

/// `keep_ok` passes from a node to a right child that exists as a subtree.
proof fn lemma_keep_ok_right(t: MerkleTree, ks: Seq<Seq<char>>)
    requires
        wf(t),
        keep_hyp(t, ks),
        exists|i: int| 0 <= i < ks.len() && seq_le(#[trigger] ks[i], items(t).last()),
        t.right matches MerkleBranch::Branch(r),
    ensures
        t.right matches MerkleBranch::Branch(r) ==> keep_ok(*r, ks),
{
    lemma_wf_items(t);
    lemma_items_split(t);
    if let MerkleBranch::Branch(r) = t.right {
        lemma_wf_items(*r);
        let li = branch_items(t.left);
        let ri = branch_items(t.right);
        assert(items(*r) == ri);
        let w = choose|i: int| 0 <= i < ks.len() && seq_le(#[trigger] ks[i], items(t).last());
        assert(items(t).last() == ri[ri.len() - 1]);
        assert(seq_le(ks[w], items(*r).last()));
        assert forall|i: int|
            0 <= i < ks.len() implies items(*r).contains(#[trigger] ks[i]) || !seq_le(
            items(*r).first(),
            ks[i],
        ) || !seq_le(ks[i], items(*r).last()) by {
            let e = ks[i];
            if items(t).contains(e) {
                let j = choose|j: int| 0 <= j < items(t).len() && items(t)[j] == e;
                if j < li.len() {
                    // e lives on the left: it is at most the right child's
                    // first item, so it is that item or below the right span
                    assert(e == li[j]);
                    assert(seq_le(li[j], li[li.len() - 1]));
                    lemma_seq_le_trans(e, li.last(), ri.first());
                    if seq_le(ri.first(), e) {
                        lemma_seq_le_antisym(e, ri.first());
                        assert(ri[0] == e);
                        assert(ri.contains(e));
                    }
                } else {
                    assert(ri[j - li.len()] == e);
                    assert(ri.contains(e));
                }
            } else {
                assert(!seq_le(items(t).first(), e) || !seq_le(e, items(t).last()));
                if !seq_le(items(t).first(), e) {
                    // e is below the whole span, hence below the right span
                    assert(items(t).first() == li.first());
                    assert(seq_le(li[0], li[li.len() - 1]));
                    lemma_seq_le_trans(li.first(), li.last(), ri.first());
                    if seq_le(items(*r).first(), e) {
                        lemma_seq_le_trans(li.first(), ri.first(), e);
                    }
                } else {
                    assert(items(t).last() == items(*r).last());
                }
            }
        }
    }
}

/// A positive search answer always names a stored item, on any tree.
pub proof fn lemma_search_found(t: MerkleTree, q: Seq<char>)
    requires
        spec_search(t, q) == Some(true),
    ensures
        items(t).contains(q),
    decreases t,
{
    lemma_items_append(t, q);
    let b = if seq_le(q, t.l_bound@) {
        t.left
    } else {
        t.right
    };
    match b {
        MerkleBranch::Branch(n) => {
            lemma_search_found(*n, q);
        }
        MerkleBranch::Leaf(it, _) => {
            assert(branch_items(b)[0] == q);
        }
        _ => {}
    }
}

/// Pruning never invents items: whatever a pruned tree stores, the original
/// stored too.
pub proof fn lemma_prunes_to_items(t0: MerkleTree, t: MerkleTree, q: Seq<char>)
    requires
        prunes_to(t0, t),
        items(t).contains(q),
    ensures
        items(t0).contains(q),
    decreases t0,
{
    lemma_items_append(t, q);
    lemma_items_append(t0, q);
    if branch_items(t.left).contains(q) {
        match t.left {
            MerkleBranch::Branch(n) => {
                if t.left == t0.left {
                } else {
                    let n0 = t0.left->Branch_0;
                    lemma_prunes_to_items(*n0, *n, q);
                }
            }
            _ => {}
        }
    } else {
        match t.right {
            MerkleBranch::Branch(n) => {
                if t.right == t0.right {
                } else {
                    let n0 = t0.right->Branch_0;
                    lemma_prunes_to_items(*n0, *n, q);
                }
            }
            _ => {}
        }
    }
}

/// Pruned search safety: searching a pruned tree for an item the original
/// tree stored but pruning discarded runs into a pruned branch and reports
/// the explicit error, never a plain "absent".
pub proof fn lemma_pruned_search(t0: MerkleTree, t: MerkleTree, q: Seq<char>)
    requires
        wf(t0),
        prunes_to(t0, t),
        items(t0).contains(q),
        !items(t).contains(q),
    ensures
        spec_search(t, q) is None,
    decreases t0,
{
    lemma_wf_items(t0);
    lemma_items_split(t0);
    lemma_items_append(t0, q);
    lemma_items_append(t, q);
    let lb = t0.l_bound@;
    let li = branch_items(t0.left);
    let ri = branch_items(t0.right);
    if seq_le(q, lb) {
        // q can only have lived on the left of the original
        assert(li.contains(q)) by {
            if !li.contains(q) {
                let j = choose|j: int| 0 <= j < items(t0).len() && items(t0)[j] == q;
                assert(j >= li.len());
                assert(q == ri[j - li.len()]);
                assert(seq_le(ri[0], ri[j - li.len()]));
                lemma_seq_le_trans(lb, ri.first(), q);
                lemma_seq_le_antisym(q, lb);
                assert(li[li.len() - 1] == q);
            }
        }
        match t.left {
            MerkleBranch::Branch(n) => {
                if t.left == t0.left {
                    assert(branch_items(t.left).contains(q));
                } else {
                    let n0 = t0.left->Branch_0;
                    lemma_pruned_search(*n0, *n, q);
                }
            }
            MerkleBranch::Leaf(it, _) => {
                assert(t.left == t0.left);
                assert(branch_items(t.left).contains(q));
            }
            MerkleBranch::Partial(_) => {}
            MerkleBranch::Empty => {
                assert(t.left == t0.left);
                assert(li.len() == 0);
            }
        }
    } else {
        lemma_seq_le_total(q, lb);
        assert(ri.contains(q)) by {
            if !ri.contains(q) {
                let j = choose|j: int| 0 <= j < items(t0).len() && items(t0)[j] == q;
                assert(j < li.len());
                assert(q == li[j]);
                assert(seq_le(li[j], li[li.len() - 1]));
                lemma_seq_le_antisym(q, lb);
            }
        }
        match t.right {
            MerkleBranch::Branch(n) => {
                if t.right == t0.right {
                    assert(branch_items(t.right).contains(q));
                } else {
                    let n0 = t0.right->Branch_0;
                    lemma_pruned_search(*n0, *n, q);
                }
            }
            MerkleBranch::Leaf(it, _) => {
                assert(t.right == t0.right);
                assert(branch_items(t.right).contains(q));
            }
            MerkleBranch::Partial(_) => {}
            MerkleBranch::Empty => {
                assert(t.right == t0.right);
                assert(ri.len() == 0);
            }
        }
    }
}

/// The kinds and heights of a tree's nodes are as construction leaves them:
/// matching child kinds, heights descending by one, fringe nodes at zero.
/// Nothing is said about any digest.
pub open spec fn shape_ok(t: MerkleTree) -> bool
    decreases t,
{
    match (t.left, t.right) {
        (MerkleBranch::Branch(l), MerkleBranch::Branch(r)) => shape_ok(*l) && shape_ok(*r)
            && t.height == l.height + 1 && t.height == r.height + 1,
        (MerkleBranch::Branch(l), MerkleBranch::Empty) => shape_ok(*l) && t.height == l.height + 1,
        (MerkleBranch::Leaf(_, _), MerkleBranch::Leaf(_, _)) => t.height == 0,
        (MerkleBranch::Leaf(_, _), MerkleBranch::Empty) => t.height == 0,
        _ => false,
    }
}

/// Every leaf's stored digest is the hash of its item.
pub open spec fn leaf_digests_ok(t: MerkleTree) -> bool
    decreases t,
{
    match (t.left, t.right) {
        (MerkleBranch::Branch(l), MerkleBranch::Branch(r)) => leaf_digests_ok(*l)
            && leaf_digests_ok(*r),
        (MerkleBranch::Branch(l), MerkleBranch::Empty) => leaf_digests_ok(*l),
        (MerkleBranch::Leaf(li, lh), MerkleBranch::Leaf(ri, rh)) => lh@ == hash_of(li@) && rh@
            == hash_of(ri@),
        (MerkleBranch::Leaf(li, lh), MerkleBranch::Empty) => lh@ == hash_of(li@),
        _ => true,
    }
}

/// Tamper detection: on a tree of sound shape, a stored leaf digest that no
/// longer matches its item's hash makes strict validation report a hash
/// fault, never success. Mutating a single leaf digest of a valid tree
/// leaves its shape sound and breaks this match, so it is always caught.
pub proof fn lemma_tamper_detected(t: MerkleTree)
    requires
        shape_ok(t),
        !leaf_digests_ok(t),
    ensures
        spec_validate(t, false) is BadHash,
    decreases t,
{
    match (t.left, t.right) {
        (MerkleBranch::Branch(l), MerkleBranch::Branch(r)) => {
            if !leaf_digests_ok(*l) {
                lemma_tamper_detected(*l);
            } else {
                lemma_tamper_detected(*r);
            }
        }
        (MerkleBranch::Branch(l), MerkleBranch::Empty) => {
            lemma_tamper_detected(*l);
        }
        _ => {}
    }
}

impl MerkleTree {
    /// Validates the tree strictly: `Valid` exactly when every node's
    /// digest, every leaf digest and every height are consistently derived,
    /// with no pruned branch anywhere.
    pub fn validate(&self) -> (r: MrklVR)
        ensures
            vr_kind(r) == spec_validate(*self, false),
    {
        self._validate(false)
    }

    /// Validates a pruned tree: as `validate`, but a node may have one
    /// child surviving only as a digest, which is folded into the hash
    /// derivation in its place.
    pub fn validate_pruned(&self) -> (r: MrklVR)
        ensures
            vr_kind(r) == spec_validate(*self, true),
    {
        self._validate(true)
    }

    fn _validate(&self, pruned: bool) -> (r: MrklVR)
        ensures
            vr_kind(r) == spec_validate(*self, pruned),
        decreases *self,
    {
        match (&self.left, &self.right) {
            (MerkleBranch::Branch(left_br), MerkleBranch::Branch(right_br)) => {
                match (left_br._validate(pruned), right_br._validate(pruned)) {
                    (MrklVR::Valid, MrklVR::Valid) => self.validate_internal_node(
                        left_br,
                        Some(right_br),
                    ),
                    (MrklVR::InvalidHash(m), _) => MrklVR::InvalidHash(m),
                    (_, MrklVR::InvalidHash(m)) => MrklVR::InvalidHash(m),
                    (MrklVR::InvalidTree(m), _) => MrklVR::InvalidTree(m),
                    (_, MrklVR::InvalidTree(m)) => MrklVR::InvalidTree(m),
                }
            },
            (MerkleBranch::Branch(branch), MerkleBranch::Empty) => {
                match branch._validate(pruned) {
                    MrklVR::Valid => self.validate_internal_node(branch, None),
                    MrklVR::InvalidHash(m) => MrklVR::InvalidHash(m),
                    MrklVR::InvalidTree(m) => MrklVR::InvalidTree(m),
                }
            },
            (MerkleBranch::Leaf(left_it, left_hash), MerkleBranch::Leaf(right_it, right_hash)) => {
                self.validate_fringe_node(
                    left_it,
                    left_hash.as_str(),
                    Some(right_it),
                    Some(right_hash.as_str()),
                )
            },
            (MerkleBranch::Leaf(left_it, left_hash), MerkleBranch::Empty) => self
                .validate_fringe_node(left_it, left_hash.as_str(), None, None),
            (MerkleBranch::Partial(_), MerkleBranch::Partial(_)) => MrklVR::InvalidTree(
                String::from_str("Invalid pruned tree. Only one child may be pruned."),
            ),
            (MerkleBranch::Partial(hash), other) => {
                if !pruned {
                    MrklVR::InvalidTree(String::from_str("Unexpected pruned tree."))
                } else {
                    self.validate_pruned_node(hash.as_str(), other, true)
                }
            },
            (other, MerkleBranch::Partial(hash)) => {
                if !pruned {
                    MrklVR::InvalidTree(String::from_str("Unexpected pruned tree."))
                } else {
                    self.validate_pruned_node(hash.as_str(), other, false)
                }
            },
            (_, _) => MrklVR::InvalidTree(String::from_str("Malformed tree")),
        }
    }

    /// Checks one internal node against its children's root digests and
    /// heights.
    fn validate_internal_node(&self, left_node: &MerkleTree, right_node: Option<&MerkleTree>) -> (r:
        MrklVR)
        ensures
            vr_kind(r) == internal_verdict(
                *self,
                *left_node,
                match right_node {
                    Some(t) => Some(*t),
                    None => None,
                },
            ),
    {
        let mut hash = String::new();
        hash.append(left_node.mrkl_root.as_str());

        let mut right_has_correct_height = true;
        match right_node {
            Some(r) => {
                hash.append(r.mrkl_root.as_str());
                right_has_correct_height = r.height < usize::MAX && self.height == r.height + 1;
            },
            None => {},
        }

        let combined = hash.get_hash();
        let left_has_correct_height = left_node.height < usize::MAX && self.height
            == left_node.height + 1;

        if combined == self.mrkl_root && left_has_correct_height && right_has_correct_height {
            MrklVR::Valid
        } else if !left_has_correct_height || !right_has_correct_height {
            MrklVR::InvalidTree(
                String::from_str("An internal node has height which differs from 1 + (child height)"),
            )
        } else {
            MrklVR::InvalidHash(String::from_str("An internal node has an unexpected mrkl_root"))
        }
    }

    /// Checks one fringe node: the stored leaf digests must hash together
    /// to the node's digest, and each item must still hash to its stored
    /// digest.
    fn validate_fringe_node(
        &self,
        left_it: &String,
        left_hash: &str,
        right_it: Option<&String>,
        right_hash: Option<&str>,
    ) -> (r: MrklVR)
        requires
            right_it is Some <==> right_hash is Some,
        ensures
            vr_kind(r) == fringe_verdict(
                *self,
                left_it@,
                left_hash@,
                match (right_it, right_hash) {
                    (Some(i), Some(h)) => Some((i@, h@)),
                    _ => None,
                },
            ),
    {
        let mut hash = String::new();
        hash.append(left_hash);

        let mut right_hash_is_valid = true;
        match (right_it, right_hash) {
            (Some(r), Some(r_hash)) => {
                hash.append(r_hash);
                let rh = r.get_hash();
                let r_hash_string = r_hash.to_owned();
                right_hash_is_valid = rh == r_hash_string;
            },
            (None, None) => {},
            (_, _) => {
                return MrklVR::InvalidTree(
                    String::from_str(
                        "Upon validating a fringe node, expected both right_it and right_hash to be None",
                    ),
                );
            },
        }

        let combined = hash.get_hash();
        let lh = left_it.get_hash();
        let left_hash_string = left_hash.to_owned();
        let left_hash_is_valid = lh == left_hash_string;

        if left_hash_is_valid && right_hash_is_valid && self.mrkl_root == combined && self.height
            == 0 {
            MrklVR::Valid
        } else if !(self.mrkl_root == combined) {
            MrklVR::InvalidHash(String::from_str("A fringe node has an unexpected mrkl_root"))
        } else if self.height != 0 {
            MrklVR::InvalidTree(String::from_str("A fringe node has nonzero height"))
        } else {
            MrklVR::InvalidHash(String::from_str("A leaf's hash failed a hash check"))
        }
    }

    /// Removes the first item of `data` and turns it into a leaf holding
    /// the item and its content digest, appending that digest to `hash`.
    fn construct_leaf(data: &mut Vec<String>, hash: &mut String) -> (r: MerkleBranch)
        requires
            old(data)@.len() >= 1,
        ensures
            final(data)@ == old(data)@.skip(1),
            r matches MerkleBranch::Leaf(it, h) && it@ == old(data)@[0]@ && h@ == hash_of(
                old(data)@[0]@,
            ),
            branch_items(r) =~= seq![old(data)@[0]@],
            final(hash)@ == old(hash)@ + hash_of(old(data)@[0]@),
    {
        let first = data.remove(0);
        let first_hash = first.get_hash();
        hash.append(first_hash.as_str());
        proof {
            assert(old(data)@.remove(0) =~= old(data)@.skip(1));
        }
        MerkleBranch::Leaf(first, first_hash)
    }

    /// Removes the first tree of `data` and wraps it as a branch, appending
    /// its root digest to `hash`.
    fn construct_branch(data: &mut Vec<MerkleTree>, hash: &mut String) -> (r: MerkleBranch)
        requires
            old(data)@.len() >= 1,
        ensures
            final(data)@ == old(data)@.skip(1),
            r matches MerkleBranch::Branch(t) && *t == old(data)@[0],
            final(hash)@ == old(hash)@ + old(data)@[0].mrkl_root@,
    {
        let first = data.remove(0);
        hash.append(first.mrkl_root.as_str());
        proof {
            assert(old(data)@.remove(0) =~= old(data)@.skip(1));
        }
        MerkleBranch::Branch(Box::new(first))
    }

    /// Builds one height-zero node from the first one or two items of
    /// `data`, which must stand in order; it records them as its bounds.
    fn construct_fringe_node(data: &mut Vec<String>) -> (r: Result<MerkleTree, String>)
        requires
            old(data)@.len() >= 1,
            old(data)@.len() >= 2 ==> seq_le(old(data)@[0]@, old(data)@[1]@),
        ensures
            r is Ok,
            wf(r.unwrap()),
            r.unwrap().height == 0,
            old(data)@.len() == 1 ==> final(data)@ == old(data)@.skip(1) && items(r.unwrap())
                =~= seq![old(data)@[0]@],
            old(data)@.len() >= 2 ==> final(data)@ == old(data)@.skip(2) && items(r.unwrap())
                =~= seq![old(data)@[0]@, old(data)@[1]@],
    {
        let mut hash = String::new();

        let left_leaf = Self::construct_leaf(data, &mut hash);

        let mut right_leaf = MerkleBranch::Empty;
        if data.len() > 0 {
            proof {
                assert(old(data)@.skip(1)[0] == old(data)@[1]);
            }
            right_leaf = Self::construct_leaf(data, &mut hash);
            proof {
                assert(old(data)@.skip(1).skip(1) =~= old(data)@.skip(2));
            }
        }
        let combined = hash.get_hash();

        let l_bound: String;
        match &left_leaf {
            MerkleBranch::Leaf(value, _) => {
                l_bound = value.clone();
            },
            _ => {
                return Err(String::from_str("Leaf contains no data"));
            },
        }

        let mut r_bound = l_bound.clone();
        match &right_leaf {
            MerkleBranch::Leaf(value, _) => {
                r_bound = value.clone();
            },
            _ => {},
        }

        let node = MerkleTree {
            left: left_leaf,
            right: right_leaf,
            l_bound,
            r_bound,
            mrkl_root: combined,
            height: 0,
        };
        proof {
            let h0 = hash_of(old(data)@[0]@);
            if old(data)@.len() >= 2 {
                let h1 = hash_of(old(data)@[1]@);
                assert((Seq::<char>::empty() + h0) + h1 =~= h0 + h1);
                assert(items(node) =~= seq![old(data)@[0]@, old(data)@[1]@]);
            } else {
                assert(Seq::<char>::empty() + h0 =~= h0);
                assert(items(node) =~= seq![old(data)@[0]@]);
            }
        }
        Ok(node)
    }

    /// Builds one internal node of the given height from the first one or
    /// two trees of `data`, which must be well-formed, one level lower, and
    /// in item order; their largest items become its bounds.
    fn construct_internal_node(data: &mut Vec<MerkleTree>, height: usize) -> (r: Result<
        MerkleTree,
        String,
    >)
        requires
            old(data)@.len() >= 1,
            height >= 1,
            wf(old(data)@[0]),
            old(data)@[0].height == height - 1,
            old(data)@.len() >= 2 ==> wf(old(data)@[1]) && old(data)@[1].height == height - 1
                && seq_le(items(old(data)@[0]).last(), items(old(data)@[1]).first()),
        ensures
            r is Ok,
            wf(r.unwrap()),
            r.unwrap().height == height,
            old(data)@.len() == 1 ==> final(data)@ == old(data)@.skip(1) && items(r.unwrap())
                =~= items(old(data)@[0]),
            old(data)@.len() >= 2 ==> final(data)@ == old(data)@.skip(2) && items(r.unwrap())
                =~= items(old(data)@[0]) + items(old(data)@[1]),
    {
        let mut hash = String::new();

        let left_branch = Self::construct_branch(data, &mut hash);

        let mut right_branch = MerkleBranch::Empty;
        if data.len() > 0 {
            proof {
                assert(old(data)@.skip(1)[0] == old(data)@[1]);
            }
            right_branch = Self::construct_branch(data, &mut hash);
            proof {
                assert(old(data)@.skip(1).skip(1) =~= old(data)@.skip(2));
            }
        }

        let combined = hash.get_hash();

        let l_bound: String;
        match &left_branch {
            MerkleBranch::Branch(node) => {
                l_bound = node.r_bound.clone();
            },
            _ => {
                return Err(String::from_str("There was no r_bound to clone"));
            },
        }

        let mut r_bound = l_bound.clone();
        match &right_branch {
            MerkleBranch::Branch(node) => {
                r_bound = node.r_bound.clone();
            },
            _ => {},
        }

        let node = MerkleTree {
            left: left_branch,
            right: right_branch,
            l_bound,
            r_bound,
            mrkl_root: combined,
            height,
        };
        proof {
            lemma_wf_items(old(data)@[0]);
            let r0 = old(data)@[0].mrkl_root@;
            if old(data)@.len() >= 2 {
                lemma_wf_items(old(data)@[1]);
                let r1 = old(data)@[1].mrkl_root@;
                assert((Seq::<char>::empty() + r0) + r1 =~= r0 + r1);
                assert(items(node) =~= items(old(data)@[0]) + items(old(data)@[1]));
            } else {
                assert(Seq::<char>::empty() + r0 =~= r0);
                assert(items(node) =~= items(old(data)@[0]) + Seq::<Seq<char>>::empty());
                assert(items(old(data)@[0]) + Seq::<Seq<char>>::empty() =~= items(old(data)@[0]));
            }
        }
        Ok(node)
    }

    /// Builds a tree from `data`, which it first sorts ascending: the
    /// fringe row pairs up the sorted items, each further row pairs up the
    /// nodes of the row below, until a single root remains. Fails exactly
    /// when `data` is empty. The resulting tree is well formed: strictly
    /// consistent, its leaves carry exactly the given items in
    /// non-decreasing order, and its height is one less than the ceiling of
    /// the base-two logarithm of the item count.
    pub fn construct(data: Vec<String>) -> (r: Result<Self, String>)
        ensures
            r is Ok <==> data@.len() >= 1,
            r is Ok ==> wf(r.unwrap()),
            r is Ok ==> hash_valid(r.unwrap()),
            r is Ok ==> sorted_strs(items(r.unwrap())),
            r is Ok ==> items(r.unwrap()).to_multiset() == str_views(data@).to_multiset(),
            r is Ok && data@.len() == 1 ==> r.unwrap().height == 0,
            r is Ok && data@.len() >= 2 ==> r.unwrap().height + 1 == clog2(data@.len() as nat),
    {
        let mut data = data;
        let ghost input0 = data@;

        sort_strings(&mut data);

        if data.len() < 1 {
            return Err(
                String::from_str(
                    "Not enough data to construct Merkle Tree. Must receive at least two items.",
                ),
            );
        }

        let ghost data0 = data@;
        let ghost items0 = str_views(data0);
        let ghost n0 = data0.len() as nat;

        let mut mrkl_trees: Vec<MerkleTree> = Vec::new();
        proof {
            lemma_row_items_empty();
            assert(row_items(mrkl_trees@) + str_views(data@) =~= items0);
        }
        while data.len() > 0
            invariant
                data@.len() <= n0,
                n0 >= 1,
                items0 == str_views(data0),
                n0 == data0.len(),
                sorted_strs(items0),
                row_items(mrkl_trees@) + str_views(data@) == items0,
                forall|j: int|
                    0 <= j < mrkl_trees@.len() ==> wf(#[trigger] mrkl_trees@[j])
                        && mrkl_trees@[j].height == 0,
                data@.len() > 0 ==> 2 * mrkl_trees@.len() == n0 - data@.len(),
                data@.len() == 0 ==> mrkl_trees@.len() == (n0 + 1) / 2,
            decreases data@.len(),
        {
            let ghost pre = data@;
            let ghost pre_row = mrkl_trees@;
            proof {
                assert(str_views(pre) =~= items0.skip(row_items(pre_row).len() as int));
                crate::order::lemma_sorted_split(
                    row_items(pre_row),
                    str_views(pre),
                );
                if pre.len() >= 2 {
                    assert(seq_le(str_views(pre)[0], str_views(pre)[1]));
                }
            }
            let fringe_node = Self::construct_fringe_node(&mut data);
            match fringe_node {
                Ok(node) => {
                    proof {
                        lemma_row_items_push(pre_row, node);
                        let k: int = if pre.len() >= 2 {
                            2
                        } else {
                            1
                        };
                        assert(str_views(pre) =~= items(node) + str_views(pre).skip(k));
                        assert(str_views(pre.skip(k)) =~= str_views(pre).skip(k));
                        assert(row_items(pre_row.push(node)) + str_views(data@) =~= items0);
                    }
                    mrkl_trees.push(node);
                },
                Err(msg) => {
                    return Err(msg);
                },
            }
        }

        let ghost r0 = mrkl_trees@.len() as nat;
        proof {
            assert(r0 == (n0 + 1) / 2);
            assert(r0 >= 1);
            crate::merkle::lemma_clog2_le(r0);
            assert(2 * r0 <= n0 + 1);
        }

        let mut height: usize = 1;
        while mrkl_trees.len() > 1
            invariant
                mrkl_trees@.len() >= 1,
                height >= 1,
                r0 <= n0 <= usize::MAX,
                2 * r0 <= n0 + 1,
                height - 1 + clog2(mrkl_trees@.len() as nat) == clog2(r0),
                clog2(r0) <= r0,
                sorted_strs(items0),
                row_items(mrkl_trees@) == items0,
                forall|j: int|
                    0 <= j < mrkl_trees@.len() ==> wf(#[trigger] mrkl_trees@[j])
                        && mrkl_trees@[j].height == height - 1,
            decreases mrkl_trees@.len(),
        {
            let ghost row0 = mrkl_trees@;
            let mut new_mrkl_trees: Vec<MerkleTree> = Vec::new();
            proof {
                lemma_row_items_empty();
                assert(row_items(new_mrkl_trees@) + row_items(mrkl_trees@) =~= row_items(row0));
            }
            while mrkl_trees.len() > 0
                invariant
                    height >= 1,
                    sorted_strs(row_items(row0)),
                    row_items(new_mrkl_trees@) + row_items(mrkl_trees@) == row_items(row0),
                    forall|j: int|
                        0 <= j < new_mrkl_trees@.len() ==> wf(#[trigger] new_mrkl_trees@[j])
                            && new_mrkl_trees@[j].height == height,
                    forall|j: int|
                        0 <= j < mrkl_trees@.len() ==> wf(#[trigger] mrkl_trees@[j])
                            && mrkl_trees@[j].height == height - 1,
                    mrkl_trees@.len() > 0 ==> 2 * new_mrkl_trees@.len() == row0.len()
                        - mrkl_trees@.len(),
                    mrkl_trees@.len() == 0 ==> new_mrkl_trees@.len() == (row0.len() + 1) / 2,
                decreases mrkl_trees@.len(),
            {
                let ghost pre = mrkl_trees@;
                let ghost pre_new = new_mrkl_trees@;
                proof {
                    lemma_row_items_first(pre);
                    if pre.len() >= 2 {
                        assert(pre.skip(1)[0] == pre[1]);
                        assert(pre.skip(1).skip(1) =~= pre.skip(2));
                        lemma_row_items_first(pre.skip(1));
                        lemma_wf_items(pre[0]);
                        lemma_wf_items(pre[1]);
                        crate::order::lemma_sorted_split(row_items(pre_new), row_items(pre));
                        crate::order::lemma_sorted_split(
                            items(pre[0]),
                            items(pre[1]) + row_items(pre.skip(2)),
                        );
                        crate::order::lemma_sorted_split(items(pre[1]), row_items(pre.skip(2)));
                        assert((items(pre[1]) + row_items(pre.skip(2))).first() == items(
                            pre[1],
                        ).first());
                        assert(seq_le(items(pre[0]).last(), items(pre[1]).first()));
                    }
                }
                let internal_node = Self::construct_internal_node(&mut mrkl_trees, height);
                match internal_node {
                    Ok(node) => {
                        proof {
                            lemma_row_items_push(pre_new, node);
                            if pre.len() >= 2 {
                                assert(items(node) + row_items(pre.skip(2)) =~= row_items(pre));
                                assert((row_items(pre_new) + items(node)) + row_items(pre.skip(2))
                                    =~= row_items(pre_new) + row_items(pre));
                            } else {
                                assert(pre.skip(1) =~= Seq::<MerkleTree>::empty());
                                lemma_row_items_empty();
                                assert(row_items(pre) =~= items(pre[0]) + Seq::<Seq<char>>::empty());
                                assert(items(node) =~= row_items(pre));
                            }
                            assert(row_items(pre_new.push(node)) + row_items(mrkl_trees@)
                                =~= row_items(row0));
                        }
                        new_mrkl_trees.push(node);
                    },
                    Err(msg) => {
                        return Err(msg);
                    },
                }
            }
            proof {
                assert(new_mrkl_trees@.len() == (row0.len() + 1) / 2);
                assert(clog2(row0.len() as nat) == 1 + clog2(new_mrkl_trees@.len() as nat));
            }
            mrkl_trees = new_mrkl_trees;
            height = height + 1;
        }

        proof {
            assert(mrkl_trees@.len() == 1);
            assert(clog2(1) == 0);
            assert(height - 1 == clog2(r0));
            lemma_row_items_first(mrkl_trees@);
            assert(mrkl_trees@.skip(1) =~= Seq::<MerkleTree>::empty());
            lemma_row_items_empty();
            assert(items(mrkl_trees@[0]) + Seq::<Seq<char>>::empty() =~= items(mrkl_trees@[0]));
            lemma_wf_items(mrkl_trees@[0]);
            if n0 >= 2 {
                assert(clog2(n0) == 1 + clog2(r0));
            }
        }
        let root = mrkl_trees.remove(0);
        Ok(root)
    }

    /// Destructively prunes the tree, keeping only branches that can lead
    /// to an item of `to_keep`; every other branch collapses into the bare
    /// digest it carried, so the root digest and every surviving node's
    /// digest are unchanged. Refuses (returning `false`) a tree that does
    /// not pass strict validation and an empty `to_keep`. When the tree is
    /// well formed and every retained key is one of its items (or at least
    /// satisfies `keep_ok`), pruning succeeds and the result passes pruned
    /// validation with the same root digest.
    pub fn prune(&mut self, to_keep: &Vec<String>) -> (r: bool)
        ensures
            final(self).mrkl_root@ == old(self).mrkl_root@,
            final(self).height == old(self).height,
            final(self).l_bound@ == old(self).l_bound@,
            final(self).r_bound@ == old(self).r_bound@,
            prunes_to(*old(self), *final(self)),
            r ==> hash_valid(*old(self)) && to_keep@.len() > 0,
            wf(*old(self)) && keep_ok(*old(self), str_views(to_keep@)) ==> r && pruned_valid(
                *final(self),
            ),
            wf(*old(self)) && to_keep@.len() > 0 && (forall|i: int|
                0 <= i < to_keep@.len() ==> items(*old(self)).contains(
                    #[trigger] str_views(to_keep@)[i],
                )) ==> r && pruned_valid(*final(self)),
        decreases *old(self),
    {
        proof {
            if wf(*old(self)) && to_keep@.len() > 0 && (forall|i: int|
                0 <= i < to_keep@.len() ==> items(*old(self)).contains(
                    #[trigger] str_views(to_keep@)[i],
                )) {
                lemma_subset_keep_ok(*old(self), str_views(to_keep@));
            }
        }
        let v = self.validate();
        let is_valid = match &v {
            MrklVR::Valid => true,
            _ => false,
        };
        if !is_valid {
            proof {
                lemma_validate_good(*self);
                if wf(*self) {
                    lemma_wf_items(*self);
                }
            }
            return false;
        }
        proof {
            lemma_validate_good(*self);
        }

        if to_keep.len() == 0 {
            return false;
        }

        let ghost t0 = *self;
        let ghost ks = str_views(to_keep@);

        let mut prune_left = true;
        let mut i: usize = 0;
        while i < to_keep.len()
            invariant
                i <= to_keep@.len(),
                prune_left <==> (forall|k: int|
                    0 <= k < i ==> !seq_le(#[trigger] str_views(to_keep@)[k], self.l_bound@)),
            decreases to_keep@.len() - i,
        {
            proof {
                assert(str_views(to_keep@)[i as int] == to_keep@[i as int]@);
            }
            if str_le(to_keep[i].as_str(), self.l_bound.as_str()) {
                prune_left = false;
            }
            i = i + 1;
        }
        proof {
            assert(prune_left == no_keep_le(ks, t0.l_bound@));
        }

        let result = Self::prune_recurse(to_keep, &mut self.left, prune_left);
        proof {
            if wf(t0) && keep_ok(t0, ks) {
                lemma_wf_items(t0);
                if !prune_left && t0.left is Branch {
                    lemma_keep_ok_left(t0, ks);
                }
            }
        }

        let min_right_result = self.find_min_right();
        let min_right: String;
        match min_right_result {
            Ok(x) => {
                min_right = x;
            },
            Err(_) => {
                proof {
                    // under well-formedness the right child can only be
                    // empty here, and then the left child was never
                    // collapsed, so the pruned left subtree carries the
                    // whole verdict
                    if wf(t0) && keep_ok(t0, ks) {
                        lemma_wf_items(t0);
                        lemma_wf_min(t0);
                        lemma_empty_right_no_prune(t0, ks);
                        lemma_hash_valid_pruned(t0);
                    }
                }
                return result;
            },
        }

        let mut prune_right = true;
        let mut j: usize = 0;
        while j < to_keep.len()
            invariant
                j <= to_keep@.len(),
                prune_right <==> (forall|k: int|
                    0 <= k < j ==> !seq_le(min_right@, #[trigger] str_views(to_keep@)[k])),
            decreases to_keep@.len() - j,
        {
            proof {
                assert(str_views(to_keep@)[j as int] == to_keep@[j as int]@);
            }
            if str_le(min_right.as_str(), to_keep[j].as_str()) {
                prune_right = false;
            }
            j = j + 1;
        }
        proof {
            assert(prune_right == no_keep_ge(ks, min_right@));
            if wf(t0) && keep_ok(t0, ks) {
                lemma_wf_items(t0);
                lemma_wf_min(t0);
                lemma_flags_not_both(t0, ks);
                if t0.right matches MerkleBranch::Branch(rn) {
                    lemma_keep_ok_right(t0, ks);
                }
            }
        }

        let result2 = Self::prune_recurse(to_keep, &mut self.right, prune_right);
        proof {
            if wf(t0) && keep_ok(t0, ks) {
                lemma_wf_items(t0);
            }
        }
        result && result2
    }

    /// Collapses `branch` into the digest it carries when `should_prune`
    /// holds; otherwise prunes inside it if it is a subtree and leaves it
    /// alone if it is anything else.
    fn prune_recurse(to_keep: &Vec<String>, branch: &mut MerkleBranch, should_prune: bool) -> (r:
        bool)
        ensures
            branch_prunes_to(*old(branch), *final(branch)),
            should_prune ==> r == !(*old(branch) is Empty),
            should_prune && r ==> (*final(branch) matches MerkleBranch::Partial(d) && d@
                == branch_digest(*old(branch))),
            should_prune && !r ==> *final(branch) == *old(branch),
            !should_prune && !(*old(branch) is Branch) ==> r && *final(branch) == *old(branch),
            !should_prune ==> (*old(branch) matches MerkleBranch::Branch(n0) ==> (*final(branch)
                matches MerkleBranch::Branch(n) && n.mrkl_root@ == n0.mrkl_root@ && n.height
                == n0.height && prunes_to(*n0, *n) && (wf(*n0) && keep_ok(*n0, str_views(to_keep@))
                ==> r && pruned_valid(*n)))),
        decreases *old(branch),
    {
        let mut tmp = MerkleBranch::Empty;
        core::mem::swap(branch, &mut tmp);
        if should_prune {
            match tmp {
                MerkleBranch::Branch(node) => {
                    *branch = MerkleBranch::Partial(node.mrkl_root.clone());
                    true
                },
                MerkleBranch::Leaf(_, hash) => {
                    *branch = MerkleBranch::Partial(hash);
                    true
                },
                MerkleBranch::Partial(hash) => {
                    *branch = MerkleBranch::Partial(hash);
                    true
                },
                MerkleBranch::Empty => {
                    false
                },
            }
        } else {
            match tmp {
                MerkleBranch::Branch(mut node) => {
                    let r = (&mut *node).prune(to_keep);
                    *branch = MerkleBranch::Branch(node);
                    r
                },
                other => {
                    *branch = other;
                    true
                },
            }
        }
    }

    /// Reports whether `item` is stored in a leaf. The query is routed by
    /// the per-node bounds, so only one path is visited; reaching a pruned
    /// branch is an error, since presence can no longer be decided there.
    pub fn contains(&self, item: &String) -> (r: Result<bool, String>)
        ensures
            r is Ok <==> spec_search(*self, item@) is Some,
            r is Ok ==> r.unwrap() == spec_search(*self, item@).unwrap(),
        decreases *self,
    {
        let search_branch = if str_le(item.as_str(), self.l_bound.as_str()) {
            &self.left
        } else {
            &self.right
        };

        match search_branch {
            MerkleBranch::Branch(node) => node.contains(item),
            MerkleBranch::Leaf(value, _) => Ok(*value == *item),
            MerkleBranch::Partial(_) => Err(
                String::from_str("Could not search further in pruned tree"),
            ),
            MerkleBranch::Empty => Ok(false),
        }
    }

    /// The leftmost item of the right subtree: the least item reachable
    /// through the right child when the tree is well formed. Fails when the
    /// right child is pruned or empty.
    fn find_min_right(&self) -> (r: Result<String, String>)
        ensures
            r is Ok <==> spec_min_right(*self) is Some,
            r is Ok ==> r.unwrap()@ == spec_min_right(*self).unwrap(),
    {
        match &self.right {
            MerkleBranch::Branch(node) => node.find_min(),
            MerkleBranch::Leaf(value, _) => Ok(value.clone()),
            _ => Err(
                String::from_str(
                    "There is nowhere to search to the right to find the minimum element",
                ),
            ),
        }
    }

    /// The leftmost item of the tree: its least item when the tree is well
    /// formed. Fails when the left child is pruned.
    fn find_min(&self) -> (r: Result<String, String>)
        ensures
            r is Ok <==> spec_min(*self) is Some,
            r is Ok ==> r.unwrap()@ == spec_min(*self).unwrap(),
        decreases *self,
    {
        match &self.left {
            MerkleBranch::Branch(node) => node.find_min(),
            MerkleBranch::Leaf(value, _) => Ok(value.clone()),
            _ => Err(
                String::from_str("Couldn't go left anymore when finding minimum element"),
            ),
        }
    }

    /// Checks a node one of whose children was pruned down to the digest
    /// `pruned_hash`: the other child is revalidated in full and the digest
    /// stands in for the pruned side in the node's hash derivation.
    fn validate_pruned_node(
        &self,
        pruned_hash: &str,
        other: &MerkleBranch,
        pruned_on_left: bool,
    ) -> (r: MrklVR)
        ensures
            vr_kind(r) == pruned_partner_verdict(*self, pruned_on_left, pruned_hash@, *other),
        decreases *other,
    {
        match other {
            MerkleBranch::Branch(node) => {
                match node._validate(true) {
                    MrklVR::Valid => {
                        let combined = if pruned_on_left {
                            concat_hashes(pruned_hash, node.mrkl_root.as_str())
                        } else {
                            concat_hashes(node.mrkl_root.as_str(), pruned_hash)
                        };
                        if self.mrkl_root == combined {
                            MrklVR::Valid
                        } else {
                            MrklVR::InvalidHash(
                                String::from_str("An internal node had an unexpected mrkl_root"),
                            )
                        }
                    },
                    MrklVR::InvalidHash(m) => MrklVR::InvalidHash(m),
                    MrklVR::InvalidTree(m) => MrklVR::InvalidTree(m),
                }
            },
            MerkleBranch::Leaf(item, item_hash) => {
                let combined = if pruned_on_left {
                    concat_hashes(pruned_hash, item_hash.as_str())
                } else {
                    concat_hashes(item_hash.as_str(), pruned_hash)
                };
                let ih = item.get_hash();
                let item_hash_ok = ih == *item_hash;
                if item_hash_ok && combined == self.mrkl_root {
                    MrklVR::Valid
                } else if !item_hash_ok {
                    MrklVR::InvalidHash(String::from_str("A leaf's hash failed a hash check"))
                } else {
                    MrklVR::InvalidHash(String::from_str("A fringe node has an unexpected mrkl_root"))
                }
            },
            MerkleBranch::Partial(_) => MrklVR::InvalidTree(
                String::from_str("Invalid pruned tree. Only one child may be pruned."),
            ),
            MerkleBranch::Empty => MrklVR::InvalidTree(
                String::from_str(
                    "Invalid pruned tree. Every node must have at least one valid child.",
                ),
            ),
        }
    }
}

} // verus!
