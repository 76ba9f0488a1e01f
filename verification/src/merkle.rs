//! A Merkle tree whose leaves store content digests only. Construction
//! aggregates the digests pairwise, level by level; search scans the whole
//! tree; membership proofs carry a sibling-digest path to the root.

use crate::hash::{hash_of, Hashable};
use crate::merkle_proof::{chain_eval, lemma_chain_eval_append, lemma_chain_eval_single, MerkleProof, MerkleProofStep};
use vstd::prelude::*;
use vstd::string::StringExecFns;

verus! {

/// A child of a tree node: a full subtree, a single stored digest, or
/// nothing (the right child of a node built from an odd-length row).
pub enum MerkleBranch {
    Branch(Box<MerkleTree>),
    Leaf(String),
    Empty,
}

/// A node of the digest-only Merkle tree. `mrkl_root` is the hash of the
/// concatenated digests of the children; `height` is the distance down to
/// the deepest fringe node, which has height zero.
pub struct MerkleTree {
    pub left: MerkleBranch,
    pub right: MerkleBranch,
    pub mrkl_root: String,
    pub height: usize,
}

/// The outcome of validating a tree: consistent, a digest that does not
/// match what its node's children hash to, or a malformed shape. The string
/// carries a human-readable reason.
pub enum MrklVR {
    Valid,
    InvalidHash(String),
    InvalidTree(String),
}

/// The kind of a validation outcome, with the diagnostic text dropped.
pub enum Verdict {
    Good,
    BadHash,
    BadTree,
}

/// The kind of outcome a `MrklVR` value reports.
pub open spec fn vr_kind(r: MrklVR) -> Verdict {
    match r {
        MrklVR::Valid => Verdict::Good,
        MrklVR::InvalidHash(_) => Verdict::BadHash,
        MrklVR::InvalidTree(_) => Verdict::BadTree,
    }
}

/// The leaf digests stored under a branch, left to right.
pub open spec fn branch_digests(b: MerkleBranch) -> Seq<Seq<char>>
    decreases b,
{
    match b {
        MerkleBranch::Branch(t) => digests(*t),
        MerkleBranch::Leaf(h) => seq![h@],
        MerkleBranch::Empty => Seq::empty(),
    }
}

/// The leaf digests stored in a tree, left to right.
pub open spec fn digests(t: MerkleTree) -> Seq<Seq<char>>
    decreases t,
{
    branch_digests(t.left) + branch_digests(t.right)
}

/// Full consistency of a tree: every node's root digest is the hash of its
/// children's digests in order, every node sits one level above its
/// children, and fringe nodes have height zero.
pub open spec fn hash_valid(t: MerkleTree) -> bool
    decreases t,
{
    match (t.left, t.right) {
        (MerkleBranch::Branch(l), MerkleBranch::Branch(r)) => hash_valid(*l) && hash_valid(*r)
            && t.height == l.height + 1 && t.height == r.height + 1 && t.mrkl_root@ == hash_of(
            l.mrkl_root@ + r.mrkl_root@,
        ),
        (MerkleBranch::Branch(l), MerkleBranch::Empty) => hash_valid(*l) && t.height == l.height
            + 1 && t.mrkl_root@ == hash_of(l.mrkl_root@),
        (MerkleBranch::Leaf(lh), MerkleBranch::Leaf(rh)) => t.height == 0 && t.mrkl_root@
            == hash_of(lh@ + rh@),
        (MerkleBranch::Leaf(lh), MerkleBranch::Empty) => t.height == 0 && t.mrkl_root@ == hash_of(
            lh@,
        ),
        _ => false,
    }
}

/// The verdict on one internal node, taken in isolation: its digest must be
/// the hash of its children's root digests and it must sit one level above
/// them. A wrong height is a shape fault; a wrong digest a hash fault.
pub open spec fn internal_verdict(t: MerkleTree, l: MerkleTree, r: Option<MerkleTree>) -> Verdict {
    let combined = match r {
        Some(rn) => hash_of(l.mrkl_root@ + rn.mrkl_root@),
        None => hash_of(l.mrkl_root@),
    };
    let heights_ok = t.height == l.height + 1 && (match r {
        Some(rn) => t.height == rn.height + 1,
        None => true,
    });
    if combined == t.mrkl_root@ && heights_ok {
        Verdict::Good
    } else if !heights_ok {
        Verdict::BadTree
    } else {
        Verdict::BadHash
    }
}

/// The verdict on one fringe node, taken in isolation: its digest must be
/// the hash of its leaf digests in order and its height must be zero. A
/// wrong digest takes precedence over a wrong height.
pub open spec fn fringe_verdict(t: MerkleTree, lh: Seq<char>, rh: Option<Seq<char>>) -> Verdict {
    let combined = match rh {
        Some(r) => hash_of(lh + r),
        None => hash_of(lh),
    };
    if t.mrkl_root@ == combined && t.height == 0 {
        Verdict::Good
    } else if t.mrkl_root@ != combined {
        Verdict::BadHash
    } else {
        Verdict::BadTree
    }
}

/// How child verdicts propagate at a two-branch node: only two consistent
/// children let the node's own check speak; a hash fault below wins over
/// any shape fault, the left child over the right.
pub open spec fn combine_verdicts(lv: Verdict, rv: Verdict, own: Verdict) -> Verdict {
    if lv is Good && rv is Good {
        own
    } else if lv is BadHash || rv is BadHash {
        Verdict::BadHash
    } else if !(lv is Good) {
        lv
    } else {
        rv
    }
}

/// The verdict `validate` reaches on a tree.
pub open spec fn spec_validate(t: MerkleTree) -> Verdict
    decreases t,
{
    match (t.left, t.right) {
        (MerkleBranch::Branch(l), MerkleBranch::Branch(r)) => combine_verdicts(
            spec_validate(*l),
            spec_validate(*r),
            internal_verdict(t, *l, Some(*r)),
        ),
        (MerkleBranch::Branch(l), MerkleBranch::Empty) => {
            if spec_validate(*l) is Good {
                internal_verdict(t, *l, None)
            } else {
                spec_validate(*l)
            }
        },
        (MerkleBranch::Leaf(lh), MerkleBranch::Leaf(rh)) => fringe_verdict(t, lh@, Some(rh@)),
        (MerkleBranch::Leaf(lh), MerkleBranch::Empty) => fringe_verdict(t, lh@, None),
        _ => Verdict::BadTree,
    }
}

/// A tree passes validation exactly when it is fully consistent.
pub proof fn lemma_validate_good(t: MerkleTree)
    ensures
        (spec_validate(t) is Good) <==> hash_valid(t),
    decreases t,
{
    match (t.left, t.right) {
        (MerkleBranch::Branch(l), MerkleBranch::Branch(r)) => {
            lemma_validate_good(*l);
            lemma_validate_good(*r);
        }
        (MerkleBranch::Branch(l), MerkleBranch::Empty) => {
            lemma_validate_good(*l);
        }
        _ => {}
    }
}

/// The ceiling of the base-two logarithm.
pub open spec fn clog2(n: nat) -> nat
    decreases n,
{
    if n <= 1 {
        0
    } else {
        (1 + clog2(((n + 1) / 2) as nat)) as nat
    }
}

pub proof fn lemma_clog2_le(n: nat)
    ensures
        clog2(n) <= n,
    decreases n,
{
    if n > 1 {
        lemma_clog2_le(((n + 1) / 2) as nat);
    }
}

/// The content digests of a sequence of items, in order.
pub open spec fn item_digests<T: Hashable>(s: Seq<T>) -> Seq<Seq<char>> {
    s.map_values(|x: T| hash_of(x.key()))
}

proof fn lemma_item_digests_skip<T: Hashable>(s: Seq<T>, k: int)
    requires
        0 <= k <= s.len(),
    ensures
        item_digests(s.skip(k)) =~= item_digests(s).skip(k),
{
}

/// The leaf digests stored across a row of trees, left to right.
pub open spec fn row_digests(v: Seq<MerkleTree>) -> Seq<Seq<char>>
    decreases v.len(),
{
    if v.len() == 0 {
        Seq::empty()
    } else {
        digests(v[0]) + row_digests(v.skip(1))
    }
}

proof fn lemma_row_digests_empty()
    ensures
        row_digests(Seq::<MerkleTree>::empty()) == Seq::<Seq<char>>::empty(),
{
}

proof fn lemma_row_digests_first(v: Seq<MerkleTree>)
    requires
        v.len() >= 1,
    ensures
        row_digests(v) == digests(v[0]) + row_digests(v.skip(1)),
{
}

proof fn lemma_row_digests_push(v: Seq<MerkleTree>, t: MerkleTree)
    ensures
        row_digests(v.push(t)) =~= row_digests(v) + digests(t),
    decreases v.len(),
{
    lemma_row_digests_first(v.push(t));
    if v.len() == 0 {
        assert(v.push(t)[0] == t);
        assert(v.push(t).skip(1) =~= Seq::<MerkleTree>::empty());
        lemma_row_digests_empty();
    } else {
        assert(v.push(t)[0] == v[0]);
        assert(v.push(t).skip(1) =~= v.skip(1).push(t));
        lemma_row_digests_push(v.skip(1), t);
        lemma_row_digests_first(v);
        assert(digests(v[0]) + (row_digests(v.skip(1)) + digests(t)) =~= (digests(v[0])
            + row_digests(v.skip(1))) + digests(t));
    }
}

proof fn lemma_singleton_contains(x: Seq<char>, y: Seq<char>)
    ensures
        seq![x].contains(y) <==> x == y,
{
    if x == y {
        assert(seq![x][0] == y);
    }
    if seq![x].contains(y) {
        let i = choose|i: int| 0 <= i < 1 && seq![x][i] == y;
        assert(seq![x][i] == x);
    }
}

proof fn lemma_contains_append(a: Seq<Seq<char>>, b: Seq<Seq<char>>, x: Seq<char>)
    ensures
        (a + b).contains(x) <==> a.contains(x) || b.contains(x),
{
    if a.contains(x) {
        let i = choose|i: int| 0 <= i < a.len() && a[i] == x;
        assert((a + b)[i] == x);
    }
    if b.contains(x) {
        let i = choose|i: int| 0 <= i < b.len() && b[i] == x;
        assert((a + b)[a.len() + i] == x);
    }
    if (a + b).contains(x) {
        let i = choose|i: int| 0 <= i < (a + b).len() && (a + b)[i] == x;
        if i < a.len() {
            assert(a[i] == x);
        } else {
            assert(b[i - a.len()] == x);
        }
    }
}

impl MerkleTree {
    /// Removes the first item of `data` and turns it into a leaf holding the
    /// item's content digest, appending that digest to `hash`.
    fn construct_leaf<T: Hashable>(data: &mut Vec<T>, hash: &mut String) -> (r: MerkleBranch)
        requires
            old(data)@.len() >= 1,
        ensures
            final(data)@ == old(data)@.skip(1),
            r is Leaf,
            branch_digests(r) =~= seq![hash_of(old(data)@[0].key())],
            final(hash)@ == old(hash)@ + hash_of(old(data)@[0].key()),
    {
        let first = data.remove(0);
        let first_hash = first.get_hash();
        hash.append(first_hash.as_str());
        proof {
            assert(old(data)@.remove(0) =~= old(data)@.skip(1));
        }
        MerkleBranch::Leaf(first_hash)
    }

    /// Removes the first tree of `data` and wraps it as a branch, appending
    /// its root digest to `hash`.
    fn construct_branch(data: &mut Vec<MerkleTree>, hash: &mut String) -> (r: MerkleBranch)
        requires
            old(data)@.len() >= 1,
        ensures
            final(data)@ == old(data)@.skip(1),
            r matches MerkleBranch::Branch(t) && *t == old(data)@[0],
            final(hash)@ == old(hash)@ + old(data)@[0].mrkl_root@,
    {
        let first = data.remove(0);
        hash.append(first.mrkl_root.as_str());
        proof {
            assert(old(data)@.remove(0) =~= old(data)@.skip(1));
        }
        MerkleBranch::Branch(Box::new(first))
    }

    /// Builds one height-zero node from the first one or two items of
    /// `data`, which it consumes.
    fn construct_fringe_node<T: Hashable>(data: &mut Vec<T>) -> (r: Result<MerkleTree, String>)
        requires
            old(data)@.len() >= 1,
        ensures
            r is Ok,
            hash_valid(r.unwrap()),
            r.unwrap().height == 0,
            old(data)@.len() == 1 ==> final(data)@ == old(data)@.skip(1) && digests(r.unwrap())
                =~= seq![hash_of(old(data)@[0].key())],
            old(data)@.len() >= 2 ==> final(data)@ == old(data)@.skip(2) && digests(r.unwrap())
                =~= seq![hash_of(old(data)@[0].key()), hash_of(old(data)@[1].key())],
    {
        let mut hash = String::new();
        let left_leaf = Self::construct_leaf(data, &mut hash);
        let mut right_leaf = MerkleBranch::Empty;
        if data.len() > 0 {
            proof {
                assert(old(data)@.skip(1)[0] == old(data)@[1]);
            }
            right_leaf = Self::construct_leaf(data, &mut hash);
            proof {
                assert(old(data)@.skip(1).skip(1) =~= old(data)@.skip(2));
            }
        }
        let combined = hash.get_hash();
        let node = MerkleTree { left: left_leaf, right: right_leaf, mrkl_root: combined, height: 0 };
        proof {
            let h0 = hash_of(old(data)@[0].key());
            if old(data)@.len() >= 2 {
                let h1 = hash_of(old(data)@[1].key());
                assert((Seq::<char>::empty() + h0) + h1 =~= h0 + h1);
                assert(node.left matches MerkleBranch::Leaf(lh) && lh@ == h0) by {
                    assert(branch_digests(node.left)[0] == h0);
                }
                assert(node.right matches MerkleBranch::Leaf(rh) && rh@ == h1) by {
                    assert(branch_digests(node.right)[0] == h1);
                }
                assert(digests(node) =~= seq![h0, h1]);
            } else {
                assert(Seq::<char>::empty() + h0 =~= h0);
                assert(node.left matches MerkleBranch::Leaf(lh) && lh@ == h0) by {
                    assert(branch_digests(node.left)[0] == h0);
                }
                assert(digests(node) =~= seq![h0]);
            }
        }
        Ok(node)
    }

    /// Builds one internal node of the given height from the first one or
    /// two trees of `data`, which it consumes.
    fn construct_internal_node(data: &mut Vec<MerkleTree>, height: usize) -> (r: Result<
        MerkleTree,
        String,
    >)
        requires
            old(data)@.len() >= 1,
        ensures
            r is Ok,
            r.unwrap().height == height,
            r.unwrap().left matches MerkleBranch::Branch(l) && *l == old(data)@[0],
            old(data)@.len() == 1 ==> final(data)@ == old(data)@.skip(1) && r.unwrap().right
                is Empty && r.unwrap().mrkl_root@ == hash_of(old(data)@[0].mrkl_root@) && digests(
                r.unwrap(),
            ) =~= digests(old(data)@[0]),
            old(data)@.len() >= 2 ==> final(data)@ == old(data)@.skip(2) && (r.unwrap().right
                matches MerkleBranch::Branch(rn) && *rn == old(data)@[1]) && r.unwrap().mrkl_root@
                == hash_of(old(data)@[0].mrkl_root@ + old(data)@[1].mrkl_root@) && digests(
                r.unwrap(),
            ) =~= digests(old(data)@[0]) + digests(old(data)@[1]),
    {
        let mut hash = String::new();
        let left_branch = Self::construct_branch(data, &mut hash);
        let mut right_branch = MerkleBranch::Empty;
        if data.len() > 0 {
            proof {
                assert(old(data)@.skip(1)[0] == old(data)@[1]);
            }
            right_branch = Self::construct_branch(data, &mut hash);
            proof {
                assert(old(data)@.skip(1).skip(1) =~= old(data)@.skip(2));
            }
        }
        let combined = hash.get_hash();
        let node = MerkleTree {
            left: left_branch,
            right: right_branch,
            mrkl_root: combined,
            height,
        };
        proof {
            let r0 = old(data)@[0].mrkl_root@;
            if old(data)@.len() >= 2 {
                let r1 = old(data)@[1].mrkl_root@;
                assert((Seq::<char>::empty() + r0) + r1 =~= r0 + r1);
                assert(digests(node) =~= digests(old(data)@[0]) + digests(old(data)@[1]));
            } else {
                assert(Seq::<char>::empty() + r0 =~= r0);
                assert(digests(node) =~= digests(old(data)@[0]) + Seq::<Seq<char>>::empty());
                assert(digests(old(data)@[0]) + Seq::<Seq<char>>::empty() =~= digests(
                    old(data)@[0],
                ));
            }
        }
        Ok(node)
    }

    /// Builds a tree from `data`, bottom up and level by level: the fringe
    /// row pairs up item digests, each further row pairs up the nodes of the
    /// row below, until a single root remains. Fails exactly when `data` is
    /// empty. The resulting tree is fully consistent, stores the digest of
    /// every item in order, and its height is one less than the ceiling of
    /// the base-two logarithm of the item count.
    pub fn construct<T: Hashable>(data: Vec<T>) -> (r: Result<Self, String>)
        ensures
            r is Ok <==> data@.len() >= 1,
            r is Ok ==> hash_valid(r.unwrap()),
            r is Ok ==> digests(r.unwrap()) == item_digests(data@),
            r is Ok && data@.len() == 1 ==> r.unwrap().height == 0,
            r is Ok && data@.len() >= 2 ==> r.unwrap().height + 1 == clog2(data@.len() as nat),
    {
        let mut data = data;
        if data.len() < 1 {
            return Err(
                String::from_str(
                    "Not enough data to construct Merkle Tree. Must receive at least two items.",
                ),
            );
        }

        let ghost data0 = data@;
        let ghost items0 = item_digests(data0);
        let ghost n0 = data0.len() as nat;

        let mut mrkl_trees: Vec<MerkleTree> = Vec::new();
        proof {
            lemma_row_digests_empty();
            assert(row_digests(mrkl_trees@) + item_digests(data@) =~= items0);
        }
        while data.len() > 0
            invariant
                data@.len() <= n0,
                n0 >= 1,
                items0 == item_digests(data0),
                n0 == data0.len(),
                row_digests(mrkl_trees@) + item_digests(data@) == items0,
                forall|j: int|
                    0 <= j < mrkl_trees@.len() ==> hash_valid(#[trigger] mrkl_trees@[j])
                        && mrkl_trees@[j].height == 0,
                data@.len() > 0 ==> 2 * mrkl_trees@.len() == n0 - data@.len(),
                data@.len() == 0 ==> mrkl_trees@.len() == (n0 + 1) / 2,
            decreases data@.len(),
        {
            let ghost pre = data@;
            let ghost pre_row = mrkl_trees@;
            let fringe_node = Self::construct_fringe_node(&mut data);
            match fringe_node {
                Ok(node) => {
                    proof {
                        lemma_row_digests_push(pre_row, node);
                        let k: int = if pre.len() >= 2 {
                            2
                        } else {
                            1
                        };
                        lemma_item_digests_skip(pre, k);
                        assert(item_digests(pre) =~= digests(node) + item_digests(pre).skip(k));
                        assert(row_digests(pre_row.push(node)) + item_digests(data@) =~= items0);
                    }
                    mrkl_trees.push(node);
                },
                Err(msg) => {
                    return Err(msg);
                },
            }
        }

        let ghost r0 = mrkl_trees@.len() as nat;
        proof {
            assert(r0 == (n0 + 1) / 2);
            assert(r0 >= 1);
            lemma_clog2_le(r0);
            assert(2 * r0 <= n0 + 1);
        }

        let mut height: usize = 1;
        while mrkl_trees.len() > 1
            invariant
                mrkl_trees@.len() >= 1,
                height >= 1,
                r0 <= n0 <= usize::MAX,
                2 * r0 <= n0 + 1,
                height - 1 + clog2(mrkl_trees@.len() as nat) == clog2(r0),
                clog2(r0) <= r0,
                row_digests(mrkl_trees@) == items0,
                forall|j: int|
                    0 <= j < mrkl_trees@.len() ==> hash_valid(#[trigger] mrkl_trees@[j])
                        && mrkl_trees@[j].height == height - 1,
            decreases mrkl_trees@.len(),
        {
            let ghost row0 = mrkl_trees@;
            let mut new_mrkl_trees: Vec<MerkleTree> = Vec::new();
            proof {
                lemma_row_digests_empty();
                assert(row_digests(new_mrkl_trees@) + row_digests(mrkl_trees@) =~= row_digests(
                    row0,
                ));
            }
            while mrkl_trees.len() > 0
                invariant
                    height >= 1,
                    row_digests(new_mrkl_trees@) + row_digests(mrkl_trees@) == row_digests(row0),
                    forall|j: int|
                        0 <= j < new_mrkl_trees@.len() ==> hash_valid(#[trigger] new_mrkl_trees@[j])
                            && new_mrkl_trees@[j].height == height,
                    forall|j: int|
                        0 <= j < mrkl_trees@.len() ==> hash_valid(#[trigger] mrkl_trees@[j])
                            && mrkl_trees@[j].height == height - 1,
                    mrkl_trees@.len() > 0 ==> 2 * new_mrkl_trees@.len() == row0.len()
                        - mrkl_trees@.len(),
                    mrkl_trees@.len() == 0 ==> new_mrkl_trees@.len() == (row0.len() + 1) / 2,
                decreases mrkl_trees@.len(),
            {
                let ghost pre = mrkl_trees@;
                let ghost pre_new = new_mrkl_trees@;
                let internal_node = Self::construct_internal_node(&mut mrkl_trees, height);
                match internal_node {
                    Ok(node) => {
                        proof {
                            assert(hash_valid(node));
                            lemma_row_digests_push(pre_new, node);
                            lemma_row_digests_first(pre);
                            if pre.len() >= 2 {
                                assert(pre.skip(1)[0] == pre[1]);
                                assert(pre.skip(1).skip(1) =~= pre.skip(2));
                                lemma_row_digests_first(pre.skip(1));
                                assert(row_digests(pre) =~= digests(pre[0]) + (digests(pre[1])
                                    + row_digests(pre.skip(2))));
                                assert(digests(node) + row_digests(pre.skip(2)) =~= row_digests(
                                    pre,
                                ));
                                assert((row_digests(pre_new) + digests(node)) + row_digests(
                                    pre.skip(2),
                                ) =~= row_digests(pre_new) + row_digests(pre));
                            } else {
                                assert(pre.skip(1) =~= Seq::<MerkleTree>::empty());
                                lemma_row_digests_empty();
                                assert(row_digests(pre) =~= digests(pre[0]) + Seq::<
                                    Seq<char>,
                                >::empty());
                            }
                            assert(row_digests(pre_new.push(node)) + row_digests(mrkl_trees@)
                                =~= row_digests(row0));
                        }
                        new_mrkl_trees.push(node);
                    },
                    Err(msg) => {
                        return Err(msg);
                    },
                }
            }
            proof {
                assert(new_mrkl_trees@.len() == (row0.len() + 1) / 2);
                assert(clog2(row0.len() as nat) == 1 + clog2(new_mrkl_trees@.len() as nat));
            }
            mrkl_trees = new_mrkl_trees;
            height = height + 1;
        }

        proof {
            assert(mrkl_trees@.len() == 1);
            assert(clog2(1) == 0);
            assert(height - 1 == clog2(r0));
            lemma_row_digests_first(mrkl_trees@);
            assert(mrkl_trees@.skip(1) =~= Seq::<MerkleTree>::empty());
            lemma_row_digests_empty();
            assert(digests(mrkl_trees@[0]) + Seq::<Seq<char>>::empty() =~= digests(
                mrkl_trees@[0],
            ));
            if n0 >= 2 {
                assert(clog2(n0) == 1 + clog2(r0));
            }
        }
        let root = mrkl_trees.remove(0);
        Ok(root)
    }

    /// Reports whether some leaf stores exactly the digest `item_hash`. The
    /// whole tree is scanned: this variant keeps no search bounds, trading
    /// linear search time for smaller leaves.
    pub fn contains(&self, item_hash: &str) -> (r: bool)
        ensures
            r == digests(*self).contains(item_hash@),
    {
        let target = item_hash.to_owned();
        self.contains_digest(&target)
    }

    fn contains_digest(&self, target: &String) -> (r: bool)
        ensures
            r == digests(*self).contains(target@),
        decreases *self,
    {
        let mut result = false;
        match &self.left {
            MerkleBranch::Branch(node) => {
                result = node.contains_digest(target);
            },
            MerkleBranch::Leaf(hash) => {
                result = *hash == *target;
                proof {
                    lemma_singleton_contains(hash@, target@);
                }
            },
            MerkleBranch::Empty => {},
        }
        assert(result == branch_digests(self.left).contains(target@));
        match &self.right {
            MerkleBranch::Branch(node) => {
                result = result || node.contains_digest(target);
            },
            MerkleBranch::Leaf(hash) => {
                result = result || *hash == *target;
                proof {
                    lemma_singleton_contains(hash@, target@);
                }
            },
            MerkleBranch::Empty => {
                result = result || false;
            },
        }
        assert(result == (branch_digests(self.left).contains(target@) || branch_digests(
            self.right,
        ).contains(target@)));
        proof {
            lemma_contains_append(branch_digests(self.left), branch_digests(self.right), target@);
        }
        result
    }

    /// Reports whether the content digest of `item` is stored in some leaf.
    pub fn contains_item<T: Hashable>(&self, item: &T) -> (r: bool)
        ensures
            r == digests(*self).contains(hash_of(item.key())),
    {
        let target = item.get_hash();
        self.contains_digest(&target)
    }

    /// The root digest of the tree.
    pub fn get_mrkl_root(&self) -> (r: &str)
        ensures
            r@ == self.mrkl_root@,
    {
        self.mrkl_root.as_str()
    }

    /// The number of levels in the tree, counting the row of hashed items
    /// and the fringe row: a tree holding one or two items has two levels.
    /// A membership proof for any leaf has one step per aggregation, which
    /// is one less than this count.
    pub fn get_height(&self) -> (r: usize)
        requires
            self.height + 2 <= usize::MAX,
        ensures
            r == self.height + 2,
    {
        self.height + 2
    }

    /// Produces a membership proof for `item`: the digests of the siblings
    /// along the path from the item's leaf up to the root. Yields nothing
    /// exactly when no leaf stores the item's digest. On a consistent tree
    /// the proof replays to the tree's root digest, so `verify` accepts it,
    /// and its step count is the tree's height plus one.
    pub fn gen_proof<T: Hashable>(&self, item: &T) -> (r: Option<MerkleProof>)
        ensures
            r is Some <==> digests(*self).contains(hash_of(item.key())),
            r is Some ==> r.unwrap().root_hash@ == self.mrkl_root@ && r.unwrap().start_hash@
                == hash_of(item.key()),
            hash_valid(*self) && r is Some ==> chain_eval(
                r.unwrap().steps@,
                hash_of(item.key()),
            ) == Some(self.mrkl_root@),
            hash_valid(*self) && r is Some ==> r.unwrap().steps@.len() == self.height + 1,
    {
        let target = item.get_hash();
        let mut steps: Vec<MerkleProofStep> = Vec::new();
        let found = self.gen_steps(&target, &mut steps);
        if found {
            proof {
                assert(steps@.skip(0) =~= steps@);
            }
            Some(
                MerkleProof {
                    steps,
                    root_hash: self.mrkl_root.clone(),
                    start_hash: target,
                },
            )
        } else {
            None
        }
    }

    /// Appends to `steps` the sibling digests along a path from a leaf
    /// holding `target` up to this node, leaf first.
    fn gen_steps(&self, target: &String, steps: &mut Vec<MerkleProofStep>) -> (found: bool)
        ensures
            found == digests(*self).contains(target@),
            final(steps)@.len() >= old(steps)@.len(),
            final(steps)@.take(old(steps)@.len() as int) == old(steps)@,
            !found ==> final(steps)@ == old(steps)@,
            found && hash_valid(*self) ==> final(steps)@.len() == old(steps)@.len() + self.height
                + 1 && chain_eval(final(steps)@.skip(old(steps)@.len() as int), target@) == Some(
                self.mrkl_root@,
            ),
        decreases *self,
    {
        proof {
            lemma_contains_append(branch_digests(self.left), branch_digests(self.right), target@);
            assert(old(steps)@.take(old(steps)@.len() as int) =~= old(steps)@);
        }
        let ghost n0 = old(steps)@.len() as int;
        let mut found_left = false;
        match &self.left {
            MerkleBranch::Branch(node) => {
                found_left = node.gen_steps(target, steps);
                assert(found_left == branch_digests(self.left).contains(target@));
            },
            MerkleBranch::Leaf(hash) => {
                found_left = *hash == *target;
                proof {
                    lemma_singleton_contains(hash@, target@);
                }
                assert(found_left == branch_digests(self.left).contains(target@));
            },
            MerkleBranch::Empty => {
                assert(found_left == branch_digests(self.left).contains(target@));
            },
        }
        if found_left {
            let ghost mid = steps@;
            let right_digest: String = match &self.right {
                MerkleBranch::Branch(node) => node.mrkl_root.clone(),
                MerkleBranch::Leaf(hash) => hash.clone(),
                MerkleBranch::Empty => String::new(),
            };
            let ghost d: Seq<char> = right_digest@;
            steps.push(MerkleProofStep::Right(right_digest));
            proof {
                let stp = steps@.last();
                assert(steps@ == mid.push(stp));
                assert(steps@.take(n0) =~= mid.take(n0));
                assert(stp matches MerkleProofStep::Right(s) && s@ == d);
                lemma_chain_eval_single(stp, target@);
                if hash_valid(*self) {
                    let sub = mid.skip(n0);
                    assert(steps@.skip(n0) =~= sub.push(stp));
                    assert(sub + seq![stp] =~= steps@.skip(n0));
                    match &self.left {
                        MerkleBranch::Branch(l) => {
                            assert(chain_eval(sub, target@) == Some(l.mrkl_root@));
                            lemma_chain_eval_append(sub, seq![stp], target@);
                            lemma_chain_eval_single(stp, l.mrkl_root@);
                            assert(chain_eval(seq![stp], l.mrkl_root@) == Some(
                                hash_of(l.mrkl_root@ + d),
                            ));
                            match &self.right {
                                MerkleBranch::Branch(r) => {
                                    assert(d == r.mrkl_root@);
                                },
                                MerkleBranch::Empty => {
                                    assert(l.mrkl_root@ + d =~= l.mrkl_root@);
                                },
                                _ => {},
                            }
                        },
                        MerkleBranch::Leaf(lh) => {
                            assert(lh@ == target@);
                            assert(mid == old(steps)@);
                            assert(sub =~= Seq::<MerkleProofStep>::empty());
                            assert(chain_eval(sub, target@) == Some(target@));
                            lemma_chain_eval_append(sub, seq![stp], target@);
                            match &self.right {
                                MerkleBranch::Leaf(rh) => {
                                    assert(d == rh@);
                                },
                                MerkleBranch::Empty => {
                                    assert(target@ + d =~= lh@);
                                },
                                _ => {},
                            }
                        },
                        _ => {},
                    }
                }
            }
            return true;
        }
        let mut found_right = false;
        match &self.right {
            MerkleBranch::Branch(node) => {
                found_right = node.gen_steps(target, steps);
                assert(found_right == branch_digests(self.right).contains(target@));
            },
            MerkleBranch::Leaf(hash) => {
                found_right = *hash == *target;
                proof {
                    lemma_singleton_contains(hash@, target@);
                }
                assert(found_right == branch_digests(self.right).contains(target@));
            },
            MerkleBranch::Empty => {
                assert(found_right == branch_digests(self.right).contains(target@));
            },
        }
        if found_right {
            let ghost mid = steps@;
            let left_digest: String = match &self.left {
                MerkleBranch::Branch(node) => node.mrkl_root.clone(),
                MerkleBranch::Leaf(hash) => hash.clone(),
                MerkleBranch::Empty => String::new(),
            };
            let ghost d: Seq<char> = left_digest@;
            steps.push(MerkleProofStep::Left(left_digest));
            proof {
                let stp = steps@.last();
                assert(steps@ == mid.push(stp));
                assert(steps@.take(n0) =~= mid.take(n0));
                assert(stp matches MerkleProofStep::Left(s) && s@ == d);
                lemma_chain_eval_single(stp, target@);
                if hash_valid(*self) {
                    let sub = mid.skip(n0);
                    assert(steps@.skip(n0) =~= sub.push(stp));
                    assert(sub + seq![stp] =~= steps@.skip(n0));
                    match &self.right {
                        MerkleBranch::Branch(r) => {
                            assert(chain_eval(sub, target@) == Some(r.mrkl_root@));
                            lemma_chain_eval_append(sub, seq![stp], target@);
                            lemma_chain_eval_single(stp, r.mrkl_root@);
                            assert(chain_eval(seq![stp], r.mrkl_root@) == Some(
                                hash_of(d + r.mrkl_root@),
                            ));
                            match &self.left {
                                MerkleBranch::Branch(l) => {
                                    assert(d == l.mrkl_root@);
                                },
                                _ => {},
                            }
                        },
                        MerkleBranch::Leaf(rh) => {
                            assert(rh@ == target@);
                            assert(mid == old(steps)@);
                            assert(sub =~= Seq::<MerkleProofStep>::empty());
                            assert(chain_eval(sub, target@) == Some(target@));
                            lemma_chain_eval_append(sub, seq![stp], target@);
                            match &self.left {
                                MerkleBranch::Leaf(lh) => {
                                    assert(d == lh@);
                                },
                                _ => {},
                            }
                        },
                        _ => {},
                    }
                }
            }
            return true;
        }
        false
    }

    /// Validates the tree: `Valid` exactly when every node's digest and
    /// height are consistently derived from its children, with a hash
    /// mismatch reported in preference to a shape fault.
    pub fn validate(&self) -> (r: MrklVR)
        ensures
            vr_kind(r) == spec_validate(*self),
        decreases *self,
    {
        match (&self.left, &self.right) {
            (MerkleBranch::Branch(left_br), MerkleBranch::Branch(right_br)) => {
                match (left_br.validate(), right_br.validate()) {
                    (MrklVR::Valid, MrklVR::Valid) => self.validate_internal_node(
                        left_br,
                        Some(right_br),
                    ),
                    (MrklVR::InvalidHash(m), _) => MrklVR::InvalidHash(m),
                    (_, MrklVR::InvalidHash(m)) => MrklVR::InvalidHash(m),
                    (MrklVR::InvalidTree(m), _) => MrklVR::InvalidTree(m),
                    (_, MrklVR::InvalidTree(m)) => MrklVR::InvalidTree(m),
                }
            },
            (MerkleBranch::Branch(branch), MerkleBranch::Empty) => {
                match branch.validate() {
                    MrklVR::Valid => self.validate_internal_node(branch, None),
                    MrklVR::InvalidHash(m) => MrklVR::InvalidHash(m),
                    MrklVR::InvalidTree(m) => MrklVR::InvalidTree(m),
                }
            },
            (MerkleBranch::Leaf(left_hash), MerkleBranch::Leaf(right_hash)) => self
                .validate_fringe_node(left_hash.as_str(), Some(right_hash.as_str())),
            (MerkleBranch::Leaf(left_hash), MerkleBranch::Empty) => self.validate_fringe_node(
                left_hash.as_str(),
                None,
            ),
            (_, _) => MrklVR::InvalidTree(String::from_str("Malformed tree")),
        }
    }

    /// Checks one internal node against its children's root digests and
    /// heights.
    fn validate_internal_node(&self, left_node: &MerkleTree, right_node: Option<&MerkleTree>) -> (r:
        MrklVR)
        ensures
            vr_kind(r) == internal_verdict(
                *self,
                *left_node,
                match right_node {
                    Some(t) => Some(*t),
                    None => None,
                },
            ),
    {
        let mut hash = String::new();
        hash.append(left_node.mrkl_root.as_str());

        let mut right_has_correct_height = true;
        match right_node {
            Some(r) => {
                hash.append(r.mrkl_root.as_str());
                right_has_correct_height = r.height < usize::MAX && self.height == r.height + 1;
            },
            None => {},
        }

        let combined = hash.get_hash();
        let left_has_correct_height = left_node.height < usize::MAX && self.height
            == left_node.height + 1;

        if combined == self.mrkl_root && left_has_correct_height && right_has_correct_height {
            MrklVR::Valid
        } else if !left_has_correct_height || !right_has_correct_height {
            MrklVR::InvalidTree(
                String::from_str("An internal node has height which differs from 1 + (child height)"),
            )
        } else {
            MrklVR::InvalidHash(String::from_str("An internal node has an unexpected mrkl_root"))
        }
    }

    /// Checks one fringe node against its stored leaf digests.
    fn validate_fringe_node(&self, left_hash: &str, right_hash: Option<&str>) -> (r: MrklVR)
        ensures
            vr_kind(r) == fringe_verdict(
                *self,
                left_hash@,
                match right_hash {
                    Some(h) => Some(h@),
                    None => None,
                },
            ),
    {
        let mut hash = String::new();
        hash.append(left_hash);

        match right_hash {
            Some(r) => {
                hash.append(r);
            },
            None => {},
        }

        let combined = hash.get_hash();

        if self.mrkl_root == combined && self.height == 0 {
            MrklVR::Valid
        } else if !(self.mrkl_root == combined) {
            MrklVR::InvalidHash(String::from_str("A fringe node has an unexpected mrkl_root"))
        } else {
            MrklVR::InvalidTree(String::from_str("A fringe node has nonzero height"))
        }
    }
}

} // verus!
