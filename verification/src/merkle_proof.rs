//! Non-interactive membership proofs: an ordered list of sibling digests
//! from a leaf to the root, verifiable against a root digest alone.

use crate::hash::{concat_hashes, hash_of, Hashable};
use vstd::prelude::*;

verus! {

/// One step of a membership proof, read leaf to root. `Left(d)` records a
/// sibling digest that stood to the left of the running value, `Right(d)`
/// one that stood to its right. A level with no sibling is recorded as a
/// `Right` step carrying the empty string. `End` marks a truncated proof
/// and never verifies.
#[derive(Clone)]
pub enum MerkleProofStep {
    Right(String),
    Left(String),
    End,
}

/// The digest obtained by replaying `steps` over the starting digest
/// `running`: each step hashes the concatenation of the sibling digest and
/// the running value, in the order the step records. `None` when an `End`
/// step is encountered.
pub open spec fn chain_eval(steps: Seq<MerkleProofStep>, running: Seq<char>) -> Option<Seq<char>>
    decreases steps.len(),
{
    if steps.len() == 0 {
        Some(running)
    } else {
        match steps[0] {
            MerkleProofStep::Left(d) => chain_eval(steps.skip(1), hash_of(d@ + running)),
            MerkleProofStep::Right(d) => chain_eval(steps.skip(1), hash_of(running + d@)),
            MerkleProofStep::End => None,
        }
    }
}

/// Replaying a concatenation of step lists replays the first list and then
/// the second, starting from where the first left off.
pub proof fn lemma_chain_eval_append(s1: Seq<MerkleProofStep>, s2: Seq<MerkleProofStep>, x: Seq<char>)
    ensures
        chain_eval(s1 + s2, x) == (match chain_eval(s1, x) {
            Some(y) => chain_eval(s2, y),
            None => None,
        }),
    decreases s1.len(),
{
    if s1.len() == 0 {
        assert(s1 + s2 =~= s2);
    } else {
        assert((s1 + s2).skip(1) =~= s1.skip(1) + s2);
        assert((s1 + s2)[0] == s1[0]);
        match s1[0] {
            MerkleProofStep::Left(d) => {
                lemma_chain_eval_append(s1.skip(1), s2, hash_of(d@ + x));
            }
            MerkleProofStep::Right(d) => {
                lemma_chain_eval_append(s1.skip(1), s2, hash_of(x + d@));
            }
            MerkleProofStep::End => {}
        }
    }
}

/// Replaying a single step hashes one concatenation.
pub proof fn lemma_chain_eval_single(stp: MerkleProofStep, x: Seq<char>)
    ensures
        chain_eval(seq![stp], x) == (match stp {
            MerkleProofStep::Left(s) => Some(hash_of(s@ + x)),
            MerkleProofStep::Right(s) => Some(hash_of(x + s@)),
            MerkleProofStep::End => None::<Seq<char>>,
        }),
{
    assert(seq![stp][0] == stp);
    assert(seq![stp].skip(1) =~= Seq::<MerkleProofStep>::empty());
    match stp {
        MerkleProofStep::Left(s) => {
            assert(chain_eval(seq![stp], x) == chain_eval(
                Seq::<MerkleProofStep>::empty(),
                hash_of(s@ + x),
            ));
            assert(chain_eval(Seq::<MerkleProofStep>::empty(), hash_of(s@ + x)) == Some(
                hash_of(s@ + x),
            ));
        },
        MerkleProofStep::Right(s) => {
            assert(chain_eval(seq![stp], x) == chain_eval(
                Seq::<MerkleProofStep>::empty(),
                hash_of(x + s@),
            ));
            assert(chain_eval(Seq::<MerkleProofStep>::empty(), hash_of(x + s@)) == Some(
                hash_of(x + s@),
            ));
        },
        MerkleProofStep::End => {},
    }
}

/// Two distinct inputs on which the digest function agrees.
pub open spec fn hash_collision(a: Seq<char>, b: Seq<char>) -> bool {
    a != b && hash_of(a) == hash_of(b)
}

/// Replaying the same steps from two different starting digests cannot
/// reach the same value unless the digest function has a collision.
pub proof fn lemma_chain_eval_injective(s: Seq<MerkleProofStep>, x: Seq<char>, y: Seq<char>)
    requires
        x != y,
        chain_eval(s, x) is Some,
        chain_eval(s, x) == chain_eval(s, y),
    ensures
        exists|a: Seq<char>, b: Seq<char>| #[trigger] hash_collision(a, b),
    decreases s.len(),
{
    if s.len() == 0 {
        assert(false);
    } else {
        match s[0] {
            MerkleProofStep::Left(d) => {
                let x1 = hash_of(d@ + x);
                let y1 = hash_of(d@ + y);
                assert(d@ + x != d@ + y) by {
                    assert((d@ + x).skip(d@.len() as int) =~= x);
                    assert((d@ + y).skip(d@.len() as int) =~= y);
                }
                if x1 == y1 {
                    assert(hash_collision(d@ + x, d@ + y));
                } else {
                    lemma_chain_eval_injective(s.skip(1), x1, y1);
                }
            },
            MerkleProofStep::Right(d) => {
                let x1 = hash_of(x + d@);
                let y1 = hash_of(y + d@);
                assert(x + d@ != y + d@) by {
                    if x + d@ == y + d@ {
                        assert((x + d@).len() == x.len() + d@.len());
                        assert((y + d@).len() == y.len() + d@.len());
                        assert(x.len() == y.len());
                        assert((x + d@).take(x.len() as int) =~= x);
                        assert((y + d@).take(x.len() as int) =~= y);
                    }
                }
                if x1 == y1 {
                    assert(hash_collision(x + d@, y + d@));
                } else {
                    lemma_chain_eval_injective(s.skip(1), x1, y1);
                }
            },
            MerkleProofStep::End => {
                assert(false);
            },
        }
    }
}

/// Forgery resistance: a proof in which one sibling digest was replaced by
/// a different one replays to the same root only if the digest function has
/// a collision, so with a collision-resistant digest, `verify` rejects any
/// such forgery.
pub proof fn lemma_flipped_step_detected(
    s1: Seq<MerkleProofStep>,
    s2: Seq<MerkleProofStep>,
    i: int,
    start: Seq<char>,
    root: Seq<char>,
)
    requires
        0 <= i < s1.len(),
        s1.len() == s2.len(),
        forall|k: int| 0 <= k < s1.len() && k != i ==> s1[k] == s2[k],
        (s1[i] matches MerkleProofStep::Left(d1) && (s2[i] matches MerkleProofStep::Left(d2) && d1@
            != d2@)) || (s1[i] matches MerkleProofStep::Right(d1) && (s2[i]
            matches MerkleProofStep::Right(d2) && d1@ != d2@)),
        chain_eval(s1, start) == Some(root),
        chain_eval(s2, start) == Some(root),
    ensures
        exists|a: Seq<char>, b: Seq<char>| #[trigger] hash_collision(a, b),
    decreases i,
{
    if i == 0 {
        assert(s1.skip(1) =~= s2.skip(1));
        match (s1[0], s2[0]) {
            (MerkleProofStep::Left(d1), MerkleProofStep::Left(d2)) => {
                let x1 = hash_of(d1@ + start);
                let y1 = hash_of(d2@ + start);
                assert(d1@ + start != d2@ + start) by {
                    if d1@ + start == d2@ + start {
                        assert((d1@ + start).len() == d1@.len() + start.len());
                        assert((d2@ + start).len() == d2@.len() + start.len());
                        assert(d1@.len() == d2@.len());
                        assert((d1@ + start).take(d1@.len() as int) =~= d1@);
                        assert((d2@ + start).take(d1@.len() as int) =~= d2@);
                    }
                }
                if x1 == y1 {
                    assert(hash_collision(d1@ + start, d2@ + start));
                } else {
                    lemma_chain_eval_injective(s1.skip(1), x1, y1);
                }
            },
            (MerkleProofStep::Right(d1), MerkleProofStep::Right(d2)) => {
                let x1 = hash_of(start + d1@);
                let y1 = hash_of(start + d2@);
                assert(start + d1@ != start + d2@) by {
                    assert((start + d1@).skip(start.len() as int) =~= d1@);
                    assert((start + d2@).skip(start.len() as int) =~= d2@);
                }
                if x1 == y1 {
                    assert(hash_collision(start + d1@, start + d2@));
                } else {
                    lemma_chain_eval_injective(s1.skip(1), x1, y1);
                }
            },
            _ => {
                assert(false);
            },
        }
    } else {
        assert(s1[0] == s2[0]);
        assert forall|k: int| 0 <= k < s1.skip(1).len() && k != i - 1 implies s1.skip(1)[k]
            == s2.skip(1)[k] by {
            assert(s1.skip(1)[k] == s1[k + 1]);
            assert(s2.skip(1)[k] == s2[k + 1]);
        }
        assert(s1.skip(1)[i - 1] == s1[i] && s2.skip(1)[i - 1] == s2[i]);
        match s1[0] {
            MerkleProofStep::Left(d) => {
                lemma_flipped_step_detected(s1.skip(1), s2.skip(1), i - 1, hash_of(d@ + start), root);
            },
            MerkleProofStep::Right(d) => {
                lemma_flipped_step_detected(s1.skip(1), s2.skip(1), i - 1, hash_of(start + d@), root);
            },
            MerkleProofStep::End => {
                assert(false);
            },
        }
    }
}

/// A membership proof: sibling digests from a leaf to the root, the claimed
/// root digest, and the digest of the item the chain starts from.
pub struct MerkleProof {
    pub steps: Vec<MerkleProofStep>,
    pub root_hash: String,
    pub start_hash: String,
}

impl MerkleProof {
    /// Recomputes the digest chain starting from `item`'s content hash and
    /// reports whether it reaches the proof's claimed root digest.
    pub fn verify<T: Hashable>(&self, item: &T) -> (r: bool)
        ensures
            r == (chain_eval(self.steps@, hash_of(item.key())) == Some(self.root_hash@)),
    {
        let mut hash = item.get_hash();
        let mut i: usize = 0;
        proof {
            assert(self.steps@.skip(0) =~= self.steps@);
        }
        while i < self.steps.len()
            invariant
                i <= self.steps@.len(),
                chain_eval(self.steps@, hash_of(item.key())) == chain_eval(
                    self.steps@.skip(i as int),
                    hash@,
                ),
            decreases self.steps@.len() - i,
        {
            proof {
                assert(self.steps@.skip(i as int)[0] == self.steps@[i as int]);
                assert(self.steps@.skip(i as int).skip(1) =~= self.steps@.skip(i + 1));
            }
            match &self.steps[i] {
                MerkleProofStep::Right(step_hash) => {
                    hash = concat_hashes(hash.as_str(), step_hash.as_str());
                }
                MerkleProofStep::Left(step_hash) => {
                    hash = concat_hashes(step_hash.as_str(), hash.as_str());
                }
                MerkleProofStep::End => {
                    return false;
                }
            }
            i = i + 1;
        }
        proof {
            assert(self.steps@.skip(i as int) =~= Seq::<MerkleProofStep>::empty());
        }
        hash == self.root_hash
    }

    /// Checks the proof against a tree's shape: the claimed root digest must
    /// equal the tree's root digest and the step count must be one less than
    /// the tree's level count.
    pub fn check_proof_form(&self, mrkl_root: &str, mrkl_height: usize) -> (r: bool)
        ensures
            r == (self.root_hash@ == mrkl_root@ && mrkl_height == self.steps@.len() + 1),
    {
        let root = mrkl_root.to_owned();
        self.root_hash == root && mrkl_height >= 1 && mrkl_height - 1 == self.steps.len()
    }
}

} // verus!
