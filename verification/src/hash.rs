//! The content-hash capability: a fixed-format hexadecimal digest of a
//! string, the `Hashable` trait that exposes it, and the `HashPointer`
//! wrapper that pairs a value with the digest of its contents.

use crypto::digest::Digest;
use crypto::sha2::Sha256;
use vstd::prelude::*;
use vstd::string::StringExecFns;

verus! {

/// The hexadecimal SHA-256 digest of a sequence of characters, as the
/// `crypto` crate computes it. The digest is a pure function of the input
/// alone; nothing is assumed about its value beyond its length.
pub uninterp spec fn hash_of(s: Seq<char>) -> Seq<char>;

/// Relies on `crypto::sha2::Sha256` through `crypto::digest::Digest`:
/// `input_str` feeds the string's bytes to the engine and `result_str`
/// returns the 32-byte digest as 64 hexadecimal characters, a value that
/// depends on the input string alone.
#[verifier::external_body]
fn sha256_hex(s: &str) -> (r: String)
    ensures
        r@ == hash_of(s@),
        r@.len() == 64,
{
    let mut hasher = Sha256::new();
    hasher.input_str(s);
    hasher.result_str()
}

/// A value whose contents can be summarized by a digest.
pub trait Hashable {
    /// The characters the digest is computed over.
    spec fn key(&self) -> Seq<char>;

    /// Returns the content digest of `self`: `hash_of` applied to `key`.
    fn get_hash(&self) -> (r: String)
        ensures
            r@ == hash_of(self.key()),
            r@.len() == 64,
    ;
}

impl Hashable for String {
    open spec fn key(&self) -> Seq<char> {
        self@
    }

    fn get_hash(&self) -> (r: String) {
        sha256_hex(self.as_str())
    }
}

/// Hashes the concatenation of two digest strings; this is the aggregation
/// step used at every level of a Merkle tree.
pub fn concat_hashes(first: &str, second: &str) -> (r: String)
    ensures
        r@ == hash_of(first@ + second@),
        r@.len() == 64,
{
    let mut result = first.to_owned();
    result.append(second);
    sha256_hex(result.as_str())
}

/// A pointer to a value together with the digest of that value's contents.
pub struct HashPointer<T> {
    pub hash: String,
    pub ptr: Box<T>,
}

impl<T: Hashable> HashPointer<T> {
    /// Wraps `item` with the digest of its contents.
    pub fn to(item: T) -> (r: Self)
        ensures
            r.hash@ == hash_of(item.key()),
            *r.ptr == item,
    {
        let hash = item.get_hash();
        HashPointer { hash, ptr: Box::new(item) }
    }

    /// Reports whether the stored digest still matches the contents.
    pub fn verify_hash(&self) -> (r: bool)
        ensures
            r == (self.hash@ == hash_of(self.ptr.key())),
    {
        if self.ptr.get_hash() == self.hash {
            true
        } else {
            false
        }
    }
}

/// A block of content chained to its predecessor through a hash pointer.
pub struct Block<T> {
    #[allow(dead_code)]
    previous: Option<HashPointer<Block<T>>>,
    #[allow(dead_code)]
    header_hash: u128,
    #[allow(dead_code)]
    content: Vec<T>,
}

} // verus!
