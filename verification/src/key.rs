//! The key capability the tables consume: a deterministic 64-bit digest and
//! an equality test that agrees with mathematical equality.
//!
//! Hashing of arbitrary key types is not this crate's business; the tables
//! only rely on the digest being a function of the key.  The implementations
//! below feed the key's bytes to std's `DefaultHasher`, whose behaviour vstd
//! models as a deterministic function of the bytes written.

use std::collections::hash_map::DefaultHasher;
use std::hash::Hasher;
use vstd::bytes::{spec_u64_to_le_bytes, u64_to_le_bytes};
use vstd::prelude::*;
use vstd::std_specs::hash::DefaultHasherAdditionalSpecFns;

verus! {

/// A type that can serve as a key of the tables in this crate.
///
/// `digest_spec` is the mathematical digest of the key; the executable
/// `digest` must return exactly that value, which makes the digest
/// deterministic for equal keys within one process.  `key_eq` must decide
/// mathematical equality of keys.
pub trait TableKey: Sized {
    /// The key's 64-bit digest as a mathematical function of the key.
    spec fn digest_spec(self) -> u64;

    /// Computes the key's digest.
    fn digest(&self) -> (d: u64)
        ensures
            d == self.digest_spec(),
    ;

    /// Decides whether two keys are equal.
    fn key_eq(&self, other: &Self) -> (b: bool)
        ensures
            b == (self == other),
    ;
}

/// The digest of the eight little-endian bytes of `w` under std's
/// `DefaultHasher`, hashed as a single write.
pub open spec fn spec_digest_of_u64(w: u64) -> u64 {
    DefaultHasher::spec_finish(seq![spec_u64_to_le_bytes(w)])
}

/// Runs std's `DefaultHasher` over the eight little-endian bytes of `w`.
fn digest_of_u64(w: u64) -> (d: u64)
    ensures
        d == spec_digest_of_u64(w),
{
    let mut hasher = DefaultHasher::new();
    let bytes = u64_to_le_bytes(w);
    hasher.write(bytes.as_slice());
    proof {
        assert(hasher@ =~= seq![spec_u64_to_le_bytes(w)]);
    }
    hasher.finish()
}

/// Computes the digest of any table key.
pub fn hash_key<T: TableKey>(key: &T) -> (d: u64)
    ensures
        d == key.digest_spec(),
{
    key.digest()
}

impl TableKey for u64 {
    open spec fn digest_spec(self) -> u64 {
        spec_digest_of_u64(self)
    }

    fn digest(&self) -> u64 {
        digest_of_u64(*self)
    }

    fn key_eq(&self, other: &Self) -> bool {
        *self == *other
    }
}

impl TableKey for u32 {
    open spec fn digest_spec(self) -> u64 {
        spec_digest_of_u64(self as u64)
    }

    fn digest(&self) -> u64 {
        digest_of_u64(*self as u64)
    }

    fn key_eq(&self, other: &Self) -> bool {
        *self == *other
    }
}

impl TableKey for usize {
    open spec fn digest_spec(self) -> u64 {
        spec_digest_of_u64(self as u64)
    }

    fn digest(&self) -> u64 {
        digest_of_u64(*self as u64)
    }

    fn key_eq(&self, other: &Self) -> bool {
        *self == *other
    }
}

impl TableKey for i32 {
    open spec fn digest_spec(self) -> u64 {
        spec_digest_of_u64(#[verifier::truncate] (self as u64))
    }

    fn digest(&self) -> u64 {
        digest_of_u64(#[verifier::truncate] (*self as u64))
    }

    fn key_eq(&self, other: &Self) -> bool {
        *self == *other
    }
}

impl TableKey for i64 {
    open spec fn digest_spec(self) -> u64 {
        spec_digest_of_u64(#[verifier::truncate] (self as u64))
    }

    fn digest(&self) -> u64 {
        digest_of_u64(#[verifier::truncate] (*self as u64))
    }

    fn key_eq(&self, other: &Self) -> bool {
        *self == *other
    }
}

} // verus!
