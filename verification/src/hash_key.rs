//! Keys that the hash map can file under a bucket.
//!
//! A hash table relies on two things its key type has to provide: a digest
//! that depends on the key alone, and an equality test that is identity. The
//! trait states both; the integer types meet it through the standard
//! library's default hasher.

use std::collections::hash_map::DefaultHasher;
use std::hash::Hasher;
use vstd::bytes::{spec_u64_to_le_bytes, u64_to_le_bytes};
use vstd::prelude::*;
use vstd::std_specs::hash::DefaultHasherAdditionalSpecFns;

verus! {

/// A key of the hash map.
pub trait HashKey: Sized {
    /// The digest under which the key is filed. As a function of the key it
    /// gives the same digest every time it is asked.
    spec fn digest(&self) -> u64;

    /// Computes the digest.
    fn hash(&self) -> (h: u64)
        ensures
            h == self.digest(),
    ;

    /// Tells whether `other` is this very key.
    fn same_key(&self, other: &Self) -> (same: bool)
        ensures
            same == (*self == *other),
    ;
}

/// The digest of an integer key: what the default hasher makes of the eight
/// bytes of the key, least significant first.
pub open spec fn digest_of(x: u64) -> u64 {
    DefaultHasher::spec_finish(seq![spec_u64_to_le_bytes(x)])
}

/// Feeds the eight bytes of `x` to a fresh default hasher.
pub fn hash_u64(x: u64) -> (h: u64)
    ensures
        h == digest_of(x),
{
    let mut hasher = DefaultHasher::new();
    let bytes = u64_to_le_bytes(x);
    hasher.write(bytes.as_slice());
    assert(hasher@ =~= seq![spec_u64_to_le_bytes(x)]);
    hasher.finish()
}

impl HashKey for u64 {
    open spec fn digest(&self) -> u64 {
        digest_of(*self)
    }

    fn hash(&self) -> (h: u64) {
        hash_u64(*self)
    }

    fn same_key(&self, other: &Self) -> (same: bool) {
        *self == *other
    }
}

impl HashKey for u32 {
    open spec fn digest(&self) -> u64 {
        digest_of(*self as u64)
    }

    fn hash(&self) -> (h: u64) {
        hash_u64(*self as u64)
    }

    fn same_key(&self, other: &Self) -> (same: bool) {
        *self == *other
    }
}

impl HashKey for u16 {
    open spec fn digest(&self) -> u64 {
        digest_of(*self as u64)
    }

    fn hash(&self) -> (h: u64) {
        hash_u64(*self as u64)
    }

    fn same_key(&self, other: &Self) -> (same: bool) {
        *self == *other
    }
}

impl HashKey for u8 {
    open spec fn digest(&self) -> u64 {
        digest_of(*self as u64)
    }

    fn hash(&self) -> (h: u64) {
        hash_u64(*self as u64)
    }

    fn same_key(&self, other: &Self) -> (same: bool) {
        *self == *other
    }
}

impl HashKey for usize {
    open spec fn digest(&self) -> u64 {
        digest_of(*self as u64)
    }

    fn hash(&self) -> (h: u64) {
        hash_u64(*self as u64)
    }

    fn same_key(&self, other: &Self) -> (same: bool) {
        *self == *other
    }
}

impl HashKey for i64 {
    open spec fn digest(&self) -> u64 {
        digest_of(*self as u64)
    }

    fn hash(&self) -> (h: u64) {
        hash_u64(*self as u64)
    }

    fn same_key(&self, other: &Self) -> (same: bool) {
        *self == *other
    }
}

impl HashKey for i32 {
    open spec fn digest(&self) -> u64 {
        digest_of(*self as u64)
    }

    fn hash(&self) -> (h: u64) {
        hash_u64(*self as u64)
    }

    fn same_key(&self, other: &Self) -> (same: bool) {
        *self == *other
    }
}

impl HashKey for i16 {
    open spec fn digest(&self) -> u64 {
        digest_of(*self as u64)
    }

    fn hash(&self) -> (h: u64) {
        hash_u64(*self as u64)
    }

    fn same_key(&self, other: &Self) -> (same: bool) {
        *self == *other
    }
}

impl HashKey for i8 {
    open spec fn digest(&self) -> u64 {
        digest_of(*self as u64)
    }

    fn hash(&self) -> (h: u64) {
        hash_u64(*self as u64)
    }

    fn same_key(&self, other: &Self) -> (same: bool) {
        *self == *other
    }
}

impl HashKey for isize {
    open spec fn digest(&self) -> u64 {
        digest_of(*self as u64)
    }

    fn hash(&self) -> (h: u64) {
        hash_u64(*self as u64)
    }

    fn same_key(&self, other: &Self) -> (same: bool) {
        *self == *other
    }
}

} // verus!
