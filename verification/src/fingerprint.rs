//! Reduction of argument values to integer cache keys.
//!
//! A fingerprint must be a deterministic function of the value, or
//! memoization would never find what it stored. The `Fingerprint` trait
//! states that as a contract: `fingerprint` returns exactly `fp_spec`, a
//! mathematical function of the value. The instances here feed the value's
//! bytes to the standard library's hasher, whose behaviour vstd specifies
//! as a function of the bytes written.

use std::collections::hash_map::DefaultHasher;
use std::hash::Hasher;
use vstd::prelude::*;
use vstd::std_specs::hash::DefaultHasherAdditionalSpecFns;

verus! {

/// The little-endian bytes of a 64-bit value.
pub open spec fn le_bytes_of(x: u64) -> Seq<u8> {
    seq![
        x as u8,
        (x >> 8) as u8,
        (x >> 16) as u8,
        (x >> 24) as u8,
        (x >> 32) as u8,
        (x >> 40) as u8,
        (x >> 48) as u8,
        (x >> 56) as u8,
    ]
}

/// The fingerprint of a 64-bit value: its little-endian bytes fed to the
/// standard hasher in a single write.
pub open spec fn fp_of_bits(x: u64) -> u64 {
    DefaultHasher::spec_finish(Seq::<Seq<u8>>::empty().push(le_bytes_of(x)))
}

/// Hash the little-endian bytes of `x` with the standard hasher.
pub fn hash_bits(x: u64) -> (r: u64)
    ensures
        r == fp_of_bits(x),
{
    let mut h = DefaultHasher::new();
    let mut bytes: Vec<u8> = Vec::new();
    bytes.push(#[verifier::truncate] (x as u8));
    bytes.push(#[verifier::truncate] ((x >> 8) as u8));
    bytes.push(#[verifier::truncate] ((x >> 16) as u8));
    bytes.push(#[verifier::truncate] ((x >> 24) as u8));
    bytes.push(#[verifier::truncate] ((x >> 32) as u8));
    bytes.push(#[verifier::truncate] ((x >> 40) as u8));
    bytes.push(#[verifier::truncate] ((x >> 48) as u8));
    bytes.push(#[verifier::truncate] ((x >> 56) as u8));
    proof {
        assert(bytes@ =~= le_bytes_of(x));
    }
    h.write(bytes.as_slice());
    proof {
        assert(h@ =~= Seq::<Seq<u8>>::empty().push(le_bytes_of(x)));
    }
    h.finish()
}

/// A type whose values reduce to an integer cache key, deterministically.
pub trait Fingerprint {
    /// The fingerprint, as a mathematical function of the value.
    spec fn fp_spec(&self) -> u64;

    /// Compute the fingerprint.
    fn fingerprint(&self) -> (r: u64)
        ensures
            r == self.fp_spec(),
    ;
}

impl Fingerprint for u64 {
    open spec fn fp_spec(&self) -> u64 {
        fp_of_bits(*self)
    }

    fn fingerprint(&self) -> (r: u64) {
        hash_bits(*self)
    }
}

impl Fingerprint for u32 {
    open spec fn fp_spec(&self) -> u64 {
        fp_of_bits(*self as u64)
    }

    fn fingerprint(&self) -> (r: u64) {
        hash_bits(*self as u64)
    }
}

impl Fingerprint for usize {
    open spec fn fp_spec(&self) -> u64 {
        fp_of_bits(*self as u64)
    }

    fn fingerprint(&self) -> (r: u64) {
        hash_bits(*self as u64)
    }
}

impl Fingerprint for i32 {
    open spec fn fp_spec(&self) -> u64 {
        fp_of_bits(*self as u64)
    }

    fn fingerprint(&self) -> (r: u64) {
        hash_bits(#[verifier::truncate] (*self as u64))
    }
}

impl Fingerprint for i64 {
    open spec fn fp_spec(&self) -> u64 {
        fp_of_bits(*self as u64)
    }

    fn fingerprint(&self) -> (r: u64) {
        hash_bits(#[verifier::truncate] (*self as u64))
    }
}

impl Fingerprint for bool {
    open spec fn fp_spec(&self) -> u64 {
        fp_of_bits(if *self { 1u64 } else { 0u64 })
    }

    fn fingerprint(&self) -> (r: u64) {
        hash_bits(if *self { 1u64 } else { 0u64 })
    }
}

} // verus!
