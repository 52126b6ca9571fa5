//! Behaviour of the fingerprint reduction.

use memocache::Fingerprint;

#[test]
fn fingerprints_are_deterministic() {
    let a: u64 = 123456789;
    assert_eq!(a.fingerprint(), a.fingerprint());
    let b: u32 = 42;
    assert_eq!(b.fingerprint(), b.fingerprint());
    let c: i64 = -7;
    assert_eq!(c.fingerprint(), c.fingerprint());
    assert_eq!(true.fingerprint(), true.fingerprint());
}

#[test]
fn integer_widths_agree_on_shared_values() {
    // Every integer fingerprints through its 64-bit image, so the same
    // number gives the same key whatever its declared width.
    assert_eq!(42u32.fingerprint(), 42u64.fingerprint());
    assert_eq!(7usize.fingerprint(), 7u64.fingerprint());
    assert_eq!(9i32.fingerprint(), 9i64.fingerprint());
}

#[test]
fn fingerprints_spread_small_values() {
    // Not an axiom of the scheme, only of these values under the standard
    // hasher: nearby inputs do not collide.
    let f0 = 0u64.fingerprint();
    let f1 = 1u64.fingerprint();
    let f2 = 2u64.fingerprint();
    assert_ne!(f0, f1);
    assert_ne!(f1, f2);
    assert_ne!(f0, f2);
}
