//! The per-key hash triple and the bit set.

use minimal_perfect_hash::{BitSet, KeyHash};

#[test]
fn from_key_distinguishes_keys() {
    let ka = KeyHash::from_key(b"a", 0);
    let kb = KeyHash::from_key(b"b", 0);
    assert_ne!(ka.h1, kb.h1);
    assert_ne!(ka.h2, kb.h2);
    assert_ne!(ka.h3, kb.h3);
}

#[test]
fn from_key_is_deterministic() {
    let k1 = KeyHash::from_key(b"stable", 99);
    let k2 = KeyHash::from_key(b"stable", 99);
    assert_eq!(k1.h1, k2.h1);
    assert_eq!(k1.h2, k2.h2);
    assert_eq!(k1.h3, k2.h3);
    let k3 = KeyHash::from_key(b"stable", 100);
    assert_ne!(k1.h1, k3.h1);
}

#[test]
fn bucket_reduces_modulo() {
    let kh = KeyHash { h1: 10, h2: 7, h3: 3 };
    assert_eq!(kh.bucket(4), 2);
    assert_eq!(kh.bucket(1), 0);
    // A zero bucket count is treated as one bucket.
    assert_eq!(kh.bucket(0), 0);
}

#[test]
fn place_mixes_displacement() {
    let kh = KeyHash { h1: 0, h2: 7, h3: 3 };
    assert_eq!(kh.place(5, 2), 3); // (7 + 2 * 3) % 5
    assert_eq!(kh.place(100, 0), 7);
    // Wrapping: 2 * (2^64 - 1) wraps to 2^64 - 2; adding 5 wraps to 3.
    let kh = KeyHash { h1: 0, h2: 5, h3: u64::MAX };
    assert_eq!(kh.place(10, 2), 3);
}

#[test]
fn bitset_tracks_indices() {
    let mut bits = BitSet::new(130);
    for i in 0..130 {
        assert!(!bits.test(i));
    }
    bits.set(0);
    bits.set(64);
    bits.set(129);
    for i in 0..130 {
        let expected = i == 0 || i == 64 || i == 129;
        assert_eq!(bits.test(i), expected);
    }
}

#[test]
fn bitset_empty_words() {
    let bits = BitSet::new(0);
    let _ = bits;
    let mut one = BitSet::new(1);
    assert!(!one.test(0));
    one.set(0);
    assert!(one.test(0));
}
