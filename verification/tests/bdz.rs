//! Behaviour of the builder and the query path on concrete key sets.

use minimal_perfect_hash::{BuildConfig, Builder, MphError, Mphf};

fn byte_keys(keys: &[&str]) -> Vec<Vec<u8>> {
    keys.iter().map(|k| k.as_bytes().to_vec()).collect()
}

/// Every index below `n` is hit exactly once over the key set.
fn assert_bijection(mph: &Mphf, keys: &[Vec<u8>]) {
    let n = keys.len();
    assert_eq!(mph.n, n as u64);
    let mut hit = vec![false; n];
    for k in keys {
        let idx = mph.index(k) as usize;
        assert!(idx < n);
        assert!(!hit[idx], "two keys mapped to index {}", idx);
        hit[idx] = true;
    }
    assert!(hit.iter().all(|&h| h));
}

#[test]
fn tiny_alphabetic_set() {
    let keys = byte_keys(&["apple", "banana", "cherry", "date", "elderberry"]);
    let mph = Builder::new().build(keys.clone()).expect("tiny set must build");
    let indices: Vec<u64> = keys.iter().map(|k| mph.index(k)).collect();
    let mut sorted = indices.clone();
    sorted.sort_unstable();
    assert_eq!(sorted, vec![0, 1, 2, 3, 4]);
    assert_bijection(&mph, &keys);
}

#[test]
fn duplicate_rejection() {
    let keys = byte_keys(&["x", "y", "x"]);
    let err = Builder::new().build(keys).unwrap_err();
    assert!(matches!(err, MphError::DuplicateKey));
}

#[test]
fn duplicate_rejection_adjacent() {
    let keys = byte_keys(&["same", "same"]);
    let err = Builder::new().build(keys).unwrap_err();
    assert!(matches!(err, MphError::DuplicateKey));
}

#[test]
fn single_key() {
    let keys = byte_keys(&["only"]);
    let mph = Builder::new().build(keys).expect("single key must build");
    assert_eq!(mph.index(b"only"), 0);
    assert_eq!(mph.index_str("only"), 0);
    assert_eq!(mph.n, 1);
}

#[test]
fn byte_identity_vs_text_identity() {
    let a = "a".as_bytes().to_vec();
    let a_acute = "\u{e1}".as_bytes().to_vec();
    assert_eq!(a_acute.len(), 2);
    let mph = Builder::new().build(vec![a, a_acute]).expect("two keys must build");
    assert_eq!(mph.n, 2);
    assert_ne!(mph.index_str("a"), mph.index_str("\u{e1}"));
}

#[test]
fn determinism() {
    let cfg = BuildConfig { gamma_centi: 130, rehash_limit: 8, salt: 42 };
    let keys = byte_keys(&["red", "green", "blue", "yellow", "cyan", "magenta"]);
    let m1 = Builder::new().with_config(cfg.clone()).build(keys.clone()).unwrap();
    let m2 = Builder::new().with_config(cfg).build(keys.clone()).unwrap();
    // The effective salt is derived from the base salt, never the base
    // salt itself.
    assert_ne!(m1.salt, 42);
    assert_eq!(m1.n, m2.n);
    assert_eq!(m1.m, m2.m);
    assert_eq!(m1.salt, m2.salt);
    assert_eq!(m1.g, m2.g);
    for k in &keys {
        assert_eq!(m1.index(k), m2.index(k));
    }
    assert_eq!(m1.index(b"not in the set"), m2.index(b"not in the set"));
}

#[test]
fn range_on_unknown_keys() {
    let keys = byte_keys(&["apple", "banana", "cherry"]);
    let mph = Builder::new().build(keys).unwrap();
    for probe in ["", "zebra", "Apple", "apple ", "\u{0}\u{1}\u{2}"] {
        assert!(mph.index_str(probe) < mph.n);
    }
    assert!(mph.index(&[0xff; 1000]) < mph.n);
}

#[test]
fn unresolvable_without_slack() {
    // With m == n (gamma 1.00) a thousand-edge hypergraph is far below the
    // peelability threshold, and a single round cannot succeed.
    let keys: Vec<Vec<u8>> = (0..1000u32).map(|i| format!("key-{}", i).into_bytes()).collect();
    let cfg = BuildConfig { gamma_centi: 100, rehash_limit: 0, salt: 7 };
    let err = Builder::new().with_config(cfg).build(keys).unwrap_err();
    assert!(matches!(err, MphError::Unresolvable));
}

#[test]
fn default_config() {
    let cfg = BuildConfig::default();
    assert_eq!(cfg.gamma_centi, 127);
    assert_eq!(cfg.rehash_limit, 16);
    assert_eq!(cfg.salt, 0xC0FF_EE00_D15E_A5E);
}
