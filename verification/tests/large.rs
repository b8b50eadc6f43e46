//! Large random key sets: build convergence and the full round trip.

use minimal_perfect_hash::{BuildConfig, Builder, Mphf};

/// A deterministic xorshift generator for reproducible random keys.
struct XorShift64(u64);

impl XorShift64 {
    fn next(&mut self) -> u64 {
        let mut x = self.0;
        x ^= x << 13;
        x ^= x >> 7;
        x ^= x << 17;
        self.0 = x;
        x
    }
}

fn random_keys(count: usize, seed: u64) -> Vec<Vec<u8>> {
    let mut rng = XorShift64(seed);
    let mut keys = Vec::with_capacity(count);
    for _ in 0..count {
        let mut key = Vec::with_capacity(16);
        key.extend_from_slice(&rng.next().to_le_bytes());
        key.extend_from_slice(&rng.next().to_le_bytes());
        keys.push(key);
    }
    keys
}

fn assert_bijection(mph: &Mphf, keys: &[Vec<u8>]) {
    let n = keys.len();
    assert_eq!(mph.n, n as u64);
    let mut hit = vec![false; n];
    for k in keys {
        let idx = mph.index(k) as usize;
        assert!(idx < n);
        assert!(!hit[idx]);
        hit[idx] = true;
    }
}

#[test]
fn one_million_random_keys() {
    let keys = random_keys(1_000_000, 0x1234_5678_9ABC_DEF0);
    let cfg = BuildConfig { gamma_centi: 125, rehash_limit: 32, ..BuildConfig::default() };
    let mph = Builder::new().with_config(cfg).build(keys.clone()).expect("build must converge");
    assert_bijection(&mph, &keys);
}

#[test]
fn round_trip_large() {
    let keys = random_keys(1_000_000, 0x1234_5678_9ABC_DEF0);
    let cfg = BuildConfig { gamma_centi: 125, rehash_limit: 32, ..BuildConfig::default() };
    let mph = Builder::new().with_config(cfg).build(keys.clone()).expect("build must converge");
    let bytes = mph.to_bytes().unwrap();
    let back = Mphf::from_bytes(&bytes).unwrap();
    for k in &keys {
        assert_eq!(back.index(k), mph.index(k));
    }
}
