//! The framed little-endian serialization and its round trip.

use minimal_perfect_hash::{Builder, MphError, Mphf};

fn byte_keys(keys: &[&str]) -> Vec<Vec<u8>> {
    keys.iter().map(|k| k.as_bytes().to_vec()).collect()
}

#[test]
fn round_trip_small() {
    let keys = byte_keys(&["apple", "banana", "cherry", "date", "elderberry"]);
    let mph = Builder::new().build(keys.clone()).unwrap();
    let bytes = mph.to_bytes().unwrap();
    let back = Mphf::from_bytes(&bytes).unwrap();
    assert_eq!(back.n, mph.n);
    assert_eq!(back.m, mph.m);
    assert_eq!(back.salt, mph.salt);
    assert_eq!(back.g, mph.g);
    for k in &keys {
        assert_eq!(back.index(k), mph.index(k));
    }
    assert_eq!(back.index(b"unknown"), mph.index(b"unknown"));
}

#[test]
fn serialized_layout() {
    let mph = Mphf { n: 1, m: 2, salt: 0x0102_0304_0506_0708, g: vec![0, 0] };
    let bytes = mph.to_bytes().unwrap();
    let expected: Vec<u8> = vec![
        1, 0, 0, 0, 0, 0, 0, 0, // n, little-endian u64
        2, 0, 0, 0, // m, little-endian u32
        8, 7, 6, 5, 4, 3, 2, 1, // salt, little-endian u64
        2, 0, 0, 0, // length prefix (= m)
        0, 0, 0, 0, // g[0]
        0, 0, 0, 0, // g[1]
    ];
    assert_eq!(bytes, expected);
    let back = Mphf::from_bytes(&bytes).unwrap();
    assert_eq!(back.n, 1);
    assert_eq!(back.m, 2);
    assert_eq!(back.salt, 0x0102_0304_0506_0708);
    assert_eq!(back.g, vec![0, 0]);
}

#[test]
fn from_bytes_rejects_short_input() {
    assert!(matches!(Mphf::from_bytes(&[]), Err(MphError::Serde)));
    assert!(matches!(Mphf::from_bytes(&[0u8; 23]), Err(MphError::Serde)));
}

#[test]
fn from_bytes_rejects_bad_frame() {
    // A zero key count.
    let mut bytes = vec![0u8; 28];
    bytes[8] = 1; // m = 1
    bytes[20] = 1; // length prefix = 1
    assert!(matches!(Mphf::from_bytes(&bytes), Err(MphError::Serde)));

    // A length prefix that contradicts m.
    let mut bytes = vec![0u8; 28];
    bytes[0] = 1; // n = 1
    bytes[8] = 1; // m = 1
    bytes[20] = 2; // length prefix = 2
    assert!(matches!(Mphf::from_bytes(&bytes), Err(MphError::Serde)));

    // A total length that does not match m.
    let mut bytes = vec![0u8; 32];
    bytes[0] = 1; // n = 1
    bytes[8] = 1; // m = 1, so the frame should be 28 bytes, not 32
    bytes[20] = 1;
    assert!(matches!(Mphf::from_bytes(&bytes), Err(MphError::Serde)));
}

#[test]
fn from_bytes_rejects_out_of_range_entry() {
    // n = 1, m = 1, but g[0] = 5 is not below n.
    let mut bytes = vec![0u8; 28];
    bytes[0] = 1;
    bytes[8] = 1;
    bytes[20] = 1;
    bytes[24] = 5;
    assert!(matches!(Mphf::from_bytes(&bytes), Err(MphError::Serde)));

    // The same frame with g[0] = 0 decodes.
    bytes[24] = 0;
    let back = Mphf::from_bytes(&bytes).unwrap();
    assert_eq!(back.n, 1);
    assert_eq!(back.g, vec![0]);
}

#[test]
fn round_trip_bytes_identical() {
    let keys = byte_keys(&["one", "two", "three"]);
    let mph = Builder::new().build(keys).unwrap();
    let bytes = mph.to_bytes().unwrap();
    let back = Mphf::from_bytes(&bytes).unwrap();
    let bytes2 = back.to_bytes().unwrap();
    assert_eq!(bytes, bytes2);
}
