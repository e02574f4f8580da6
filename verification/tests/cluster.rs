use base64::engine::general_purpose;
use base64::Engine;
use cluster_digest::cluster::concat_hashes;
use cluster_digest::{hash_bytes, Cluster};

#[test]
fn make_cluster() {
    let c1 = Cluster {
        id: 1,
        hash: hash_bytes(b"hello world"),
        probability: Some(0.82f32.to_bits()),
    };

    let c2 = Cluster {
        id: 2,
        hash: hash_bytes(b"ciao mondo"),
        probability: Some(0.50f32.to_bits()),
    };

    let combined = Cluster::combine(3, vec![c1, c2], 0.75f32.to_bits());
    println!("{}", general_purpose::STANDARD.encode(combined.hash));
}

#[test]
fn combined_digest_matches_recorded_value() {
    let c1 = Cluster {
        id: 1,
        hash: hash_bytes(b"hello world"),
        probability: Some(0.82f32.to_bits()),
    };
    let c2 = Cluster {
        id: 2,
        hash: hash_bytes(b"ciao mondo"),
        probability: Some(0.50f32.to_bits()),
    };
    let combined = Cluster::combine(3, vec![c1, c2], 0.75f32.to_bits());
    assert_eq!(
        general_purpose::STANDARD.encode(combined.hash),
        "3R09Ud9oJs57Ak0YNCmKB+FCgSxwb+33Rrmgw9BJypw="
    );
    assert_eq!(combined.id, 3);
}

#[test]
fn combined_digest_is_hash_of_concatenated_child_digests() {
    let left = hash_bytes(b"hello world");
    let right = hash_bytes(b"ciao mondo");
    let mut both: Vec<u8> = Vec::new();
    both.extend_from_slice(&left);
    both.extend_from_slice(&right);
    let c1 = Cluster { id: 1, hash: left, probability: None };
    let c2 = Cluster { id: 2, hash: right, probability: None };
    let combined = Cluster::combine(3, vec![c1, c2], 0.75f32.to_bits());
    assert_eq!(combined.hash, hash_bytes(&both));
}

#[test]
fn combine_overwrites_probability() {
    let c1 = Cluster {
        id: 1,
        hash: hash_bytes(b"hello world"),
        probability: Some(0.82f32.to_bits()),
    };
    let c2 = Cluster {
        id: 2,
        hash: hash_bytes(b"ciao mondo"),
        probability: Some(0.50f32.to_bits()),
    };
    let combined = Cluster::combine(3, vec![c1, c2], 0.75f32.to_bits());
    assert_eq!(combined.probability.map(f32::from_bits), Some(0.75f32));
    assert_eq!(combined.probability, Some(0x3f40_0000));
}

#[test]
fn combine_is_order_sensitive() {
    let a = Cluster { id: 1, hash: hash_bytes(b"hello world"), probability: None };
    let b = Cluster { id: 2, hash: hash_bytes(b"ciao mondo"), probability: None };
    let ab = Cluster::combine(3, vec![a, b], 0.75f32.to_bits());
    let ba = Cluster::combine(3, vec![b, a], 0.75f32.to_bits());
    assert_ne!(ab.hash, ba.hash);
    assert_eq!(
        general_purpose::STANDARD.encode(ba.hash),
        "orVMgiKslZNgMXOjyB7CvITiKUYcbV0HQ03me21BPKI="
    );
}

#[test]
fn combine_of_equal_digests_ignores_order() {
    let a = Cluster { id: 1, hash: hash_bytes(b"same"), probability: None };
    let b = Cluster { id: 2, hash: hash_bytes(b"same"), probability: Some(1) };
    let ab = Cluster::combine(3, vec![a, b], 0);
    let ba = Cluster::combine(3, vec![b, a], 0);
    assert_eq!(ab.hash, ba.hash);
}

#[test]
fn combine_of_nothing_hashes_the_empty_input() {
    let combined = Cluster::combine(9, Vec::new(), 1.0f32.to_bits());
    assert_eq!(combined.hash, hash_bytes(b""));
    assert_eq!(
        general_purpose::STANDARD.encode(combined.hash),
        "47DEQpj8HBSa+/TImW+5JCeuQeRkm5NMpJWZG3hSuFU="
    );
    assert_eq!(combined.id, 9);
    assert_eq!(combined.probability, Some(0x3f80_0000));
}

#[test]
fn combine_of_one_child_hashes_its_digest() {
    let child = Cluster { id: 1, hash: hash_bytes(b"hello world"), probability: None };
    let combined = Cluster::combine(2, vec![child], 0);
    assert_eq!(combined.hash, hash_bytes(&child.hash));
    assert_ne!(combined.hash, child.hash);
}

#[test]
fn hash_bytes_gives_the_sha256_test_vector() {
    let digest = hash_bytes(b"hello world");
    let expected: [u8; 32] = [
        0xb9, 0x4d, 0x27, 0xb9, 0x93, 0x4d, 0x3e, 0x08, 0xa5, 0x2e, 0x52, 0xd7, 0xda, 0x7d, 0xab,
        0xfa, 0xc4, 0x84, 0xef, 0xe3, 0x7a, 0x53, 0x80, 0xee, 0x90, 0x88, 0xf7, 0xac, 0xe2, 0xef,
        0xcd, 0xe9,
    ];
    assert_eq!(digest, expected);
}

#[test]
fn hash_bytes_of_its_own_output_differs_from_it() {
    let once = hash_bytes(b"hello world");
    let twice = hash_bytes(&once);
    assert_ne!(once, twice);
}

#[test]
fn leaf_has_the_digest_of_the_key_and_no_probability() {
    let leaf = Cluster::leaf(7, "hello world");
    assert_eq!(leaf.id, 7);
    assert_eq!(leaf.hash, hash_bytes(b"hello world"));
    assert_eq!(leaf.probability, None);
}

#[test]
fn leaf_hashes_the_utf8_bytes_of_the_key() {
    let leaf = Cluster::leaf(0, "h\u{e9}llo");
    assert_eq!(leaf.hash, hash_bytes(&[0x68, 0xc3, 0xa9, 0x6c, 0x6c, 0x6f]));
}

#[test]
fn leaf_of_the_empty_key_is_accepted() {
    let leaf = Cluster::leaf(0, "");
    assert_eq!(leaf.hash, hash_bytes(b""));
    assert_eq!(leaf.probability, None);
}

#[test]
fn concat_hashes_lays_the_digests_end_to_end() {
    let mut first = [0u8; 32];
    let mut second = [0u8; 32];
    let mut i = 0;
    while i < 32 {
        first[i] = i as u8;
        second[i] = 0xff - i as u8;
        i += 1;
    }
    let a = Cluster { id: 1, hash: first, probability: None };
    let b = Cluster { id: 2, hash: second, probability: Some(5) };
    let buffer = concat_hashes(&vec![a, b, a]);
    assert_eq!(buffer.len(), 96);
    assert_eq!(&buffer[..32], &first[..]);
    assert_eq!(&buffer[32..64], &second[..]);
    assert_eq!(&buffer[64..], &first[..]);
    assert_eq!(buffer[33], 0xfe);
    assert!(concat_hashes(&Vec::new()).is_empty());
}
