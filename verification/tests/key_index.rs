use cluster_digest::key_index::digest_prefix;
use cluster_digest::{hash_bytes, KeyIndex};

#[test]
fn ids_follow_the_order_of_first_sight() {
    let mut index = KeyIndex::new();
    assert_eq!(index.id_for(&String::from("b")), 0);
    assert_eq!(index.id_for(&String::from("a")), 1);
    assert_eq!(index.id_for(&String::from("c")), 2);
    assert_eq!(index.len(), 3);
}

#[test]
fn a_known_key_keeps_its_id() {
    let mut index = KeyIndex::new();
    assert_eq!(index.id_for(&String::from("hello world")), 0);
    assert_eq!(index.id_for(&String::from("ciao mondo")), 1);
    assert_eq!(index.id_for(&String::from("hello world")), 0);
    assert_eq!(index.id_for(&String::from("ciao mondo")), 1);
    assert_eq!(index.len(), 2);
}

#[test]
fn the_empty_key_is_a_key_like_any_other() {
    let mut index = KeyIndex::new();
    assert_eq!(index.id_for(&String::new()), 0);
    assert_eq!(index.id_for(&String::from("x")), 1);
    assert_eq!(index.id_for(&String::new()), 0);
}

#[test]
fn position_finds_known_keys_only() {
    let mut index = KeyIndex::new();
    index.id_for(&String::from("a"));
    index.id_for(&String::from("b"));
    assert_eq!(index.position(&String::from("b")), Some(1));
    assert_eq!(index.position(&String::from("c")), None);
    assert_eq!(index.len(), 2);
}

#[test]
fn key_returns_the_key_of_an_id() {
    let mut index = KeyIndex::new();
    index.id_for(&String::from("a"));
    index.id_for(&String::from("b"));
    assert_eq!(index.key(1), Some(&String::from("b")));
    assert_eq!(index.key(2), None);
}

#[test]
fn register_indexes_each_distinct_key_once() {
    let mut index = KeyIndex::new();
    index.register(&vec![
        String::from("x"),
        String::from("y"),
        String::from("x"),
        String::from("z"),
        String::from("y"),
    ]);
    assert_eq!(index.len(), 3);
    assert_eq!(index.position(&String::from("x")), Some(0));
    assert_eq!(index.position(&String::from("y")), Some(1));
    assert_eq!(index.position(&String::from("z")), Some(2));
}

#[test]
fn digest_prefix_reads_eight_bytes_lowest_first() {
    let mut digest = [0u8; 32];
    digest[0] = 0x01;
    digest[1] = 0x02;
    digest[7] = 0x80;
    digest[8] = 0xff;
    assert_eq!(digest_prefix(&digest), 0x8000_0000_0000_0201);
    assert_eq!(digest_prefix(&[0xff; 32]), u64::MAX);
    assert_eq!(digest_prefix(&[0; 32]), 0);
    assert_eq!(digest_prefix(&hash_bytes(b"hello world")), 0x083e_4d93_b927_4db9);
}

#[test]
fn many_keys_keep_their_ids() {
    let mut index = KeyIndex::new();
    let mut i = 0;
    while i < 5000 {
        assert_eq!(index.id_for(&format!("key-{}", i)), i);
        i += 1;
    }
    assert_eq!(index.len(), 5000);
    assert_eq!(index.id_for(&String::from("key-0")), 0);
    assert_eq!(index.id_for(&String::from("key-4999")), 4999);
    assert_eq!(index.position(&String::from("key-2500")), Some(2500));
    assert_eq!(index.position(&String::from("key-5000")), None);
}
