use base64::engine::general_purpose;
use base64::Engine;
use cluster_digest::{hash_bytes, merges_to_clusters, Cluster, ClusterBuilder, ClusterError, Merge};

#[test]
fn two_keys_and_one_merge_give_the_recorded_digest() {
    let merges = vec![Merge {
        left_key: String::from("hello world"),
        right_key: String::from("ciao mondo"),
        probability: 0.75f32.to_bits(),
    }];
    let clusters = merges_to_clusters(&Vec::new(), &merges, 1).unwrap();
    assert_eq!(clusters.len(), 1);
    let cluster = clusters[&1];
    assert_eq!(
        general_purpose::STANDARD.encode(cluster.hash),
        "3R09Ud9oJs57Ak0YNCmKB+FCgSxwb+33Rrmgw9BJypw="
    );
    assert_eq!(cluster.probability.map(f32::from_bits), Some(0.75f32));
    assert_eq!(cluster.id, 3);
}

#[test]
fn no_keys_and_no_merges_give_no_clusters() {
    let clusters = merges_to_clusters(&Vec::new(), &Vec::new(), 0).unwrap();
    assert!(clusters.is_empty());
}

#[test]
fn a_key_that_no_merge_touches_keeps_its_leaf() {
    let keys = vec![String::from("alone"), String::from("a"), String::from("b")];
    let merges = vec![Merge {
        left_key: String::from("a"),
        right_key: String::from("b"),
        probability: 0.5f32.to_bits(),
    }];
    let clusters = merges_to_clusters(&keys, &merges, 10).unwrap();
    assert_eq!(clusters.len(), 2);
    let leaf = clusters[&0];
    assert_eq!(leaf.hash, hash_bytes(b"alone"));
    assert_eq!(leaf.probability, None);
    assert_eq!(leaf.id, 10);
    let merged = clusters[&2];
    assert_eq!(merged.id, 13);
    assert_eq!(merged.probability, Some(0.5f32.to_bits()));
}

#[test]
fn without_merges_every_key_is_a_singleton() {
    let keys = vec![String::from("a"), String::from("b"), String::from("c"), String::from("a")];
    let clusters = merges_to_clusters(&keys, &Vec::new(), 100).unwrap();
    assert_eq!(clusters.len(), 3);
    assert_eq!(clusters[&0].hash, hash_bytes(b"a"));
    assert_eq!(clusters[&1].hash, hash_bytes(b"b"));
    assert_eq!(clusters[&2].hash, hash_bytes(b"c"));
    assert_eq!(clusters[&0].id, 100);
    assert_eq!(clusters[&1].id, 101);
    assert_eq!(clusters[&2].id, 102);
    assert_eq!(clusters[&1].probability, None);
}

#[test]
fn a_merge_of_a_key_with_itself_is_rejected() {
    let merges = vec![Merge {
        left_key: String::from("a"),
        right_key: String::from("a"),
        probability: 1.0f32.to_bits(),
    }];
    assert_eq!(
        merges_to_clusters(&Vec::new(), &merges, 0).err(),
        Some(ClusterError::SelfMergeError)
    );
}

#[test]
fn a_repeated_merge_is_rejected() {
    let merges = vec![
        Merge { left_key: String::from("a"), right_key: String::from("b"), probability: 1 },
        Merge { left_key: String::from("b"), right_key: String::from("a"), probability: 2 },
    ];
    assert_eq!(
        merges_to_clusters(&Vec::new(), &merges, 0).err(),
        Some(ClusterError::SelfMergeError)
    );
}

#[test]
fn a_merge_inside_one_component_is_rejected() {
    let merges = vec![
        Merge { left_key: String::from("a"), right_key: String::from("b"), probability: 1 },
        Merge { left_key: String::from("b"), right_key: String::from("c"), probability: 2 },
        Merge { left_key: String::from("c"), right_key: String::from("a"), probability: 3 },
        Merge { left_key: String::from("d"), right_key: String::from("e"), probability: 4 },
    ];
    assert_eq!(
        merges_to_clusters(&Vec::new(), &merges, 0).err(),
        Some(ClusterError::SelfMergeError)
    );
}

#[test]
fn later_merges_combine_current_clusters_left_before_right() {
    let merges = vec![
        Merge { left_key: String::from("a"), right_key: String::from("b"), probability: 1 },
        Merge { left_key: String::from("c"), right_key: String::from("a"), probability: 2 },
    ];
    let clusters = merges_to_clusters(&Vec::new(), &merges, 0).unwrap();
    assert_eq!(clusters.len(), 1);
    let a = Cluster::leaf(0, "a");
    let b = Cluster::leaf(1, "b");
    let c = Cluster::leaf(2, "c");
    let ab = Cluster::combine(3, vec![a, b], 1);
    let c_ab = Cluster::combine(4, vec![c, ab], 2);
    let root = clusters[&1];
    assert_eq!(root.hash, c_ab.hash);
    assert_eq!(root.id, 4);
    assert_eq!(root.probability, Some(2));
    let expected: [u8; 32] = [
        0x32, 0x47, 0xe2, 0x05, 0x6e, 0xb2, 0x23, 0xca, 0x87, 0x31, 0x09, 0x07, 0xee, 0x9a, 0xc3,
        0xee, 0xe8, 0x56, 0x00, 0x8a, 0x66, 0x18, 0x95, 0xf5, 0xf2, 0x86, 0x4d, 0x83, 0xff, 0x8b,
        0xf8, 0x8b,
    ];
    assert_eq!(root.hash, expected);
}

#[test]
fn the_order_of_the_merges_shows_in_the_digest() {
    let first = vec![
        Merge { left_key: String::from("a"), right_key: String::from("b"), probability: 1 },
        Merge { left_key: String::from("a"), right_key: String::from("c"), probability: 2 },
    ];
    let second = vec![
        Merge { left_key: String::from("a"), right_key: String::from("c"), probability: 2 },
        Merge { left_key: String::from("a"), right_key: String::from("b"), probability: 1 },
    ];
    let keys = vec![String::from("a"), String::from("b"), String::from("c")];
    let one = merges_to_clusters(&keys, &first, 0).unwrap();
    let two = merges_to_clusters(&keys, &second, 0).unwrap();
    assert_eq!(one.len(), 1);
    assert_eq!(two.len(), 1);
    let h1 = one.values().next().unwrap().hash;
    let h2 = two.values().next().unwrap().hash;
    assert_ne!(h1, h2);
}

#[test]
fn two_runs_over_the_same_input_agree() {
    let keys =
        vec![String::from("k0"), String::from("k1"), String::from("k2"), String::from("k3")];
    let mut merges = Vec::new();
    merges.push(Merge {
        left_key: String::from("k0"),
        right_key: String::from("k3"),
        probability: 0.25f32.to_bits(),
    });
    merges.push(Merge {
        left_key: String::from("k5"),
        right_key: String::from("k1"),
        probability: 0.5f32.to_bits(),
    });
    merges.push(Merge {
        left_key: String::from("k1"),
        right_key: String::from("k0"),
        probability: 0.75f32.to_bits(),
    });
    let one = merges_to_clusters(&keys, &merges, 7).unwrap();
    let two = merges_to_clusters(&keys, &merges, 7).unwrap();
    assert_eq!(one.len(), 2);
    assert_eq!(one.len(), two.len());
    for (root, cluster) in one.iter() {
        let other = two[root];
        assert_eq!(cluster.id, other.id);
        assert_eq!(cluster.hash, other.hash);
        assert_eq!(cluster.probability, other.probability);
    }
}

#[test]
fn every_merge_leaves_one_cluster_fewer() {
    let keys = vec![
        String::from("a"),
        String::from("b"),
        String::from("c"),
        String::from("d"),
        String::from("e"),
    ];
    let mut builder = ClusterBuilder::new(&keys, 0);
    builder = builder
        .apply(&Merge { left_key: String::from("a"), right_key: String::from("b"), probability: 0 })
        .unwrap();
    builder = builder
        .apply(&Merge { left_key: String::from("d"), right_key: String::from("c"), probability: 0 })
        .unwrap();
    assert_eq!(builder.next_id(), 7);
    builder = builder
        .apply(&Merge { left_key: String::from("b"), right_key: String::from("c"), probability: 0 })
        .unwrap();
    assert_eq!(builder.next_id(), 8);
    let clusters = builder.finish();
    assert_eq!(clusters.len(), 2);
}

#[test]
fn the_builder_rejects_a_merge_with_an_unknown_key() {
    let keys = vec![String::from("a"), String::from("b")];
    let builder = ClusterBuilder::new(&keys, 0);
    let res = builder.apply(&Merge {
        left_key: String::from("a"),
        right_key: String::from("zz"),
        probability: 0,
    });
    assert_eq!(res.err(), Some(ClusterError::IndexOutOfRange));
    let builder = ClusterBuilder::new(&keys, 0);
    let res = builder.apply(&Merge {
        left_key: String::from("zz"),
        right_key: String::from("zz"),
        probability: 0,
    });
    assert_eq!(res.err(), Some(ClusterError::IndexOutOfRange));
}

#[test]
fn the_builder_rejects_a_self_merge() {
    let keys = vec![String::from("a"), String::from("b")];
    let builder = ClusterBuilder::new(&keys, 0);
    let builder = builder
        .apply(&Merge { left_key: String::from("a"), right_key: String::from("b"), probability: 0 })
        .unwrap();
    let res = builder.apply(&Merge {
        left_key: String::from("a"),
        right_key: String::from("b"),
        probability: 0,
    });
    assert_eq!(res.err(), Some(ClusterError::SelfMergeError));
}

#[test]
fn the_empty_key_is_accepted() {
    let merges = vec![Merge {
        left_key: String::new(),
        right_key: String::from("x"),
        probability: 0.5f32.to_bits(),
    }];
    let clusters = merges_to_clusters(&Vec::new(), &merges, 0).unwrap();
    assert_eq!(clusters.len(), 1);
    let empty = Cluster::leaf(0, "");
    let x = Cluster::leaf(1, "x");
    assert_eq!(clusters[&1].hash, Cluster::combine(2, vec![empty, x], 0).hash);
}

#[test]
fn cluster_ids_are_not_reused() {
    let merges = vec![
        Merge { left_key: String::from("a"), right_key: String::from("b"), probability: 1 },
        Merge { left_key: String::from("c"), right_key: String::from("d"), probability: 2 },
        Merge { left_key: String::from("e"), right_key: String::from("f"), probability: 3 },
    ];
    let clusters = merges_to_clusters(&vec![String::from("g")], &merges, 50).unwrap();
    let mut ids: Vec<u64> = clusters.values().map(|c| c.id).collect();
    ids.sort();
    assert_eq!(ids, vec![50, 57, 58, 59]);
}

#[test]
fn every_known_key_has_a_current_cluster() {
    let keys = vec![String::from("a"), String::from("b"), String::from("c")];
    let builder = ClusterBuilder::new(&keys, 0);
    let mut builder = builder
        .apply(&Merge { left_key: String::from("b"), right_key: String::from("a"), probability: 9 })
        .unwrap();
    let of_a = builder.cluster_of(&String::from("a")).unwrap();
    let of_b = builder.cluster_of(&String::from("b")).unwrap();
    let of_c = builder.cluster_of(&String::from("c")).unwrap();
    assert_eq!(of_a.id, 3);
    assert_eq!(of_b.id, 3);
    assert_eq!(of_a.hash, of_b.hash);
    let expected = Cluster::combine(3, vec![Cluster::leaf(1, "b"), Cluster::leaf(0, "a")], 9);
    assert_eq!(of_a.hash, expected.hash);
    assert_eq!(of_a.probability, Some(9));
    assert_eq!(of_c.id, 2);
    assert_eq!(of_c.hash, hash_bytes(b"c"));
    assert_eq!(of_c.probability, None);
    assert!(builder.cluster_of(&String::from("d")).is_none());
    assert_eq!(builder.finish().len(), 2);
}
