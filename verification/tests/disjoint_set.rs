use cluster_digest::{ClusterError, DisjointSet};

#[test]
fn connected_components() {
    let mut djs = DisjointSet::new(100);
    djs.union(0, 1).unwrap();
    assert_eq!(djs.get_components().len(), 99);
}

#[test]
fn new_set_has_one_component_per_id() {
    let mut djs = DisjointSet::new(5);
    assert_eq!(djs.len(), 5);
    let mut components = djs.get_components();
    components.sort();
    assert_eq!(components, vec![vec![0], vec![1], vec![2], vec![3], vec![4]]);
}

#[test]
fn empty_set_has_no_components() {
    let mut djs = DisjointSet::new(0);
    assert_eq!(djs.get_components().len(), 0);
    assert_eq!(djs.find(0), Err(ClusterError::IndexOutOfRange));
}

#[test]
fn each_union_of_distinct_components_removes_one() {
    let mut djs = DisjointSet::new(10);
    assert_eq!(djs.get_components().len(), 10);
    djs.union(0, 1).unwrap();
    assert_eq!(djs.get_components().len(), 9);
    djs.union(2, 3).unwrap();
    assert_eq!(djs.get_components().len(), 8);
    djs.union(1, 3).unwrap();
    assert_eq!(djs.get_components().len(), 7);
}

#[test]
fn union_within_one_component_changes_nothing() {
    let mut djs = DisjointSet::new(4);
    djs.union(0, 1).unwrap();
    djs.union(1, 2).unwrap();
    assert_eq!(djs.get_components().len(), 2);
    djs.union(0, 2).unwrap();
    djs.union(2, 2).unwrap();
    assert_eq!(djs.get_components().len(), 2);
    let mut components = djs.get_components();
    components.sort();
    assert_eq!(components, vec![vec![0, 1, 2], vec![3]]);
}

#[test]
fn find_of_a_fresh_id_is_the_id() {
    let mut djs = DisjointSet::new(3);
    assert_eq!(djs.find(0), Ok(0));
    assert_eq!(djs.find(2), Ok(2));
}

#[test]
fn find_rejects_an_id_beyond_the_size() {
    let mut djs = DisjointSet::new(3);
    assert_eq!(djs.find(3), Err(ClusterError::IndexOutOfRange));
    assert_eq!(djs.find(usize::MAX), Err(ClusterError::IndexOutOfRange));
    assert_eq!(djs.get_components().len(), 3);
}

#[test]
fn union_rejects_an_id_beyond_the_size() {
    let mut djs = DisjointSet::new(3);
    assert_eq!(djs.union(0, 3), Err(ClusterError::IndexOutOfRange));
    assert_eq!(djs.union(3, 0), Err(ClusterError::IndexOutOfRange));
    assert_eq!(djs.union(7, 9), Err(ClusterError::IndexOutOfRange));
    assert_eq!(djs.get_components().len(), 3);
}

#[test]
fn on_a_tie_the_second_root_becomes_the_parent() {
    let mut djs = DisjointSet::new(4);
    djs.union(0, 1).unwrap();
    assert_eq!(djs.find(0), Ok(1));
    assert_eq!(djs.find(1), Ok(1));
    djs.union(3, 2).unwrap();
    assert_eq!(djs.find(3), Ok(2));
}

#[test]
fn the_root_of_lower_rank_goes_under_the_other() {
    let mut djs = DisjointSet::new(3);
    djs.union(0, 1).unwrap();
    djs.union(1, 2).unwrap();
    assert_eq!(djs.find(2), Ok(1));
    let mut other = DisjointSet::new(3);
    other.union(0, 1).unwrap();
    other.union(2, 1).unwrap();
    assert_eq!(other.find(2), Ok(1));
    assert_eq!(other.find(0), Ok(1));
}

#[test]
fn two_ids_share_a_component_exactly_when_their_roots_agree() {
    let mut djs = DisjointSet::new(6);
    djs.union(0, 1).unwrap();
    djs.union(2, 3).unwrap();
    djs.union(1, 3).unwrap();
    assert_eq!(djs.find(0), djs.find(2));
    assert_eq!(djs.find(1), djs.find(3));
    assert_ne!(djs.find(0), djs.find(4));
    assert_ne!(djs.find(4), djs.find(5));
}

#[test]
fn link_joins_two_roots() {
    let mut djs = DisjointSet::new(3);
    assert!(djs.is_root(0));
    assert!(djs.is_root(1));
    assert_eq!(djs.link(0, 1), Ok(()));
    assert!(!djs.is_root(0));
    assert!(djs.is_root(1));
    assert_eq!(djs.find(0), Ok(1));
    assert_eq!(djs.get_components().len(), 2);
}

#[test]
fn linking_a_root_with_itself_does_not_raise_its_rank() {
    let mut djs = DisjointSet::new(2);
    assert_eq!(djs.link(0, 0), Ok(()));
    assert!(djs.is_root(0));
    djs.union(0, 1).unwrap();
    assert_eq!(djs.find(0), Ok(1));
    assert_eq!(djs.get_components().len(), 1);
}

#[test]
fn is_root_is_false_beyond_the_size() {
    let djs = DisjointSet::new(2);
    assert!(!djs.is_root(2));
}

#[test]
fn components_list_their_members_in_increasing_order() {
    let mut djs = DisjointSet::new(7);
    djs.union(6, 0).unwrap();
    djs.union(3, 6).unwrap();
    djs.union(5, 1).unwrap();
    let mut components = djs.get_components();
    components.sort();
    assert_eq!(components, vec![vec![0, 3, 6], vec![1, 5], vec![2], vec![4]]);
}

#[test]
fn find_survives_a_long_chain_of_unions() {
    let n = 200_000;
    let mut djs = DisjointSet::new(n);
    let mut i = 1;
    while i < n {
        djs.union(i - 1, i).unwrap();
        i += 1;
    }
    assert_eq!(djs.get_components().len(), 1);
    assert_eq!(djs.find(0), djs.find(n - 1));
}

#[test]
fn link_rejects_an_id_beyond_the_size() {
    let mut djs = DisjointSet::new(2);
    assert_eq!(djs.link(0, 2), Err(ClusterError::IndexOutOfRange));
    assert_eq!(djs.link(2, 1), Err(ClusterError::IndexOutOfRange));
    assert!(djs.is_root(0));
    assert!(djs.is_root(1));
    assert_eq!(djs.get_components().len(), 2);
}
