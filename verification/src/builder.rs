//! The executable build: from keys and merges to one cluster per
//! component.

use crate::build_state::{
    build, lemma_initial, lemma_known_merge_keys, lemma_run, lemma_run_failure_is_final,
    lemma_run_next, lemma_step, merge_keys, universe, BuildState,
};
use crate::cluster::{leaf, views_of, Cluster, ClusterView, Merge};
use crate::disjoint_set::DisjointSet;
use crate::error::ClusterError;
use crate::forest::{lemma_joined, lemma_partition, lemma_singletons};
use crate::key_index::{
    extend_index, index_keys, lemma_extend_index_concat, lemma_position_unique, lemma_with_key,
    texts, with_key, KeyIndex,
};
use std::collections::HashMap;
use vstd::prelude::*;

verus! {

/// The views of the clusters of a result map.
pub open spec fn cluster_views(clusters: Map<usize, Cluster>) -> Map<usize, ClusterView> {
    Map::new(|r: usize| clusters.contains_key(r), |r: usize| clusters[r]@)
}

/// Builds the cluster of each component, one merge at a time.
pub struct ClusterBuilder {
    index: KeyIndex,
    sets: DisjointSet,
    current: Vec<Cluster>,
    next_id: u64,
}

impl View for ClusterBuilder {
    type V = BuildState;

    closed spec fn view(&self) -> BuildState {
        BuildState {
            keys: self.index@,
            partition: self.sets@.partition(),
            current: views_of(self.current@),
            next_id: self.next_id,
        }
    }
}

impl ClusterBuilder {
    /// The parts of the builder fit together and its state is well-formed.
    pub closed spec fn wf(&self) -> bool {
        &&& self.index.wf()
        &&& self.sets.wf()
        &&& self.sets@.len() == self.index@.len()
        &&& self.current@.len() == self.index@.len()
        &&& self@.wf()
    }

    /// Starts a build over the keys of an index: every key alone, with
    /// its leaf cluster.
    fn with_index(index: KeyIndex, first_id: u64) -> (builder: ClusterBuilder)
        requires
            index.wf(),
            first_id + index@.len() <= u64::MAX,
        ensures
            builder.wf(),
            builder@ == BuildState::initial(index@, first_id),
    {
        let n = index.len();
        let sets = DisjointSet::new(n);
        let mut current: Vec<Cluster> = Vec::new();
        let mut i: usize = 0;
        while i < n
            invariant
                i <= n,
                n == index@.len(),
                first_id + n <= u64::MAX,
                current@.len() == i,
                forall|j: int|
                    0 <= j < i ==> (#[trigger] current@[j])@ == leaf(
                        (first_id + j) as u64,
                        index@[j],
                    ),
            decreases n - i,
        {
            match index.key(i) {
                Some(key) => {
                    current.push(Cluster::leaf(first_id + i as u64, key.as_str()));
                },
                None => {},
            }
            i += 1;
        }
        let builder = ClusterBuilder { index, sets, current, next_id: first_id + n as u64 };
        proof {
            lemma_singletons(n as nat);
            lemma_initial(index@, first_id);
            assert(builder@.current =~= BuildState::initial(index@, first_id).current);
        }
        builder
    }

    /// Starts a build over `keys`. Keys that occur more than once count
    /// once. The key with id `i` gets the leaf cluster with id
    /// `first_id + i`.
    pub fn new(keys: &Vec<String>, first_id: u64) -> (builder: ClusterBuilder)
        requires
            first_id + index_keys(texts(keys@)).len() <= u64::MAX,
        ensures
            builder.wf(),
            builder@.wf(),
            builder@ == BuildState::initial(index_keys(texts(keys@)), first_id),
    {
        let mut index = KeyIndex::new();
        index.register(keys);
        ClusterBuilder::with_index(index, first_id)
    }

    /// The id that the next combined cluster will get.
    pub fn next_id(&self) -> (id: u64)
        ensures
            id == self@.next_id,
    {
        self.next_id
    }

    /// The current cluster of the component of `key`, if the key is
    /// known. Looking it up compresses a path in the disjoint set and
    /// leaves the state of the build as it is.
    pub fn cluster_of(&mut self, key: &String) -> (cluster: Option<Cluster>)
        requires
            old(self).wf(),
        ensures
            final(self).wf(),
            final(self)@ == old(self)@,
            old(self)@.keys.contains(key@) ==> cluster.is_some() && cluster.unwrap()@
                == old(self)@.cluster_of(key@),
            !old(self)@.keys.contains(key@) ==> cluster.is_none(),
    {
        match self.index.position(key) {
            None => None,
            Some(id) => {
                proof {
                    lemma_position_unique(self.index@, key@, id as int);
                    lemma_partition(self.sets@);
                }
                match self.sets.find(id) {
                    Ok(root) => Some(self.current[root]),
                    Err(_) => None,
                }
            },
        }
    }

    /// Applies one merge and returns the builder in its new state. A
    /// failure ends the build: the builder is gone.
    pub fn apply(self, merge: &Merge) -> (res: Result<ClusterBuilder, ClusterError>)
        requires
            self.wf(),
            self@.next_id < u64::MAX,
        ensures
            match res {
                Ok(builder) => builder.wf() && builder@.wf() && self@.step(*merge) == Ok::<
                    BuildState,
                    ClusterError,
                >(builder@),
                Err(e) => self@.step(*merge) == Err::<BuildState, ClusterError>(e),
            },
    {
        let ghost state = self@;
        let ghost left = merge.left_key@;
        let ghost right = merge.right_key@;
        let mut builder = self;
        let l = builder.index.id_for(&merge.left_key);
        let r = builder.index.id_for(&merge.right_key);
        proof {
            lemma_with_key(state.keys, left);
            lemma_with_key(with_key(state.keys, left), right);
            lemma_position_unique(builder.index@, left, l as int);
            lemma_position_unique(builder.index@, right, r as int);
            if state.keys.contains(left) {
                lemma_position_unique(state.keys, left, l as int);
            }
            if state.keys.contains(right) {
                lemma_position_unique(state.keys, right, r as int);
            }
            lemma_partition(builder.sets@);
        }
        let l_root = builder.sets.find(l)?;
        let r_root = builder.sets.find(r)?;
        if l_root == r_root {
            return Err(ClusterError::SelfMergeError);
        }
        let cluster = Cluster::combine(
            builder.next_id,
            vec![builder.current[l_root], builder.current[r_root]],
            merge.probability,
        );
        builder.sets.union(l, r)?;
        let root = builder.sets.find(l)?;
        proof {
            lemma_joined(state.partition, l as int, r as int);
            lemma_partition(builder.sets@);
            lemma_step(state, *merge);
        }
        builder.current[root] = cluster;
        builder.next_id += 1;
        proof {
            let children = seq![state.cluster_of(left), state.cluster_of(right)];
            assert(views_of(seq![self.current@[l_root as int], self.current@[r_root as int]])
                =~= children);
            assert(builder@.current =~= state.step(*merge)->Ok_0.current);
        }
        Ok(builder)
    }

    /// Ends the build and returns, for each representative, the current
    /// cluster of its component.
    pub fn finish(self) -> (clusters: HashMap<usize, Cluster>)
        requires
            self.wf(),
        ensures
            cluster_views(clusters@) == self@.clusters(),
    {
        let n = self.sets.len();
        let mut clusters: HashMap<usize, Cluster> = HashMap::new();
        let mut x: usize = 0;
        proof {
            lemma_partition(self.sets@);
        }
        while x < n
            invariant
                x <= n,
                self.wf(),
                n == self.sets@.len(),
                forall|r: usize|
                    clusters@.contains_key(r) <==> r < x && self@.partition.rep[r as int] == r,
                forall|r: usize|
                    clusters@.contains_key(r) ==> (#[trigger] clusters@[r])@
                        == self@.current[r as int],
            decreases n - x,
        {
            proof {
                lemma_partition(self.sets@);
            }
            if self.sets.is_root(x) {
                clusters.insert(x, self.current[x]);
            }
            x += 1;
        }
        assert(cluster_views(clusters@) =~= self@.clusters());
        clusters
    }
}

/// Runs a whole build: indexes the given keys and then the keys of the
/// merges, applies the merges in order, and returns the cluster of each
/// component under the component's representative.
///
/// The key with id `i` starts with the leaf cluster `first_id + i`; the
/// merges get the cluster ids that follow, one each. The first merge
/// whose keys already share a cluster ends the build with
/// `SelfMergeError`.
pub fn merges_to_clusters(keys: &Vec<String>, merges: &Vec<Merge>, first_id: u64) -> (res: Result<
    HashMap<usize, Cluster>,
    ClusterError,
>)
    requires
        first_id + universe(texts(keys@), merges@).len() + merges@.len() <= u64::MAX,
    ensures
        match res {
            Ok(clusters) => build(texts(keys@), merges@, first_id) == Ok::<
                Map<usize, ClusterView>,
                ClusterError,
            >(cluster_views(clusters@)),
            Err(e) => e == ClusterError::SelfMergeError && build(texts(keys@), merges@, first_id)
                == Err::<Map<usize, ClusterView>, ClusterError>(e),
        },
{
    let mut index = KeyIndex::new();
    index.register(keys);
    let mut i: usize = 0;
    while i < merges.len()
        invariant
            i <= merges.len(),
            index.wf(),
            index@ == extend_index(index_keys(texts(keys@)), merge_keys(merges@.take(i as int))),
        decreases merges.len() - i,
    {
        index.id_for(&merges[i].left_key);
        index.id_for(&merges[i].right_key);
        proof {
            assert(merges@.take(i + 1).drop_last() == merges@.take(i as int));
            assert(merges@.take(i + 1).last() == merges@[i as int]);
            let base = index_keys(texts(keys@));
            let before = merge_keys(merges@.take(i as int));
            let left = merges@[i as int].left_key@;
            let right = merges@[i as int].right_key@;
            let seen = merge_keys(merges@.take(i + 1));
            assert(seen == before.push(left).push(right));
            assert(seen.drop_last() == before.push(left));
            assert(seen.drop_last().drop_last() == before);
            assert(extend_index(base, seen.drop_last()) == with_key(
                extend_index(base, before),
                left,
            ));
            assert(extend_index(base, seen) == with_key(
                extend_index(base, seen.drop_last()),
                right,
            ));
        }
        i += 1;
    }
    proof {
        assert(merges@.take(merges.len() as int) == merges@);
        lemma_extend_index_concat(Seq::empty(), texts(keys@), merge_keys(merges@));
    }
    let ghost start = BuildState::initial(universe(texts(keys@), merges@), first_id);
    let mut builder = ClusterBuilder::with_index(index, first_id);
    let mut i: usize = 0;
    while i < merges.len()
        invariant
            i <= merges.len(),
            builder.wf(),
            start.wf(),
            start == BuildState::initial(universe(texts(keys@), merges@), first_id),
            start.next_id + merges@.len() <= u64::MAX,
            start.run(merges@.take(i as int)) == Ok::<BuildState, ClusterError>(builder@),
            builder@.next_id == start.next_id + i,
        decreases merges.len() - i,
    {
        proof {
            lemma_run_next(start, merges@, i as int);
            lemma_run(start, merges@.take(i as int));
            lemma_known_merge_keys(texts(keys@), merges@, i as int);
        }
        match builder.apply(&merges[i]) {
            Ok(next) => {
                builder = next;
            },
            Err(e) => {
                proof {
                    lemma_run_failure_is_final(start, merges@, i + 1);
                }
                return Err(e);
            },
        }
        i += 1;
    }
    proof {
        assert(merges@.take(merges.len() as int) == merges@);
    }
    Ok(builder.finish())
}

} // verus!
