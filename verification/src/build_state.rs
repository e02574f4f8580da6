//! The mathematical model of a build: what the state is after each merge,
//! and the laws that every build obeys.

use crate::cluster::{combined, leaf, ClusterView, Merge};
use crate::digest::sha256;
use crate::error::ClusterError;
use crate::forest::{lemma_joined, lemma_representatives, Partition};
use crate::key_index::{index_keys, lemma_index_keys};
use vstd::prelude::*;
use vstd::utf8::encode_utf8;

verus! {

/// The state of a build between two merges.
pub struct BuildState {
    /// The known keys; the id of a key is its position.
    pub keys: Seq<Seq<char>>,
    /// Which ids belong together, and the ranks that decide which
    /// representative survives a merge.
    pub partition: Partition,
    /// For each representative, the current cluster of its component. The
    /// entries of other ids are the clusters those ids last represented.
    pub current: Seq<ClusterView>,
    /// The id that the next combined cluster will get.
    pub next_id: u64,
}

/// The keys of a sequence of merges in the order a build meets them: for
/// each merge its left key, then its right key.
pub open spec fn merge_keys(merges: Seq<Merge>) -> Seq<Seq<char>>
    decreases merges.len(),
{
    if merges.len() == 0 {
        Seq::empty()
    } else {
        merge_keys(merges.drop_last()).push(merges.last().left_key@).push(merges.last().right_key@)
    }
}

/// The keys a build knows: the distinct keys among the given keys and the
/// keys of the merges, in first-seen order.
pub open spec fn universe(keys: Seq<Seq<char>>, merges: Seq<Merge>) -> Seq<Seq<char>> {
    index_keys(keys + merge_keys(merges))
}

impl BuildState {
    /// Keys are distinct, every key has an entry in the partition and a
    /// current cluster, and the partition is well-formed.
    pub open spec fn wf(self) -> bool {
        &&& self.keys.no_duplicates()
        &&& self.partition.wf()
        &&& self.partition.len() == self.keys.len()
        &&& self.current.len() == self.keys.len()
    }

    /// The state before any merge: every key alone, with its leaf cluster.
    /// The key with id `i` gets the cluster id `first_id + i`.
    pub open spec fn initial(keys: Seq<Seq<char>>, first_id: u64) -> BuildState {
        BuildState {
            keys,
            partition: Partition::singletons(keys.len()),
            current: Seq::new(keys.len(), |i: int| leaf((first_id + i) as u64, keys[i])),
            next_id: (first_id + keys.len()) as u64,
        }
    }

    /// The id of a known key.
    pub open spec fn id_of(self, key: Seq<char>) -> int {
        self.keys.index_of(key)
    }

    /// The representative of the component of a known key.
    pub open spec fn rep_of(self, key: Seq<char>) -> usize {
        self.partition.rep[self.id_of(key)]
    }

    /// The current cluster of the component of a known key.
    pub open spec fn cluster_of(self, key: Seq<char>) -> ClusterView {
        self.current[self.rep_of(key) as int]
    }

    /// The outcome of one merge.
    ///
    /// A merge that names an unknown key fails with `IndexOutOfRange`. A
    /// merge whose keys already share a cluster fails with
    /// `SelfMergeError`. Otherwise the two components are joined, and the
    /// surviving representative gets a new cluster that combines the
    /// current cluster of the left key with that of the right key, in
    /// this order, under the next id and the merge's confidence.
    pub open spec fn step(self, merge: Merge) -> Result<BuildState, ClusterError> {
        let left = merge.left_key@;
        let right = merge.right_key@;
        if !self.keys.contains(left) || !self.keys.contains(right) {
            Err(ClusterError::IndexOutOfRange)
        } else if self.rep_of(left) == self.rep_of(right) {
            Err(ClusterError::SelfMergeError)
        } else {
            let l = self.id_of(left);
            let r = self.id_of(right);
            let cluster = combined(
                self.next_id,
                seq![self.cluster_of(left), self.cluster_of(right)],
                merge.probability,
            );
            Ok(
                BuildState {
                    keys: self.keys,
                    partition: self.partition.joined(l, r),
                    current: self.current.update(self.partition.winner(l, r) as int, cluster),
                    next_id: (self.next_id + 1) as u64,
                },
            )
        }
    }

    /// The outcome of a sequence of merges, applied in order. The first
    /// failure is the outcome of the whole sequence.
    pub open spec fn run(self, merges: Seq<Merge>) -> Result<BuildState, ClusterError>
        decreases merges.len(),
    {
        if merges.len() == 0 {
            Ok(self)
        } else {
            match self.run(merges.drop_last()) {
                Ok(state) => state.step(merges.last()),
                Err(e) => Err(e),
            }
        }
    }

    /// The key with id `i` is alone in its component.
    pub open spec fn alone(self, i: int) -> bool {
        forall|j: int|
            0 <= j < self.partition.rep.len() ==> (self.partition.rep[j] == i <==> j == i)
    }

    /// Every cluster id in use lies in `first_id .. next_id`, and no two
    /// ids of the state carry the same cluster id.
    pub open spec fn ids_fresh(self, first_id: u64) -> bool {
        &&& forall|i: int|
            0 <= i < self.current.len() ==> first_id <= (#[trigger] self.current[i]).id
                < self.next_id
        &&& forall|i: int, j: int|
            0 <= i < j < self.current.len() ==> (#[trigger] self.current[i]).id
                != (#[trigger] self.current[j]).id
    }

    /// The result of a build: for each representative, the current
    /// cluster of its component.
    pub open spec fn clusters(self) -> Map<usize, ClusterView> {
        Map::new(
            |r: usize| 0 <= r < self.partition.rep.len() && self.partition.rep[r as int] == r,
            |r: usize| self.current[r as int],
        )
    }
}

/// The outcome of a whole build over the given keys and merges, with
/// cluster ids counted up from `first_id`.
pub open spec fn build(keys: Seq<Seq<char>>, merges: Seq<Merge>, first_id: u64) -> Result<
    Map<usize, ClusterView>,
    ClusterError,
> {
    match BuildState::initial(universe(keys, merges), first_id).run(merges) {
        Ok(state) => Ok(state.clusters()),
        Err(e) => Err(e),
    }
}

/// The initial state over distinct keys is well-formed.
pub proof fn lemma_initial(keys: Seq<Seq<char>>, first_id: u64)
    requires
        keys.no_duplicates(),
        keys.len() <= usize::MAX,
    ensures
        BuildState::initial(keys, first_id).wf(),
{
}

/// A successful merge keeps the state well-formed and the keys as they
/// are, and uses up exactly one cluster id.
pub proof fn lemma_step(state: BuildState, merge: Merge)
    requires
        state.wf(),
        state.step(merge) is Ok,
    ensures
        state.step(merge)->Ok_0.wf(),
        state.step(merge)->Ok_0.keys == state.keys,
        state.step(merge)->Ok_0.next_id == (state.next_id + 1) as u64,
{
    let l = state.id_of(merge.left_key@);
    let r = state.id_of(merge.right_key@);
    lemma_joined(state.partition, l, r);
}

/// A sequence of merges that succeeds keeps the state well-formed and
/// the keys as they are.
pub proof fn lemma_run(state: BuildState, merges: Seq<Merge>)
    requires
        state.wf(),
        state.run(merges) is Ok,
    ensures
        state.run(merges)->Ok_0.wf(),
        state.run(merges)->Ok_0.keys == state.keys,
    decreases merges.len(),
{
    if merges.len() > 0 {
        lemma_run(state, merges.drop_last());
        lemma_step(state.run(merges.drop_last())->Ok_0, merges.last());
    }
}

/// Running one more merge is a step from the state that the merges before
/// it led to.
pub proof fn lemma_run_next(state: BuildState, merges: Seq<Merge>, i: int)
    requires
        0 <= i < merges.len(),
    ensures
        state.run(merges.take(i + 1)) == (match state.run(merges.take(i)) {
            Ok(s) => s.step(merges[i]),
            Err(e) => Err(e),
        }),
{
    assert(merges.take(i + 1).drop_last() == merges.take(i));
    assert(merges.take(i + 1).last() == merges[i]);
}

/// A failure is final: once a prefix of the merges has failed, the whole
/// sequence fails in the same way.
pub proof fn lemma_run_failure_is_final(state: BuildState, merges: Seq<Merge>, i: int)
    requires
        0 <= i <= merges.len(),
        state.run(merges.take(i)) is Err,
    ensures
        state.run(merges) == state.run(merges.take(i)),
    decreases merges.len() - i,
{
    if i < merges.len() {
        lemma_run_next(state, merges, i);
        lemma_run_failure_is_final(state, merges, i + 1);
    } else {
        assert(merges.take(i) == merges);
    }
}

/// Two sequences of merges say the same: they are equally long, and
/// merges at the same place agree in the text of both keys and in the
/// confidence.
pub open spec fn same_merges(a: Seq<Merge>, b: Seq<Merge>) -> bool {
    &&& a.len() == b.len()
    &&& forall|i: int|
        0 <= i < a.len() ==> {
            &&& (#[trigger] a[i]).left_key@ == b[i].left_key@
            &&& a[i].right_key@ == b[i].right_key@
            &&& a[i].probability == b[i].probability
        }
}

proof fn lemma_same_merges_prefix(a: Seq<Merge>, b: Seq<Merge>)
    requires
        same_merges(a, b),
        a.len() > 0,
    ensures
        same_merges(a.drop_last(), b.drop_last()),
        a.last().left_key@ == b.last().left_key@,
        a.last().right_key@ == b.last().right_key@,
        a.last().probability == b.last().probability,
{
    assert forall|i: int| 0 <= i < a.drop_last().len() implies {
        &&& (#[trigger] a.drop_last()[i]).left_key@ == b.drop_last()[i].left_key@
        &&& a.drop_last()[i].right_key@ == b.drop_last()[i].right_key@
        &&& a.drop_last()[i].probability == b.drop_last()[i].probability
    } by {
        assert(a.drop_last()[i] == a[i]);
        assert(b.drop_last()[i] == b[i]);
    }
    assert(a.last() == a[a.len() - 1]);
    assert(b.last() == b[a.len() - 1]);
}

proof fn lemma_same_merge_keys(a: Seq<Merge>, b: Seq<Merge>)
    requires
        same_merges(a, b),
    ensures
        merge_keys(a) == merge_keys(b),
    decreases a.len(),
{
    if a.len() > 0 {
        lemma_same_merges_prefix(a, b);
        lemma_same_merge_keys(a.drop_last(), b.drop_last());
    }
}

proof fn lemma_same_run(state: BuildState, a: Seq<Merge>, b: Seq<Merge>)
    requires
        same_merges(a, b),
    ensures
        state.run(a) == state.run(b),
    decreases a.len(),
{
    if a.len() > 0 {
        lemma_same_merges_prefix(a, b);
        lemma_same_run(state, a.drop_last(), b.drop_last());
    }
}

/// A build is determined by what its input says. Two runs over the same
/// key texts, over merges that say the same and from the same first id
/// have the same outcome: the same failure, or the same representatives
/// with clusters equal in id, in every byte of the digest and in
/// confidence.
pub proof fn lemma_build_deterministic(
    keys: Seq<Seq<char>>,
    one: Seq<Merge>,
    two: Seq<Merge>,
    first_id: u64,
)
    requires
        same_merges(one, two),
    ensures
        build(keys, one, first_id) == build(keys, two, first_id),
{
    lemma_same_merge_keys(one, two);
    lemma_same_run(BuildState::initial(universe(keys, one), first_id), one, two);
}

/// A merge whose two keys already resolve to the same current cluster is
/// refused with `SelfMergeError`, and so is every sequence of merges in
/// which it is the first merge to fail.
pub proof fn lemma_self_merge_rejected(state: BuildState, merges: Seq<Merge>, i: int)
    requires
        0 <= i < merges.len(),
        state.run(merges.take(i)) is Ok,
        ({
            let before = state.run(merges.take(i))->Ok_0;
            &&& before.keys.contains(merges[i].left_key@)
            &&& before.keys.contains(merges[i].right_key@)
            &&& before.rep_of(merges[i].left_key@) == before.rep_of(merges[i].right_key@)
        }),
    ensures
        state.run(merges.take(i))->Ok_0.step(merges[i]) == Err::<BuildState, ClusterError>(
            ClusterError::SelfMergeError,
        ),
        state.run(merges) == Err::<BuildState, ClusterError>(ClusterError::SelfMergeError),
{
    lemma_run_next(state, merges, i);
    lemma_run_failure_is_final(state, merges, i + 1);
}

/// A merge of a key with itself is a self-merge.
pub proof fn lemma_merge_with_itself_rejected(state: BuildState, merge: Merge)
    requires
        merge.left_key@ == merge.right_key@,
    ensures
        state.step(merge) is Err,
        state.keys.contains(merge.left_key@) ==> state.step(merge) == Err::<
            BuildState,
            ClusterError,
        >(ClusterError::SelfMergeError),
{
}

/// A merge that does not name the key with id `i` leaves that key alone
/// if it was alone, and leaves its current cluster as it was.
pub proof fn lemma_step_keeps_untouched(state: BuildState, merge: Merge, i: int)
    requires
        state.wf(),
        0 <= i < state.keys.len(),
        state.alone(i),
        merge.left_key@ != state.keys[i],
        merge.right_key@ != state.keys[i],
        state.step(merge) is Ok,
    ensures
        state.step(merge)->Ok_0.alone(i),
        state.step(merge)->Ok_0.current[i] == state.current[i],
{
    let l = state.id_of(merge.left_key@);
    let r = state.id_of(merge.right_key@);
    let p = state.partition;
    lemma_joined(p, l, r);
    assert(p.rep[l] != i);
    assert(p.rep[r] != i);
    assert(p.rep[i] == i);
}

/// A sequence of merges none of which names the key with id `i` leaves
/// that key alone if it was alone, and leaves its current cluster as it
/// was.
pub proof fn lemma_run_keeps_untouched(state: BuildState, merges: Seq<Merge>, i: int)
    requires
        state.wf(),
        0 <= i < state.keys.len(),
        state.alone(i),
        forall|k: int|
            0 <= k < merges.len() ==> (#[trigger] merges[k]).left_key@ != state.keys[i]
                && merges[k].right_key@ != state.keys[i],
        state.run(merges) is Ok,
    ensures
        state.run(merges)->Ok_0.alone(i),
        state.run(merges)->Ok_0.current[i] == state.current[i],
    decreases merges.len(),
{
    if merges.len() > 0 {
        let before = merges.drop_last();
        assert forall|k: int| 0 <= k < before.len() implies (#[trigger] before[k]).left_key@
            != state.keys[i] && before[k].right_key@ != state.keys[i] by {
            assert(before[k] == merges[k]);
        }
        lemma_run_keeps_untouched(state, before, i);
        lemma_run(state, before);
        assert(merges.last() == merges[merges.len() - 1]);
        lemma_step_keeps_untouched(state.run(before)->Ok_0, merges.last(), i);
    }
}

/// A key that no merge names ends a successful build as the only member
/// of its component, and the cluster of that component is the key's leaf:
/// the digest of the key's bytes, no confidence, and the id the key was
/// given at the start.
pub proof fn lemma_untouched_key_keeps_leaf(
    keys: Seq<Seq<char>>,
    merges: Seq<Merge>,
    first_id: u64,
    key: Seq<char>,
)
    requires
        universe(keys, merges).len() <= usize::MAX,
        universe(keys, merges).contains(key),
        forall|k: int|
            0 <= k < merges.len() ==> (#[trigger] merges[k]).left_key@ != key
                && merges[k].right_key@ != key,
        build(keys, merges, first_id) is Ok,
    ensures
        ({
            let id = universe(keys, merges).index_of(key);
            let clusters = build(keys, merges, first_id)->Ok_0;
            &&& clusters.contains_key(id as usize)
            &&& clusters[id as usize] == leaf((first_id + id) as u64, key)
            &&& clusters[id as usize].hash == sha256(encode_utf8(key))
            &&& clusters[id as usize].probability == None::<u32>
        }),
{
    let known = universe(keys, merges);
    let start = BuildState::initial(known, first_id);
    let id = known.index_of(key);
    lemma_index_keys(keys + merge_keys(merges));
    lemma_initial(known, first_id);
    lemma_run_keeps_untouched(start, merges, id);
    lemma_run(start, merges);
    let end = start.run(merges)->Ok_0;
    assert(end.partition.rep[id] == id);
}

/// The result of a state has one cluster per component.
pub proof fn lemma_cluster_count(state: BuildState)
    requires
        state.wf(),
        state.keys.len() <= usize::MAX,
    ensures
        state.clusters().dom() == state.partition.representatives(),
        state.clusters().dom().finite(),
        state.clusters().dom().len() == state.partition.component_count(),
{
    lemma_representatives(state.partition);
    assert(state.clusters().dom() =~= state.partition.representatives());
}

/// The initial state has one component per key.
pub proof fn lemma_initial_count(keys: Seq<Seq<char>>, first_id: u64)
    requires
        keys.len() <= usize::MAX,
    ensures
        BuildState::initial(keys, first_id).partition.component_count() == keys.len(),
{
    lemma_representatives(BuildState::initial(keys, first_id).partition);
}

/// A successful merge leaves exactly one component fewer.
pub proof fn lemma_step_count(state: BuildState, merge: Merge)
    requires
        state.wf(),
        state.keys.len() <= usize::MAX,
        state.step(merge) is Ok,
    ensures
        state.step(merge)->Ok_0.partition.component_count() == state.partition.component_count()
            - 1,
{
    let l = state.id_of(merge.left_key@);
    let r = state.id_of(merge.right_key@);
    lemma_representatives(state.partition);
    lemma_joined(state.partition, l, r);
}

/// A successful build over `n` distinct keys and `m` merges ends with
/// `n - m` clusters.
pub proof fn lemma_build_count(keys: Seq<Seq<char>>, merges: Seq<Merge>, first_id: u64)
    requires
        universe(keys, merges).len() <= usize::MAX,
        build(keys, merges, first_id) is Ok,
    ensures
        build(keys, merges, first_id)->Ok_0.dom().finite(),
        build(keys, merges, first_id)->Ok_0.dom().len() == universe(keys, merges).len()
            - merges.len(),
{
    let known = universe(keys, merges);
    let start = BuildState::initial(known, first_id);
    lemma_index_keys(keys + merge_keys(merges));
    lemma_initial(known, first_id);
    lemma_initial_count(known, first_id);
    lemma_run_count(start, merges);
    lemma_run(start, merges);
    lemma_cluster_count(start.run(merges)->Ok_0);
}

/// Every merge of a successful sequence leaves one component fewer.
pub proof fn lemma_run_count(state: BuildState, merges: Seq<Merge>)
    requires
        state.wf(),
        state.keys.len() <= usize::MAX,
        state.run(merges) is Ok,
    ensures
        state.run(merges)->Ok_0.partition.component_count() == state.partition.component_count()
            - merges.len(),
    decreases merges.len(),
{
    if merges.len() > 0 {
        lemma_run_count(state, merges.drop_last());
        lemma_run(state, merges.drop_last());
        lemma_step_count(state.run(merges.drop_last())->Ok_0, merges.last());
    }
}

/// The keys a build knows are at most the given keys and two per merge.
pub proof fn lemma_universe_bound(keys: Seq<Seq<char>>, merges: Seq<Merge>)
    ensures
        universe(keys, merges).len() <= keys.len() + 2 * merges.len(),
        universe(keys, merges).no_duplicates(),
{
    lemma_index_keys(keys + merge_keys(merges));
    lemma_merge_keys_len(merges);
}

/// Every merge contributes two keys.
pub proof fn lemma_merge_keys_len(merges: Seq<Merge>)
    ensures
        merge_keys(merges).len() == 2 * merges.len(),
    decreases merges.len(),
{
    if merges.len() > 0 {
        lemma_merge_keys_len(merges.drop_last());
    }
}

/// The keys of merge `i` stand at the positions `2 * i` and `2 * i + 1`
/// of the merges' keys.
pub proof fn lemma_merge_keys(merges: Seq<Merge>, i: int)
    requires
        0 <= i < merges.len(),
    ensures
        merge_keys(merges).len() == 2 * merges.len(),
        merge_keys(merges)[2 * i] == merges[i].left_key@,
        merge_keys(merges)[2 * i + 1] == merges[i].right_key@,
    decreases merges.len(),
{
    lemma_merge_keys_len(merges.drop_last());
    if i < merges.len() - 1 {
        lemma_merge_keys(merges.drop_last(), i);
    }
}

/// Every key of every merge is a key of the universe.
pub proof fn lemma_known_merge_keys(keys: Seq<Seq<char>>, merges: Seq<Merge>, i: int)
    requires
        0 <= i < merges.len(),
    ensures
        universe(keys, merges).contains(merges[i].left_key@),
        universe(keys, merges).contains(merges[i].right_key@),
{
    lemma_merge_keys(merges, i);
    let seen = keys + merge_keys(merges);
    lemma_index_keys(seen);
    assert(seen[keys.len() + 2 * i] == merges[i].left_key@);
    assert(seen[keys.len() + 2 * i + 1] == merges[i].right_key@);
}

/// The initial state uses each cluster id once.
pub proof fn lemma_initial_ids_fresh(keys: Seq<Seq<char>>, first_id: u64)
    requires
        first_id + keys.len() <= u64::MAX,
    ensures
        BuildState::initial(keys, first_id).ids_fresh(first_id),
{
}

/// Cluster ids are never reused: a successful merge gives its cluster an
/// id that no cluster of the state carries.
pub proof fn lemma_step_ids_fresh(state: BuildState, merge: Merge, first_id: u64)
    requires
        state.wf(),
        state.ids_fresh(first_id),
        first_id <= state.next_id < u64::MAX,
        state.step(merge) is Ok,
    ensures
        state.step(merge)->Ok_0.ids_fresh(first_id),
{
    let l = state.id_of(merge.left_key@);
    let r = state.id_of(merge.right_key@);
    lemma_joined(state.partition, l, r);
}

/// Cluster ids are never reused within a build: after any successful
/// sequence of merges no two ids of the state carry the same cluster id,
/// and the merges have used up one cluster id each.
pub proof fn lemma_run_ids_fresh(state: BuildState, merges: Seq<Merge>, first_id: u64)
    requires
        state.wf(),
        state.ids_fresh(first_id),
        first_id <= state.next_id,
        state.next_id + merges.len() <= u64::MAX,
        state.run(merges) is Ok,
    ensures
        state.run(merges)->Ok_0.ids_fresh(first_id),
        state.run(merges)->Ok_0.next_id == state.next_id + merges.len(),
    decreases merges.len(),
{
    if merges.len() > 0 {
        lemma_run_ids_fresh(state, merges.drop_last(), first_id);
        lemma_run(state, merges.drop_last());
        let before = state.run(merges.drop_last())->Ok_0;
        lemma_step_ids_fresh(before, merges.last(), first_id);
        lemma_step(before, merges.last());
    }
}

} // verus!


