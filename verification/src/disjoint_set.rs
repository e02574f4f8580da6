//! The executable union-find structure.

use crate::error::ClusterError;
use crate::forest::{
    lemma_compress, lemma_link, lemma_members_below, lemma_on_path, lemma_on_path_trans,
    lemma_partition, lemma_rank_bound, lemma_root, lemma_singletons, lemma_union, Forest,
};
use std::collections::HashMap;
use vstd::prelude::*;
use vstd::std_specs::hash::spec_keys_iter;
use vstd::std_specs::iter::IteratorSpec;

verus! {

/// A disjoint-set forest over the ids `0 .. size`, with path compression
/// and union by rank.
pub struct DisjointSet {
    parent: Vec<usize>,
    rank: Vec<u32>,
}

impl View for DisjointSet {
    type V = Forest;

    closed spec fn view(&self) -> Forest {
        Forest { parent: self.parent@, rank: self.rank@ }
    }
}

impl DisjointSet {
    /// The forest is well-formed and fits in memory.
    pub open spec fn wf(&self) -> bool {
        self@.wf() && self@.len() <= usize::MAX
    }

    /// Creates `size` singleton components.
    pub fn new(size: usize) -> (s: Self)
        ensures
            s.wf(),
            s@ == Forest::singletons(size as nat),
            s@.component_count() == size,
    {
        let mut parent: Vec<usize> = Vec::new();
        let mut rank: Vec<u32> = Vec::new();
        let mut i: usize = 0;
        while i < size
            invariant
                i <= size,
                parent@ == Forest::singletons(i as nat).parent,
                rank@ == Forest::singletons(i as nat).rank,
            decreases size - i,
        {
            parent.push(i);
            rank.push(0);
            i += 1;
            assert(parent@ =~= Forest::singletons(i as nat).parent);
            assert(rank@ =~= Forest::singletons(i as nat).rank);
        }
        proof {
            lemma_singletons(size as nat);
        }
        DisjointSet { parent, rank }
    }

    /// Number of ids.
    pub fn len(&self) -> (n: usize)
        ensures
            n == self@.len(),
    {
        self.parent.len()
    }

    /// Path compression from an id: returns the root of `x` after pointing
    /// every node on the way straight to it.
    fn find_root(&mut self, x: usize) -> (root: usize)
        requires
            old(self).wf(),
            x < old(self)@.len(),
        ensures
            final(self).wf(),
            root == old(self)@.root(x as int),
            final(self)@ == old(self)@.compress(x as int),
            final(self)@.partition() == old(self)@.partition(),
            final(self)@.roots() == old(self)@.roots(),
    {
        let ghost f = self@;
        let mut root = x;
        while self.parent[root] != root
            invariant
                self@ == f,
                f.ranked(),
                f.has(x as int),
                f.has(root as int),
                f.root(root as int) == f.root(x as int),
            decreases u32::MAX - f.rank[root as int],
        {
            root = self.parent[root];
        }
        let mut cur = x;
        while cur != root
            invariant
                f.wf(),
                f.has(x as int),
                f.has(cur as int),
                f.on_path(x as int, cur as int),
                root == f.root(x as int),
                self.rank@ == f.rank,
                self.parent@.len() == f.parent.len(),
                forall|i: int|
                    0 <= i < f.parent.len() ==> #[trigger] self.parent@[i] == (if f.on_path(
                        x as int,
                        i,
                    ) && !f.on_path(cur as int, i) {
                        root
                    } else {
                        f.parent[i]
                    }),
            decreases u32::MAX - f.rank[cur as int],
        {
            let next = self.parent[cur];
            proof {
                lemma_root(f, cur as int);
                lemma_on_path(f, x as int, cur as int);
                assert(f.on_path(next as int, next as int));
                assert(f.on_path(cur as int, next as int));
                lemma_on_path_trans(f, x as int, cur as int, next as int);
                assert forall|i: int| f.on_path(next as int, i) implies i != cur by {
                    lemma_on_path(f, next as int, i);
                }
            }
            self.parent[cur] = root;
            cur = next;
        }
        proof {
            lemma_root(f, x as int);
            assert(self@.parent =~= f.compress(x as int).parent);
            lemma_compress(f, x as int);
        }
        root
    }

    /// Returns the representative of `x` and compresses the path that led
    /// to it. Fails, changing nothing, when `x` is not an id.
    pub fn find(&mut self, x: usize) -> (res: Result<usize, ClusterError>)
        requires
            old(self).wf(),
        ensures
            final(self).wf(),
            x >= old(self)@.len() ==> res == Err::<usize, ClusterError>(
                ClusterError::IndexOutOfRange,
            ) && final(self)@ == old(self)@,
            x < old(self)@.len() ==> res == Ok::<usize, ClusterError>(
                old(self)@.root(x as int) as usize,
            ) && final(self)@ == old(self)@.compress(x as int),
            final(self)@.partition() == old(self)@.partition(),
            final(self)@.roots() == old(self)@.roots(),
    {
        if x >= self.parent.len() {
            return Err(ClusterError::IndexOutOfRange);
        }
        Ok(self.find_root(x))
    }

    /// Tells whether `x` is an id that represents its component.
    pub fn is_root(&self, x: usize) -> (b: bool)
        ensures
            b == self@.is_root(x as int),
    {
        x < self.parent.len() && self.parent[x] == x
    }

    /// Links two roots: the one of lower rank goes under the other; on a
    /// tie `x` goes under `y` and the rank of `y` grows by one. Linking a
    /// root with itself changes nothing. Fails, changing nothing, when
    /// `x` or `y` is not an id. Ids that are passed must be roots.
    pub fn link(&mut self, x: usize, y: usize) -> (res: Result<(), ClusterError>)
        requires
            old(self).wf(),
            x < old(self)@.len() ==> old(self)@.is_root(x as int),
            y < old(self)@.len() ==> old(self)@.is_root(y as int),
        ensures
            final(self).wf(),
            (x >= old(self)@.len() || y >= old(self)@.len()) ==> res == Err::<(), ClusterError>(
                ClusterError::IndexOutOfRange,
            ) && final(self)@ == old(self)@,
            (x < old(self)@.len() && y < old(self)@.len()) ==> {
                &&& res == Ok::<(), ClusterError>(())
                &&& final(self)@ == old(self)@.link(x as int, y as int)
                &&& final(self)@.partition() == old(self)@.partition().joined(x as int, y as int)
                &&& x != y ==> final(self)@.component_count() == old(self)@.component_count() - 1
                &&& x == y ==> final(self)@ == old(self)@
            },
    {
        if x >= self.parent.len() || y >= self.parent.len() {
            return Err(ClusterError::IndexOutOfRange);
        }
        proof {
            lemma_link(self@, x as int, y as int);
            lemma_rank_bound(self@, y as int);
        }
        if x == y {
            return Ok(());
        }
        if self.rank[x] > self.rank[y] {
            self.parent[y] = x;
        } else {
            self.parent[x] = y;
            if self.rank[x] == self.rank[y] {
                self.rank[y] += 1;
            }
        }
        assert(self@.parent =~= old(self)@.link(x as int, y as int).parent);
        assert(self@.rank =~= old(self)@.link(x as int, y as int).rank);
        Ok(())
    }

    /// Joins the components of `x` and `y`. Fails, changing nothing, when
    /// `x` or `y` is not an id. Joining two ids of one component leaves
    /// the components as they are.
    pub fn union(&mut self, x: usize, y: usize) -> (res: Result<(), ClusterError>)
        requires
            old(self).wf(),
        ensures
            final(self).wf(),
            final(self)@.len() == old(self)@.len(),
            (x >= old(self)@.len() || y >= old(self)@.len()) ==> res == Err::<(), ClusterError>(
                ClusterError::IndexOutOfRange,
            ) && final(self)@ == old(self)@,
            (x < old(self)@.len() && y < old(self)@.len()) ==> {
                &&& res == Ok::<(), ClusterError>(())
                &&& final(self)@ == old(self)@.union(x as int, y as int)
                &&& final(self)@.partition() == old(self)@.partition().joined(x as int, y as int)
                &&& final(self)@.component_count() == if old(self)@.same_component(
                    x as int,
                    y as int,
                ) {
                    old(self)@.component_count()
                } else {
                    (old(self)@.component_count() - 1) as nat
                }
            },
    {
        if x >= self.parent.len() || y >= self.parent.len() {
            return Err(ClusterError::IndexOutOfRange);
        }
        proof {
            lemma_union(self@, x as int, y as int);
            lemma_compress(self@, x as int);
            lemma_compress(self@.compress(x as int), y as int);
            lemma_root(self@, x as int);
            lemma_root(self@, y as int);
        }
        let x_root = self.find_root(x);
        let y_root = self.find_root(y);
        self.link(x_root, y_root)
    }

    /// Returns the components, each as the increasing list of its ids, in
    /// no particular order. Every path is compressed on the way, so that
    /// afterwards each id points straight to its root.
    pub fn get_components(&mut self) -> (components: Vec<Vec<usize>>)
        requires
            old(self).wf(),
        ensures
            final(self).wf(),
            final(self)@ == old(self)@.flattened(),
            final(self)@.partition() == old(self)@.partition(),
            old(self)@.lists_components(components@),
    {
        let ghost f = self@;
        let n = self.parent.len();
        let mut groups: HashMap<usize, Vec<usize>> = HashMap::new();
        let ghost mut seen: Set<int> = Set::empty();
        let mut x: usize = 0;
        while x < n
            invariant
                x <= n,
                n == f.len(),
                f.wf(),
                self.wf(),
                self@.len() == f.len(),
                self@.rank == f.rank,
                self@.partition() == f.partition(),
                forall|j: int| 0 <= j < x ==> #[trigger] self@.parent[j] == f.root(j),
                seen.finite(),
                seen.len() == groups@.dom().len(),
                forall|r: int| seen.contains(r) <==> f.members_below(r, x as int).len() > 0,
                forall|r: usize|
                    groups@.contains_key(r) <==> f.members_below(r as int, x as int).len() > 0,
                forall|r: usize|
                    groups@.contains_key(r) ==> (#[trigger] groups@[r])@ == f.members_below(
                        r as int,
                        x as int,
                    ),
            decreases n - x,
        {
            let ghost s = self@;
            let ghost before = groups@;
            let root = self.find_root(x);
            proof {
                lemma_partition(f);
                lemma_partition(s);
                lemma_root(f, x as int);
                assert forall|j: int| 0 <= j < x + 1 implies #[trigger] self@.parent[j] == f.root(
                    j,
                ) by {
                    assert(s.partition().rep[j] == f.partition().rep[j]);
                    assert(s.partition().rep[x as int] == f.partition().rep[x as int]);
                    if s.on_path(x as int, j) {
                        lemma_on_path(s, x as int, j);
                    }
                }
                assert(s.partition().rep[x as int] == f.partition().rep[x as int]);
                assert(root == f.root(x as int));
                if !before.contains_key(root) {
                    seen = seen.insert(root as int);
                    assert(f.members_below(root as int, x as int) =~= Seq::<usize>::empty());
                }
            }
            groups.entry(root).or_insert(Vec::new()).push(x);
            x += 1;
        }
        proof {
            assert(self@.parent =~= f.flattened().parent);
            assert forall|r: int| seen.contains(r) <==> f.roots().contains(r) by {
                lemma_members_below(f, r, n as int);
                if f.has(r) {
                    lemma_root(f, r);
                }
            }
            assert(seen =~= f.roots());
        }
        let ghost keys = spec_keys_iter(&groups).remaining();
        proof {
            assert forall|k: int| 0 <= k < keys.len() implies groups@.contains_key(
                *#[trigger] keys[k],
            ) by {
                assert(keys.unref()[k] == *keys[k]);
                assert(keys.unref().to_set().contains(keys.unref()[k]));
            }
        }
        let mut components: Vec<Vec<usize>> = Vec::new();
        for root in it: groups.keys()
            invariant
                it.seq() == keys,
                components@.len() == it.index(),
                forall|r: usize|
                    groups@.contains_key(r) ==> (#[trigger] groups@[r])@ == f.members(r as int),
                forall|k: int|
                    0 <= k < keys.len() ==> groups@.contains_key(*#[trigger] keys[k]),
                forall|k: int|
                    0 <= k < it.index() ==> (#[trigger] components@[k])@ == f.members(
                        *keys[k] as int,
                    ),
        {
            match groups.get(root) {
                Some(members) => {
                    components.push(members.clone());
                },
                None => {},
            }
        }
        proof {
            assert(components@.len() == keys.len());
            assert forall|k: int| 0 <= k < components@.len() implies {
                &&& (#[trigger] components@[k])@.len() > 0
                &&& f.has(components@[k]@[0] as int)
                &&& components@[k]@ == f.members(f.root(components@[k]@[0] as int))
            } by {
                lemma_members_below(f, *keys[k] as int, n as int);
            }
            assert forall|k1: int, k2: int| 0 <= k1 < k2 < components@.len() implies f.root(
                (#[trigger] components@[k1])@[0] as int,
            ) != f.root((#[trigger] components@[k2])@[0] as int) by {
                lemma_members_below(f, *keys[k1] as int, n as int);
                lemma_members_below(f, *keys[k2] as int, n as int);
            }
            assert forall|r: int| f.is_root(r) implies exists|k: int|
                0 <= k < components@.len() && (#[trigger] components@[k])@ == f.members(r) by {
                assert(seen.contains(r));
                assert(groups@.dom().contains(r as usize));
                assert(keys.unref().to_set().contains(r as usize));
                let k = choose|k: int|
                    0 <= k < keys.unref().len() && keys.unref()[k] == r as usize;
                assert(components@[k]@ == f.members(r));
            }
        }
        components
    }
}

} // verus!
