//! The mathematical model of a union-find forest, and the facts about it
//! that the executable structure relies on.

use vstd::arithmetic::power2::{
    lemma2_to64, lemma_pow2_strictly_increases, lemma_pow2_unfold, pow2,
};
use vstd::prelude::*;
use vstd::set_lib::{
    lemma_int_range, lemma_len_subset, lemma_map_size, lemma_set_disjoint_lens, set_int_range,
};

verus! {

/// A union-find forest over the ids `0 .. parent.len()`.
///
/// `parent[i]` is the node that `i` points to; a node that points to itself
/// is a root. `rank[i]` is the number by which `link` decides which of two
/// roots goes under the other.
pub struct Forest {
    pub parent: Seq<usize>,
    pub rank: Seq<u32>,
}

/// What a forest says about membership, with the tree shape forgotten:
/// `rep[i]` is the representative of `i`, and `rank` is the forest's rank
/// table.
pub struct Partition {
    pub rep: Seq<usize>,
    pub rank: Seq<u32>,
}

impl Forest {
    /// Number of ids.
    pub open spec fn len(self) -> nat {
        self.parent.len()
    }

    /// `i` is an id of this forest.
    pub open spec fn has(self, i: int) -> bool {
        0 <= i < self.parent.len()
    }

    /// Every link stays inside the forest and leads to a node of strictly
    /// higher rank. This rules out cycles.
    pub open spec fn ranked(self) -> bool {
        &&& self.rank.len() == self.parent.len()
        &&& forall|i: int|
            0 <= i < self.parent.len() ==> {
                &&& (#[trigger] self.parent[i]) < self.parent.len()
                &&& (self.parent[i] != i ==> self.rank[i] < self.rank[self.parent[i] as int])
            }
    }

    /// `i` is an id that points to itself.
    pub open spec fn is_root(self, i: int) -> bool {
        self.has(i) && self.parent[i] == i
    }

    /// The root reached from `i` by following links.
    pub open spec fn root(self, i: int) -> int
        decreases u32::MAX - self.rank[i],
        when self.ranked() && self.has(i)
    {
        if self.parent[i] == i {
            i
        } else {
            self.root(self.parent[i] as int)
        }
    }

    /// `v` lies on the path from `x` up to the root of `x`, both ends
    /// included.
    pub open spec fn on_path(self, x: int, v: int) -> bool
        decreases u32::MAX - self.rank[x],
        when self.ranked() && self.has(x)
    {
        v == x || (self.parent[x] != x && self.on_path(self.parent[x] as int, v))
    }

    /// The ids whose root is `r`.
    pub open spec fn component(self, r: int) -> Set<int> {
        Set::new(|i: int| self.has(i) && self.root(i) == r)
    }

    /// The set of roots, one per component.
    pub open spec fn roots(self) -> Set<int> {
        Set::new(|i: int| self.is_root(i))
    }

    /// Number of components.
    pub open spec fn component_count(self) -> nat {
        self.roots().len()
    }

    /// `i` and `j` are ids of the same component.
    pub open spec fn same_component(self, i: int, j: int) -> bool {
        self.has(i) && self.has(j) && self.root(i) == self.root(j)
    }

    /// A well-formed forest: links climb in rank, and a root of rank `k`
    /// has at least `2^k` ids in its component.
    pub open spec fn wf(self) -> bool {
        &&& self.ranked()
        &&& forall|r: int| #[trigger]
            self.is_root(r) ==> pow2(self.rank[r] as nat) <= self.component(r).len()
    }

    /// `n` ids, each alone in its component.
    pub open spec fn singletons(n: nat) -> Forest {
        Forest { parent: Seq::new(n, |i: int| i as usize), rank: Seq::new(n, |i: int| 0u32) }
    }

    /// The forest after path compression from `x`: every node on the path
    /// from `x` to its root points straight to that root.
    pub open spec fn compress(self, x: int) -> Forest {
        Forest {
            parent: Seq::new(
                self.parent.len(),
                |i: int|
                    if self.on_path(x, i) {
                        self.root(x) as usize
                    } else {
                        self.parent[i]
                    },
            ),
            rank: self.rank,
        }
    }

    /// The forest after linking root `x` and root `y`: the root of lower
    /// rank goes under the other; on a tie `x` goes under `y` and the rank
    /// of `y` grows by one. Linking a root with itself changes nothing.
    pub open spec fn link(self, x: int, y: int) -> Forest {
        if x == y {
            self
        } else if self.rank[x] > self.rank[y] {
            Forest { parent: self.parent.update(y, x as usize), rank: self.rank }
        } else if self.rank[x] == self.rank[y] {
            Forest {
                parent: self.parent.update(x, y as usize),
                rank: self.rank.update(y, (self.rank[y] + 1) as u32),
            }
        } else {
            Forest { parent: self.parent.update(x, y as usize), rank: self.rank }
        }
    }

    /// The forest after `union(x, y)`: both paths compressed, then the two
    /// roots linked.
    pub open spec fn union(self, x: int, y: int) -> Forest {
        self.compress(x).compress(y).link(self.root(x), self.root(y))
    }

    /// The ids below `upto` whose root is `r`, in increasing order.
    pub open spec fn members_below(self, r: int, upto: int) -> Seq<usize>
        decreases upto,
    {
        if upto <= 0 {
            Seq::empty()
        } else if self.root(upto - 1) == r {
            self.members_below(r, upto - 1).push((upto - 1) as usize)
        } else {
            self.members_below(r, upto - 1)
        }
    }

    /// The ids of the component of root `r`, in increasing order.
    pub open spec fn members(self, r: int) -> Seq<usize> {
        self.members_below(r, self.len() as int)
    }

    /// `groups` lists the components: one entry per component, each entry
    /// the members of its component in increasing order. Nothing is said
    /// of the order of the entries.
    pub open spec fn lists_components(self, groups: Seq<Vec<usize>>) -> bool {
        &&& groups.len() == self.component_count()
        &&& forall|k: int|
            0 <= k < groups.len() ==> {
                &&& (#[trigger] groups[k])@.len() > 0
                &&& self.has(groups[k]@[0] as int)
                &&& groups[k]@ == self.members(self.root(groups[k]@[0] as int))
            }
        &&& forall|k1: int, k2: int|
            0 <= k1 < k2 < groups.len() ==> self.root((#[trigger] groups[k1])@[0] as int)
                != self.root((#[trigger] groups[k2])@[0] as int)
        &&& forall|r: int|
            self.is_root(r) ==> exists|k: int|
                0 <= k < groups.len() && (#[trigger] groups[k])@ == self.members(r)
    }

    /// The forest with every node pointing straight to its root.
    pub open spec fn flattened(self) -> Forest {
        Forest {
            parent: Seq::new(self.parent.len(), |i: int| self.root(i) as usize),
            rank: self.rank,
        }
    }

    /// The membership view of this forest.
    pub open spec fn partition(self) -> Partition {
        Partition {
            rep: Seq::new(self.parent.len(), |i: int| self.root(i) as usize),
            rank: self.rank,
        }
    }
}

impl Partition {
    /// Number of ids.
    pub open spec fn len(self) -> nat {
        self.rep.len()
    }

    /// `i` is an id of this partition.
    pub open spec fn has(self, i: int) -> bool {
        0 <= i < self.rep.len()
    }

    /// Representatives are ids and represent themselves.
    pub open spec fn wf(self) -> bool {
        &&& self.rank.len() == self.rep.len()
        &&& forall|i: int|
            0 <= i < self.rep.len() ==> {
                &&& (#[trigger] self.rep[i]) < self.rep.len()
                &&& self.rep[self.rep[i] as int] == self.rep[i]
            }
    }

    /// The ids that represent themselves, one per component.
    pub open spec fn representatives(self) -> Set<usize> {
        Set::new(|r: usize| 0 <= r < self.rep.len() && self.rep[r as int] == r)
    }

    /// Number of components.
    pub open spec fn component_count(self) -> nat {
        self.representatives().len()
    }

    /// `n` ids, each its own representative, all of rank zero.
    pub open spec fn singletons(n: nat) -> Partition {
        Partition { rep: Seq::new(n, |i: int| i as usize), rank: Seq::new(n, |i: int| 0u32) }
    }

    /// The representative that survives when the components of `x` and `y`
    /// are joined: the one of higher rank, and that of `y` on a tie.
    pub open spec fn winner(self, x: int, y: int) -> usize {
        if self.rank[self.rep[x] as int] > self.rank[self.rep[y] as int] {
            self.rep[x]
        } else {
            self.rep[y]
        }
    }

    /// The representative that is given up when the components of `x` and
    /// `y` are joined.
    pub open spec fn loser(self, x: int, y: int) -> usize {
        if self.rank[self.rep[x] as int] > self.rank[self.rep[y] as int] {
            self.rep[y]
        } else {
            self.rep[x]
        }
    }

    /// The partition after the components of `x` and `y` are joined. Every
    /// id of the losing component takes the winner as its representative;
    /// on a tie of ranks the winner's rank grows by one. Joining a
    /// component with itself changes nothing.
    pub open spec fn joined(self, x: int, y: int) -> Partition {
        let rx = self.rep[x];
        let ry = self.rep[y];
        if rx == ry {
            self
        } else {
            let w = self.winner(x, y);
            let l = self.loser(x, y);
            Partition {
                rep: Seq::new(
                    self.rep.len(),
                    |i: int|
                        if self.rep[i] == l {
                            w
                        } else {
                            self.rep[i]
                        },
                ),
                rank: if self.rank[rx as int] == self.rank[ry as int] {
                    self.rank.update(ry as int, (self.rank[ry as int] + 1) as u32)
                } else {
                    self.rank
                },
            }
        }
    }
}

/// The root of an id is a root, lies at least as high in rank, and is
/// shared with the id's parent.
pub proof fn lemma_root(f: Forest, i: int)
    requires
        f.ranked(),
        f.has(i),
    ensures
        f.is_root(f.root(i)),
        f.rank[i] <= f.rank[f.root(i)],
        f.parent[i] != i ==> f.rank[i] < f.rank[f.root(i)],
        f.root(f.parent[i] as int) == f.root(i),
        f.root(f.root(i)) == f.root(i),
        f.is_root(i) <==> f.root(i) == i,
    decreases u32::MAX - f.rank[i],
{
    if f.parent[i] != i {
        lemma_root(f, f.parent[i] as int);
    }
}

/// Every node on the path from `x` is an id of the component of `x` and
/// lies at least as high in rank as `x`.
pub proof fn lemma_on_path(f: Forest, x: int, v: int)
    requires
        f.ranked(),
        f.has(x),
        f.on_path(x, v),
    ensures
        f.has(v),
        f.root(v) == f.root(x),
        f.rank[x] <= f.rank[v],
        v != x ==> f.rank[x] < f.rank[v],
    decreases u32::MAX - f.rank[x],
{
    if v != x {
        lemma_on_path(f, f.parent[x] as int, v);
    }
}

/// A path continues through each of its nodes.
pub proof fn lemma_on_path_trans(f: Forest, x: int, c: int, v: int)
    requires
        f.ranked(),
        f.has(x),
        f.on_path(x, c),
        f.on_path(c, v),
    ensures
        f.on_path(x, v),
    decreases u32::MAX - f.rank[x],
{
    if c != x {
        lemma_on_path_trans(f, f.parent[x] as int, c, v);
    }
}

/// `g` differs from `f` only in that some nodes point straight to their
/// root.
pub open spec fn shortcut_of(g: Forest, f: Forest) -> bool {
    &&& g.parent.len() == f.parent.len()
    &&& g.rank == f.rank
    &&& forall|i: int|
        0 <= i < f.parent.len() ==> (#[trigger] g.parent[i]) == f.parent[i] || g.parent[i]
            == f.root(i)
}

proof fn lemma_shortcut_ranked(f: Forest, g: Forest)
    requires
        f.ranked(),
        shortcut_of(g, f),
    ensures
        g.ranked(),
{
    assert forall|i: int| 0 <= i < g.parent.len() implies {
        &&& (#[trigger] g.parent[i]) < g.parent.len()
        &&& (g.parent[i] != i ==> g.rank[i] < g.rank[g.parent[i] as int])
    } by {
        lemma_root(f, i);
    }
}

proof fn lemma_shortcut_root(f: Forest, g: Forest, i: int)
    requires
        f.ranked(),
        g.ranked(),
        shortcut_of(g, f),
        f.has(i),
    ensures
        g.root(i) == f.root(i),
    decreases u32::MAX - f.rank[i],
{
    lemma_root(f, i);
    if g.parent[i] != i {
        let p = g.parent[i] as int;
        lemma_shortcut_root(f, g, p);
        lemma_root(f, p);
    }
}

/// Pointing nodes straight to their roots changes neither the roots nor
/// the components nor well-formedness.
pub proof fn lemma_shortcut(f: Forest, g: Forest)
    requires
        f.wf(),
        shortcut_of(g, f),
    ensures
        g.wf(),
        forall|i: int| f.has(i) ==> #[trigger] g.root(i) == f.root(i),
        g.roots() == f.roots(),
        g.partition() == f.partition(),
        forall|r: int| #[trigger] g.component(r) == f.component(r),
{
    lemma_shortcut_ranked(f, g);
    assert forall|i: int| f.has(i) implies #[trigger] g.root(i) == f.root(i) by {
        lemma_shortcut_root(f, g, i);
    }
    assert forall|i: int| g.is_root(i) <==> f.is_root(i) by {
        if f.has(i) {
            lemma_root(f, i);
            lemma_root(g, i);
        }
    }
    assert(g.roots() =~= f.roots());
    assert(g.partition().rep =~= f.partition().rep);
    assert forall|r: int| #[trigger] g.component(r) == f.component(r) by {
        assert(g.component(r) =~= f.component(r));
    }
}

/// Path compression is a shortcut.
pub proof fn lemma_compress(f: Forest, x: int)
    requires
        f.wf(),
        f.has(x),
    ensures
        shortcut_of(f.compress(x), f),
        f.compress(x).wf(),
        f.compress(x).partition() == f.partition(),
        f.compress(x).roots() == f.roots(),
{
    let g = f.compress(x);
    assert forall|i: int| 0 <= i < f.parent.len() implies (#[trigger] g.parent[i]) == f.parent[i]
        || g.parent[i] == f.root(i) by {
        lemma_root(f, x);
        if f.on_path(x, i) {
            lemma_on_path(f, x, i);
        }
    }
    lemma_shortcut(f, g);
}

/// A component and the set of roots are finite and hold at most as many
/// ids as the forest has.
pub proof fn lemma_bounded(f: Forest, r: int)
    ensures
        f.component(r).finite(),
        f.component(r).len() <= f.len(),
        f.roots().finite(),
        f.roots().len() <= f.len(),
{
    let all = set_int_range(0, f.len() as int);
    lemma_int_range(0, f.len() as int);
    assert(f.component(r).subset_of(all));
    assert(f.roots().subset_of(all));
    lemma_len_subset(f.component(r), all);
    lemma_len_subset(f.roots(), all);
}

/// In a forest that fits in memory, the rank of a root is below 64.
pub proof fn lemma_rank_bound(f: Forest, r: int)
    requires
        f.wf(),
        f.is_root(r),
        f.len() <= usize::MAX,
    ensures
        f.rank[r] < 64,
{
    lemma_bounded(f, r);
    lemma2_to64();
    if f.rank[r] >= 64 {
        if f.rank[r] > 64 {
            lemma_pow2_strictly_increases(64, f.rank[r] as nat);
        }
        assert(pow2(f.rank[r] as nat) >= pow2(64));
        assert(false);
    }
}

/// As long as the ids fit in memory, `n` singletons form a well-formed
/// forest of `n` components in which every id is its own root.
pub proof fn lemma_singletons(n: nat)
    requires
        n <= usize::MAX,
    ensures
        Forest::singletons(n).wf(),
        Forest::singletons(n).component_count() == n,
        Forest::singletons(n).partition() == Partition::singletons(n),
        forall|i: int| 0 <= i < n ==> #[trigger] Forest::singletons(n).root(i) == i,
{
    let f = Forest::singletons(n);
    assert(f.ranked());
    assert forall|i: int| 0 <= i < n implies #[trigger] f.root(i) == i by {
        lemma_root(f, i);
    }
    assert forall|r: int| #[trigger] f.is_root(r) implies pow2(f.rank[r] as nat)
        <= f.component(r).len() by {
        assert(f.component(r) =~= set![r]);
        lemma2_to64();
    }
    assert(f.roots() =~= set_int_range(0, n as int));
    lemma_int_range(0, n as int);
    assert(f.partition().rep =~= Partition::singletons(n).rep);
    assert(f.partition().rank =~= Partition::singletons(n).rank);
}

/// `g` is `f` with root `a` put under root `b`, and with the rank of `b`
/// high enough for that link.
spec fn graft_of(g: Forest, f: Forest, a: int, b: int) -> bool {
    &&& f.is_root(a)
    &&& f.is_root(b)
    &&& a != b
    &&& g.parent == f.parent.update(a, b as usize)
    &&& g.rank.len() == f.rank.len()
    &&& forall|i: int| 0 <= i < f.rank.len() && i != b ==> #[trigger] g.rank[i] == f.rank[i]
    &&& f.rank[b] <= g.rank[b]
    &&& f.rank[a] < g.rank[b]
}

proof fn lemma_graft_ranked(f: Forest, g: Forest, a: int, b: int)
    requires
        f.ranked(),
        graft_of(g, f, a, b),
    ensures
        g.ranked(),
{
    assert forall|i: int| 0 <= i < g.parent.len() implies {
        &&& (#[trigger] g.parent[i]) < g.parent.len()
        &&& (g.parent[i] != i ==> g.rank[i] < g.rank[g.parent[i] as int])
    } by {
        if i != a && f.parent[i] != i {
            let p = f.parent[i] as int;
            assert(f.rank[i] < f.rank[p]);
            assert(i != b);
        }
    }
}

proof fn lemma_graft_root(f: Forest, g: Forest, a: int, b: int, i: int)
    requires
        f.ranked(),
        g.ranked(),
        graft_of(g, f, a, b),
        f.has(i),
    ensures
        g.root(i) == (if f.root(i) == a {
            b
        } else {
            f.root(i)
        }),
    decreases u32::MAX - f.rank[i],
{
    if i == a {
        assert(g.parent[b] == b);
        assert(g.root(b) == b);
        assert(g.root(a) == g.root(b));
    } else if f.parent[i] != i {
        lemma_graft_root(f, g, a, b, f.parent[i] as int);
    }
}

/// Linking two roots keeps the forest well-formed, joins their components
/// as `Partition::joined` says, and, when the roots differ, leaves one
/// component fewer.
pub proof fn lemma_link(f: Forest, x: int, y: int)
    requires
        f.wf(),
        f.is_root(x),
        f.is_root(y),
        f.len() <= usize::MAX,
    ensures
        f.link(x, y).wf(),
        f.link(x, y).len() == f.len(),
        f.link(x, y).partition() == f.partition().joined(x, y),
        x == y ==> f.link(x, y) == f,
        x != y ==> f.link(x, y).component_count() == f.component_count() - 1,
{
    let p = f.partition();
    lemma_root(f, x);
    lemma_root(f, y);
    assert(p.rep[x] == x && p.rep[y] == y);
    if x != y {
        let g = f.link(x, y);
        let a = if f.rank[x] > f.rank[y] {
            y
        } else {
            x
        };
        let b = if f.rank[x] > f.rank[y] {
            x
        } else {
            y
        };
        lemma_rank_bound(f, y);
        assert(graft_of(g, f, a, b));
        lemma_graft_ranked(f, g, a, b);
        assert forall|i: int| f.has(i) implies #[trigger] g.root(i) == (if f.root(i) == a {
            b
        } else {
            f.root(i)
        }) && f.is_root(f.root(i)) by {
            lemma_graft_root(f, g, a, b, i);
            lemma_root(f, i);
        }
        assert(g.roots() =~= f.roots().remove(a));
        lemma_bounded(f, a);
        lemma_bounded(f, b);
        assert(g.component(b) =~= f.component(a) + f.component(b));
        assert(f.component(a).disjoint(f.component(b)));
        lemma_set_disjoint_lens(f.component(a), f.component(b));
        assert forall|r: int| #[trigger] g.is_root(r) implies pow2(g.rank[r] as nat)
            <= g.component(r).len() by {
            assert(f.is_root(r));
            if r == b {
                if f.rank[x] == f.rank[y] {
                    lemma_pow2_unfold((f.rank[y] + 1) as nat);
                }
            } else {
                assert(g.component(r) =~= f.component(r));
            }
        }
        assert(g.partition().rep =~= p.joined(x, y).rep);
        assert(g.partition().rank =~= p.joined(x, y).rank);
    }
}

/// `union` keeps the forest well-formed, joins the components of `x` and
/// `y` as `Partition::joined` says, and leaves one component fewer exactly
/// when `x` and `y` were in different components.
pub proof fn lemma_union(f: Forest, x: int, y: int)
    requires
        f.wf(),
        f.has(x),
        f.has(y),
        f.len() <= usize::MAX,
    ensures
        f.union(x, y).wf(),
        f.union(x, y).len() == f.len(),
        f.union(x, y).partition() == f.partition().joined(x, y),
        f.root(x) != f.root(y) ==> f.union(x, y).component_count() == f.component_count() - 1,
        f.root(x) == f.root(y) ==> f.union(x, y).component_count() == f.component_count(),
{
    let f1 = f.compress(x);
    let f2 = f1.compress(y);
    lemma_compress(f, x);
    lemma_compress(f1, y);
    lemma_root(f, x);
    lemma_root(f, y);
    let rx = f.root(x);
    let ry = f.root(y);
    assert(f.roots().contains(rx) && f.roots().contains(ry));
    assert(f2.roots().contains(rx) && f2.roots().contains(ry));
    lemma_link(f2, rx, ry);
    let p = f.partition();
    assert(p.rep[rx] == p.rep[x] && p.rep[ry] == p.rep[y]);
    assert(p.joined(rx, ry) == p.joined(x, y));
}

/// After `union(x, y)` two ids share a component exactly when they did
/// before, or when one was with `x` and the other with `y`.
pub proof fn lemma_union_same_component(f: Forest, x: int, y: int, i: int, j: int)
    requires
        f.wf(),
        f.has(x),
        f.has(y),
        f.has(i),
        f.has(j),
        f.len() <= usize::MAX,
    ensures
        f.union(x, y).same_component(i, j) <==> {
            ||| f.same_component(i, j)
            ||| f.same_component(i, x) && f.same_component(j, y)
            ||| f.same_component(i, y) && f.same_component(j, x)
        },
{
    let g = f.union(x, y);
    lemma_union(f, x, y);
    lemma_partition(f);
    lemma_partition(g);
    let p = f.partition();
    assert(g.partition().rep[i] == p.joined(x, y).rep[i]);
    assert(g.partition().rep[j] == p.joined(x, y).rep[j]);
    assert(p.rep[i] == f.root(i) && p.rep[j] == f.root(j));
    assert(p.rep[x] == f.root(x) && p.rep[y] == f.root(y));
}

/// The membership view of a well-formed forest is a well-formed partition
/// whose self-representing ids are the forest's roots.
pub proof fn lemma_partition(f: Forest)
    requires
        f.ranked(),
    ensures
        f.partition().wf(),
        f.partition().len() == f.len(),
        forall|i: int| f.has(i) ==> #[trigger] f.partition().rep[i] == f.root(i),
        forall|i: int| f.has(i) ==> (f.is_root(i) <==> #[trigger] f.partition().rep[i] == i),
{
    let p = f.partition();
    assert forall|i: int| f.has(i) implies #[trigger] p.rep[i] == f.root(i) by {
        lemma_root(f, i);
    }
    assert forall|i: int| 0 <= i < p.rep.len() implies {
        &&& (#[trigger] p.rep[i]) < p.rep.len()
        &&& p.rep[p.rep[i] as int] == p.rep[i]
    } by {
        lemma_root(f, i);
    }
    assert forall|i: int| f.has(i) implies (f.is_root(i) <==> #[trigger] p.rep[i] == i) by {
        lemma_root(f, i);
    }
}

/// `members_below(r, upto)` holds exactly the ids below `upto` whose root
/// is `r`, each once and in increasing order.
pub proof fn lemma_members_below(f: Forest, r: int, upto: int)
    requires
        f.ranked(),
        0 <= upto <= f.len() <= usize::MAX,
    ensures
        forall|k: int|
            0 <= k < f.members_below(r, upto).len() ==> {
                &&& (#[trigger] f.members_below(r, upto)[k]) < upto
                &&& f.root(f.members_below(r, upto)[k] as int) == r
            },
        forall|k1: int, k2: int|
            0 <= k1 < k2 < f.members_below(r, upto).len() ==> f.members_below(r, upto)[k1]
                < f.members_below(r, upto)[k2],
        forall|j: int|
            0 <= j < upto && f.root(j) == r ==> f.members_below(r, upto).contains(j as usize),
        f.members_below(r, upto).len() > 0 ==> f.is_root(r),
    decreases upto,
{
    if upto > 0 {
        lemma_members_below(f, r, upto - 1);
        let prev = f.members_below(r, upto - 1);
        let cur = f.members_below(r, upto);
        if f.root(upto - 1) == r {
            lemma_root(f, upto - 1);
            assert(cur[prev.len() as int] == (upto - 1) as usize);
            assert forall|j: int| 0 <= j < upto && f.root(j) == r implies cur.contains(
                j as usize,
            ) by {
                if j < upto - 1 {
                    let k = choose|k: int| 0 <= k < prev.len() && prev[k] == j as usize;
                    assert(cur[k] == j as usize);
                }
            }
        }
    }
}

/// The ids below `n` are `n` in number.
pub proof fn lemma_ids_below(n: nat)
    requires
        n <= usize::MAX,
    ensures
        Set::new(|r: usize| r < n).finite(),
        Set::new(|r: usize| r < n).len() == n,
    decreases n,
{
    let ids = Set::new(|r: usize| r < n);
    if n == 0 {
        assert(ids =~= Set::empty());
    } else {
        let fewer = Set::new(|r: usize| r < n - 1);
        lemma_ids_below((n - 1) as nat);
        assert(ids =~= fewer.insert((n - 1) as usize));
    }
}

/// A partition has finitely many components, at most one per id, and
/// `n` singletons have exactly `n`.
pub proof fn lemma_representatives(p: Partition)
    requires
        p.len() <= usize::MAX,
    ensures
        p.representatives().finite(),
        p.component_count() <= p.len(),
        Partition::singletons(p.len()).component_count() == p.len(),
{
    let ids = Set::new(|r: usize| r < p.len());
    lemma_ids_below(p.len());
    assert(p.representatives().subset_of(ids));
    lemma_len_subset(p.representatives(), ids);
    assert(Partition::singletons(p.len()).representatives() =~= ids);
}

/// A forest has as many components as its membership view.
pub proof fn lemma_partition_count(f: Forest)
    requires
        f.ranked(),
        f.len() <= usize::MAX,
    ensures
        f.partition().component_count() == f.component_count(),
{
    let reps = f.partition().representatives();
    let widen = |r: usize| r as int;
    lemma_partition(f);
    lemma_representatives(f.partition());
    assert forall|r: int| reps.map(widen).contains(r) <==> f.roots().contains(r) by {
        if f.roots().contains(r) {
            assert(reps.contains(r as usize));
            assert(widen(r as usize) == r);
        }
    }
    assert(reps.map(widen) =~= f.roots());
    lemma_map_size(reps, f.roots(), widen);
}

/// Joining two components keeps the partition well-formed. When the
/// components differ, the winner represents both of them afterwards,
/// every other id keeps its representative, and there is one component
/// fewer.
pub proof fn lemma_joined(p: Partition, x: int, y: int)
    requires
        p.wf(),
        p.has(x),
        p.has(y),
    ensures
        p.joined(x, y).wf(),
        p.joined(x, y).len() == p.len(),
        p.rep[x] == p.rep[y] ==> p.joined(x, y) == p,
        p.rep[x] != p.rep[y] ==> {
            &&& p.winner(x, y) != p.loser(x, y)
            &&& p.joined(x, y).rep[x] == p.winner(x, y)
            &&& p.joined(x, y).rep[y] == p.winner(x, y)
            &&& p.joined(x, y).rep[p.winner(x, y) as int] == p.winner(x, y)
            &&& p.joined(x, y).representatives() == p.representatives().remove(p.loser(x, y))
            &&& p.representatives().contains(p.loser(x, y))
        },
        forall|i: int|
            p.has(i) && p.rep[i] != p.rep[x] && p.rep[i] != p.rep[y] ==> #[trigger] p.joined(
                x,
                y,
            ).rep[i] == p.rep[i],
{
    let q = p.joined(x, y);
    if p.rep[x] != p.rep[y] {
        let w = p.winner(x, y);
        let l = p.loser(x, y);
        assert(p.rep[w as int] == w);
        assert(p.rep[l as int] == l);
        assert forall|i: int| 0 <= i < q.rep.len() implies {
            &&& (#[trigger] q.rep[i]) < q.rep.len()
            &&& q.rep[q.rep[i] as int] == q.rep[i]
        } by {
            assert(p.rep[p.rep[i] as int] == p.rep[i]);
        }
        assert(q.representatives() =~= p.representatives().remove(l));
    }
}

/// In a list of the components every id stands in the entry of its own
/// component and in no other entry.
pub proof fn lemma_listed_once(f: Forest, groups: Seq<Vec<usize>>, i: int)
    requires
        f.ranked(),
        f.len() <= usize::MAX,
        f.lists_components(groups),
        f.has(i),
    ensures
        exists|k: int|
            0 <= k < groups.len() && (#[trigger] groups[k])@ == f.members(f.root(i))
                && groups[k]@.contains(i as usize),
        forall|k: int|
            0 <= k < groups.len() && (#[trigger] groups[k])@.contains(i as usize) ==> groups[k]@
                == f.members(f.root(i)),
{
    let r = f.root(i);
    lemma_root(f, i);
    lemma_members_below(f, r, f.len() as int);
    let own = choose|k: int| 0 <= k < groups.len() && (#[trigger] groups[k])@ == f.members(r);
    assert(groups[own]@.contains(i as usize));
    assert forall|k: int|
        0 <= k < groups.len() && (#[trigger] groups[k])@.contains(i as usize) implies groups[k]@
        == f.members(r) by {
        let first = groups[k]@[0] as int;
        lemma_members_below(f, f.root(first), f.len() as int);
    }
}

} // verus!






