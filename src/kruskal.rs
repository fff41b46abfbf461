use vstd::multiset::Multiset;
use vstd::prelude::*;

use crate::amino::AminoAcid;
use crate::blosum::Blosum62;
use crate::cluster::{
    lemma_leaves_internal, lemma_members_all, lemma_members_identity, lemma_members_merge,
    lemma_scores_widen, lemma_single_leaf, leaf_set, members, relabel, remapped, Cluster,
};
use crate::genome::Genome;
use crate::needleman::{nw_score, Needleman, GAP_PENALTY};
use crate::union_find::{ClusterId, UnionFind};

verus! {

/// Index of an input species.
#[derive(Debug, Clone, Copy, PartialEq, Eq, Hash, Structural)]
pub struct SpeciesId(pub usize);

impl SpeciesId {
    pub fn index(self) -> (r: usize)
        ensures
            r == self.0,
    {
        self.0
    }
}

/// The edge runs between a member of `l` and a member of `r`.
pub open spec fn crosses(e: Edge, l: Set<int>, r: Set<int>) -> bool {
    ||| l.contains(e.0 as int) && r.contains(e.1 as int)
    ||| l.contains(e.1 as int) && r.contains(e.0 as int)
}

/// Single linkage: every inner node's score is the largest score of the edges
/// that run between its two subtrees.
pub open spec fn single_linkage(it: Cluster<usize>, edges: Set<Edge>) -> bool
    decreases it,
{
    match it {
        Cluster::Leaf(_) => true,
        Cluster::Node { left, right, similarity } => {
            &&& single_linkage(*left, edges)
            &&& single_linkage(*right, edges)
            &&& forall|e: Edge|
                #[trigger] edges.contains(e) && crosses(e, leaf_set(*left), leaf_set(*right)) ==> e.2
                    <= similarity
            &&& exists|e: Edge|
                #[trigger] edges.contains(e) && crosses(e, leaf_set(*left), leaf_set(*right)) && e.2
                    == similarity
        },
    }
}

/// Groups the union-find forest, the clusters built so far and, for each
/// input, the cluster it currently belongs to.
struct ClusterManager<T> {
    uf: UnionFind,
    /// Slot `c` holds cluster `c` while it is a root; a merged cluster moves
    /// into its parent and leaves `None` behind.
    clusters: Vec<Option<Cluster<T>>>,
    cluster_map: Vec<ClusterId>,
    /// The ids of the current roots.
    active: Ghost<Set<int>>,
    /// The label of each input.
    labels: Ghost<Seq<T>>,
    /// The scores that a merge may record.
    scores: Ghost<Set<int>>,
    /// For each slot, its tree with the input indices at the leaves.
    shapes: Ghost<Seq<Cluster<usize>>>,
    /// The edges that the merges follow.
    edges: Ghost<Set<Edge>>,
}

impl<T> ClusterManager<T> {
    spec fn n(&self) -> nat {
        self.cluster_map@.len()
    }

    spec fn tree(&self, c: int) -> Cluster<T> {
        self.clusters@[c]->Some_0
    }

    /// The inputs that cluster `c` holds.
    spec fn member_set(&self, c: int) -> Set<int> {
        Set::new(|s: int| 0 <= s < self.n() && self.cluster_map@[s].0 == c)
    }

    /// Every root holds a monotone tree whose leaves are the labels of the
    /// inputs mapped to it, and the slots not used yet are untouched singletons.
    spec fn inv(&self) -> bool {
        let n = self.n();
        let names = self.labels@;
        &&& names.len() == n
        &&& n >= 1
        &&& 2 * n <= isize::MAX
        &&& self.uf.wf()
        &&& self.uf.size() == 2 * n
        &&& self.active@.finite()
        &&& n <= self.clusters@.len()
        &&& self.clusters@.len() + self.active@.len() == 2 * n
        &&& self.shapes@.len() == self.clusters@.len()
        &&& forall|s: int| 0 <= s < n ==> self.active@.contains((#[trigger] self.cluster_map@[s]).0 as int)
        &&& forall|c: int| #[trigger] self.active@.contains(c) ==> self.root_ok(c)
        &&& forall|x: int| self.clusters@.len() <= x < 2 * n ==> #[trigger] self.fresh_slot(x)
    }

    /// Root `c` holds a monotone tree of the labels of its inputs.
    spec fn root_ok(&self, c: int) -> bool {
        &&& 0 <= c < self.clusters@.len()
        &&& self.clusters@[c] is Some
        &&& self.uf.rep(c) == c
        &&& self.tree(c).leaves() == members(self.labels@, self.cluster_map@, c as usize, self.n() as int)
        &&& self.tree(c).monotone()
        &&& self.tree(c).scores_within(self.scores@)
        &&& relabel(self.shapes@[c], self.labels@) == self.tree(c)
        &&& leaf_set(self.shapes@[c]) == self.member_set(c)
        &&& single_linkage(self.shapes@[c], self.edges@)
    }

    /// Slot `x` is a singleton set that nothing has joined yet.
    spec fn fresh_slot(&self, x: int) -> bool {
        &&& self.uf.rep(x) == x
        &&& forall|y: int| 0 <= y < 2 * self.n() && #[trigger] self.uf.rep(y) == x ==> y == x
    }

    /// Every current tree was merged at a score of at least `s`.
    spec fn tops_at_least(&self, s: int) -> bool {
        forall|c: int| #[trigger] self.active@.contains(c) ==> self.tree(c).top_at_least(s)
    }

    fn new(
        initial_clusters: Vec<Option<Cluster<T>>>,
        names: Ghost<Seq<T>>,
        scores: Ghost<Set<int>>,
        edges: Ghost<Set<Edge>>,
    ) -> (r: Self)
        requires
            initial_clusters@.len() == names@.len(),
            names@.len() >= 1,
            2 * names@.len() <= isize::MAX,
            forall|s: int|
                0 <= s < names@.len() ==> #[trigger] initial_clusters@[s] == Some(
                    Cluster::Leaf(names@[s]),
                ),
        ensures
            r.inv(),
            r.labels@ == names@,
            r.scores@ == scores@,
            r.edges@ == edges@,
            forall|s: int| 0 <= s < names@.len() ==> (#[trigger] r.cluster_map@[s]).0 == s,
            forall|c: int| #[trigger] r.active@.contains(c) ==> r.tree(c) is Leaf,
    {
        let n = initial_clusters.len();
        let uf = UnionFind::new(2 * n);
        let mut cluster_map: Vec<ClusterId> = Vec::new();
        let mut i: usize = 0;
        while i < n
            invariant
                i <= n,
                cluster_map@.len() == i,
                forall|s: int| 0 <= s < i ==> (#[trigger] cluster_map@[s]).0 == s,
            decreases n - i,
        {
            cluster_map.push(ClusterId(i));
            i = i + 1;
        }
        let ghost active = vstd::set_lib::set_int_range(0, n as int);
        proof {
            vstd::set_lib::lemma_int_range(0, n as int);
        }
        let r = ClusterManager {
            uf,
            clusters: initial_clusters,
            cluster_map,
            active: Ghost(active),
            labels: names,
            scores,
            shapes: Ghost(Seq::new(n as nat, |s: int| Cluster::Leaf(s as usize))),
            edges,
        };
        proof {
            assert forall|c: int| #[trigger] r.active@.contains(c) implies r.root_ok(c) by {
                assert(leaf_set(r.shapes@[c]) =~= r.member_set(c));
                lemma_members_identity(names@, r.cluster_map@, c as usize, n as int);
            }
        }
        r
    }

    /// Path compression in the forest does not disturb the invariant.
    proof fn lemma_inv_frame(before: Self, after: Self)
        requires
            before.inv(),
            after.uf.wf(),
            after.uf.size() == before.uf.size(),
            forall|x: int| 0 <= x < before.uf.size() ==> #[trigger] after.uf.rep(x) == before.uf.rep(x),
            after.clusters == before.clusters,
            after.cluster_map == before.cluster_map,
            after.active == before.active,
            after.labels == before.labels,
            after.scores == before.scores,
            after.shapes == before.shapes,
            after.edges == before.edges,
        ensures
            after.inv(),
    {
        let n = before.n();
        assert forall|c: int| #[trigger] after.active@.contains(c) implies after.root_ok(c) by {
            assert(before.root_ok(c));
        }
        assert forall|x: int| after.clusters@.len() <= x < 2 * n implies #[trigger] after.fresh_slot(x) by {
            assert(before.fresh_slot(x));
            assert forall|y: int| 0 <= y < 2 * n && #[trigger] after.uf.rep(y) == x implies y == x by {
                assert(before.uf.rep(y) == x);
            }
        }
    }

    /// The cluster that the species belongs to now.
    fn get(&mut self, species: SpeciesId) -> (r: ClusterId)
        requires
            old(self).inv(),
            species.0 < old(self).n(),
        ensures
            final(self).inv(),
            final(self).labels@ == old(self).labels@,
            final(self).cluster_map@ == old(self).cluster_map@,
            final(self).clusters@ == old(self).clusters@,
            final(self).active@ == old(self).active@,
            final(self).scores == old(self).scores,
            final(self).shapes == old(self).shapes,
            final(self).edges == old(self).edges,
            r == old(self).cluster_map@[species.0 as int],
    {
        let c = self.cluster_map[species.index()];
        let ghost before = *self;
        proof {
            assert(self.active@.contains(self.cluster_map@[species.0 as int].0 as int));
            assert(self.root_ok(self.cluster_map@[species.0 as int].0 as int));
        }
        let r = self.uf.find(c);
        proof {
            Self::lemma_inv_frame(before, *self);
        }
        r
    }
    /// Adds a new cluster node, returning its id.
    fn add_cluster(&mut self, new_cluster: Cluster<T>) -> (r: ClusterId)
        requires
            old(self).clusters@.len() < usize::MAX,
        ensures
            final(self).clusters@ == old(self).clusters@.push(Some(new_cluster)),
            r.0 == old(self).clusters@.len(),
            final(self).uf == old(self).uf,
            final(self).cluster_map == old(self).cluster_map,
            final(self).active == old(self).active,
            final(self).labels == old(self).labels,
            final(self).scores == old(self).scores,
            final(self).shapes == old(self).shapes,
            final(self).edges == old(self).edges,
    {
        self.clusters.push(Some(new_cluster));
        ClusterId(self.clusters.len() - 1)
    }

    /// Unites the roots `a` and `b` and points every input that was in
    /// either of them at `new_id`.
    fn merge(&mut self, a: ClusterId, b: ClusterId, new_id: ClusterId)
        requires
            old(self).uf.wf(),
            old(self).uf.size() == 2 * old(self).n(),
            a.0 < 2 * old(self).n(),
            b.0 < 2 * old(self).n(),
            new_id.0 < 2 * old(self).n(),
            a != b,
            new_id != a,
            new_id != b,
            old(self).uf.rep(a.0 as int) == a.0,
            old(self).uf.rep(b.0 as int) == b.0,
            old(self).uf.rep(new_id.0 as int) == new_id.0,
            forall|s: int|
                0 <= s < old(self).n() ==> {
                    &&& (#[trigger] old(self).cluster_map@[s]).0 < 2 * old(self).n()
                    &&& old(self).uf.rep(old(self).cluster_map@[s].0 as int) == old(self).cluster_map@[s].0
                },
        ensures
            final(self).uf.wf(),
            final(self).uf.size() == old(self).uf.size(),
            final(self).cluster_map@ == remapped(old(self).cluster_map@, a.0, b.0, new_id.0),
            final(self).uf.rep(a.0 as int) == a.0 || final(self).uf.rep(a.0 as int) == b.0,
            forall|x: int|
                0 <= x < old(self).uf.size() ==> #[trigger] final(self).uf.rep(x) == if old(self).uf.rep(x)
                    == a.0 || old(self).uf.rep(x) == b.0 {
                    final(self).uf.rep(a.0 as int)
                } else {
                    old(self).uf.rep(x)
                },
            final(self).clusters == old(self).clusters,
            final(self).active == old(self).active,
            final(self).labels == old(self).labels,
            final(self).scores == old(self).scores,
            final(self).shapes == old(self).shapes,
            final(self).edges == old(self).edges,
    {
        self.uf.union(a, b);
        let ghost u1 = self.uf;
        let ghost cm0 = self.cluster_map@;
        let n = self.cluster_map.len();
        let mut i: usize = 0;
        while i < n
            invariant
                i <= n,
                n == cm0.len(),
                n == old(self).n(),
                self.uf.wf(),
                self.uf.size() == u1.size(),
                u1.size() == 2 * n,
                forall|x: int| 0 <= x < 2 * n ==> #[trigger] self.uf.rep(x) == u1.rep(x),
                u1.rep(a.0 as int) == a.0 || u1.rep(a.0 as int) == b.0,
                forall|x: int|
                    0 <= x < 2 * n ==> #[trigger] u1.rep(x) == if old(self).uf.rep(x) == a.0
                        || old(self).uf.rep(x) == b.0 {
                        u1.rep(a.0 as int)
                    } else {
                        old(self).uf.rep(x)
                    },
                cm0 == old(self).cluster_map@,
                forall|t: int|
                    0 <= t < n ==> {
                        &&& (#[trigger] cm0[t]).0 < 2 * n
                        &&& old(self).uf.rep(cm0[t].0 as int) == cm0[t].0
                    },
                self.cluster_map@.len() == n,
                forall|t: int| i <= t < n ==> #[trigger] self.cluster_map@[t] == cm0[t],
                forall|t: int|
                    0 <= t < i ==> #[trigger] self.cluster_map@[t] == remapped(cm0, a.0, b.0, new_id.0)[t],
                self.clusters == old(self).clusters,
                self.active == old(self).active,
                self.labels == old(self).labels,
                self.scores == old(self).scores,
                self.shapes == old(self).shapes,
                self.edges == old(self).edges,
            decreases n - i,
        {
            let c = self.cluster_map[i];
            let cur = self.uf.find(c);
            proof {
                assert(cm0[i as int].0 < 2 * n);
                assert(old(self).uf.rep(c.0 as int) == c.0);
            }
            if cur == a || cur == b {
                self.cluster_map.set(i, new_id);
            }
            i = i + 1;
        }
        assert(self.cluster_map@ =~= remapped(cm0, a.0, b.0, new_id.0));
    }

    /// Joins the roots `a` and `b` under a new node scored `similarity`.
    fn join(&mut self, a: ClusterId, b: ClusterId, similarity: i32)
        requires
            old(self).inv(),
            old(self).active@.contains(a.0 as int),
            old(self).active@.contains(b.0 as int),
            a != b,
            old(self).tops_at_least(similarity as int),
            old(self).scores@.contains(similarity as int),
            forall|e: Edge|
                #[trigger] old(self).edges@.contains(e) && crosses(
                    e,
                    old(self).member_set(a.0 as int),
                    old(self).member_set(b.0 as int),
                ) ==> e.2 <= similarity,
            exists|e: Edge|
                #[trigger] old(self).edges@.contains(e) && crosses(
                    e,
                    old(self).member_set(a.0 as int),
                    old(self).member_set(b.0 as int),
                ) && e.2 == similarity,
        ensures
            final(self).inv(),
            final(self).labels == old(self).labels,
            final(self).scores == old(self).scores,
            final(self).edges == old(self).edges,
            final(self).cluster_map@ == remapped(old(self).cluster_map@, a.0, b.0, old(self).clusters@.len() as usize),
            final(self).tops_at_least(similarity as int),
    {
        let ghost s0 = *self;
        let ghost n = self.n();
        let ghost fresh = self.clusters@.len() as int;
        proof {
            assert(self.active@.remove(a.0 as int).contains(b.0 as int));
            vstd::set_lib::lemma_set_empty_equivalency_len(self.active@.remove(a.0 as int));
            assert(self.active@.remove(a.0 as int).len() == self.active@.len() - 1);
            assert(self.active@.len() >= 2);
            assert(self.fresh_slot(fresh));
            assert(forall|s: int| 0 <= s < n ==> self.active@.contains((#[trigger] self.cluster_map@[s]).0 as int));
        }
        let mut left: Option<Cluster<T>> = None;
        self.clusters.set_and_swap(a.index(), &mut left);
        let mut right: Option<Cluster<T>> = None;
        self.clusters.set_and_swap(b.index(), &mut right);
        let l = left.unwrap();
        let r = right.unwrap();
        let node = Cluster::Node { left: Box::new(l), right: Box::new(r), similarity };
        let new_id = self.add_cluster(node);
        self.merge(a, b, new_id);
        proof {
            let na = a.0 as int;
            let nb = b.0 as int;
            let names = self.labels@;
            self.active@ = s0.active@.remove(na).remove(nb).insert(fresh);
            let shape = Cluster::Node {
                left: Box::new(s0.shapes@[na]),
                right: Box::new(s0.shapes@[nb]),
                similarity,
            };
            self.shapes@ = s0.shapes@.push(shape);
            assert(s0.root_ok(na));
            assert(s0.root_ok(nb));
            assert(leaf_set(shape) =~= self.member_set(fresh));
            assert(!s0.active@.contains(fresh));
            assert(s0.active@.remove(na).remove(nb).len() == s0.active@.len() - 2);
            lemma_members_merge(names, s0.cluster_map@, a.0, b.0, new_id.0, n as int);
            assert forall|s: int| 0 <= s < n implies self.active@.contains(
                (#[trigger] self.cluster_map@[s]).0 as int,
            ) by {
                assert(s0.active@.contains(s0.cluster_map@[s].0 as int));
            }
            assert forall|c: int| #[trigger] self.active@.contains(c) implies self.root_ok(c) by {
                if c != fresh {
                    assert(s0.root_ok(c));
                    assert(self.member_set(c) =~= s0.member_set(c));
                }
            }
            assert forall|x: int| self.clusters@.len() <= x < 2 * n implies #[trigger] self.fresh_slot(x) by {
                assert(s0.fresh_slot(x));
                assert forall|y: int| 0 <= y < 2 * n && #[trigger] self.uf.rep(y) == x implies y == x by {
                    if s0.uf.rep(y) == na || s0.uf.rep(y) == nb {
                    } else {
                        assert(s0.uf.rep(y) == x);
                    }
                }
            }
        }
    }

    /// The tree of the cluster that the first input belongs to.
    fn root(&mut self) -> (r: Option<Cluster<T>>)
        requires
            old(self).inv(),
        ensures
            r == Some(old(self).tree(old(self).cluster_map@[0].0 as int)),
    {
        let c = self.cluster_map[0];
        proof {
            assert(self.active@.contains(self.cluster_map@[0].0 as int));
            assert(self.root_ok(self.cluster_map@[0].0 as int));
        }
        let mut slot: Option<Cluster<T>> = None;
        self.clusters.set_and_swap(c.index(), &mut slot);
        slot
    }
}

/// An edge `(i, j, similarity)` between two inputs.
pub type Edge = (usize, usize, i32);

/// Both ends of every edge are inputs.
pub open spec fn edges_in_range(edges: Seq<Edge>, n: int) -> bool {
    forall|k: int| 0 <= k < edges.len() ==> (#[trigger] edges[k]).0 < n && edges[k].1 < n
}

/// Some edge runs from `i` to `j`.
pub open spec fn has_edge(edges: Seq<Edge>, i: int, j: int) -> bool {
    exists|k: int| 0 <= k < edges.len() && (#[trigger] edges[k]).0 == i && edges[k].1 == j
}

/// Every pair `i < j` of the `n` inputs has an edge.
pub open spec fn covers_pairs(edges: Seq<Edge>, n: int) -> bool {
    forall|i: int, j: int| 0 <= i < j < n ==> #[trigger] has_edge(edges, i, j)
}

/// The similarities that the edges carry.
pub open spec fn edge_scores(edges: Seq<Edge>) -> Set<int> {
    Set::new(|s: int| exists|k: int| 0 <= k < edges.len() && (#[trigger] edges[k]).2 == s)
}

/// Similarities never decrease along the sequence.
pub open spec fn sorted_by_similarity(edges: Seq<Edge>) -> bool {
    forall|p: int, q: int| 0 <= p < q < edges.len() ==> (#[trigger] edges[p]).2 <= (#[trigger] edges[q]).2
}

/// Relies on slice::sort_by_key: a stable sort of the edges, ascending by
/// similarity, that keeps every edge.
#[verifier::external_body]
fn sort_by_similarity(edges: &mut Vec<Edge>)
    ensures
        final(edges)@.to_multiset() == old(edges)@.to_multiset(),
        sorted_by_similarity(final(edges)@),
{
    edges.sort_by_key(|e| e.2);
}

proof fn lemma_same_edges(before: Seq<Edge>, after: Seq<Edge>, n: int)
    requires
        after.to_multiset() == before.to_multiset(),
        edges_in_range(before, n),
        covers_pairs(before, n),
    ensures
        edges_in_range(after, n),
        covers_pairs(after, n),
{
    broadcast use vstd::seq_lib::group_to_multiset_ensures;

    assert forall|k: int| 0 <= k < after.len() implies (#[trigger] after[k]).0 < n && after[k].1 < n by {
        assert(after.contains(after[k]));
        assert(after.to_multiset().count(after[k]) > 0);
        assert(before.contains(after[k]));
    }
    assert forall|i: int, j: int| 0 <= i < j < n implies #[trigger] has_edge(after, i, j) by {
        assert(has_edge(before, i, j));
        let k = choose|k: int| 0 <= k < before.len() && (#[trigger] before[k]).0 == i && before[k].1 == j;
        let e = before[k];
        assert(before.contains(e));
        assert(before.to_multiset().count(e) > 0);
        assert(after.contains(e));
        let k2 = choose|k2: int| 0 <= k2 < after.len() && after[k2] == e;
        assert(after[k2].0 == i && after[k2].1 == j);
    }
}

/// Turns each label into a leaf, in order.
fn create_initial_clusters<T>(names: Vec<T>) -> (r: Vec<Option<Cluster<T>>>)
    ensures
        r@.len() == names@.len(),
        forall|s: int| 0 <= s < names@.len() ==> #[trigger] r@[s] == Some(Cluster::Leaf(names@[s])),
{
    let ghost all = names@;
    let mut r: Vec<Option<Cluster<T>>> = Vec::new();
    for x in it: names.into_iter()
        invariant
            it.seq() == all,
            r@.len() == it.index(),
            forall|s: int| 0 <= s < it.index() ==> #[trigger] r@[s] == Some(Cluster::Leaf(all[s])),
    {
        r.push(Some(Cluster::Leaf(x)));
    }
    r
}

/// Kruskal's merge, largest similarity first: every edge whose ends are in
/// different clusters joins the two under a node scored with its similarity.
/// With an edge for every pair, the result is one tree over all the labels,
/// and each node's score is the best edge between its two subtrees.
pub fn cluster_edges<T>(names: Vec<T>, edges: Vec<Edge>) -> (r: Option<Cluster<T>>)
    requires
        2 * names@.len() <= isize::MAX,
        edges_in_range(edges@, names@.len() as int),
        covers_pairs(edges@, names@.len() as int),
    ensures
        r is None <==> names@.len() == 0,
        names@.len() == 1 ==> r == Some(Cluster::Leaf(names@[0])),
        r matches Some(t) ==> {
            &&& t.leaves() == names@.to_multiset()
            &&& t.internal_count() + 1 == names@.len()
            &&& t.monotone()
            &&& t.scores_within(edge_scores(edges@))
            &&& exists|it: Cluster<usize>|
                {
                    &&& relabel(it, names@) == t
                    &&& leaf_set(it) == vstd::set_lib::set_int_range(0, names@.len() as int)
                    &&& single_linkage(it, edges@.to_set())
                }
        },
{
    let n = names.len();
    if n == 0 {
        return None;
    }
    let ghost labels = names@;
    let leaves = create_initial_clusters(names);
    let ghost given = edges@;
    let mut manager = ClusterManager::new(
        leaves,
        Ghost(labels),
        Ghost(edge_scores(given)),
        Ghost(given.to_set()),
    );
    let mut edges = edges;
    sort_by_similarity(&mut edges);
    proof {
        lemma_same_edges(given, edges@, n as int);
    }
    let mut k = edges.len();
    while k > 0
        invariant
            k <= edges@.len(),
            manager.inv(),
            manager.labels@ == labels,
            manager.scores@ == edge_scores(given),
            manager.edges@ == given.to_set(),
            edges@.to_multiset() == given.to_multiset(),
            manager.n() == n,
            labels.len() == n,
            edges_in_range(edges@, n as int),
            covers_pairs(edges@, n as int),
            sorted_by_similarity(edges@),
            forall|t: int|
                k <= t < edges@.len() ==> manager.cluster_map@[(#[trigger] edges@[t]).0 as int]
                    == manager.cluster_map@[edges@[t].1 as int],
            k > 0 ==> manager.tops_at_least(edges@[k - 1].2 as int),
            k == edges@.len() ==> forall|c: int| #[trigger] manager.active@.contains(c) ==> manager.tree(c) is Leaf,
        decreases k,
    {
        k = k - 1;
        let (a, b, similarity) = edges[k];
        let ca = manager.get(SpeciesId(a));
        let cb = manager.get(SpeciesId(b));
        let ghost cm0 = manager.cluster_map@;
        if ca != cb {
            proof {
                broadcast use vstd::seq_lib::group_to_multiset_ensures;

                assert(manager.active@.contains(ca.0 as int));
                assert(manager.active@.contains(cb.0 as int));
                let e = edges@[k as int];
                assert(edges@.contains(e));
                assert(edges@.to_multiset().count(e) > 0);
                assert(given.contains(e));
                let w = choose|w: int| 0 <= w < given.len() && given[w] == e;
                assert(given[w].2 == similarity);
                let sa = manager.member_set(ca.0 as int);
                let sb = manager.member_set(cb.0 as int);
                assert(crosses(e, sa, sb));
                assert(manager.edges@.contains(e));
                assert forall|f: Edge| #[trigger] manager.edges@.contains(f) && crosses(f, sa, sb) implies f.2
                    <= similarity by {
                    assert(given.contains(f));
                    assert(given.to_multiset().count(f) > 0);
                    assert(edges@.contains(f));
                    let t = choose|t: int| 0 <= t < edges@.len() && edges@[t] == f;
                    if t > k {
                        assert(manager.cluster_map@[edges@[t].0 as int] == manager.cluster_map@[edges@[t].1 as int]);
                    } else if t < k {
                        assert(edges@[t].2 <= edges@[k as int].2);
                    }
                }
            }
            manager.join(ca, cb, similarity);
        }
        proof {
            if k > 0 {
                assert(edges@[k - 1].2 <= edges@[k as int].2);
                assert forall|c: int| #[trigger] manager.active@.contains(c) implies manager.tree(
                    c,
                ).top_at_least(edges@[k - 1].2 as int) by {
                    assert(manager.tree(c).top_at_least(similarity as int));
                }
            }
        }
    }
    proof {
        let c0 = manager.cluster_map@[0].0;
        assert forall|s: int| 0 <= s < n implies (#[trigger] manager.cluster_map@[s]).0 == c0 by {
            if s > 0 {
                assert(has_edge(edges@, 0, s));
                let t = choose|t: int| 0 <= t < edges@.len() && (#[trigger] edges@[t]).0 == 0 && edges@[t].1 == s;
                assert(manager.cluster_map@[edges@[t].0 as int] == manager.cluster_map@[edges@[t].1 as int]);
            }
        }
        lemma_members_all(labels, manager.cluster_map@, c0, n as int);
        assert(labels.take(n as int) =~= labels);
        assert(manager.active@.contains(c0 as int));
        assert(manager.root_ok(c0 as int));
        let t = manager.tree(c0 as int);
        lemma_leaves_internal(t);
        assert(manager.member_set(c0 as int) =~= vstd::set_lib::set_int_range(0, n as int));
        broadcast use vstd::seq_lib::group_to_multiset_ensures;
        if n == 1 {
            assert(labels =~= seq![labels[0]]);
            assert(labels.to_multiset() =~= Multiset::singleton(labels[0])) by {
                assert(labels =~= Seq::<T>::empty().push(labels[0]));
                assert(Seq::<T>::empty().to_multiset() =~= Multiset::empty());
            }
            lemma_single_leaf(t, labels[0]);
        }
    }
    manager.root()
}

/// A species: a name and the genome it is compared by.
#[derive(Debug, Clone, PartialEq)]
pub struct Species {
    name: String,
    genome: Genome,
}

impl Species {
    pub closed spec fn label(&self) -> String {
        self.name
    }

    pub closed spec fn residues(&self) -> Seq<AminoAcid> {
        self.genome@
    }

    pub fn new(name: String, genome: Genome) -> (r: Self)
        ensures
            r.label() == name,
            r.residues() == genome@,
    {
        Species { name, genome }
    }

    /// Parts a species into its name and genome.
    pub fn part(self) -> (r: (String, Genome))
        ensures
            r.0 == self.label(),
            r.1@ == self.residues(),
    {
        (self.name, self.genome)
    }
}

/// Longest genome that clustering accepts: any two of them can be aligned.
pub const MAX_SEQUENCE_LEN: usize = 15_000_000;

/// The edge weights are the BLOSUM62 alignment scores of the two genomes.
pub open spec fn scored_edges(edges: Seq<Edge>, species: Seq<Species>) -> bool {
    forall|k: int|
        0 <= k < edges.len() ==> {
            &&& (#[trigger] edges[k]).0 < edges[k].1 < species.len()
            &&& edges[k].2 == nw_score::<Blosum62>(
                species[edges[k].0 as int].residues(),
                species[edges[k].1 as int].residues(),
                GAP_PENALTY as int,
            )
        }
}

proof fn lemma_has_edge_push(edges: Seq<Edge>, e: Edge, i: int, j: int)
    requires
        has_edge(edges, i, j),
    ensures
        has_edge(edges.push(e), i, j),
{
    let k = choose|k: int| 0 <= k < edges.len() && (#[trigger] edges[k]).0 == i && edges[k].1 == j;
    assert(edges.push(e)[k] == edges[k]);
}

/// `e` is the edge of a pair `i < j` of species, scored by their alignment.
pub open spec fn is_pair_edge(species: Seq<Species>, e: Edge) -> bool {
    &&& e.0 < e.1 < species.len()
    &&& e.2 == nw_score::<Blosum62>(
        species[e.0 as int].residues(),
        species[e.1 as int].residues(),
        GAP_PENALTY as int,
    )
}

/// Number of pairs `i < j < n` whose first index is below `rows`.
pub open spec fn pairs_in_rows(n: int, rows: int) -> int
    decreases rows,
{
    if rows <= 0 {
        0
    } else {
        pairs_in_rows(n, rows - 1) + (n - rows)
    }
}

proof fn lemma_pairs_in_rows(n: int, rows: int)
    requires
        0 <= rows <= n,
    ensures
        2 * pairs_in_rows(n, rows) == rows * (2 * n - rows - 1),
    decreases rows,
{
    if rows > 0 {
        lemma_pairs_in_rows(n, rows - 1);
        assert(rows * (2 * n - rows - 1) == (rows - 1) * (2 * n - (rows - 1) - 1) + 2 * (n - rows))
            by (nonlinear_arith);
    } else {
        assert(rows * (2 * n - rows - 1) == 0) by (nonlinear_arith)
            requires
                rows == 0,
        ;
    }
}

/// `x` comes before `y` in row-major order of pairs.
pub open spec fn pair_before(x: Edge, y: Edge) -> bool {
    x.0 < y.0 || (x.0 == y.0 && x.1 < y.1)
}

/// The edges come in strictly increasing row-major order of their pairs.
pub open spec fn row_major(edges: Seq<Edge>) -> bool {
    forall|p: int, q: int| 0 <= p < q < edges.len() ==> pair_before(#[trigger] edges[p], #[trigger] edges[q])
}

proof fn lemma_row_major_count(edges: Seq<Edge>, x: Edge)
    requires
        row_major(edges),
    ensures
        edges.to_multiset().count(x) <= 1,
    decreases edges.len(),
{
    broadcast use vstd::seq_lib::group_to_multiset_ensures;

    if edges.len() > 0 {
        let init = edges.drop_last();
        assert(row_major(init));
        lemma_row_major_count(init, x);
        assert(edges =~= init.push(edges.last()));
        if edges.last() == x {
            assert forall|p: int| 0 <= p < init.len() implies init[p] != x by {
                assert(pair_before(edges[p], edges[edges.len() - 1]));
            }
            assert(!init.contains(x));
        }
    }
}

/// Scores every pair `i < j` of species, row by row, and orders the edges by
/// similarity: taken from the end, they come in non-increasing similarity.
fn compute_edges(species: &Vec<Species>) -> (r: Vec<Edge>)
    requires
        forall|s: int| 0 <= s < species@.len() ==> (#[trigger] species@[s]).residues().len() <= MAX_SEQUENCE_LEN,
    ensures
        forall|e: Edge| #[trigger] r@.to_multiset().count(e) == if is_pair_edge(species@, e) {
            1nat
        } else {
            0nat
        },
        r@.len() == species@.len() * (species@.len() - 1) / 2,
        sorted_by_similarity(r@),
        edges_in_range(r@, species@.len() as int),
        covers_pairs(r@, species@.len() as int),
        scored_edges(r@, species@),
{
    let n = species.len();
    let mut edges: Vec<Edge> = Vec::new();
    let mut i: usize = 0;
    while i < n
        invariant
            i <= n,
            n == species@.len(),
            forall|s: int| 0 <= s < n ==> (#[trigger] species@[s]).residues().len() <= MAX_SEQUENCE_LEN,
            scored_edges(edges@, species@),
            row_major(edges@),
            edges@.len() == pairs_in_rows(n as int, i as int),
            forall|p: int| 0 <= p < edges@.len() ==> (#[trigger] edges@[p]).0 < i,
            forall|a: int, b: int| 0 <= a < i && a < b < n ==> #[trigger] has_edge(edges@, a, b),
        decreases n - i,
    {
        let mut j: usize = i + 1;
        while j < n
            invariant
                i < n,
                i + 1 <= j <= n,
                n == species@.len(),
                forall|s: int| 0 <= s < n ==> (#[trigger] species@[s]).residues().len() <= MAX_SEQUENCE_LEN,
                scored_edges(edges@, species@),
                row_major(edges@),
                edges@.len() == pairs_in_rows(n as int, i as int) + (j - i - 1),
                forall|p: int|
                    0 <= p < edges@.len() ==> (#[trigger] edges@[p]).0 < i || (edges@[p].0 == i
                        && edges@[p].1 < j),
                forall|a: int, b: int| 0 <= a < i && a < b < n ==> #[trigger] has_edge(edges@, a, b),
                forall|b: int| i < b < j ==> #[trigger] has_edge(edges@, i as int, b),
            decreases n - j,
        {
            proof {
                assert(species@[i as int].residues().len() <= MAX_SEQUENCE_LEN);
                assert(species@[j as int].residues().len() <= MAX_SEQUENCE_LEN);
            }
            let score = Blosum62::needleman_wunsch(species[i].genome.as_slice(), species[j].genome.as_slice());
            let ghost before = edges@;
            edges.push((i, j, score));
            proof {
                assert forall|a: int, b: int| 0 <= a < i && a < b < n implies #[trigger] has_edge(edges@, a, b) by {
                    lemma_has_edge_push(before, (i, j, score), a, b);
                }
                assert forall|b: int| i < b < j + 1 implies #[trigger] has_edge(edges@, i as int, b) by {
                    if b < j {
                        lemma_has_edge_push(before, (i, j, score), i as int, b);
                    } else {
                        assert(edges@[before.len() as int] == (i, j, score));
                    }
                }
                assert forall|k: int| 0 <= k < edges@.len() implies {
                    &&& (#[trigger] edges@[k]).0 < edges@[k].1 < species@.len()
                    &&& edges@[k].2 == nw_score::<Blosum62>(
                        species@[edges@[k].0 as int].residues(),
                        species@[edges@[k].1 as int].residues(),
                        GAP_PENALTY as int,
                    )
                } by {
                    if k < before.len() {
                        assert(edges@[k] == before[k]);
                    }
                }
                assert forall|p: int, q: int| 0 <= p < q < edges@.len() implies pair_before(
                    #[trigger] edges@[p],
                    #[trigger] edges@[q],
                ) by {
                    if q < before.len() {
                        assert(edges@[p] == before[p] && edges@[q] == before[q]);
                    } else {
                        assert(edges@[p] == before[p]);
                    }
                }
                assert forall|p: int| 0 <= p < edges@.len() implies (#[trigger] edges@[p]).0 < i || (
                edges@[p].0 == i && edges@[p].1 < j + 1) by {
                    if p < before.len() {
                        assert(edges@[p] == before[p]);
                    }
                }
            }
            j = j + 1;
        }
        i = i + 1;
    }
    proof {
        broadcast use vstd::seq_lib::group_to_multiset_ensures;

        assert forall|k: int| 0 <= k < edges@.len() implies (#[trigger] edges@[k]).0 < n && edges@[k].1 < n by {
            assert(edges@[k].0 < edges@[k].1 < n);
        }
        assert forall|e: Edge| #[trigger] edges@.to_multiset().count(e) == if is_pair_edge(species@, e) {
            1nat
        } else {
            0nat
        } by {
            lemma_row_major_count(edges@, e);
            if is_pair_edge(species@, e) {
                assert(has_edge(edges@, e.0 as int, e.1 as int));
                let k = choose|k: int| 0 <= k < edges@.len() && (#[trigger] edges@[k]).0 == e.0 && edges@[k].1 == e.1;
                assert(edges@[k] == e);
                assert(edges@.contains(e));
            } else if edges@.contains(e) {
                let k = choose|k: int| 0 <= k < edges@.len() && edges@[k] == e;
                assert(is_pair_edge(species@, edges@[k]));
            }
        }
    }
    let ghost unsorted = edges@;
    sort_by_similarity(&mut edges);
    proof {
        broadcast use vstd::seq_lib::group_to_multiset_ensures;

        lemma_pairs_in_rows(n as int, n as int);
        assert(unsorted.len() == unsorted.to_multiset().len());
        assert(edges@.len() == edges@.to_multiset().len());

        lemma_same_edges(unsorted, edges@, n as int);
        assert forall|k: int| 0 <= k < edges@.len() implies {
            &&& (#[trigger] edges@[k]).0 < edges@[k].1 < species@.len()
            &&& edges@[k].2 == nw_score::<Blosum62>(
                species@[edges@[k].0 as int].residues(),
                species@[edges@[k].1 as int].residues(),
                GAP_PENALTY as int,
            )
        } by {
            let e = edges@[k];
            assert(edges@.contains(e));
            assert(edges@.to_multiset().count(e) > 0);
            assert(is_pair_edge(species@, e));
        }
    }
    edges
}

/// Agglomerative clustering of a collection into a dendrogram.
pub trait Kruskal: Sized {
    type Leaf;

    /// The labels of the inputs, in order.
    spec fn leaf_labels(&self) -> Seq<Self::Leaf>;

    /// The inputs are few and short enough to be scored and merged.
    spec fn clusterable(&self) -> bool;

    /// The similarity scores of the pairs of distinct inputs.
    spec fn pair_scores(&self) -> Set<int>;

    /// An edge `(i, j, score)` for each pair `i < j` of inputs.
    spec fn pair_edges(&self) -> Set<Edge>;

    /// Merges the inputs, most similar first, into one tree: `None` for no
    /// input, the bare leaf for one.
    fn cluster(self) -> (r: Option<Cluster<Self::Leaf>>)
        requires
            self.clusterable(),
        ensures
            r is None <==> self.leaf_labels().len() == 0,
            self.leaf_labels().len() == 1 ==> r == Some(Cluster::Leaf(self.leaf_labels()[0])),
            r matches Some(t) ==> {
                &&& t.leaves() == self.leaf_labels().to_multiset()
                &&& t.internal_count() + 1 == self.leaf_labels().len()
                &&& t.monotone()
                &&& t.scores_within(self.pair_scores())
                &&& exists|it: Cluster<usize>|
                    {
                        &&& relabel(it, self.leaf_labels()) == t
                        &&& leaf_set(it) == vstd::set_lib::set_int_range(0, self.leaf_labels().len() as int)
                        &&& single_linkage(it, self.pair_edges())
                    }
            },
    ;
}

impl Kruskal for Vec<Species> {
    /// A leaf is a species' name.
    type Leaf = String;

    open spec fn leaf_labels(&self) -> Seq<String> {
        self@.map_values(|s: Species| s.label())
    }

    open spec fn clusterable(&self) -> bool {
        &&& 2 * self@.len() <= isize::MAX
        &&& forall|s: int| 0 <= s < self@.len() ==> (#[trigger] self@[s]).residues().len() <= MAX_SEQUENCE_LEN
    }

    open spec fn pair_scores(&self) -> Set<int> {
        Set::new(
            |v: int|
                exists|i: int, j: int|
                    0 <= i < j < self@.len() && v == #[trigger] nw_score::<Blosum62>(
                        self@[i].residues(),
                        #[trigger] self@[j].residues(),
                        GAP_PENALTY as int,
                    ),
        )
    }

    open spec fn pair_edges(&self) -> Set<Edge> {
        Set::new(
            |e: Edge|
                e.0 < e.1 < self@.len() && e.2 == nw_score::<Blosum62>(
                    self@[e.0 as int].residues(),
                    self@[e.1 as int].residues(),
                    GAP_PENALTY as int,
                ),
        )
    }

    fn cluster(self) -> (r: Option<Cluster<String>>) {
        let n = self.len();
        let mut names: Vec<String> = Vec::new();
        let mut i: usize = 0;
        while i < n
            invariant
                i <= n,
                n == self@.len(),
                names@ == self.leaf_labels().take(i as int),
            decreases n - i,
        {
            names.push(self[i].name.clone());
            proof {
                assert(names@ =~= self.leaf_labels().take(i + 1));
            }
            i = i + 1;
        }
        proof {
            assert(names@ =~= self.leaf_labels());
        }
        let edges = compute_edges(&self);
        let ghost scored = edges@;
        let r = cluster_edges(names, edges);
        proof {
            assert forall|v: int| #[trigger] edge_scores(scored).contains(v) implies self.pair_scores().contains(v) by {
                let k = choose|k: int| 0 <= k < scored.len() && (#[trigger] scored[k]).2 == v;
                let (i, j) = (scored[k].0 as int, scored[k].1 as int);
                assert(v == nw_score::<Blosum62>(self@[i].residues(), self@[j].residues(), GAP_PENALTY as int));
            }
            if r is Some {
                lemma_scores_widen(r->Some_0, edge_scores(scored), self.pair_scores());
            }
            assert forall|e: Edge| #[trigger] self.pair_edges().contains(e) implies scored.to_set().contains(e) by {
                assert(has_edge(scored, e.0 as int, e.1 as int));
                let k = choose|k: int| 0 <= k < scored.len() && (#[trigger] scored[k]).0 == e.0 && scored[k].1 == e.1;
                assert(scored[k] == e);
            }
            assert(scored.to_set() =~= self.pair_edges());
        }
        r
    }
}

} // verus!
