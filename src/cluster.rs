use vstd::multiset::Multiset;
use vstd::prelude::*;

use crate::union_find::ClusterId;

verus! {

broadcast use vstd::seq_lib::group_to_multiset_ensures;

/// A similarity-scored binary tree: each leaf is an input label, each inner
/// node records the score of the edge that merged its two subtrees.
#[derive(Debug, PartialEq)]
pub enum Cluster<T> {
    Leaf(T),
    Node { left: Box<Cluster<T>>, right: Box<Cluster<T>>, similarity: i32 },
}

impl<T: Clone> Clone for Cluster<T> {
    fn clone(&self) -> (r: Self)
        decreases self,
    {
        match self {
            Cluster::Leaf(t) => Cluster::Leaf(t.clone()),
            Cluster::Node { left, right, similarity } => Cluster::Node {
                left: Box::new((**left).clone()),
                right: Box::new((**right).clone()),
                similarity: *similarity,
            },
        }
    }
}

impl<T> Cluster<T> {
    /// The labels at the leaves, with multiplicity.
    pub open spec fn leaves(self) -> Multiset<T>
        decreases self,
    {
        match self {
            Cluster::Leaf(t) => Multiset::singleton(t),
            Cluster::Node { left, right, .. } => left.leaves().add(right.leaves()),
        }
    }

    /// Number of inner nodes.
    pub open spec fn internal_count(self) -> nat
        decreases self,
    {
        match self {
            Cluster::Leaf(_) => 0,
            Cluster::Node { left, right, .. } => 1 + left.internal_count() + right.internal_count(),
        }
    }

    /// The tree's own merge score is at least `s`; a leaf has none.
    pub open spec fn top_at_least(self, s: int) -> bool {
        match self {
            Cluster::Leaf(_) => true,
            Cluster::Node { similarity, .. } => similarity >= s,
        }
    }

    /// Every inner node's score is one of `allowed`.
    pub open spec fn scores_within(self, allowed: Set<int>) -> bool
        decreases self,
    {
        match self {
            Cluster::Leaf(_) => true,
            Cluster::Node { left, right, similarity } => {
                &&& allowed.contains(similarity as int)
                &&& left.scores_within(allowed)
                &&& right.scores_within(allowed)
            },
        }
    }

    /// A node's score is at most the scores of its children: along every path
    /// from a leaf up to the root the scores of the inner nodes never increase,
    /// since the most similar clusters are merged first.
    pub open spec fn monotone(self) -> bool
        decreases self,
    {
        match self {
            Cluster::Leaf(_) => true,
            Cluster::Node { left, right, similarity } => {
                &&& left.monotone()
                &&& right.monotone()
                &&& left.top_at_least(similarity as int)
                &&& right.top_at_least(similarity as int)
            },
        }
    }
}

/// A full binary tree has one leaf more than it has inner nodes.
pub proof fn lemma_leaves_internal<T>(t: Cluster<T>)
    ensures
        t.leaves().len() == t.internal_count() + 1,
    decreases t,
{
    if let Cluster::Node { left, right, .. } = t {
        lemma_leaves_internal(*left);
        lemma_leaves_internal(*right);
    }
}

/// The tree with each leaf index replaced by the label at that index.
pub open spec fn relabel<T>(it: Cluster<usize>, names: Seq<T>) -> Cluster<T>
    decreases it,
{
    match it {
        Cluster::Leaf(i) => Cluster::Leaf(names[i as int]),
        Cluster::Node { left, right, similarity } => Cluster::Node {
            left: Box::new(relabel(*left, names)),
            right: Box::new(relabel(*right, names)),
            similarity,
        },
    }
}

/// The indices at the leaves of a tree of indices.
pub open spec fn leaf_set(it: Cluster<usize>) -> Set<int>
    decreases it,
{
    match it {
        Cluster::Leaf(i) => set![i as int],
        Cluster::Node { left, right, .. } => leaf_set(*left).union(leaf_set(*right)),
    }
}

/// Scores drawn from a set are drawn from any larger set.
pub proof fn lemma_scores_widen<T>(t: Cluster<T>, small: Set<int>, large: Set<int>)
    requires
        t.scores_within(small),
        small.subset_of(large),
    ensures
        t.scores_within(large),
    decreases t,
{
    if let Cluster::Node { left, right, .. } = t {
        lemma_scores_widen(*left, small, large);
        lemma_scores_widen(*right, small, large);
    }
}

/// A tree whose leaves are exactly one label is that leaf.
pub proof fn lemma_single_leaf<T>(t: Cluster<T>, x: T)
    requires
        t.leaves() == Multiset::singleton(x),
    ensures
        t == Cluster::Leaf(x),
{
    lemma_leaves_internal(t);
    if let Cluster::Node { left, right, .. } = t {
        assert(t.internal_count() >= 1);
        assert(false);
    } else if let Cluster::Leaf(y) = t {
        assert(Multiset::singleton(y).count(y) == 1);
    }
}

/// The labels of the inputs among the first `k` whose cluster is `c`.
pub open spec fn members<T>(names: Seq<T>, cmap: Seq<ClusterId>, c: usize, k: int) -> Multiset<T>
    decreases k,
{
    if k <= 0 {
        Multiset::empty()
    } else {
        members(names, cmap, c, k - 1).add(
            if cmap[k - 1].0 == c {
                Multiset::singleton(names[k - 1])
            } else {
                Multiset::empty()
            },
        )
    }
}

/// The cluster map after the clusters `a` and `b` became `fresh`.
pub open spec fn remapped(cmap: Seq<ClusterId>, a: usize, b: usize, fresh: usize) -> Seq<ClusterId> {
    Seq::new(
        cmap.len(),
        |s: int|
            if cmap[s].0 == a || cmap[s].0 == b {
                ClusterId(fresh)
            } else {
                cmap[s]
            },
    )
}

pub proof fn lemma_members_merge<T>(
    names: Seq<T>,
    cmap: Seq<ClusterId>,
    a: usize,
    b: usize,
    fresh: usize,
    k: int,
)
    requires
        0 <= k <= cmap.len(),
        a != b,
        fresh != a,
        fresh != b,
        forall|s: int| 0 <= s < cmap.len() ==> (#[trigger] cmap[s]).0 != fresh,
    ensures
        members(names, remapped(cmap, a, b, fresh), fresh, k) == members(names, cmap, a, k).add(
            members(names, cmap, b, k),
        ),
        forall|c: usize|
            c != a && c != b && c != fresh ==> #[trigger] members(names, remapped(cmap, a, b, fresh), c, k)
                == members(names, cmap, c, k),
    decreases k,
{
    let r = remapped(cmap, a, b, fresh);
    if k > 0 {
        lemma_members_merge(names, cmap, a, b, fresh, k - 1);
        assert(members(names, r, fresh, k) =~= members(names, cmap, a, k).add(members(names, cmap, b, k)));
        assert forall|c: usize| c != a && c != b && c != fresh implies #[trigger] members(names, r, c, k)
            == members(names, cmap, c, k) by {
            assert(members(names, r, c, k - 1) == members(names, cmap, c, k - 1));
        }
    } else {
        assert(members(names, r, fresh, k) =~= members(names, cmap, a, k).add(members(names, cmap, b, k)));
    }
}

/// At the start every input is its own cluster.
pub proof fn lemma_members_identity<T>(names: Seq<T>, cmap: Seq<ClusterId>, c: usize, k: int)
    requires
        0 <= k <= cmap.len(),
        k <= names.len(),
        forall|s: int| 0 <= s < cmap.len() ==> (#[trigger] cmap[s]).0 == s,
    ensures
        members(names, cmap, c, k) == if c < k {
            Multiset::singleton(names[c as int])
        } else {
            Multiset::empty()
        },
    decreases k,
{
    if k > 0 {
        lemma_members_identity(names, cmap, c, k - 1);
        assert(members(names, cmap, c, k) =~= if c < k {
            Multiset::singleton(names[c as int])
        } else {
            Multiset::empty()
        });
    }
}

/// Once every input is in cluster `c`, its members are all the labels.
pub proof fn lemma_members_all<T>(names: Seq<T>, cmap: Seq<ClusterId>, c: usize, k: int)
    requires
        0 <= k <= cmap.len(),
        k <= names.len(),
        forall|s: int| 0 <= s < k ==> (#[trigger] cmap[s]).0 == c,
    ensures
        members(names, cmap, c, k) == names.take(k).to_multiset(),
    decreases k,
{
    if k > 0 {
        lemma_members_all(names, cmap, c, k - 1);
        assert(names.take(k) =~= names.take(k - 1).push(names[k - 1]));
        assert(members(names, cmap, c, k) =~= names.take(k).to_multiset());
    } else {
        assert(names.take(0) =~= Seq::<T>::empty());
        assert(names.take(0).to_multiset() =~= Multiset::empty());
    }
}

} // verus!
