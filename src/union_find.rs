use vstd::prelude::*;

verus! {

/// Index of a cluster: a slot of the disjoint-set forest.
#[derive(Debug, Clone, Copy, PartialEq, Eq, Hash, Structural)]
pub struct ClusterId(pub usize);

impl ClusterId {
    pub fn index(self) -> (r: usize)
        ensures
            r == self.0,
    {
        self.0
    }
}

/// Size that a parent slot contributes: a root holds the negated size of its set.
pub open spec fn weight(v: isize) -> int {
    if v < 0 {
        -v
    } else {
        0
    }
}

/// Total of the set sizes held by the roots.
pub open spec fn mass(p: Seq<isize>) -> int
    decreases p.len(),
{
    if p.len() == 0 {
        0
    } else {
        mass(p.drop_last()) + weight(p.last())
    }
}

proof fn lemma_mass_update(p: Seq<isize>, i: int, v: isize)
    requires
        0 <= i < p.len(),
    ensures
        mass(p.update(i, v)) == mass(p) - weight(p[i]) + weight(v),
    decreases p.len(),
{
    if i == p.len() - 1 {
        assert(p.update(i, v).drop_last() =~= p.drop_last());
    } else {
        assert(p.update(i, v).drop_last() =~= p.drop_last().update(i, v));
        lemma_mass_update(p.drop_last(), i, v);
    }
}

proof fn lemma_mass_nonneg(p: Seq<isize>)
    ensures
        mass(p) >= 0,
    decreases p.len(),
{
    if p.len() > 0 {
        lemma_mass_nonneg(p.drop_last());
    }
}

proof fn lemma_mass_two(p: Seq<isize>, i: int, j: int)
    requires
        0 <= i < p.len(),
        0 <= j < p.len(),
        i != j,
    ensures
        weight(p[i]) + weight(p[j]) <= mass(p),
    decreases p.len(),
{
    let q = p.drop_last();
    let l = p.len() - 1;
    if i == l {
        lemma_mass_one(q, j);
    } else if j == l {
        lemma_mass_one(q, i);
    } else {
        lemma_mass_two(q, i, j);
    }
}

proof fn lemma_mass_one(p: Seq<isize>, i: int)
    requires
        0 <= i < p.len(),
    ensures
        weight(p[i]) <= mass(p),
    decreases p.len(),
{
    lemma_mass_nonneg(p.drop_last());
    if i < p.len() - 1 {
        lemma_mass_one(p.drop_last(), i);
    }
}

/// The slots whose representative is `r`.
pub open spec fn members_of(reps: Seq<int>, r: int) -> Set<int> {
    vstd::set_lib::set_int_range(0, reps.len() as int).filter(|y: int| reps[y] == r)
}

/// The forest's parent links agree with the representatives and ranks, and
/// each root holds the negated size of its set.
#[verifier::opaque]
pub open spec fn forest_wf(parent: Seq<isize>, reps: Seq<int>, rank: Seq<nat>, top: nat) -> bool {
    let n = parent.len();
    &&& reps.len() == n
    &&& rank.len() == n
    &&& n <= isize::MAX
    &&& mass(parent) == n
    &&& forall|x: int|
        0 <= x < n ==> {
            &&& 0 <= #[trigger] reps[x] < n
            &&& parent[reps[x]] < 0
            &&& rank[x] <= top
            &&& parent[x] < 0 ==> reps[x] == x
            &&& parent[x] < 0 ==> -parent[x] == members_of(reps, x).len()
            &&& parent[x] >= 0 ==> {
                &&& parent[x] < n
                &&& reps[parent[x] as int] == reps[x]
                &&& rank[x] < rank[parent[x] as int]
                &&& rank[x] < rank[reps[x]]
            }
        }
}

/// Representatives after the root `small` is linked under the root `big`.
pub open spec fn linked_reps(reps: Seq<int>, big: int, small: int) -> Seq<int> {
    Seq::new(reps.len(), |x: int| if reps[x] == small { big } else { reps[x] })
}

/// Rank of `big` after `small` is linked under it.
pub open spec fn linked_rank(rank: Seq<nat>, big: int, small: int) -> nat {
    if rank[big] > rank[small] {
        rank[big]
    } else {
        rank[small] + 1
    }
}

proof fn lemma_link(parent: Seq<isize>, reps: Seq<int>, rank: Seq<nat>, top: nat, big: int, small: int)
    requires
        forest_wf(parent, reps, rank, top),
        0 <= big < parent.len(),
        0 <= small < parent.len(),
        big != small,
        parent[big] < 0,
        parent[small] < 0,
        weight(parent[big]) + weight(parent[small]) <= mass(parent),
    ensures
        ({
            let p = parent.update(big, (parent[big] + parent[small]) as isize).update(small, big as isize);
            let nr = linked_rank(rank, big, small);
            forest_wf(
                p,
                linked_reps(reps, big, small),
                rank.update(big, nr),
                if nr > top { nr } else { top },
            )
        }),
{
    reveal(forest_wf);
    let combined = (parent[big] + parent[small]) as isize;
    let p1 = parent.update(big, combined);
    let p = p1.update(small, big as isize);
    lemma_mass_update(parent, big, combined);
    lemma_mass_update(p1, small, big as isize);
    let nr = linked_rank(rank, big, small);
    let rk = rank.update(big, nr);
    let tp = if nr > top { nr } else { top };
    let rp = linked_reps(reps, big, small);
    let n = parent.len();
    assert(reps[big] == big);
    assert(reps[small] == small);
    vstd::set_lib::lemma_int_range(0, n as int);
    let whole = vstd::set_lib::set_int_range(0, n as int);
    whole.lemma_len_filter(|y: int| reps[y] == big);
    whole.lemma_len_filter(|y: int| reps[y] == small);
    assert(members_of(rp, big) =~= members_of(reps, big) + members_of(reps, small));
    assert(members_of(reps, big).disjoint(members_of(reps, small)));
    vstd::set_lib::lemma_set_disjoint_lens(members_of(reps, big), members_of(reps, small));
    assert forall|x: int| 0 <= x < n implies {
        &&& 0 <= #[trigger] rp[x] < n
        &&& p[rp[x]] < 0
        &&& rk[x] <= tp
        &&& p[x] < 0 ==> rp[x] == x
        &&& p[x] < 0 ==> -p[x] == members_of(rp, x).len()
        &&& p[x] >= 0 ==> {
            &&& p[x] < n
            &&& rp[p[x] as int] == rp[x]
            &&& rk[x] < rk[p[x] as int]
            &&& rk[x] < rk[rp[x]]
        }
    } by {
        assert(0 <= reps[x] < n);
        if x == small {
        } else if x == big {
        } else if parent[x] >= 0 {
            let q = parent[x] as int;
            assert(0 <= reps[q] < n);
        } else {
            assert(members_of(rp, x) =~= members_of(reps, x));
        }
    }
}

/// A disjoint-set forest with path compression and union by size. A root
/// holds the negated size of its set; any other slot holds its parent.
pub struct UnionFind {
    parent: Vec<isize>,
    /// The root that each slot's set is represented by.
    reps: Ghost<Seq<int>>,
    /// Strictly increases from a slot to its parent.
    rank: Ghost<Seq<nat>>,
    /// Bounds every rank.
    top: Ghost<nat>,
}

impl UnionFind {
    /// Number of slots.
    pub closed spec fn size(&self) -> nat {
        self.parent@.len()
    }

    /// The representative of the set that holds `x`.
    pub closed spec fn rep(&self, x: int) -> int {
        self.reps@[x]
    }

    /// The parent links: a root holds the negated size of its set, any other
    /// slot the index of its parent.
    pub closed spec fn links(&self) -> Seq<isize> {
        self.parent@
    }

    /// The slots in the set represented by `r`.
    pub open spec fn set_of(&self, r: int) -> Set<int> {
        Set::new(|y: int| 0 <= y < self.size() && self.rep(y) == r)
    }

    /// Whether `x` and `y` are in the same set.
    pub open spec fn connected(&self, x: int, y: int) -> bool {
        self.rep(x) == self.rep(y)
    }

    pub closed spec fn wf(&self) -> bool {
        forest_wf(self.parent@, self.reps@, self.rank@, self.top@)
    }

    /// How far the rank of `x` is below the bound on all ranks.
    pub closed spec fn height(&self, x: int) -> int {
        self.top@ - self.rank@[x]
    }

    /// Same slots, same sets, same ranks: only the parent links may differ.
    pub closed spec fn same_sets(&self, o: &Self) -> bool {
        &&& self.parent@.len() == o.parent@.len()
        &&& self.reps@ == o.reps@
        &&& self.rank@ == o.rank@
        &&& self.top@ == o.top@
    }

    /// Creates `n` singleton sets.
    pub fn new(n: usize) -> (r: Self)
        requires
            n <= isize::MAX,
        ensures
            r.wf(),
            r.size() == n,
            forall|x: int| 0 <= x < n ==> #[trigger] r.rep(x) == x,
    {
        let mut parent: Vec<isize> = Vec::new();
        let mut i: usize = 0;
        while i < n
            invariant
                i <= n,
                n <= isize::MAX,
                parent@.len() == i,
                mass(parent@) == i,
                forall|x: int| 0 <= x < i ==> parent@[x] == -1,
            decreases n - i,
        {
            proof {
                assert(parent@.push(-1isize).drop_last() =~= parent@);
            }
            parent.push(-1);
            i = i + 1;
        }
        let r = UnionFind {
            parent,
            reps: Ghost(Seq::new(n as nat, |x: int| x)),
            rank: Ghost(Seq::new(n as nat, |x: int| 0nat)),
            top: Ghost(0),
        };
        proof {
            reveal(forest_wf);
            assert forall|x: int| 0 <= x < n implies members_of(r.reps@, x).len() == 1 by {
                assert(members_of(r.reps@, x) =~= set![x]);
            }
        }
        r
    }

    /// Finds the representative of the set containing `x`, compressing the path.
    pub fn find(&mut self, x: ClusterId) -> (r: ClusterId)
        requires
            old(self).wf(),
            x.0 < old(self).size(),
        ensures
            final(self).wf(),
            final(self).same_sets(old(self)),
            final(self).size() == old(self).size(),
            forall|y: int| 0 <= y < old(self).size() ==> #[trigger] final(self).rep(y) == old(self).rep(y),
            r.0 == old(self).rep(x.0 as int),
            final(self).links().len() == old(self).links().len(),
            r == x ==> final(self).links() == old(self).links(),
            r != x ==> final(self).links()[x.0 as int] == r.0 as isize,
            forall|y: int|
                0 <= y < old(self).size() ==> #[trigger] final(self).links()[y] == old(self).links()[y] || (
                old(self).links()[y] >= 0 && old(self).rep(y) == r.0 && final(self).links()[y]
                    == r.0 as isize),
        decreases old(self).height(x.0 as int),
    {
        let idx = x.index();
        proof {
            reveal(forest_wf);
        }
        if self.parent[idx] < 0 {
            x
        } else {
            proof {
                assert(0 <= self.reps@[idx as int] < self.parent@.len());
            }
            let p = self.parent[idx] as usize;
            let root = self.find(ClusterId(p));
            let ghost before = self.parent@;
            self.parent.set(idx, root.index() as isize);
            proof {
                reveal(forest_wf);
                lemma_mass_update(before, idx as int, root.0 as isize);
                assert forall|y: int| 0 <= y < self.parent@.len() implies {
                    &&& 0 <= #[trigger] self.reps@[y] < self.parent@.len()
                    &&& self.parent@[self.reps@[y]] < 0
                } by {
                    assert(before[self.reps@[y]] < 0);
                }
                assert(self.reps@[idx as int] != idx as int);
            }
            root
        }
    }

    /// Unites the sets of `a` and `b`; returns whether they were apart.
    pub fn union(&mut self, a: ClusterId, b: ClusterId) -> (r: bool)
        requires
            old(self).wf(),
            a.0 < old(self).size(),
            b.0 < old(self).size(),
        ensures
            unites(*old(self), *final(self), a.0 as int, b.0 as int),
            r == !old(self).connected(a.0 as int, b.0 as int),
            final(self).links().len() == old(self).links().len(),
            forall|x: int|
                0 <= x < old(self).size() && old(self).links()[x] < 0 && x != old(self).rep(a.0 as int) && x
                    != old(self).rep(b.0 as int) ==> #[trigger] final(self).links()[x] == old(self).links()[x],
            !r ==> forall|x: int|
                0 <= x < old(self).size() && old(self).links()[x] < 0 ==> #[trigger] final(self).links()[x]
                    == old(self).links()[x],
            r ==> ({
                let ra = old(self).rep(a.0 as int);
                let rb = old(self).rep(b.0 as int);
                let big = if old(self).links()[ra] <= old(self).links()[rb] {
                    ra
                } else {
                    rb
                };
                let small = if big == ra {
                    rb
                } else {
                    ra
                };
                &&& final(self).rep(a.0 as int) == big
                &&& final(self).links()[big] == old(self).links()[ra] + old(self).links()[rb]
                &&& final(self).links()[small] == big as isize
            }),
    {
        let ra = self.find(a);
        let rb = self.find(b);
        let ghost reps0 = self.reps@;
        proof {
            assert forall|x: int| 0 <= x < old(self).size() implies #[trigger] reps0[x] == old(self).rep(x) by {
                assert(self.rep(x) == old(self).rep(x));
            }
            reveal(forest_wf);
            assert(0 <= reps0[a.0 as int] < reps0.len());
            assert(0 <= reps0[b.0 as int] < reps0.len());
            assert(old(self).parent@[reps0[a.0 as int]] < 0);
            assert(old(self).parent@[reps0[b.0 as int]] < 0);
            assert(self.parent@[ra.0 as int] == old(self).parent@[ra.0 as int]);
            assert(self.parent@[rb.0 as int] == old(self).parent@[rb.0 as int]);
            assert forall|x: int| 0 <= x < old(self).size() && old(self).parent@[x] < 0 implies #[trigger] self.parent@[x]
                == old(self).parent@[x] by {
                assert(self.links()[x] == old(self).links()[x] || old(self).links()[x] >= 0);
            }
        }
        if ra == rb {
            return false;
        }
        let pa = self.parent[ra.index()];
        let pb = self.parent[rb.index()];
        let (big, small) = if pa <= pb {
            (ra, rb)
        } else {
            (rb, ra)
        };
        let bi = big.index();
        let si = small.index();
        let ghost p0 = self.parent@;
        proof {
            lemma_mass_two(p0, bi as int, si as int);
        }
        let combined = self.parent[bi] + self.parent[si];
        self.parent.set(bi, combined);
        self.parent.set(si, bi as isize);
        proof {
            lemma_link(p0, self.reps@, self.rank@, self.top@, bi as int, si as int);
            let nr = linked_rank(self.rank@, bi as int, si as int);
            self.reps@ = linked_reps(self.reps@, bi as int, si as int);
            self.rank@ = self.rank@.update(bi as int, nr);
            if nr > self.top@ {
                self.top@ = nr;
            }
            lemma_relink(reps0, bi as int, si as int, a.0 as int, b.0 as int);
        }
        true
    }
}

proof fn lemma_relink(reps: Seq<int>, big: int, small: int, a: int, b: int)
    requires
        0 <= a < reps.len(),
        0 <= b < reps.len(),
        reps[a] != reps[b],
        (big == reps[a] && small == reps[b]) || (big == reps[b] && small == reps[a]),
    ensures
        linked_reps(reps, big, small)[a] == big,
        forall|x: int|
            0 <= x < reps.len() ==> #[trigger] linked_reps(reps, big, small)[x] == if reps[x] == reps[a]
                || reps[x] == reps[b] {
                big
            } else {
                reps[x]
            },
{
}

/// A root holds the negated size of its set.
pub proof fn lemma_root_holds_size(uf: UnionFind, x: int)
    requires
        uf.wf(),
        0 <= x < uf.size(),
        uf.links()[x] < 0,
    ensures
        uf.rep(x) == x,
        -uf.links()[x] == uf.set_of(x).len(),
{
    reveal(forest_wf);
    assert(uf.set_of(x) =~= members_of(uf.reps@, x));
}

/// Finding the representative twice gives the same slot: a representative
/// represents itself.
pub proof fn lemma_find_idempotent(uf: UnionFind, x: int)
    requires
        uf.wf(),
        0 <= x < uf.size(),
    ensures
        0 <= uf.rep(x) < uf.size(),
        uf.rep(uf.rep(x)) == uf.rep(x),
{
    reveal(forest_wf);
    assert(0 <= uf.reps@[x] < uf.size());
}

/// `after` is `before` with the sets of `a` and `b` united: the two sets
/// share one representative, taken from one of them, and no other set moves.
pub open spec fn unites(before: UnionFind, after: UnionFind, a: int, b: int) -> bool {
    &&& after.wf()
    &&& after.size() == before.size()
    &&& (after.rep(a) == before.rep(a) || after.rep(a) == before.rep(b))
    &&& forall|x: int|
        0 <= x < before.size() ==> #[trigger] after.rep(x) == if before.connected(x, a)
            || before.connected(x, b) {
            after.rep(a)
        } else {
            before.rep(x)
        }
}

/// The partition after uniting `a` with `b`: `x` and `y` are together when they
/// were before, or when one was with `a` and the other with `b`.
pub open spec fn joined(uf: UnionFind, a: int, b: int, x: int, y: int) -> bool {
    ||| uf.connected(x, y)
    ||| uf.connected(x, a) && uf.connected(y, b)
    ||| uf.connected(x, b) && uf.connected(y, a)
}

/// Uniting `a` with `b` leaves exactly the partition `joined` describes.
pub proof fn lemma_union_joins(before: UnionFind, after: UnionFind, a: int, b: int, x: int, y: int)
    requires
        before.wf(),
        unites(before, after, a, b),
        0 <= a < before.size(),
        0 <= b < before.size(),
        0 <= x < before.size(),
        0 <= y < before.size(),
    ensures
        after.connected(x, y) == joined(before, a, b, x, y),
{
    reveal(forest_wf);
    assert(0 <= before.reps@[x] < before.size());
    assert(0 <= before.reps@[y] < before.size());
    assert(0 <= before.reps@[a] < before.size());
    assert(0 <= before.reps@[b] < before.size());
    let ra = before.rep(a);
    let rb = before.rep(b);
    assert(before.rep(ra) == ra);
    assert(before.rep(rb) == rb);
}

/// Uniting `a` with `b` and uniting `b` with `a` leave the same partition.
pub proof fn lemma_union_commutative(
    before: UnionFind,
    ab: UnionFind,
    ba: UnionFind,
    a: int,
    b: int,
    x: int,
    y: int,
)
    requires
        before.wf(),
        unites(before, ab, a, b),
        unites(before, ba, b, a),
        0 <= a < before.size(),
        0 <= b < before.size(),
        0 <= x < before.size(),
        0 <= y < before.size(),
    ensures
        ab.connected(x, y) == ba.connected(x, y),
{
    lemma_union_joins(before, ab, a, b, x, y);
    lemma_union_joins(before, ba, b, a, x, y);
}

/// Being in the same set is transitive.
pub proof fn lemma_connected_transitive(uf: UnionFind, x: int, y: int, z: int)
    requires
        uf.connected(x, y),
        uf.connected(y, z),
    ensures
        uf.connected(x, z),
{
}

} // verus!
