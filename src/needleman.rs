use vstd::prelude::*;

use crate::amino::AminoAcid;
use crate::blosum::{Blosum, Blosum45, Blosum62};

verus! {

/// The gap penalty used by `Needleman::needleman_wunsch`.
pub const GAP_PENALTY: i32 = -5;

pub open spec fn max3(x: int, y: int, z: int) -> int {
    if x >= y && x >= z {
        x
    } else if y >= z {
        y
    } else {
        z
    }
}

/// The best global alignment score of the prefixes `a[..i]` and `b[..j]`
/// under table `B` and a linear gap penalty `gap`.
pub open spec fn nw_cell<B: Blosum>(
    a: Seq<AminoAcid>,
    b: Seq<AminoAcid>,
    i: int,
    j: int,
    gap: int,
) -> int
    decreases i + j,
{
    if i <= 0 {
        j * gap
    } else if j <= 0 {
        i * gap
    } else {
        max3(
            nw_cell::<B>(a, b, i - 1, j - 1, gap) + B::spec_score(a[i - 1], b[j - 1]),
            nw_cell::<B>(a, b, i - 1, j, gap) + gap,
            nw_cell::<B>(a, b, i, j - 1, gap) + gap,
        )
    }
}

/// The Needleman-Wunsch score of `a` against `b`.
pub open spec fn nw_score<B: Blosum>(a: Seq<AminoAcid>, b: Seq<AminoAcid>, gap: int) -> int {
    nw_cell::<B>(a, b, a.len() as int, b.len() as int, gap)
}

pub open spec fn abs(x: int) -> int {
    if x < 0 {
        -x
    } else {
        x
    }
}

pub open spec fn min(x: int, y: int) -> int {
    if x <= y {
        x
    } else {
        y
    }
}

/// Bound on the size of any cell `(i, j)` of the table: an alignment path
/// holds at most `i + j` gaps and at most `min(i, j)` substitutions, each of
/// which scores within an `i8`.
pub open spec fn cell_bound(i: int, j: int, gap: int) -> int {
    (i + j) * abs(gap) + min(i, j) * 128
}

/// Every cell of the table for lengths `m` and `n` fits in an `i32`.
pub open spec fn alignment_fits(m: int, n: int, gap: int) -> bool {
    cell_bound(m, n, gap) <= i32::MAX
}

proof fn lemma_cell_bounds<B: Blosum>(a: Seq<AminoAcid>, b: Seq<AminoAcid>, i: int, j: int, gap: int)
    requires
        0 <= i,
        0 <= j,
    ensures
        abs(nw_cell::<B>(a, b, i, j, gap)) <= cell_bound(i, j, gap),
    decreases i + j,
{
    let k = abs(gap);
    let c = nw_cell::<B>(a, b, i, j, gap);
    if i == 0 {
        assert(c == j * gap);
        assert(abs(j * gap) <= (i + j) * k) by (nonlinear_arith)
            requires
                i == 0,
                j >= 0,
                k == abs(gap),
        ;
    } else if j == 0 {
        assert(c == i * gap);
        assert(abs(i * gap) <= (i + j) * k) by (nonlinear_arith)
            requires
                j == 0,
                i >= 0,
                k == abs(gap),
        ;
    } else {
        lemma_cell_bounds::<B>(a, b, i - 1, j - 1, gap);
        lemma_cell_bounds::<B>(a, b, i - 1, j, gap);
        lemma_cell_bounds::<B>(a, b, i, j - 1, gap);
        lemma_shift(i, j, k);
        assert(k >= 0);
    }
}

/// `(i + j) * k` against the products of the three neighbouring cells.
proof fn lemma_shift(i: int, j: int, k: int)
    ensures
        ((i - 1) + (j - 1)) * k == (i + j) * k - 2 * k,
        ((i - 1) + j) * k == (i + j) * k - k,
        (i + (j - 1)) * k == (i + j) * k - k,
{
    assert(((i - 1) + (j - 1)) * k == (i + j) * k - 2 * k) by (nonlinear_arith);
    assert(((i - 1) + j) * k == (i + j) * k - k) by (nonlinear_arith);
    assert((i + (j - 1)) * k == (i + j) * k - k) by (nonlinear_arith);
}

proof fn lemma_fits_prefix(i: int, j: int, m: int, n: int, gap: int)
    requires
        0 <= i <= m,
        0 <= j <= n,
        alignment_fits(m, n, gap),
    ensures
        cell_bound(i, j, gap) <= i32::MAX,
{
    assert((i + j) * abs(gap) <= (m + n) * abs(gap)) by (nonlinear_arith)
        requires
            0 <= i + j <= m + n,
            abs(gap) >= 0,
    ;
}

/// Fills the alignment table bottom-up, one row at a time, and returns its
/// last cell: the optimal global alignment score of `seq_a` against `seq_b`.
pub fn align_dp_table<B: Blosum>(seq_a: &[AminoAcid], seq_b: &[AminoAcid], gap_penalty: i32, table: &B) -> (r: i32)
    requires
        alignment_fits(seq_a@.len() as int, seq_b@.len() as int, gap_penalty as int),
    ensures
        r == nw_score::<B>(seq_a@, seq_b@, gap_penalty as int),
{
    let m = seq_a.len();
    let n = seq_b.len();
    let ghost a = seq_a@;
    let ghost b = seq_b@;
    let ghost g = gap_penalty as int;
    let ghost k = abs(g);

    // the first row: an empty prefix of `seq_a` against each prefix of `seq_b`
    let mut prev: Vec<i32> = Vec::new();
    let mut edge: i32 = 0;
    prev.push(edge);
    let mut j: usize = 0;
    while j < n
        invariant
            j <= n,
            n == b.len(),
            m == a.len(),
            alignment_fits(m as int, n as int, g),
            g == gap_penalty as int,
            k == abs(g),
            prev@.len() == j + 1,
            forall|t: int| 0 <= t <= j ==> prev@[t] == nw_cell::<B>(a, b, 0, t, g),
            edge == nw_cell::<B>(a, b, 0, j as int, g),
        decreases n - j,
    {
        proof {
            let t = j as int;
            lemma_cell_bounds::<B>(a, b, 0, t + 1, g);
            lemma_fits_prefix(0, t + 1, m as int, n as int, g);
            assert((t + 1) * g == t * g + g) by (nonlinear_arith);
            assert(nw_cell::<B>(a, b, 0, t + 1, g) == (t + 1) * g);
            assert(nw_cell::<B>(a, b, 0, t, g) == t * g);
        }
        edge = edge + gap_penalty;
        j = j + 1;
        prev.push(edge);
    }

    let mut i: usize = 0;
    while i < m
        invariant
            i <= m,
            n == b.len(),
            m == a.len(),
            a == seq_a@,
            b == seq_b@,
            alignment_fits(m as int, n as int, g),
            g == gap_penalty as int,
            k == abs(g),
            prev@.len() == n + 1,
            forall|t: int| 0 <= t <= n ==> prev@[t] == nw_cell::<B>(a, b, i as int, t, g),
        decreases m - i,
    {
        i = i + 1;
        let mut cur: Vec<i32> = Vec::new();
        proof {
            let t = i as int;
            lemma_cell_bounds::<B>(a, b, t, 0, g);
            lemma_fits_prefix(t, 0, m as int, n as int, g);
            assert(t * g == (t - 1) * g + g) by (nonlinear_arith);
            assert(nw_cell::<B>(a, b, t - 1, 0, g) == (t - 1) * g);
            assert(nw_cell::<B>(a, b, t, 0, g) == t * g);
        }
        let first: i32 = prev[0] + gap_penalty;
        cur.push(first);
        let mut j: usize = 0;
        while j < n
            invariant
                1 <= i <= m,
                j <= n,
                n == b.len(),
                m == a.len(),
                a == seq_a@,
                b == seq_b@,
                alignment_fits(m as int, n as int, g),
                g == gap_penalty as int,
                k == abs(g),
                prev@.len() == n + 1,
                forall|t: int| 0 <= t <= n ==> prev@[t] == nw_cell::<B>(a, b, i - 1, t, g),
                cur@.len() == j + 1,
                forall|t: int| 0 <= t <= j ==> cur@[t] == nw_cell::<B>(a, b, i as int, t, g),
            decreases n - j,
        {
            j = j + 1;
            let s = table.score(seq_a[i - 1], seq_b[j - 1]);
            proof {
                let sc = B::spec_score(a[i - 1], b[j - 1]);
                assert(-128 <= sc <= 127);
                let (x, y) = (i as int, j as int);
                lemma_cell_bounds::<B>(a, b, x - 1, y - 1, g);
                lemma_cell_bounds::<B>(a, b, x - 1, y, g);
                lemma_cell_bounds::<B>(a, b, x, y - 1, g);
                lemma_cell_bounds::<B>(a, b, x, y, g);
                lemma_fits_prefix(x, y, m as int, n as int, g);
                lemma_shift(x, y, k);
            }
            let diag = prev[j - 1] + s;
            let up = prev[j] + gap_penalty;
            let left = cur[j - 1] + gap_penalty;
            let best = if diag >= up && diag >= left {
                diag
            } else if up >= left {
                up
            } else {
                left
            };
            cur.push(best);
        }
        prev = cur;
    }
    prev[n]
}

/// Aligning against an empty sequence costs one gap per residue, and two
/// empty sequences score zero.
pub proof fn lemma_nw_boundary<B: Blosum>(a: Seq<AminoAcid>, b: Seq<AminoAcid>, gap: int)
    ensures
        nw_score::<B>(a, Seq::empty(), gap) == a.len() * gap,
        nw_score::<B>(Seq::empty(), b, gap) == b.len() * gap,
        nw_score::<B>(Seq::<AminoAcid>::empty(), Seq::empty(), gap) == 0,
{
}

proof fn lemma_cell_symmetric<B: Blosum>(a: Seq<AminoAcid>, b: Seq<AminoAcid>, i: int, j: int, gap: int)
    requires
        0 <= i,
        0 <= j,
    ensures
        nw_cell::<B>(a, b, i, j, gap) == nw_cell::<B>(b, a, j, i, gap),
    decreases i + j,
{
    if i > 0 && j > 0 {
        lemma_cell_symmetric::<B>(a, b, i - 1, j - 1, gap);
        lemma_cell_symmetric::<B>(a, b, i - 1, j, gap);
        lemma_cell_symmetric::<B>(a, b, i, j - 1, gap);
        B::lemma_score_symmetric(a[i - 1], b[j - 1]);
    }
}

/// The alignment score does not depend on which sequence comes first.
pub proof fn lemma_nw_symmetric<B: Blosum>(a: Seq<AminoAcid>, b: Seq<AminoAcid>, gap: int)
    ensures
        nw_score::<B>(a, b, gap) == nw_score::<B>(b, a, gap),
{
    lemma_cell_symmetric::<B>(a, b, a.len() as int, b.len() as int, gap);
}

/// Global alignment score under a substitution table, with the gap penalty
/// fixed at `GAP_PENALTY`.
pub trait Needleman: Blosum + Sized {
    fn needleman_wunsch(seq_a: &[AminoAcid], seq_b: &[AminoAcid]) -> (r: i32)
        requires
            alignment_fits(seq_a@.len() as int, seq_b@.len() as int, GAP_PENALTY as int),
        ensures
            r == nw_score::<Self>(seq_a@, seq_b@, GAP_PENALTY as int),
    ;
}

impl Needleman for Blosum62 {
    fn needleman_wunsch(seq_a: &[AminoAcid], seq_b: &[AminoAcid]) -> (r: i32) {
        align_dp_table(seq_a, seq_b, GAP_PENALTY, &Blosum62)
    }
}

impl Needleman for Blosum45 {
    fn needleman_wunsch(seq_a: &[AminoAcid], seq_b: &[AminoAcid]) -> (r: i32) {
        align_dp_table(seq_a, seq_b, GAP_PENALTY, &Blosum45)
    }
}

} // verus!
