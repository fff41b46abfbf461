use vstd::prelude::*;

use crate::amino::AminoAcid;

verus! {

/// Number of residue codes, the side of every substitution table.
pub const ROWS: usize = 24;

/// Entries of a symmetric 24 x 24 table stored as its lower triangle,
/// row by row: row `i` holds the columns `0..=i`.
pub const TRIANGLE: usize = 300;

/// Row (and column) of a residue in every substitution table: the NCBI
/// order A R N D C Q E G H I L K M F P S T W Y V B Z X *.
pub open spec fn acid_index(acid: AminoAcid) -> int {
    match acid {
        AminoAcid::Alanine => 0,
        AminoAcid::Arginine => 1,
        AminoAcid::Asparagine => 2,
        AminoAcid::AsparticAcid => 3,
        AminoAcid::Cysteine => 4,
        AminoAcid::Glutamine => 5,
        AminoAcid::GlutamicAcid => 6,
        AminoAcid::Glycine => 7,
        AminoAcid::Histidine => 8,
        AminoAcid::Isoleucine => 9,
        AminoAcid::Leucine => 10,
        AminoAcid::Lysine => 11,
        AminoAcid::Methionine => 12,
        AminoAcid::Phenylalanine => 13,
        AminoAcid::Proline => 14,
        AminoAcid::Serine => 15,
        AminoAcid::Threonine => 16,
        AminoAcid::Tryptophan => 17,
        AminoAcid::Tyrosine => 18,
        AminoAcid::Valine => 19,
        AminoAcid::Asx => 20,
        AminoAcid::Glx => 21,
        AminoAcid::Unknown => 22,
        AminoAcid::Stop => 23,
    }
}

/// Position of the entry for row `i` and column `j` in a lower triangle.
/// It does not change when `i` and `j` trade places: the tables are symmetric.
pub open spec fn tri_index(i: int, j: int) -> int {
    if i >= j {
        i * (i + 1) / 2 + j
    } else {
        j * (j + 1) / 2 + i
    }
}

/// The substitution score of `a` against `b` in a table stored as a triangle.
pub open spec fn table_entry(matrix: Seq<i8>, a: AminoAcid, b: AminoAcid) -> i8 {
    matrix[tri_index(acid_index(a), acid_index(b))]
}

/// Row and column index of a residue in a substitution table.
pub fn acid_to_index(acid: AminoAcid) -> (r: usize)
    ensures
        r == acid_index(acid),
        r < ROWS,
{
    match acid {
        AminoAcid::Alanine => 0,
        AminoAcid::Arginine => 1,
        AminoAcid::Asparagine => 2,
        AminoAcid::AsparticAcid => 3,
        AminoAcid::Cysteine => 4,
        AminoAcid::Glutamine => 5,
        AminoAcid::GlutamicAcid => 6,
        AminoAcid::Glycine => 7,
        AminoAcid::Histidine => 8,
        AminoAcid::Isoleucine => 9,
        AminoAcid::Leucine => 10,
        AminoAcid::Lysine => 11,
        AminoAcid::Methionine => 12,
        AminoAcid::Phenylalanine => 13,
        AminoAcid::Proline => 14,
        AminoAcid::Serine => 15,
        AminoAcid::Threonine => 16,
        AminoAcid::Tryptophan => 17,
        AminoAcid::Tyrosine => 18,
        AminoAcid::Valine => 19,
        AminoAcid::Asx => 20,
        AminoAcid::Glx => 21,
        AminoAcid::Unknown => 22,
        AminoAcid::Stop => 23,
    }
}

proof fn lemma_tri_index_bounds(i: int, j: int)
    requires
        0 <= i < 24,
        0 <= j < 24,
    ensures
        0 <= tri_index(i, j) < TRIANGLE,
{
    let (hi, lo) = if i >= j { (i, j) } else { (j, i) };
    assert(0 <= hi * (hi + 1) <= 23 * 24) by (nonlinear_arith)
        requires
            0 <= hi < 24,
    ;
    assert(hi * (hi + 1) / 2 + lo < 300) by (nonlinear_arith)
        requires
            0 <= lo <= hi < 24,
            hi * (hi + 1) <= 23 * 24,
            0 <= hi * (hi + 1),
    ;
}

/// Looks up the score of `a` against `b` in a table stored as a triangle.
pub fn score_for(matrix: &[i8; 300], a: AminoAcid, b: AminoAcid) -> (r: i32)
    ensures
        r == table_entry(matrix@, a, b) as int,
{
    let i = acid_to_index(a);
    let j = acid_to_index(b);
    let (hi, lo) = if i >= j { (i, j) } else { (j, i) };
    proof {
        lemma_tri_index_bounds(i as int, j as int);
        assert(0 <= hi * (hi + 1) <= 23 * 24) by (nonlinear_arith)
            requires
                hi < 24,
        ;
    }
    let k: usize = hi * (hi + 1) / 2 + lo;
    assert(k as int == tri_index(i as int, j as int));
    matrix[k] as i32
}

/// A substitution table over the 24 residue codes.
pub trait Blosum {
    /// The table's score of `a` against `b`.
    spec fn spec_score(a: AminoAcid, b: AminoAcid) -> i8;

    /// Every substitution table is symmetric.
    proof fn lemma_score_symmetric(a: AminoAcid, b: AminoAcid)
        ensures
            Self::spec_score(a, b) == Self::spec_score(b, a),
    ;

    /// Returns the substitution score for two amino acids.
    fn score(&self, a: AminoAcid, b: AminoAcid) -> (r: i32)
        ensures
            r == Self::spec_score(a, b) as int,
    ;
}

/// The BLOSUM62 table (NCBI), lower triangle.
pub const BLOSUM62_TABLE: [i8; 300] = [
    4,
    -1, 5,
    -2, 0, 6,
    -2, -2, 1, 6,
    0, -3, -3, -3, 9,
    -1, 1, 0, 0, -3, 5,
    -1, 0, 0, 2, -4, 2, 5,
    0, -2, 0, -1, -3, -2, -2, 6,
    -2, 0, 1, -1, -3, 0, 0, -2, 8,
    -1, -3, -3, -3, -1, -3, -3, -4, -3, 4,
    -1, -2, -3, -4, -1, -2, -3, -4, -3, 2, 4,
    -1, 2, 0, -1, -3, 1, 1, -2, -1, -3, -2, 5,
    -1, -1, -2, -3, -1, 0, -2, -3, -2, 1, 2, -1, 5,
    -2, -3, -3, -3, -2, -3, -3, -3, -1, 0, 0, -3, 0, 6,
    -1, -2, -2, -1, -3, -1, -1, -2, -2, -3, -3, -1, -2, -4, 7,
    1, -1, 1, 0, -1, 0, 0, 0, -1, -2, -2, 0, -1, -2, -1, 4,
    0, -1, 0, -1, -1, -1, -1, -2, -2, -1, -1, -1, -1, -2, -1, 1, 5,
    -3, -3, -4, -4, -2, -2, -3, -2, -2, -3, -2, -3, -1, 1, -4, -3, -2, 11,
    -2, -2, -2, -3, -2, -1, -2, -3, 2, -1, -1, -2, -1, 3, -3, -2, -2, 2, 7,
    0, -3, -3, -3, -1, -2, -2, -3, -3, 3, 1, -2, 1, -1, -2, -2, 0, -3, -1, 4,
    -2, -1, 3, 4, -3, 0, 1, -1, 0, -3, -4, 0, -3, -3, -2, 0, -1, -4, -3, -3, 4,
    -1, 0, 0, 1, -3, 3, 4, -2, 0, -3, -3, 1, -1, -3, -1, 0, -1, -3, -2, -2, 1, 4,
    0, -1, -1, -1, -2, -1, -1, -1, -1, -1, -1, -1, -1, -1, -2, 0, 0, -2, -1, -1, -1, -1, -1,
    -4, -4, -4, -4, -4, -4, -4, -4, -4, -4, -4, -4, -4, -4, -4, -4, -4, -4, -4, -4, -4, -4, -4, 1,
];

/// The BLOSUM45 table (NCBI), lower triangle.
pub const BLOSUM45_TABLE: [i8; 300] = [
    5,
    -2, 7,
    -1, 0, 6,
    -2, -1, 2, 7,
    -1, -3, -2, -3, 12,
    -1, 1, 0, 0, -3, 6,
    -1, 0, 0, 2, -3, 2, 6,
    0, -2, 0, -1, -3, -2, -2, 7,
    -2, 0, 1, 0, -3, 1, 0, -2, 10,
    -1, -3, -2, -4, -3, -2, -3, -4, -3, 5,
    -1, -2, -3, -3, -2, -2, -2, -3, -2, 2, 5,
    -1, 3, 0, 0, -3, 1, 1, -2, -1, -3, -3, 5,
    -1, -1, -2, -3, -2, 0, -2, -2, 0, 2, 2, -1, 6,
    -2, -2, -2, -4, -2, -4, -3, -3, -2, 0, 1, -3, 0, 8,
    -1, -2, -2, -1, -4, -1, 0, -2, -2, -2, -3, -1, -2, -3, 9,
    1, -1, 1, 0, -1, 0, 0, 0, -1, -2, -3, -1, -2, -2, -1, 4,
    0, -1, 0, -1, -1, -1, -1, -2, -2, -1, -1, -1, -1, -1, -1, 2, 5,
    -2, -2, -4, -4, -5, -2, -3, -2, -3, -2, -2, -2, -2, 1, -3, -4, -3, 15,
    -2, -1, -2, -2, -3, -1, -2, -3, 2, 0, 0, -1, 0, 3, -3, -2, -1, 3, 8,
    0, -2, -3, -3, -1, -3, -3, -3, -3, 3, 1, -2, 1, 0, -3, -1, 0, -3, -1, 5,
    -1, -1, 4, 5, -2, 0, 1, -1, 0, -3, -3, 0, -2, -3, -2, 0, 0, -4, -2, -3, 4,
    -1, 0, 0, 1, -3, 4, 4, -2, 0, -3, -2, 1, -1, -3, -1, 0, -1, -2, -2, -3, 2, 4,
    0, -1, -1, -1, -2, -1, -1, -1, -1, -1, -1, -1, -1, -1, -1, 0, 0, -2, -1, -1, -1, -1, -1,
    -5, -5, -5, -5, -5, -5, -5, -5, -5, -5, -5, -5, -5, -5, -5, -5, -5, -5, -5, -5, -5, -5, -5, 1,
];

/// The BLOSUM62 substitution table.
#[derive(Debug, Clone, Copy, PartialEq, Eq, Default)]
pub struct Blosum62;

/// The BLOSUM45 substitution table.
#[derive(Debug, Clone, Copy, PartialEq, Eq, Default)]
pub struct Blosum45;

impl Blosum for Blosum62 {
    open spec fn spec_score(a: AminoAcid, b: AminoAcid) -> i8 {
        table_entry(BLOSUM62_TABLE@, a, b)
    }

    proof fn lemma_score_symmetric(a: AminoAcid, b: AminoAcid) {
    }

    fn score(&self, a: AminoAcid, b: AminoAcid) -> (r: i32) {
        score_for(&BLOSUM62_TABLE, a, b)
    }
}

impl Blosum for Blosum45 {
    open spec fn spec_score(a: AminoAcid, b: AminoAcid) -> i8 {
        table_entry(BLOSUM45_TABLE@, a, b)
    }

    proof fn lemma_score_symmetric(a: AminoAcid, b: AminoAcid) {
    }

    fn score(&self, a: AminoAcid, b: AminoAcid) -> (r: i32) {
        score_for(&BLOSUM45_TABLE, a, b)
    }
}

} // verus!
