use vstd::prelude::*;

use crate::amino::{amino_of, AminoAcid};

verus! {

/// A protein sequence: the amino acids of something like COX3, in order.
#[derive(Debug, Clone, PartialEq)]
pub struct Genome(Vec<AminoAcid>);

impl View for Genome {
    type V = Seq<AminoAcid>;

    closed spec fn view(&self) -> Seq<AminoAcid> {
        self.0@
    }
}

/// The sequence that a string of residue characters reads as.
pub open spec fn parse_seq(s: Seq<char>) -> Seq<AminoAcid> {
    s.map_values(|c: char| amino_of(c))
}

impl Genome {
    /// A genome of the given residues.
    pub fn new(residues: Vec<AminoAcid>) -> (g: Genome)
        ensures
            g@ == residues@,
    {
        Genome(residues)
    }

    /// The residues, in order.
    pub fn as_slice(&self) -> (r: &[AminoAcid])
        ensures
            r@ == self@,
    {
        self.0.as_slice()
    }

    /// Parses each character of `s`, in order.
    pub fn from_chars(s: &str) -> (g: Genome)
        ensures
            g@ == parse_seq(s@),
    {
        let mut v: Vec<AminoAcid> = Vec::new();
        let ghost mut seen: Seq<char> = Seq::empty();
        for c in it: s.chars()
            invariant
                it.seq() == s@,
                seen == it.seq().take(it.index() as int),
                v@ == parse_seq(seen),
        {
            proof {
                assert(it.seq().take(it.index() + 1) =~= seen.push(c));
                seen = seen.push(c);
            }
            v.push(AminoAcid::from(c));
            assert(v@ =~= parse_seq(seen));
        }
        assert(seen =~= s@);
        Genome(v)
    }
}

impl std::ops::Deref for Genome {
    type Target = Vec<AminoAcid>;

    fn deref(&self) -> &Vec<AminoAcid> {
        &self.0
    }
}

impl std::ops::DerefMut for Genome {
    fn deref_mut(&mut self) -> &mut Vec<AminoAcid> {
        &mut self.0
    }
}

} // verus!
