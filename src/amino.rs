use vstd::prelude::*;

verus! {

/// The 24 residue codes, in the order of the substitution tables:
/// the twenty standard amino acids, the ambiguity codes B and Z,
/// the unknown code X and the stop marker `*`.
#[derive(Debug, Clone, Copy, PartialEq, Eq, Hash, Structural)]
pub enum AminoAcid {
    Alanine,  // A
    Arginine,  // R
    Asparagine,  // N
    AsparticAcid,  // D
    Cysteine,  // C
    Glutamine,  // Q
    GlutamicAcid,  // E
    Glycine,  // G
    Histidine,  // H
    Isoleucine,  // I
    Leucine,  // L
    Lysine,  // K
    Methionine,  // M
    Phenylalanine,  // F
    Proline,  // P
    Serine,  // S
    Threonine,  // T
    Tryptophan,  // W
    Tyrosine,  // Y
    Valine,  // V
    Asx,  // B (aspartic acid or asparagine)
    Glx,  // Z (glutamic acid or glutamine)
    Unknown,  // X (unknown or unimportant)
    Stop,  // * (stop codon)
}

/// The residue that a character names; any character outside the alphabet
/// (lower case included) is `Unknown`.
pub open spec fn amino_of(c: char) -> AminoAcid {
    match c {
        'A' => AminoAcid::Alanine,
        'R' => AminoAcid::Arginine,
        'N' => AminoAcid::Asparagine,
        'D' => AminoAcid::AsparticAcid,
        'C' => AminoAcid::Cysteine,
        'Q' => AminoAcid::Glutamine,
        'E' => AminoAcid::GlutamicAcid,
        'G' => AminoAcid::Glycine,
        'H' => AminoAcid::Histidine,
        'I' => AminoAcid::Isoleucine,
        'L' => AminoAcid::Leucine,
        'K' => AminoAcid::Lysine,
        'M' => AminoAcid::Methionine,
        'F' => AminoAcid::Phenylalanine,
        'P' => AminoAcid::Proline,
        'S' => AminoAcid::Serine,
        'T' => AminoAcid::Threonine,
        'W' => AminoAcid::Tryptophan,
        'Y' => AminoAcid::Tyrosine,
        'V' => AminoAcid::Valine,
        'B' => AminoAcid::Asx,
        'Z' => AminoAcid::Glx,
        'X' => AminoAcid::Unknown,
        '*' => AminoAcid::Stop,
        _ => AminoAcid::Unknown,
    }
}

impl From<char> for AminoAcid {
    fn from(c: char) -> Self {
        match c {
            'A' => AminoAcid::Alanine,
            'R' => AminoAcid::Arginine,
            'N' => AminoAcid::Asparagine,
            'D' => AminoAcid::AsparticAcid,
            'C' => AminoAcid::Cysteine,
            'Q' => AminoAcid::Glutamine,
            'E' => AminoAcid::GlutamicAcid,
            'G' => AminoAcid::Glycine,
            'H' => AminoAcid::Histidine,
            'I' => AminoAcid::Isoleucine,
            'L' => AminoAcid::Leucine,
            'K' => AminoAcid::Lysine,
            'M' => AminoAcid::Methionine,
            'F' => AminoAcid::Phenylalanine,
            'P' => AminoAcid::Proline,
            'S' => AminoAcid::Serine,
            'T' => AminoAcid::Threonine,
            'W' => AminoAcid::Tryptophan,
            'Y' => AminoAcid::Tyrosine,
            'V' => AminoAcid::Valine,
            'B' => AminoAcid::Asx,
            'Z' => AminoAcid::Glx,
            'X' => AminoAcid::Unknown,
            '*' => AminoAcid::Stop,
            _ => AminoAcid::Unknown,
        }
    }
}

impl vstd::std_specs::convert::FromSpecImpl<char> for AminoAcid {
    open spec fn obeys_from_spec() -> bool {
        true
    }

    open spec fn from_spec(c: char) -> Self {
        amino_of(c)
    }
}

/// Parses one character; total and case-sensitive.
pub fn parse_char(c: char) -> (r: AminoAcid)
    ensures
        r == amino_of(c),
{
    AminoAcid::from(c)
}

} // verus!
