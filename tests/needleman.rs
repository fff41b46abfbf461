use phylogeny::amino::{parse_char, AminoAcid};
use phylogeny::blosum::{acid_to_index, score_for, Blosum, Blosum45, Blosum62, BLOSUM62_TABLE};
use phylogeny::genome::Genome;
use phylogeny::needleman::{align_dp_table, Needleman};

#[test]
fn needleman_wunsch_empty_sequences() {
    let seq1 = Genome::from_chars("");
    let seq2 = Genome::from_chars("");
    let score = Blosum62::needleman_wunsch(&seq1, &seq2);
    assert_eq!(score, 0);
}

#[test]
fn needleman_wunsch_one_empty_sequence() {
    let seq1 = Genome::from_chars("");
    let seq2 = Genome::from_chars("ARN");
    let score = Blosum62::needleman_wunsch(&seq1, &seq2);
    assert_eq!(score, -15);
}

#[test]
fn needleman_wunsch_single_char_match() {
    let seq1 = Genome::from_chars("A");
    let seq2 = Genome::from_chars("A");
    let score = Blosum62::needleman_wunsch(&seq1, &seq2);
    assert_eq!(score, 4);
}

#[test]
fn needleman_wunsch_single_char_mismatch() {
    let seq1 = Genome::from_chars("A");
    let seq2 = Genome::from_chars("R");
    let score = Blosum62::needleman_wunsch(&seq1, &seq2);
    assert_eq!(score, -1);
}

#[test]
fn needleman_wunsch_longer_sequence() {
    let seq1 = Genome::from_chars("PLEASANTLY");
    let seq2 = Genome::from_chars("MEANLY");
    let score = Blosum62::needleman_wunsch(&seq1, &seq2);
    assert_eq!(score, 8);
}

#[test]
fn needleman_wunsch_is_symmetric() {
    let seq1 = Genome::from_chars("MEANLY");
    let seq2 = Genome::from_chars("PLEASANTLY");
    assert_eq!(Blosum62::needleman_wunsch(&seq1, &seq2), 8);
    let x = Genome::from_chars("WWCAR");
    let y = Genome::from_chars("CRW");
    assert_eq!(Blosum62::needleman_wunsch(&x, &y), Blosum62::needleman_wunsch(&y, &x));
}

#[test]
fn needleman_wunsch_empty_second_sequence() {
    let seq1 = Genome::from_chars("ARND");
    let seq2 = Genome::from_chars("");
    assert_eq!(Blosum62::needleman_wunsch(&seq1, &seq2), -20);
}

#[test]
fn needleman_wunsch_blosum45() {
    let seq1 = Genome::from_chars("W");
    let seq2 = Genome::from_chars("W");
    assert_eq!(Blosum45::needleman_wunsch(&seq1, &seq2), 15);
    let a = Genome::from_chars("A");
    let r = Genome::from_chars("R");
    assert_eq!(Blosum45::needleman_wunsch(&a, &r), -2);
}

#[test]
fn parse_char_maps_alphabet() {
    assert_eq!(parse_char('A'), AminoAcid::Alanine);
    assert_eq!(parse_char('*'), AminoAcid::Stop);
    assert_eq!(parse_char('X'), AminoAcid::Unknown);
    assert_eq!(parse_char('B'), AminoAcid::Asx);
    assert_eq!(parse_char('a'), AminoAcid::Unknown);
    assert_eq!(parse_char('?'), AminoAcid::Unknown);
    assert_eq!(AminoAcid::from('V'), AminoAcid::Valine);
}

#[test]
fn genome_parses_each_character() {
    let g = Genome::from_chars("AR*z");
    assert_eq!(
        g.as_slice(),
        &[AminoAcid::Alanine, AminoAcid::Arginine, AminoAcid::Stop, AminoAcid::Unknown][..]
    );
    assert_eq!(g.len(), 4);
}

#[test]
fn table_lookup_matches_published_values() {
    assert_eq!(acid_to_index(AminoAcid::Alanine), 0);
    assert_eq!(acid_to_index(AminoAcid::Stop), 23);
    assert_eq!(score_for(&BLOSUM62_TABLE, AminoAcid::Tryptophan, AminoAcid::Tryptophan), 11);
    assert_eq!(score_for(&BLOSUM62_TABLE, AminoAcid::Alanine, AminoAcid::Arginine), -1);
    assert_eq!(score_for(&BLOSUM62_TABLE, AminoAcid::Arginine, AminoAcid::Alanine), -1);
    assert_eq!(score_for(&BLOSUM62_TABLE, AminoAcid::Stop, AminoAcid::Stop), 1);
    assert_eq!(score_for(&BLOSUM62_TABLE, AminoAcid::Cysteine, AminoAcid::Cysteine), 9);
    assert_eq!(Blosum62.score(AminoAcid::Asx, AminoAcid::AsparticAcid), 4);
    assert_eq!(Blosum62.score(AminoAcid::Tyrosine, AminoAcid::Phenylalanine), 3);
    assert_eq!(Blosum45.score(AminoAcid::Cysteine, AminoAcid::Cysteine), 12);
    assert_eq!(Blosum45.score(AminoAcid::Stop, AminoAcid::Alanine), -5);
}

const ORDER: &str = "ARNDCQEGHILKMFPSTWYVBZX*";

const FULL_BLOSUM62: [[i32; 24]; 24] = [
        [4, -1, -2, -2, 0, -1, -1, 0, -2, -1, -1, -1, -1, -2, -1, 1, 0, -3, -2, 0, -2, -1, 0, -4],
        [-1, 5, 0, -2, -3, 1, 0, -2, 0, -3, -2, 2, -1, -3, -2, -1, -1, -3, -2, -3, -1, 0, -1, -4],
        [-2, 0, 6, 1, -3, 0, 0, 0, 1, -3, -3, 0, -2, -3, -2, 1, 0, -4, -2, -3, 3, 0, -1, -4],
        [-2, -2, 1, 6, -3, 0, 2, -1, -1, -3, -4, -1, -3, -3, -1, 0, -1, -4, -3, -3, 4, 1, -1, -4],
        [0, -3, -3, -3, 9, -3, -4, -3, -3, -1, -1, -3, -1, -2, -3, -1, -1, -2, -2, -1, -3, -3, -2, -4],
        [-1, 1, 0, 0, -3, 5, 2, -2, 0, -3, -2, 1, 0, -3, -1, 0, -1, -2, -1, -2, 0, 3, -1, -4],
        [-1, 0, 0, 2, -4, 2, 5, -2, 0, -3, -3, 1, -2, -3, -1, 0, -1, -3, -2, -2, 1, 4, -1, -4],
        [0, -2, 0, -1, -3, -2, -2, 6, -2, -4, -4, -2, -3, -3, -2, 0, -2, -2, -3, -3, -1, -2, -1, -4],
        [-2, 0, 1, -1, -3, 0, 0, -2, 8, -3, -3, -1, -2, -1, -2, -1, -2, -2, 2, -3, 0, 0, -1, -4],
        [-1, -3, -3, -3, -1, -3, -3, -4, -3, 4, 2, -3, 1, 0, -3, -2, -1, -3, -1, 3, -3, -3, -1, -4],
        [-1, -2, -3, -4, -1, -2, -3, -4, -3, 2, 4, -2, 2, 0, -3, -2, -1, -2, -1, 1, -4, -3, -1, -4],
        [-1, 2, 0, -1, -3, 1, 1, -2, -1, -3, -2, 5, -1, -3, -1, 0, -1, -3, -2, -2, 0, 1, -1, -4],
        [-1, -1, -2, -3, -1, 0, -2, -3, -2, 1, 2, -1, 5, 0, -2, -1, -1, -1, -1, 1, -3, -1, -1, -4],
        [-2, -3, -3, -3, -2, -3, -3, -3, -1, 0, 0, -3, 0, 6, -4, -2, -2, 1, 3, -1, -3, -3, -1, -4],
        [-1, -2, -2, -1, -3, -1, -1, -2, -2, -3, -3, -1, -2, -4, 7, -1, -1, -4, -3, -2, -2, -1, -2, -4],
        [1, -1, 1, 0, -1, 0, 0, 0, -1, -2, -2, 0, -1, -2, -1, 4, 1, -3, -2, -2, 0, 0, 0, -4],
        [0, -1, 0, -1, -1, -1, -1, -2, -2, -1, -1, -1, -1, -2, -1, 1, 5, -2, -2, 0, -1, -1, 0, -4],
        [-3, -3, -4, -4, -2, -2, -3, -2, -2, -3, -2, -3, -1, 1, -4, -3, -2, 11, 2, -3, -4, -3, -2, -4],
        [-2, -2, -2, -3, -2, -1, -2, -3, 2, -1, -1, -2, -1, 3, -3, -2, -2, 2, 7, -1, -3, -2, -1, -4],
        [0, -3, -3, -3, -1, -2, -2, -3, -3, 3, 1, -2, 1, -1, -2, -2, 0, -3, -1, 4, -3, -2, -1, -4],
        [-2, -1, 3, 4, -3, 0, 1, -1, 0, -3, -4, 0, -3, -3, -2, 0, -1, -4, -3, -3, 4, 1, -1, -4],
        [-1, 0, 0, 1, -3, 3, 4, -2, 0, -3, -3, 1, -1, -3, -1, 0, -1, -3, -2, -2, 1, 4, -1, -4],
        [0, -1, -1, -1, -2, -1, -1, -1, -1, -1, -1, -1, -1, -1, -2, 0, 0, -2, -1, -1, -1, -1, -1, -4],
        [-4, -4, -4, -4, -4, -4, -4, -4, -4, -4, -4, -4, -4, -4, -4, -4, -4, -4, -4, -4, -4, -4, -4, 1],
];

#[test]
fn blosum62_lookup_covers_every_pair() {
    let acids: Vec<AminoAcid> = ORDER.chars().map(parse_char).collect();
    for (i, a) in acids.iter().enumerate() {
        assert_eq!(acid_to_index(*a), i);
        for (j, b) in acids.iter().enumerate() {
            assert_eq!(Blosum62.score(*a, *b), FULL_BLOSUM62[i][j]);
            assert_eq!(Blosum62.score(*a, *b), Blosum62.score(*b, *a));
            assert_eq!(Blosum45.score(*a, *b), Blosum45.score(*b, *a));
        }
    }
}

#[test]
fn needleman_wunsch_longest_against_empty() {
    let long = Genome::new(vec![AminoAcid::Glycine; 20_000_000]);
    let empty = Genome::from_chars("");
    assert_eq!(Blosum62::needleman_wunsch(&empty, &long), -100_000_000);
    assert_eq!(Blosum62::needleman_wunsch(&long, &empty), -100_000_000);
}

#[test]
fn align_dp_table_with_other_gap() {
    let a = Genome::from_chars("AW");
    let empty = Genome::from_chars("");
    assert_eq!(align_dp_table(&a, &empty, -7, &Blosum62), -14);
    assert_eq!(align_dp_table(&empty, &empty, -7, &Blosum45), 0);
    let w = Genome::from_chars("W");
    assert_eq!(align_dp_table(&a, &w, -1, &Blosum62), 10);
    assert_eq!(align_dp_table(&w, &a, -1, &Blosum62), 10);
}
