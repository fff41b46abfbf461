use phylogeny::cluster::Cluster;
use phylogeny::genome::Genome;
use phylogeny::blosum::Blosum62;
use phylogeny::kruskal::{cluster_edges, Kruskal, Species};
use phylogeny::needleman::Needleman;

fn nine_species() -> Vec<Species> {
    vec![
        Species::new("Species A".into(), Genome::from_chars("ARND")),
        Species::new("Species B".into(), Genome::from_chars("ARNE")),
        Species::new("Species C".into(), Genome::from_chars("ARNS")),
        Species::new("Species D".into(), Genome::from_chars("RRDD")),
        Species::new("Species E".into(), Genome::from_chars("RRDS")),
        Species::new("Species F".into(), Genome::from_chars("RRDA")),
        Species::new("Species G".into(), Genome::from_chars("ARDD")),
        Species::new("Species H".into(), Genome::from_chars("ARDS")),
        Species::new("Species I".into(), Genome::from_chars("RRNS")),
    ]
}

fn leaves(t: &Cluster<String>, out: &mut Vec<String>) {
    match t {
        Cluster::Leaf(name) => out.push(name.clone()),
        Cluster::Node { left, right, .. } => {
            leaves(left, out);
            leaves(right, out);
        }
    }
}

fn similarities(t: &Cluster<String>, out: &mut Vec<i32>) {
    if let Cluster::Node { left, right, similarity } = t {
        out.push(*similarity);
        similarities(left, out);
        similarities(right, out);
    }
}

fn monotone(t: &Cluster<String>) -> bool {
    match t {
        Cluster::Leaf(_) => true,
        Cluster::Node { left, right, similarity } => {
            let below = |c: &Cluster<String>| match c {
                Cluster::Leaf(_) => true,
                Cluster::Node { similarity: s, .. } => s >= similarity,
            };
            below(left) && below(right) && monotone(left) && monotone(right)
        }
    }
}

#[test]
fn cluster() {
    let species = nine_species();
    let dendrogram = species.cluster();
    assert!(dendrogram.is_some());
}

#[test]
fn cluster_nine_species_shape() {
    let tree = nine_species().cluster().unwrap();
    let mut names = Vec::new();
    leaves(&tree, &mut names);
    names.sort();
    let expected: Vec<String> = "ABCDEFGHI".chars().map(|c| format!("Species {}", c)).collect();
    assert_eq!(names, expected);
    let mut sims = Vec::new();
    similarities(&tree, &mut sims);
    assert_eq!(sims.len(), 8);
    assert!(monotone(&tree));
}

#[test]
fn cluster_empty_is_none() {
    let species: Vec<Species> = Vec::new();
    assert!(species.cluster().is_none());
}

#[test]
fn cluster_single_is_leaf() {
    let species = vec![Species::new("Only".into(), Genome::from_chars("ARN"))];
    assert_eq!(species.cluster(), Some(Cluster::Leaf("Only".to_string())));
}

#[test]
fn cluster_two_species_scores_their_alignment() {
    let species = vec![
        Species::new("P".into(), Genome::from_chars("PLEASANTLY")),
        Species::new("M".into(), Genome::from_chars("MEANLY")),
    ];
    match species.cluster() {
        Some(Cluster::Node { similarity, .. }) => assert_eq!(similarity, 8),
        other => panic!("expected a node, got {:?}", other),
    }
}

#[test]
fn cluster_keeps_duplicate_names() {
    let species = vec![
        Species::new("X".into(), Genome::from_chars("AAAA")),
        Species::new("X".into(), Genome::from_chars("AAAW")),
        Species::new("Y".into(), Genome::from_chars("WWWW")),
    ];
    let tree = species.cluster().unwrap();
    let mut names = Vec::new();
    leaves(&tree, &mut names);
    names.sort();
    assert_eq!(names, vec!["X".to_string(), "X".to_string(), "Y".to_string()]);
}

#[test]
fn cluster_is_deterministic() {
    assert_eq!(nine_species().cluster(), nine_species().cluster());
}

#[test]
fn cluster_score_multiset_ignores_input_order() {
    let mut first = Vec::new();
    similarities(&nine_species().cluster().unwrap(), &mut first);
    let mut reversed = nine_species();
    reversed.reverse();
    let mut second = Vec::new();
    similarities(&reversed.cluster().unwrap(), &mut second);
    first.sort();
    second.sort();
    assert_eq!(first, second);
}

#[test]
fn cluster_edges_merges_largest_first() {
    let names = vec!["a".to_string(), "b".to_string(), "c".to_string()];
    let edges = vec![(0, 1, 3), (0, 2, 9), (1, 2, 5)];
    let tree = cluster_edges(names, edges).unwrap();
    match tree {
        Cluster::Node { left, right, similarity } => {
            assert_eq!(similarity, 5);
            let inner = match (*left, *right) {
                (Cluster::Node { similarity, .. }, Cluster::Leaf(l)) => (similarity, l),
                (Cluster::Leaf(l), Cluster::Node { similarity, .. }) => (similarity, l),
                _ => panic!("expected one leaf and one node"),
            };
            assert_eq!(inner, (9, "b".to_string()));
        }
        Cluster::Leaf(_) => panic!("expected a node"),
    }
}

#[test]
fn species_part_returns_fields() {
    let (name, genome) = Species::new("Q".into(), Genome::from_chars("QQ")).part();
    assert_eq!(name, "Q");
    assert_eq!(genome.len(), 2);
}

fn linkage_holds(t: &Cluster<String>, genome_of: &dyn Fn(&str) -> Genome) -> bool {
    match t {
        Cluster::Leaf(_) => true,
        Cluster::Node { left, right, similarity } => {
            let mut l = Vec::new();
            let mut r = Vec::new();
            leaves(left, &mut l);
            leaves(right, &mut r);
            let mut best = i32::MIN;
            for a in &l {
                for b in &r {
                    let s = Blosum62::needleman_wunsch(&genome_of(a), &genome_of(b));
                    best = best.max(s);
                }
            }
            best == *similarity && linkage_holds(left, genome_of) && linkage_holds(right, genome_of)
        }
    }
}

#[test]
fn cluster_scores_are_single_linkage() {
    let seqs = ["ARND", "ARNE", "ARNS", "RRDD", "RRDS", "RRDA", "ARDD", "ARDS", "RRNS"];
    let genome_of = |name: &str| {
        let idx = (name.as_bytes()[name.len() - 1] - b'A') as usize;
        Genome::from_chars(seqs[idx])
    };
    let tree = nine_species().cluster().unwrap();
    assert!(linkage_holds(&tree, &genome_of));
}

#[test]
fn cluster_clone_is_equal() {
    let tree = nine_species().cluster().unwrap();
    let copy = tree.clone();
    assert_eq!(copy, tree);
}
