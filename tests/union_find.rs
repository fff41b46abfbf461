use phylogeny::union_find::{ClusterId, UnionFind};

#[test]
fn new_every_element_is_its_own_root() {
    let mut uf = UnionFind::new(5);
    for i in 0..5 {
        let id = ClusterId(i);
        assert_eq!(uf.find(id), id);
    }
}

#[test]
fn union_connects_two_elements() {
    let mut uf = UnionFind::new(3);
    let a = ClusterId(0);
    let b = ClusterId(1);
    assert_ne!(uf.find(a), uf.find(b));
    assert!(uf.union(a, b));
    let ra = uf.find(a);
    let rb = uf.find(b);
    assert_eq!(ra, rb);
}

#[test]
fn union_returns_false_when_already_connected() {
    let mut uf = UnionFind::new(4);
    let x = ClusterId(2);
    let y = ClusterId(3);
    assert!(uf.union(x, y));
    assert!(!uf.union(x, y));
    let z = ClusterId(1);
    assert!(uf.union(y, z));
    assert!(!uf.union(x, z));
}

#[test]
fn transitive_union_merges_multiple_sets() {
    let mut uf = UnionFind::new(5);
    let a = ClusterId(0);
    let b = ClusterId(1);
    let c = ClusterId(2);
    assert!(uf.union(a, b));
    assert_eq!(uf.find(a), uf.find(b));
    assert_ne!(uf.find(a), uf.find(c));
    assert!(uf.union(b, c));
    let root = uf.find(a);
    assert_eq!(root, uf.find(b));
    assert_eq!(root, uf.find(c));
}

#[test]
fn disjoint_sets_remain_separate() {
    let mut uf = UnionFind::new(6);
    let a = ClusterId(0);
    let b = ClusterId(1);
    let c = ClusterId(2);
    let d = ClusterId(3);
    assert!(uf.union(a, b));
    assert!(uf.union(c, d));
    assert_ne!(uf.find(a), uf.find(c));
    assert_ne!(uf.find(b), uf.find(d));
}

#[test]
fn find_is_idempotent() {
    let mut uf = UnionFind::new(6);
    assert!(uf.union(ClusterId(0), ClusterId(1)));
    assert!(uf.union(ClusterId(2), ClusterId(1)));
    for i in 0..6 {
        let r = uf.find(ClusterId(i));
        assert_eq!(uf.find(r), r);
    }
}

fn partition(uf: &mut UnionFind, n: usize) -> Vec<Vec<bool>> {
    let mut rows = Vec::new();
    for x in 0..n {
        let mut row = Vec::new();
        for y in 0..n {
            row.push(uf.find(ClusterId(x)) == uf.find(ClusterId(y)));
        }
        rows.push(row);
    }
    rows
}

#[test]
fn union_is_commutative_in_effect() {
    let mut left = UnionFind::new(6);
    let mut right = UnionFind::new(6);
    assert!(left.union(ClusterId(0), ClusterId(1)));
    assert!(right.union(ClusterId(0), ClusterId(1)));
    assert!(left.union(ClusterId(4), ClusterId(1)));
    assert!(right.union(ClusterId(1), ClusterId(4)));
    assert_eq!(partition(&mut left, 6), partition(&mut right, 6));
}

#[test]
fn union_sizes_pick_larger_root() {
    let mut uf = UnionFind::new(4);
    assert!(uf.union(ClusterId(0), ClusterId(1)));
    assert!(uf.union(ClusterId(2), ClusterId(0)));
    assert!(uf.union(ClusterId(3), ClusterId(2)));
    let r = uf.find(ClusterId(3));
    for i in 0..4 {
        assert_eq!(uf.find(ClusterId(i)), r);
    }
}

#[test]
fn union_tie_keeps_first_root() {
    let mut uf = UnionFind::new(4);
    assert!(uf.union(ClusterId(2), ClusterId(3)));
    assert_eq!(uf.find(ClusterId(3)), ClusterId(2));
    assert!(uf.union(ClusterId(1), ClusterId(3)));
    assert_eq!(uf.find(ClusterId(1)), ClusterId(2));
}
