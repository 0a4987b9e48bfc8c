use percolation::PercolationError;
use percolation::WeightedUnionFind;

#[test]
fn empty_universe_is_rejected() {
    assert!(matches!(WeightedUnionFind::new(0), Err(PercolationError::InvalidSize)));
    assert!(WeightedUnionFind::new(1).is_ok());
}

#[test]
fn fresh_elements_are_singletons() {
    let mut uf = WeightedUnionFind::new(5).unwrap();
    for i in 0..5 {
        assert_eq!(uf.find(i), i);
    }
    for i in 0..5 {
        for j in 0..5 {
            assert_eq!(uf.connected(i, j), i == j);
        }
    }
}

#[test]
fn union_merges_and_is_transitive() {
    let mut uf = WeightedUnionFind::new(6).unwrap();
    uf.union(0, 1);
    assert!(uf.connected(0, 1));
    assert!(uf.connected(1, 0));
    assert!(!uf.connected(0, 2));
    uf.union(1, 2);
    assert!(uf.connected(0, 2));
    assert_eq!(uf.find(0), uf.find(2));
    assert!(!uf.connected(3, 0));
    uf.union(4, 5);
    assert!(uf.connected(4, 5));
    assert!(!uf.connected(0, 4));
}

#[test]
fn union_of_connected_elements_changes_nothing() {
    let mut uf = WeightedUnionFind::new(4).unwrap();
    uf.union(0, 1);
    uf.union(2, 3);
    uf.union(0, 1);
    uf.union(1, 0);
    assert!(uf.connected(0, 1));
    assert!(uf.connected(2, 3));
    assert!(!uf.connected(1, 2));
}
