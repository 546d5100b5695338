use percolation::union_find::{UfError, UF};

fn make(n: usize) -> UF {
    UF::new(n).unwrap()
}

#[test]
fn zero_size_is_rejected() {
    assert!(matches!(UF::new(0), Err(UfError::EmptySize)));
}

#[test]
fn fresh_sets_are_singletons() {
    let uf = make(6);
    assert_eq!(uf.len(), 6);
    for p in 0..6 {
        assert_eq!(uf.root(p), p);
        for q in 0..6 {
            assert_eq!(uf.connected(p, q), p == q);
        }
    }
}

#[test]
fn weighted_scenario() {
    let mut uf = make(10);
    uf.union(4, 1);
    uf.union(6, 8);
    uf.union(0, 9);
    uf.union(0, 7);
    uf.union(5, 7);
    uf.union(3, 5);
    uf.union(4, 6);
    uf.union(1, 0);
    uf.union(9, 2);
    assert_eq!(true, uf.connected(4, 1));
    assert_eq!(true, uf.connected(6, 8));
    assert_eq!(true, uf.connected(7, 5));
}

#[test]
fn scenario_without_third_union() {
    let mut uf = make(10);
    for (p, q) in [(4, 1), (6, 8), (0, 9), (0, 7), (5, 7), (4, 6), (1, 0), (9, 2)] {
        uf.union(p, q);
    }
    assert!(uf.connected(4, 1));
    assert!(uf.connected(6, 8));
    assert!(uf.connected(7, 5));
    assert!(!uf.connected(3, 4));
}

#[test]
fn short_chain_scenario() {
    let mut uf = make(10);
    uf.union(4, 5);
    uf.union(6, 7);
    uf.union(4, 6);
    assert_eq!(true, uf.connected(4, 5));
    assert_eq!(true, uf.connected(1, 1));
    assert_eq!(true, uf.connected(7, 4));
    assert_eq!(false, uf.connected(2, 5));
}

#[test]
fn merging_scenario() {
    let mut uf = make(10);
    uf.union(9, 3);
    uf.union(9, 8);
    uf.union(5, 8);
    uf.union(7, 1);
    uf.union(2, 8);
    uf.union(8, 0);
    assert!(uf.connected(9, 3));
    assert!(uf.connected(5, 8));
    assert!(uf.connected(2, 5));
    assert!(!uf.connected(7, 9));
}

#[test]
fn tie_hangs_second_root_under_first() {
    let mut uf = make(10);
    uf.union(4, 5);
    assert_eq!(uf.root(5), 4);
    assert_eq!(uf.root(4), 4);
}

#[test]
fn smaller_tree_goes_under_larger() {
    let mut uf = make(4);
    uf.union(0, 1);
    uf.union(2, 0);
    assert_eq!(uf.root(2), 0);
    assert_eq!(uf.root(1), 0);
    uf.union(3, 3);
    assert_eq!(uf.root(3), 3);
}

#[test]
fn connectivity_is_kept_by_later_unions() {
    let mut uf = make(8);
    uf.union(1, 2);
    assert!(uf.connected(1, 2));
    uf.union(3, 4);
    uf.union(5, 1);
    uf.union(4, 6);
    assert!(uf.connected(1, 2));
    assert!(uf.connected(2, 5));
    assert!(uf.connected(3, 6));
}

#[test]
fn union_order_does_not_change_connectivity() {
    let mut a = make(7);
    let mut b = make(7);
    a.union(0, 1);
    b.union(0, 1);
    a.union(2, 1);
    b.union(1, 2);
    a.union(5, 6);
    b.union(6, 5);
    for p in 0..7 {
        for q in 0..7 {
            assert_eq!(a.connected(p, q), b.connected(p, q));
        }
    }
}

#[test]
fn repeated_union_changes_nothing() {
    let mut a = make(6);
    let mut b = make(6);
    a.union(2, 4);
    b.union(2, 4);
    b.union(2, 4);
    for p in 0..6 {
        assert_eq!(a.root(p), b.root(p));
        for q in 0..6 {
            assert_eq!(a.connected(p, q), b.connected(p, q));
        }
    }
}

#[test]
fn connectivity_is_transitive() {
    let mut uf = make(5);
    uf.union(0, 1);
    uf.union(1, 2);
    assert!(uf.connected(0, 1));
    assert!(uf.connected(1, 2));
    assert!(uf.connected(0, 2));
}

#[test]
fn arrays_show_parents_and_sizes() {
    let mut uf = make(4);
    uf.union(1, 3);
    assert_eq!(uf.parent_vec(), vec![0, 1, 2, 1]);
    assert_eq!(uf.size_vec(), vec![1, 2, 1, 1]);
}
