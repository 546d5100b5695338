use percolation::percolation::Percolation;

#[test]
fn single_site_percolates_once_opened() {
    let mut p = Percolation::new(1);
    assert!(p.percolates());
    assert!(!p.is_open(1, 1));
    p.open(1, 1);
    assert!(p.is_open(1, 1));
    assert!(p.percolates());
    assert_eq!(p.number_of_open_sites(), 1);
}

#[test]
fn index_of_counts_rows_then_columns() {
    let p = Percolation::new(4);
    assert_eq!(p.size(), 4);
    assert_eq!(p.index_of(1, 1), 0);
    assert_eq!(p.index_of(1, 4), 3);
    assert_eq!(p.index_of(2, 1), 4);
    assert_eq!(p.index_of(4, 4), 15);
}

#[test]
fn lone_site_counts_as_open() {
    let mut p = Percolation::new(3);
    p.open(2, 2);
    assert!(p.is_open(2, 2));
    assert!(!p.is_open(1, 2));
    assert!(!p.is_full(2, 2));
}

#[test]
fn opening_twice_counts_once() {
    let mut p = Percolation::new(3);
    p.open(2, 2);
    p.open(2, 2);
    assert_eq!(p.number_of_open_sites(), 1);
}

#[test]
fn top_row_sites_are_full_from_the_start() {
    let mut p = Percolation::new(3);
    assert!(p.is_full(1, 1));
    assert!(p.is_full(1, 3));
    assert!(!p.is_full(3, 1));
    p.open(1, 1);
    assert!(p.is_full(1, 1));
    assert!(!p.percolates());
}

#[test]
fn opening_above_an_open_site_joins_it() {
    let mut p = Percolation::new(2);
    p.open(2, 1);
    assert!(!p.percolates());
    p.open(1, 1);
    assert!(p.percolates());
}

#[test]
fn diagonal_sites_do_not_percolate() {
    let mut p = Percolation::new(2);
    p.open(1, 1);
    p.open(2, 2);
    assert!(!p.percolates());
    p.open(1, 2);
    assert!(p.percolates());
    assert!(p.is_full(2, 2));
    assert!(p.is_full(2, 1));
}

#[test]
fn column_path_percolates() {
    let mut p = Percolation::new(3);
    p.open(1, 2);
    p.open(3, 2);
    assert!(!p.percolates());
    assert!(!p.is_full(3, 2));
    p.open(2, 2);
    assert!(p.is_full(2, 2));
    assert!(p.is_full(3, 2));
    assert!(p.percolates());
    assert_eq!(p.number_of_open_sites(), 3);
}

#[test]
fn downward_neighbour_is_joined() {
    let mut p = Percolation::new(4);
    p.open(3, 1);
    p.open(4, 1);
    p.open(2, 1);
    p.open(1, 1);
    assert!(p.is_full(3, 1));
    assert!(p.percolates());
}

#[test]
fn bent_path_percolates() {
    let mut p = Percolation::new(3);
    p.open(1, 1);
    p.open(2, 1);
    p.open(2, 2);
    p.open(2, 3);
    assert!(!p.percolates());
    p.open(3, 3);
    assert!(p.percolates());
    assert!(p.is_full(3, 1));
}
