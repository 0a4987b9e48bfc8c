use percolation::PercolationError;
use percolation::Percolation;

#[test]
fn fresh_grid_is_empty() {
    let mut g = Percolation::new(3, 3).unwrap();
    assert_eq!(g.number_of_open_sites(), 0);
    assert!(!g.percolates());
    for row in 1..=3 {
        for col in 1..=3 {
            assert_eq!(g.is_open(row, col), Ok(false));
            assert_eq!(g.is_full(row, col), Ok(false));
        }
    }
    assert_eq!(g.get_rows(), 3);
    assert_eq!(g.get_cols(), 3);
}

#[test]
fn invalid_size_is_rejected() {
    assert!(matches!(Percolation::new(0, 5), Err(PercolationError::InvalidSize)));
    assert!(matches!(Percolation::new(5, 0), Err(PercolationError::InvalidSize)));
    assert!(matches!(Percolation::new(0, 0), Err(PercolationError::InvalidSize)));
    assert!(Percolation::new(1, 1).is_ok());
}

#[test]
fn open_is_idempotent() {
    let mut g = Percolation::new(3, 3).unwrap();
    assert_eq!(g.open(2, 2), Ok(()));
    assert_eq!(g.number_of_open_sites(), 1);
    assert_eq!(g.is_open(2, 2), Ok(true));
    let percolates_once = g.percolates();
    assert_eq!(g.open(2, 2), Ok(()));
    assert_eq!(g.number_of_open_sites(), 1);
    assert_eq!(g.is_open(2, 2), Ok(true));
    assert_eq!(g.percolates(), percolates_once);
}

#[test]
fn percolation_is_monotonic() {
    let mut g = Percolation::new(3, 3).unwrap();
    assert_eq!(g.open(1, 1), Ok(()));
    assert_eq!(g.open(2, 1), Ok(()));
    assert_eq!(g.open(3, 1), Ok(()));
    assert!(g.percolates());
    assert_eq!(g.open(2, 2), Ok(()));
    assert!(g.percolates());
    assert_eq!(g.open(3, 3), Ok(()));
    assert!(g.percolates());
    assert_eq!(g.open(1, 3), Ok(()));
    assert!(g.percolates());
}

#[test]
fn fullness_implies_openness() {
    let mut g = Percolation::new(3, 3).unwrap();
    assert_eq!(g.open(1, 1), Ok(()));
    assert_eq!(g.open(2, 1), Ok(()));
    assert_eq!(g.open(3, 2), Ok(()));
    for row in 1..=3 {
        for col in 1..=3 {
            if g.is_full(row, col).unwrap() {
                assert_eq!(g.is_open(row, col), Ok(true));
            }
        }
    }
}

#[test]
fn no_backwash_single_column() {
    let mut g = Percolation::new(3, 1).unwrap();
    assert_eq!(g.open(3, 1), Ok(()));
    assert_eq!(g.is_open(3, 1), Ok(true));
    assert_eq!(g.is_full(3, 1), Ok(false));
    assert!(!g.percolates());
    assert_eq!(g.open(1, 1), Ok(()));
    assert_eq!(g.is_full(1, 1), Ok(true));
    assert_eq!(g.is_full(3, 1), Ok(false));
    assert!(!g.percolates());
    assert_eq!(g.open(2, 1), Ok(()));
    assert_eq!(g.is_full(3, 1), Ok(true));
    assert!(g.percolates());
}

#[test]
fn no_backwash_after_percolation() {
    let mut g = Percolation::new(3, 3).unwrap();
    assert_eq!(g.open(1, 1), Ok(()));
    assert_eq!(g.open(2, 1), Ok(()));
    assert_eq!(g.open(3, 1), Ok(()));
    assert!(g.percolates());
    // (3, 3) sits on the bottom edge but has no open path from the top: a
    // single shared structure would report it full through the virtual
    // bottom; the dual structure must not.
    assert_eq!(g.open(3, 3), Ok(()));
    assert_eq!(g.is_open(3, 3), Ok(true));
    assert_eq!(g.is_full(3, 3), Ok(false));
    assert!(g.percolates());
}

#[test]
fn scenario_one_by_one() {
    let mut g = Percolation::new(1, 1).unwrap();
    assert!(!g.percolates());
    assert_eq!(g.open(1, 1), Ok(()));
    assert!(g.percolates());
    assert_eq!(g.is_full(1, 1), Ok(true));
    assert_eq!(g.number_of_open_sites(), 1);
}

#[test]
fn scenario_first_column() {
    let mut g = Percolation::new(3, 3).unwrap();
    assert_eq!(g.open(1, 1), Ok(()));
    assert!(!g.percolates());
    assert_eq!(g.open(2, 1), Ok(()));
    assert!(!g.percolates());
    assert_eq!(g.open(3, 1), Ok(()));
    assert!(g.percolates());
    assert_eq!(g.is_full(2, 1), Ok(true));
    assert_eq!(g.is_full(1, 1), Ok(true));
    assert_eq!(g.is_full(3, 1), Ok(true));
    assert_eq!(g.number_of_open_sites(), 3);
}

#[test]
fn scenario_diagonal() {
    let mut g = Percolation::new(2, 2).unwrap();
    assert_eq!(g.open(1, 1), Ok(()));
    assert_eq!(g.open(2, 2), Ok(()));
    assert!(!g.percolates());
    assert_eq!(g.is_full(1, 1), Ok(true));
    assert_eq!(g.is_full(2, 2), Ok(false));
    assert_eq!(g.number_of_open_sites(), 2);
}

#[test]
fn out_of_range_is_rejected() {
    let mut g = Percolation::new(5, 5).unwrap();
    assert_eq!(g.open(6, 1), Err(PercolationError::OutOfRange));
    assert_eq!(g.open(0, 1), Err(PercolationError::OutOfRange));
    assert_eq!(g.open(1, 6), Err(PercolationError::OutOfRange));
    assert_eq!(g.is_open(6, 1), Err(PercolationError::OutOfRange));
    assert_eq!(g.is_open(1, 0), Err(PercolationError::OutOfRange));
    assert_eq!(g.is_full(0, 1), Err(PercolationError::OutOfRange));
    assert_eq!(g.is_full(1, 6), Err(PercolationError::OutOfRange));
    assert_eq!(g.number_of_open_sites(), 0);
}

#[test]
fn replay_is_deterministic() {
    let sequence = [(1, 2), (2, 2), (2, 2), (2, 3), (3, 3), (1, 4), (4, 3), (2, 1)];
    let mut a = Percolation::new(4, 4).unwrap();
    let mut b = Percolation::new(4, 4).unwrap();
    for &(row, col) in sequence.iter() {
        assert_eq!(a.open(row, col), b.open(row, col));
        assert_eq!(a.number_of_open_sites(), b.number_of_open_sites());
        assert_eq!(a.percolates(), b.percolates());
        for r in 1..=4 {
            for c in 1..=4 {
                assert_eq!(a.is_open(r, c), b.is_open(r, c));
                assert_eq!(a.is_full(r, c), b.is_full(r, c));
            }
        }
    }
}

#[test]
fn rectangular_grids() {
    let mut wide = Percolation::new(2, 3).unwrap();
    assert_eq!(wide.get_rows(), 2);
    assert_eq!(wide.get_cols(), 3);
    assert_eq!(wide.open(1, 2), Ok(()));
    assert!(!wide.percolates());
    assert_eq!(wide.open(2, 2), Ok(()));
    assert!(wide.percolates());

    let mut tall = Percolation::new(3, 2).unwrap();
    assert_eq!(tall.open(1, 2), Ok(()));
    assert_eq!(tall.open(2, 2), Ok(()));
    assert!(!tall.percolates());
    assert_eq!(tall.open(3, 2), Ok(()));
    assert!(tall.percolates());
}

#[test]
fn one_row_grid_percolates_at_first_open() {
    let mut g = Percolation::new(1, 4).unwrap();
    assert!(!g.percolates());
    assert_eq!(g.open(1, 2), Ok(()));
    assert!(g.percolates());
    assert_eq!(g.is_full(1, 2), Ok(true));
    assert_eq!(g.is_full(1, 1), Ok(false));
    assert_eq!(g.number_of_open_sites(), 1);
}

#[test]
fn count_ignores_repeated_and_rejected_opens() {
    let mut g = Percolation::new(2, 2).unwrap();
    assert_eq!(g.open(1, 1), Ok(()));
    assert_eq!(g.open(1, 1), Ok(()));
    assert_eq!(g.open(1, 2), Ok(()));
    assert_eq!(g.open(3, 1), Err(PercolationError::OutOfRange));
    assert_eq!(g.number_of_open_sites(), 2);
}
