use percolation::{GridPoint, PercolationEngine, PercolationError};

fn engine(n: isize) -> PercolationEngine {
    match PercolationEngine::create(n) {
        Ok(engine) => engine,
        Err(e) => panic!("create({}) failed: {:?}", n, e),
    }
}

#[test]
fn fresh_engine_has_no_open_sites_and_does_not_percolate() {
    for n in 1..=6isize {
        let mut e = engine(n);
        assert_eq!(e.number_of_open_sites(), 0);
        assert!(!e.percolates());
        for row in 0..n {
            for col in 0..n {
                assert_eq!(e.is_open(row, col), Ok(false));
                assert_eq!(e.is_full(row, col), Ok(false));
            }
        }
    }
}

#[test]
fn create_rejects_sizes_below_one() {
    assert!(matches!(PercolationEngine::create(0), Err(PercolationError::InvalidSize)));
    assert!(matches!(PercolationEngine::create(-1), Err(PercolationError::InvalidSize)));
    assert!(matches!(PercolationEngine::create(isize::MIN), Err(PercolationError::InvalidSize)));
    assert!(PercolationEngine::create(1).is_ok());
}

#[test]
fn single_site_lattice_percolates_once_opened() {
    let mut e = engine(1);
    assert!(!e.percolates());
    assert_eq!(e.open(0, 0), Ok(()));
    assert!(e.percolates());
    assert_eq!(e.number_of_open_sites(), 1);
    assert_eq!(e.is_full(0, 0), Ok(true));
}

#[test]
fn middle_column_opened_top_to_bottom() {
    let mut e = engine(3);
    assert_eq!(e.open(0, 1), Ok(()));
    assert!(!e.percolates());
    assert_eq!(e.open(1, 1), Ok(()));
    assert!(!e.percolates());
    assert_eq!(e.open(2, 1), Ok(()));
    assert!(e.percolates());
    assert_eq!(e.number_of_open_sites(), 3);
}

#[test]
fn closed_middle_row_blocks_percolation() {
    let mut e = engine(3);
    assert_eq!(e.open(0, 0), Ok(()));
    assert_eq!(e.open(2, 0), Ok(()));
    assert!(!e.percolates());
    assert_eq!(e.is_full(2, 0), Ok(false));
    assert_eq!(e.is_full(0, 0), Ok(true));
    assert_eq!(e.number_of_open_sites(), 2);
}

#[test]
fn open_out_of_bounds_fails_and_changes_nothing() {
    let n = 3isize;
    let mut e = engine(n);
    assert_eq!(e.open(1, 1), Ok(()));
    let before = e.all_sites();
    assert_eq!(e.open(-1, 0), Err(PercolationError::OutOfBounds));
    assert_eq!(e.open(n, 0), Err(PercolationError::OutOfBounds));
    assert_eq!(e.open(0, -1), Err(PercolationError::OutOfBounds));
    assert_eq!(e.open(0, n), Err(PercolationError::OutOfBounds));
    assert_eq!(e.open(isize::MAX, isize::MIN), Err(PercolationError::OutOfBounds));
    assert_eq!(e.all_sites(), before);
    assert_eq!(e.number_of_open_sites(), 1);
    assert!(!e.percolates());
}

#[test]
fn queries_out_of_bounds_fail() {
    let mut e = engine(2);
    assert_eq!(e.is_open(-1, 0), Err(PercolationError::OutOfBounds));
    assert_eq!(e.is_open(0, 2), Err(PercolationError::OutOfBounds));
    assert_eq!(e.is_open(2, 0), Err(PercolationError::OutOfBounds));
    assert_eq!(e.is_full(-1, 0), Err(PercolationError::OutOfBounds));
    assert_eq!(e.is_full(0, 2), Err(PercolationError::OutOfBounds));
    assert_eq!(e.is_full(2, 1), Err(PercolationError::OutOfBounds));
    assert_eq!(e.is_open(1, 1), Ok(false));
}

#[test]
fn opening_twice_is_opening_once() {
    let mut once = engine(4);
    let mut twice = engine(4);
    for &(row, col) in &[(0isize, 2isize), (1, 2), (3, 0)] {
        assert_eq!(once.open(row, col), Ok(()));
        assert_eq!(twice.open(row, col), Ok(()));
        assert_eq!(twice.open(row, col), Ok(()));
    }
    assert_eq!(once.number_of_open_sites(), 3);
    assert_eq!(twice.number_of_open_sites(), 3);
    assert_eq!(once.all_sites(), twice.all_sites());
    assert_eq!(once.percolates(), twice.percolates());
    for row in 0..4isize {
        for col in 0..4isize {
            assert_eq!(once.is_full(row, col), twice.is_full(row, col));
        }
    }
}

#[test]
fn percolation_survives_further_opens() {
    let n = 4isize;
    let mut e = engine(n);
    for row in 0..n {
        assert_eq!(e.open(row, 3), Ok(()));
    }
    assert!(e.percolates());
    for row in 0..n {
        for col in 0..n {
            assert_eq!(e.open(row, col), Ok(()));
            assert!(e.percolates());
        }
    }
    assert_eq!(e.number_of_open_sites(), 16);
}

#[test]
fn diagonal_sites_are_not_neighbours() {
    let mut e = engine(3);
    assert_eq!(e.open(0, 0), Ok(()));
    assert_eq!(e.open(1, 1), Ok(()));
    assert_eq!(e.open(2, 2), Ok(()));
    assert!(!e.percolates());
    assert_eq!(e.is_full(1, 1), Ok(false));
    assert_eq!(e.open(1, 0), Ok(()));
    assert_eq!(e.is_full(1, 1), Ok(true));
    assert!(!e.percolates());
    assert_eq!(e.open(2, 1), Ok(()));
    assert!(e.percolates());
}

#[test]
fn winding_path_percolates() {
    let mut e = engine(4);
    let path = [(0isize, 0isize), (1, 0), (1, 1), (1, 2), (2, 2), (2, 3), (3, 3)];
    for (k, &(row, col)) in path.iter().enumerate() {
        assert!(!e.percolates());
        assert_eq!(e.open(row, col), Ok(()));
        assert_eq!(e.number_of_open_sites(), k + 1);
        assert_eq!(e.is_full(row, col), Ok(true));
    }
    assert!(e.percolates());
}

#[test]
fn closed_site_is_never_full() {
    let mut e = engine(2);
    assert_eq!(e.open(0, 0), Ok(()));
    assert_eq!(e.open(1, 0), Ok(()));
    assert!(e.percolates());
    assert_eq!(e.is_full(0, 1), Ok(false));
    assert_eq!(e.is_full(1, 1), Ok(false));
}

#[test]
fn bottom_row_site_counts_as_full_once_the_lattice_percolates() {
    let mut e = engine(3);
    assert_eq!(e.open(2, 2), Ok(()));
    assert_eq!(e.is_full(2, 2), Ok(false));
    for row in 0..3isize {
        assert_eq!(e.open(row, 0), Ok(()));
    }
    assert!(e.percolates());
    assert_eq!(e.is_full(2, 2), Ok(true));
    assert_eq!(e.is_open(2, 1), Ok(false));
    assert_eq!(e.is_full(2, 1), Ok(false));
}

#[test]
fn all_sites_lists_every_site_row_after_row() {
    let mut e = engine(2);
    assert_eq!(e.open(0, 1), Ok(()));
    let sites = e.all_sites();
    assert_eq!(
        sites,
        vec![
            GridPoint { x: 0, y: 0, occupied: false },
            GridPoint { x: 1, y: 0, occupied: true },
            GridPoint { x: 0, y: 1, occupied: false },
            GridPoint { x: 1, y: 1, occupied: false },
        ]
    );
    assert_eq!(e.open(1, 0), Ok(()));
    let sites = e.all_sites();
    assert_eq!(sites[2], GridPoint { x: 0, y: 1, occupied: true });
    assert_eq!(sites.len(), 4);
}

#[test]
fn snapshot_holds_the_records_of_the_moment() {
    let mut e = engine(3);
    assert_eq!(e.open(1, 2), Ok(()));
    let universe = e.snapshot();
    assert_eq!(e.open(0, 0), Ok(()));
    assert_eq!(universe.all_points().len(), 9);
    assert_eq!(universe.all_points()[5], GridPoint { x: 2, y: 1, occupied: true });
    assert_eq!(universe.all_points()[0], GridPoint { x: 0, y: 0, occupied: false });
    assert_eq!(e.all_sites()[0], GridPoint { x: 0, y: 0, occupied: true });
}

#[test]
fn open_count_follows_the_open_sites() {
    let n = 5isize;
    let mut e = engine(n);
    let mut expected = 0usize;
    for k in 0..(n * n) {
        let row = (k * 7) % n;
        let col = (k * 3 + k / n) % n;
        let was_open = e.is_open(row, col) == Ok(true);
        assert_eq!(e.open(row, col), Ok(()));
        if !was_open {
            expected += 1;
        }
        assert_eq!(e.number_of_open_sites(), expected);
        let listed = e.all_sites().iter().filter(|p| p.occupied).count();
        assert_eq!(listed, expected);
    }
}

fn reachable_from_top(open: &[Vec<bool>]) -> Vec<Vec<bool>> {
    let n = open.len();
    let mut seen = vec![vec![false; n]; n];
    let mut stack: Vec<(usize, usize)> = Vec::new();
    for col in 0..n {
        if open[0][col] {
            seen[0][col] = true;
            stack.push((0, col));
        }
    }
    while let Some((row, col)) = stack.pop() {
        let mut next: Vec<(usize, usize)> = Vec::new();
        if row > 0 {
            next.push((row - 1, col));
        }
        if row + 1 < n {
            next.push((row + 1, col));
        }
        if col > 0 {
            next.push((row, col - 1));
        }
        if col + 1 < n {
            next.push((row, col + 1));
        }
        for (r, c) in next {
            if open[r][c] && !seen[r][c] {
                seen[r][c] = true;
                stack.push((r, c));
            }
        }
    }
    seen
}

#[test]
fn percolation_agrees_with_a_search_of_the_lattice() {
    for seed in 1..=20u64 {
        let n = 6usize;
        let mut e = engine(n as isize);
        let mut open = vec![vec![false; n]; n];
        let mut state = seed.wrapping_mul(0x9E37_79B9_7F4A_7C15);
        for _ in 0..(n * n) {
            state = state.wrapping_mul(6364136223846793005).wrapping_add(1442695040888963407);
            let row = ((state >> 33) % n as u64) as usize;
            state = state.wrapping_mul(6364136223846793005).wrapping_add(1442695040888963407);
            let col = ((state >> 33) % n as u64) as usize;
            assert_eq!(e.open(row as isize, col as isize), Ok(()));
            open[row][col] = true;
            let seen = reachable_from_top(&open);
            let spans = (0..n).any(|c| seen[n - 1][c]);
            assert_eq!(e.percolates(), spans);
            if !spans {
                for r in 0..n {
                    for c in 0..n {
                        assert_eq!(e.is_full(r as isize, c as isize), Ok(seen[r][c]));
                    }
                }
            } else {
                for r in 0..n {
                    for c in 0..n {
                        if seen[r][c] {
                            assert_eq!(e.is_full(r as isize, c as isize), Ok(true));
                        }
                        if !open[r][c] {
                            assert_eq!(e.is_full(r as isize, c as isize), Ok(false));
                        }
                    }
                }
            }
        }
    }
}
