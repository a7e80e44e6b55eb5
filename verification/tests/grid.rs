use percolation::{Grid, GridPoint, PercolationError, Universe};

fn grid(n: isize) -> Grid {
    match Grid::new(n) {
        Ok(grid) => grid,
        Err(e) => panic!("Grid::new({}) failed: {:?}", n, e),
    }
}

#[test]
fn grid_rejects_sizes_below_one() {
    assert!(matches!(Grid::new(0), Err(PercolationError::InvalidSize)));
    assert!(matches!(Grid::new(-7), Err(PercolationError::InvalidSize)));
    assert!(Grid::new(1).is_ok());
}

#[test]
fn new_grid_is_all_closed() {
    let g = grid(4);
    assert_eq!(g.size(), 4);
    for row in 0..4isize {
        for col in 0..4isize {
            assert_eq!(g.is_open(row, col), Ok(false));
        }
    }
    assert_eq!(g.all_sites().len(), 16);
    assert!(g.all_sites().iter().all(|p| !p.occupied));
}

#[test]
fn to_index_is_row_times_side_plus_column() {
    let g = grid(4);
    assert_eq!(g.to_index(0, 0), Ok(0));
    assert_eq!(g.to_index(0, 3), Ok(3));
    assert_eq!(g.to_index(1, 0), Ok(4));
    assert_eq!(g.to_index(2, 3), Ok(11));
    assert_eq!(g.to_index(3, 3), Ok(15));
}

#[test]
fn to_coord_reads_row_and_column_off_the_index() {
    let g = grid(4);
    assert_eq!(g.to_coord(0), Ok((0, 0)));
    assert_eq!(g.to_coord(3), Ok((0, 3)));
    assert_eq!(g.to_coord(4), Ok((1, 0)));
    assert_eq!(g.to_coord(11), Ok((2, 3)));
    assert_eq!(g.to_coord(15), Ok((3, 3)));
}

#[test]
fn index_and_coordinates_are_inverse() {
    for n in 1..=7isize {
        let g = grid(n);
        let mut expected = 0usize;
        for row in 0..n {
            for col in 0..n {
                assert_eq!(g.to_index(row, col), Ok(expected));
                assert_eq!(g.to_coord(expected), Ok((row, col)));
                expected += 1;
            }
        }
        assert_eq!(expected, (n * n) as usize);
    }
}

#[test]
fn index_out_of_bounds_fails() {
    let g = grid(3);
    assert_eq!(g.to_index(-1, 0), Err(PercolationError::OutOfBounds));
    assert_eq!(g.to_index(0, -1), Err(PercolationError::OutOfBounds));
    assert_eq!(g.to_index(3, 0), Err(PercolationError::OutOfBounds));
    assert_eq!(g.to_index(0, 3), Err(PercolationError::OutOfBounds));
    assert_eq!(g.to_coord(9), Err(PercolationError::OutOfBounds));
    assert_eq!(g.to_coord(usize::MAX), Err(PercolationError::OutOfBounds));
    assert_eq!(g.to_coord(8), Ok((2, 2)));
}

#[test]
fn set_open_opens_one_site() {
    let mut g = grid(3);
    assert_eq!(g.set_open(1, 2), Ok(()));
    for row in 0..3isize {
        for col in 0..3isize {
            assert_eq!(g.is_open(row, col), Ok(row == 1 && col == 2));
        }
    }
}

#[test]
fn set_open_twice_is_no_error() {
    let mut g = grid(2);
    assert_eq!(g.set_open(0, 1), Ok(()));
    let once = g.all_sites();
    assert_eq!(g.set_open(0, 1), Ok(()));
    assert_eq!(g.all_sites(), once);
    assert_eq!(g.is_open(0, 1), Ok(true));
}

#[test]
fn grid_access_out_of_bounds_fails() {
    let mut g = grid(2);
    assert_eq!(g.is_open(2, 0), Err(PercolationError::OutOfBounds));
    assert_eq!(g.is_open(0, -1), Err(PercolationError::OutOfBounds));
    assert_eq!(g.set_open(-1, 0), Err(PercolationError::OutOfBounds));
    assert_eq!(g.set_open(0, 2), Err(PercolationError::OutOfBounds));
    assert!(g.all_sites().iter().all(|p| !p.occupied));
}

#[test]
fn grid_lists_sites_with_column_as_x_and_row_as_y() {
    let mut g = grid(3);
    assert_eq!(g.set_open(2, 1), Ok(()));
    let sites = g.all_sites();
    assert_eq!(sites.len(), 9);
    for (index, point) in sites.iter().enumerate() {
        assert_eq!(point.x, (index % 3) as isize);
        assert_eq!(point.y, (index / 3) as isize);
        assert_eq!(point.occupied, index == 7);
    }
}

#[test]
fn new_grid_point_is_closed() {
    let p = GridPoint::new(3, -4);
    assert_eq!(p.x, 3);
    assert_eq!(p.y, -4);
    assert!(!p.occupied);
    assert_eq!(p, GridPoint { x: 3, y: -4, occupied: false });
}

#[test]
fn universe_hands_back_its_points_in_order() {
    let points = vec![
        GridPoint { x: 0, y: 0, occupied: true },
        GridPoint { x: 1, y: 0, occupied: false },
    ];
    let universe = Universe::new(points.clone());
    assert_eq!(universe.all_points(), &points);
}
