use mazes::grid::Grid;
use mazes::grid::MazeError;
use mazes::random::RandomSource;

#[test]
fn test_new_grid() {
    let rows = 3;
    let columns = 3;
    let grid = Grid::new(rows, columns);

    assert_eq!(grid.rows(), rows);
    assert_eq!(grid.columns(), columns);

    for row in 0..rows {
        for column in 0..columns {
            let cell = grid.cell(row, column).unwrap();

            if row > 0 {
                assert_eq!(cell.north(), Some((row - 1, column)));
            }

            if row < rows - 1 {
                assert_eq!(cell.south(), Some((row + 1, column)));
            }

            if column > 0 {
                assert_eq!(cell.west(), Some((row, column - 1)));
            }

            if column < columns - 1 {
                assert_eq!(cell.east(), Some((row, column + 1)));
            }
        }
    }
}

#[test]
fn grid_test_new_grid() {
    let rows = 3;
    let columns = 3;
    let grid = Grid::new(rows, columns);

    assert_eq!(grid.rows(), rows);
    assert_eq!(grid.columns(), columns);

    for row in 0..rows {
        for column in 0..columns {
            let cell = grid.cell(row, column).unwrap();

            if row > 0 {
                assert_eq!(cell.north(), Some((row - 1, column)));
            }

            if row < rows - 1 {
                assert_eq!(cell.south(), Some((row + 1, column)));
            }

            if column > 0 {
                assert_eq!(cell.west(), Some((row, column - 1)));
            }

            if column < columns - 1 {
                assert_eq!(cell.east(), Some((row, column + 1)));
            }
        }
    }
}

#[test]
fn test_get_cell_valid() {
    let rows = 3;
    let columns = 3;
    let grid = Grid::new(rows, columns);

    for row in 0..rows {
        for column in 0..columns {
            let cell = grid.cell(row, column);

            assert!(cell.is_some());
            assert_eq!(cell.unwrap().row(), row);
            assert_eq!(cell.unwrap().column(), column);
        }
    }
}

#[test]
fn grid_test_get_cell_valid() {
    let rows = 3;
    let columns = 3;
    let grid = Grid::new(rows, columns);

    for row in 0..rows {
        for column in 0..columns {
            let cell = grid.cell(row, column).unwrap();

            assert_eq!(cell.row(), row);
            assert_eq!(cell.column(), column);
        }
    }
}

#[test]
fn test_get_cell_invalid() {
    let rows = 3;
    let columns = 3;
    let grid = Grid::new(rows, columns);

    let invalid_row = -1;
    let invalid_column = columns + 1;

    let invalid_cell = grid.cell(invalid_row, invalid_column);

    assert!(invalid_cell.is_none());
}

#[test]
fn grid_test_get_cell_invalid() {
    let rows = 3;
    let columns = 3;
    let grid = Grid::new(rows, columns);

    let invalid_row = -1;
    let invalid_column = columns + 1;

    let invalid_cell = grid.cell(invalid_row, invalid_column);

    assert!(invalid_cell.is_none());
}

#[test]
fn test_iter() {
    let rows = 3;
    let columns = 3;
    let grid = Grid::new(rows, columns);

    let coords = grid.iter();
    let mut iter = coords.iter();

    for row in 0..rows {
        for column in 0..columns {
            let cell = iter.next();

            assert!(cell.is_some());
            assert_eq!(cell.unwrap().0, row);
            assert_eq!(cell.unwrap().1, column);
        }
    }

    assert!(iter.next().is_none());
}

#[test]
fn test_iter_mut() {
    let rows = 3;
    let columns = 3;
    let grid = Grid::new(rows, columns);

    let coords = grid.iter();
    let mut iter = coords.iter();

    for row in 0..rows {
        for column in 0..columns {
            let cell = iter.next().unwrap();

            assert_eq!(cell.0, row);
            assert_eq!(cell.1, column);
        }
    }

    assert!(iter.next().is_none());
}

#[test]
fn test_create_rejects_bad_dimensions() {
    assert_eq!(Grid::create(0, 5).err(), Some(MazeError::InvalidDimensions));
    assert_eq!(Grid::create(5, 0).err(), Some(MazeError::InvalidDimensions));
    assert_eq!(Grid::create(-2, 3).err(), Some(MazeError::InvalidDimensions));
    assert!(Grid::create(3, 4).is_ok());
}

#[test]
fn test_link_is_symmetric_and_undone_by_unlink() {
    let mut grid = Grid::new(2, 2);

    grid.link((0, 0), (0, 1));

    assert!(grid.has_link((0, 0), (0, 1)));
    assert!(grid.has_link((0, 1), (0, 0)));

    grid.unlink((0, 0), (0, 1));

    assert!(!grid.has_link((0, 0), (0, 1)));
    assert!(!grid.has_link((0, 1), (0, 0)));
}

#[test]
fn test_random_cell_stays_on_grid() {
    let grid = Grid::new(4, 7);
    let mut rng = RandomSource::external();

    for _ in 0..50 {
        let (r, c) = grid.random_cell(&mut rng).unwrap();
        assert!(r >= 0 && r < 4);
        assert!(c >= 0 && c < 7);
    }
}

#[test]
fn test_utils_random_pickers() {
    let grid = Grid::new(3, 3);
    let mut rng = RandomSource::external();

    for _ in 0..20 {
        let (r, c) = mazes::utils::random_cell(&grid, &mut rng);
        assert!(r >= 0 && r < 3);
        assert!(c >= 0 && c < 3);
    }

    let neighbors = vec![(0, 1), (1, 0)];
    for _ in 0..20 {
        let pick = mazes::utils::random_neighbor(&grid, &neighbors, &mut rng);
        assert!(neighbors.contains(&pick));
    }
}

#[test]
fn test_grid_link_is_idempotent() {
    let mut grid = Grid::new(2, 2);

    grid.link((0, 0), (1, 0));
    grid.link((0, 0), (1, 0));
    grid.link((1, 0), (0, 0));

    assert_eq!(grid.cell(0, 0).unwrap().links(), &vec![(1, 0)]);
    assert_eq!(grid.cell(1, 0).unwrap().links(), &vec![(0, 0)]);
}
