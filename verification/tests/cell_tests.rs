use mazes::cell::Cell;

#[test]
fn test_new_cell() {
    let cell = Cell::new(0, 0);

    assert_eq!(cell.row(), 0);
    assert_eq!(cell.column(), 0);
    assert!(cell.links().is_empty());
}

#[test]
fn cell_test_new_cell() {
    let cell = Cell::new(0, 0);

    assert_eq!(cell.row(), 0);
    assert_eq!(cell.column(), 0);
    assert!(cell.links().is_empty());
}

#[test]
fn test_link_cells() {
    let mut cell1 = Cell::new(0, 0);

    cell1.link((1, 1));

    assert!(cell1.links().contains(&(1, 1)));
}

#[test]
fn cell_test_link_cells() {
    let mut cell1 = Cell::new(0, 0);

    cell1.link((1, 1));

    assert!(cell1.links().contains(&(1, 1)));
}

#[test]
fn test_unlink() {
    let mut cell1 = Cell::new(0, 0);

    cell1.link((1, 1));
    cell1.unlink((1, 1));

    assert!(!cell1.links().contains(&(1, 1)));
}

#[test]
fn cell_test_unlink() {
    let mut cell1 = Cell::new(0, 0);

    cell1.link((1, 1));
    cell1.unlink((1, 1));

    assert!(!cell1.links().contains(&(1, 1)));
}

#[test]
fn test_links() {
    let mut cell1 = Cell::new(0, 0);

    cell1.link((1, 1));

    assert_eq!(cell1.links(), &vec![(1, 1)]);
}

#[test]
fn cell_test_links() {
    let mut cell1 = Cell::new(0, 0);

    cell1.link((1, 1));

    assert_eq!(cell1.links(), &vec![(1, 1)]);
}

#[test]
fn test_neighbors() {
    let mut cell = Cell::new(1, 1);
    let north = (0, 1);
    let south = (2, 1);
    let west = (1, 0);
    let east = (2, 2);

    cell.set_north(Some(north));
    cell.set_south(Some(south));
    cell.set_west(Some(west));
    cell.set_east(Some(east));

    assert_eq!(cell.neighbors(), vec![north, south, west, east]);
}

#[test]
fn cell_test_neighbors() {
    let mut cell = Cell::new(1, 1);
    let north = (0, 1);
    let south = (2, 1);
    let west = (1, 0);
    let east = (2, 2);

    cell.set_north(Some(north));
    cell.set_south(Some(south));
    cell.set_west(Some(west));
    cell.set_east(Some(east));

    assert_eq!(cell.neighbors(), vec![north, south, west, east]);
}

#[test]
fn test_link_is_idempotent() {
    let mut cell = mazes::cell::Cell::new(0, 0);

    cell.link((0, 1));
    cell.link((0, 1));

    assert_eq!(cell.links(), &vec![(0, 1)]);
}
