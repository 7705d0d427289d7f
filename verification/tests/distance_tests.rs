use mazes::algorithms::Algorithms;
use mazes::algorithms::Apply;
use mazes::algorithms::On;
use mazes::aldous_broder::AldousBroder;
use mazes::binary_tree::BinaryTree;
use mazes::distance_grid::DistanceGrid;
use mazes::distances::Distances;
use mazes::grid::Grid;
use mazes::hunt_and_kill::HuntAndKill;
use mazes::random::RandomSource;
use mazes::recursive_backtracker::RecursiveBacktracker;
use mazes::sidewinder::Sidewinder;
use mazes::wilsons::Wilsons;

#[test]
fn test_new() {
    let root = (0, 0);
    let distances = Distances::new(root);

    assert_eq!(distances.root(), root);
    assert_eq!(distances.get(root), Some(0));
    assert_eq!(distances.get((0, 1)), None);
}

#[test]
fn test_set() {
    let mut distances = Distances::new((0, 0));
    distances.set((0, 1), 1);

    assert_eq!(distances.get((0, 1)).unwrap(), 1);
}

#[test]
fn test_calculate() {
    let mut grid = Grid::new(3, 3);
    let binary_tree = BinaryTree::new();
    let mut rng = RandomSource::external();
    binary_tree.on(&mut grid, &mut rng);

    let mut distances = Distances::new((0, 0));
    distances.calculate((0, 0), &grid);

    // Verify the distances for specific cells
    assert_eq!(distances.get((0, 0)).unwrap(), 0);
    assert_eq!(distances.get((0, 1)).unwrap(), 1);
    assert_eq!(distances.get((0, 2)).unwrap(), 2);

    // Verify the total number of cells in the distances collection
    let mut reached = 0;
    for r in 0..3 {
        for c in 0..3 {
            if distances.get((r, c)).is_some() {
                reached += 1;
            }
        }
    }
    assert_eq!(reached, 9);
}

#[test]
fn test_path_to() {
    let mut grid = Grid::new(3, 3);
    let binary_tree = BinaryTree::new();
    let mut rng = RandomSource::external();
    binary_tree.on(&mut grid, &mut rng);

    let mut distances = Distances::new((0, 0));
    distances.calculate((0, 0), &grid);
    distances.path_to((2, 2), &grid);

    assert_eq!(distances.get((0, 0)), Some(0));
}

#[test]
fn test_max() {
    let root = (0, 0);
    let mut distances = Distances::new(root);
    distances.set((1, 0), 1);
    distances.set((2, 0), 2);
    distances.set((3, 0), 3);

    let max_distance = distances.max_distance();

    assert_eq!(max_distance.value(), 3);
    assert_eq!(max_distance.cell(), (3, 0));
}

#[test]
fn test_root_distance_is_zero() {
    let mut grid = Grid::new(4, 4);
    let mut rng = RandomSource::seeded(5);
    BinaryTree::new().on(&mut grid, &mut rng);

    for root in [(0, 0), (2, 3), (3, 1)] {
        let mut distances = Distances::new(root);
        distances.calculate(root, &grid);
        assert_eq!(distances.get(root), Some(0));
    }
}

#[test]
fn test_linked_pairs_differ_by_one() {
    let mut grid = Grid::new(4, 4);
    let mut rng = RandomSource::external();
    BinaryTree::new().on(&mut grid, &mut rng);

    let mut distances = Distances::new((0, 0));
    distances.calculate((0, 0), &grid);

    for (r, c) in grid.iter() {
        let da = distances.get((r, c)).unwrap();
        for other in grid.cell(r, c).unwrap().links() {
            let db = distances.get(*other).unwrap();
            let gap = if da > db { da - db } else { db - da };
            assert_eq!(gap, 1);
        }
    }
}

#[test]
fn test_path_runs_from_root_to_goal() {
    let mut grid = Grid::new(4, 4);
    let mut rng = RandomSource::external();
    BinaryTree::new().on(&mut grid, &mut rng);

    let mut distances = Distances::new((0, 0));
    distances.calculate((0, 0), &grid);

    let goal = (3, 3);
    let path = distances.path_to(goal, &grid).unwrap();

    assert_eq!(path[0], (0, 0));
    assert_eq!(*path.last().unwrap(), goal);
    assert_eq!(path.len(), distances.get(goal).unwrap() + 1);

    for (i, step) in path.iter().enumerate() {
        assert_eq!(distances.get(*step), Some(i));
    }
    for window in path.windows(2) {
        assert!(grid.has_link(window[0], window[1]));
    }
}

#[test]
fn test_path_absent_exactly_when_goal_unreached() {
    // no passages at all: only the root is ever reached
    let grid = Grid::new(3, 3);
    let mut distances = Distances::new((0, 0));
    distances.calculate((0, 0), &grid);

    assert!(distances.get((2, 2)).is_none());
    assert!(distances.path_to((2, 2), &grid).is_none());

    assert!(distances.get((0, 0)).is_some());
    let trivial = distances.path_to((0, 0), &grid).unwrap();
    assert_eq!(trivial, vec![(0, 0)]);
}

#[test]
fn test_max_distance_breaks_ties_toward_the_north_west() {
    let mut distances = Distances::new((0, 0));
    distances.set((2, 1), 4);
    distances.set((1, 3), 4);
    distances.set((1, 2), 4);
    distances.set((0, 5), 2);

    let max_distance = distances.max_distance();

    assert_eq!(max_distance.value(), 4);
    assert_eq!(max_distance.cell(), (1, 2));
}

#[test]
fn test_max_distance_names_a_reached_value() {
    let mut grid = Grid::new(4, 4);
    let mut rng = RandomSource::seeded(9);
    BinaryTree::new().on(&mut grid, &mut rng);

    let mut distances = Distances::new((0, 0));
    distances.calculate((0, 0), &grid);

    let max = distances.max_distance().value();
    let mut seen_max = false;
    for (r, c) in grid.iter() {
        let d = distances.get((r, c)).unwrap();
        assert!(d <= max);
        if d == max {
            seen_max = true;
        }
    }
    assert!(seen_max);
}

#[test]
fn test_new_distance_grid() {
    let rows = 3;
    let columns = 3;
    let distance_grid = DistanceGrid::new(rows, columns);

    assert_eq!(distance_grid.rows(), 3);
    assert_eq!(distance_grid.columns(), 3);
    assert_eq!(distance_grid.distances().get((0, 0)), Some(0));
    assert_eq!(distance_grid.distances().root(), (0, 0));
}

#[test]
fn test_distance_grid_compute() {
    let mut distance_grid = DistanceGrid::new(3, 3);
    distance_grid.compute();

    // nothing carved: only the corner is reached, at distance zero
    assert_eq!(distance_grid.distances().get((0, 0)), Some(0));
    assert_eq!(distance_grid.distances().get((1, 1)), None);
}

#[test]
fn test_every_algorithm_reaches_every_cell() {
    let strategies = vec![
        Algorithms::BinaryTree(BinaryTree::new()),
        Algorithms::Sidewinder(Sidewinder::new()),
        Algorithms::AldousBroder(AldousBroder::new()),
        Algorithms::Wilsons(Wilsons::new()),
        Algorithms::HuntAndKill(HuntAndKill::new()),
        Algorithms::RecursiveBacktracker(RecursiveBacktracker::new()),
    ];

    for strategy in strategies {
        let mut grid = Grid::new(4, 4);
        let mut rng = RandomSource::external();
        strategy.apply(&mut grid, &mut rng);

        let mut distances = Distances::new((0, 0));
        distances.calculate((0, 0), &grid);

        for (r, c) in grid.iter() {
            assert!(distances.get((r, c)).is_some());
        }
    }
}
