use mazes::algorithms::Algorithms;
use mazes::algorithms::Apply;
use mazes::algorithms::On;
use mazes::aldous_broder::AldousBroder;
use mazes::binary_tree::BinaryTree;
use mazes::grid::Grid;
use mazes::hunt_and_kill::HuntAndKill;
use mazes::random::RandomSource;
use mazes::recursive_backtracker::RecursiveBacktracker;
use mazes::sidewinder::Sidewinder;
use mazes::wilsons::Wilsons;

fn doubled_edge_count(grid: &Grid) -> usize {
    let mut total = 0;
    for (r, c) in grid.iter() {
        total += grid.cell(r, c).unwrap().links().len();
    }
    total
}

fn all_cells_linked(grid: &Grid) -> bool {
    grid.iter()
        .into_iter()
        .all(|(r, c)| !grid.cell(r, c).unwrap().links().is_empty())
}

fn link_pairs(grid: &Grid) -> Vec<((i32, i32), (i32, i32))> {
    let mut pairs = vec![];
    for (r, c) in grid.iter() {
        for other in grid.cell(r, c).unwrap().links() {
            pairs.push(((r, c), *other));
        }
    }
    pairs
}

#[test]
fn test_binary_tree_on() {
    let mut grid = Grid::new(3, 3);
    let mut rng = RandomSource::external();

    BinaryTree::new().on(&mut grid, &mut rng);

    // Verify that each cell is linked to either its north or east neighbor
    for (r, c) in grid.iter() {
        let cell = grid.cell(r, c).unwrap();
        let links = cell.links();

        if cell.north().is_some() {
            assert!(
                links.contains(&(cell.row() - 1, cell.column()))
                    || links.contains(&(cell.row(), cell.column() + 1))
            );
        }

        if cell.east().is_some() {
            assert!(
                links.contains(&(cell.row() - 1, cell.column()))
                    || links.contains(&(cell.row(), cell.column() + 1))
            );
        }
    }
}

#[test]
fn test_aldoous_broder() {
    let mut grid = Grid::new(5, 5);
    let aldous_broder = AldousBroder::new();
    let mut rng = RandomSource::external();

    aldous_broder.on(&mut grid, &mut rng);

    assert_eq!(grid.rows(), 5);
    assert_eq!(grid.columns(), 5);

    for (r, c) in grid.iter() {
        assert!(!grid.cell(r, c).unwrap().links().is_empty());
    }
}

#[test]
fn test_wilsons_on() {
    let mut grid = Grid::new(3, 3);
    let wilsons = Wilsons::new();
    let mut rng = RandomSource::external();

    wilsons.on(&mut grid, &mut rng);

    // Assert that all cells are linked
    for (r, c) in grid.iter() {
        assert!(!grid.cell(r, c).unwrap().links().is_empty());
    }
}

#[test]
fn test_hunt_and_kill() {
    let mut grid = Grid::new(5, 5);
    let hunt_and_kill = HuntAndKill::new();
    let mut rng = RandomSource::external();

    hunt_and_kill.on(&mut grid, &mut rng);

    // Assert that all cells are linked
    for (r, c) in grid.iter() {
        assert!(!grid.cell(r, c).unwrap().links().is_empty());
    }
}

#[test]
fn test_recursive_backtracker() {
    let mut grid = Grid::new(5, 5);
    let recursive_backtracker = RecursiveBacktracker::new();
    let mut rng = RandomSource::external();

    recursive_backtracker.on(&mut grid, &mut rng);

    // Assert that all cells are linked
    for (r, c) in grid.iter() {
        assert!(!grid.cell(r, c).unwrap().links().is_empty());
    }
}

#[test]
fn test_sidewinder_on() {
    let mut grid = Grid::new(4, 6);
    let mut rng = RandomSource::external();

    Sidewinder::new().on(&mut grid, &mut rng);

    assert!(all_cells_linked(&grid));
    assert_eq!(doubled_edge_count(&grid), 2 * (4 * 6 - 1));
}

#[test]
fn test_every_algorithm_carves_a_spanning_count() {
    let size = 4 * 5;
    let strategies = vec![
        Algorithms::BinaryTree(BinaryTree::new()),
        Algorithms::Sidewinder(Sidewinder::new()),
        Algorithms::AldousBroder(AldousBroder::new()),
        Algorithms::Wilsons(Wilsons::new()),
        Algorithms::HuntAndKill(HuntAndKill::new()),
        Algorithms::RecursiveBacktracker(RecursiveBacktracker::new()),
    ];

    for strategy in strategies {
        let mut grid = Grid::new(4, 5);
        let mut rng = RandomSource::external();

        strategy.apply(&mut grid, &mut rng);

        assert!(all_cells_linked(&grid));
        assert_eq!(doubled_edge_count(&grid), 2 * (size - 1));
    }
}

#[test]
fn test_link_symmetry_after_carving() {
    let mut grid = Grid::new(4, 4);
    let mut rng = RandomSource::external();

    RecursiveBacktracker::new().on(&mut grid, &mut rng);

    for ((a, b), _) in link_pairs(&grid).iter().zip(0..) {
        assert_eq!(grid.has_link(*a, *b), grid.has_link(*b, *a));
    }
    for (r, c) in grid.iter() {
        for (r2, c2) in grid.iter() {
            assert_eq!(grid.has_link((r, c), (r2, c2)), grid.has_link((r2, c2), (r, c)));
        }
    }
}

#[test]
fn test_links_stay_between_adjacent_cells() {
    let mut grid = Grid::new(4, 4);
    let mut rng = RandomSource::external();

    HuntAndKill::new().on(&mut grid, &mut rng);

    for ((ar, ac), (br, bc)) in link_pairs(&grid) {
        let row_step = (ar - br).abs();
        let col_step = (ac - bc).abs();
        assert_eq!(row_step + col_step, 1);
    }
}

#[test]
fn test_seeded_runs_repeat_exactly() {
    let seeds = [7u64, 99u64];
    for seed in seeds {
        let strategies = |g: &mut Grid, rng: &mut RandomSource, which: usize| match which {
            0 => BinaryTree::new().on(g, rng),
            1 => Sidewinder::new().on(g, rng),
            2 => HuntAndKill::new().on(g, rng),
            _ => RecursiveBacktracker::new().on(g, rng),
        };
        for which in 0..4 {
            let mut first_grid = Grid::new(4, 4);
            let mut second_grid = Grid::new(4, 4);
            let mut first_rng = RandomSource::seeded(seed);
            let mut second_rng = RandomSource::seeded(seed);

            strategies(&mut first_grid, &mut first_rng, which);
            strategies(&mut second_grid, &mut second_rng, which);

            assert_eq!(link_pairs(&first_grid), link_pairs(&second_grid));
        }
    }
}

#[test]
fn test_seeded_walk_runs_repeat_exactly() {
    let mut first_grid = Grid::new(3, 3);
    let mut second_grid = Grid::new(3, 3);
    let mut first_rng = RandomSource::seeded(12345);
    let mut second_rng = RandomSource::seeded(12345);

    AldousBroder::new().on(&mut first_grid, &mut first_rng);
    AldousBroder::new().on(&mut second_grid, &mut second_rng);

    assert_eq!(link_pairs(&first_grid), link_pairs(&second_grid));

    let mut third_grid = Grid::new(3, 3);
    let mut fourth_grid = Grid::new(3, 3);
    let mut third_rng = RandomSource::seeded(54321);
    let mut fourth_rng = RandomSource::seeded(54321);

    Wilsons::new().on(&mut third_grid, &mut third_rng);
    Wilsons::new().on(&mut fourth_grid, &mut fourth_rng);

    assert_eq!(link_pairs(&third_grid), link_pairs(&fourth_grid));
}

#[test]
fn test_binary_tree_first_candidate_corridor() {
    let mut grid = Grid::new(3, 3);
    let mut rng = RandomSource::first();

    BinaryTree::new().on(&mut grid, &mut rng);

    // eight symmetric link pairs in total
    assert_eq!(doubled_edge_count(&grid), 2 * 8);

    // the top row runs only eastward
    assert!(grid.has_link((0, 0), (0, 1)));
    assert!(grid.has_link((0, 1), (0, 2)));

    // every other cell picks its first candidate: north
    for r in 1..3 {
        for c in 0..3 {
            assert!(grid.has_link((r, c), (r - 1, c)));
        }
    }

    // no horizontal passage below the top row: a single corner-biased
    // corridor along the top row and up each column
    for r in 1..3 {
        for c in 0..2 {
            assert!(!grid.has_link((r, c), (r, c + 1)));
        }
    }
}

#[test]
fn test_wilsons_single_row_is_a_chain() {
    let sources = vec![
        RandomSource::first(),
        RandomSource::seeded(3),
        RandomSource::seeded(1_000_003),
        RandomSource::external(),
    ];
    for mut rng in sources {
        let mut grid = Grid::new(1, 5);

        Wilsons::new().on(&mut grid, &mut rng);

        for c in 0..4 {
            assert!(grid.has_link((0, c), (0, c + 1)));
        }
        assert_eq!(doubled_edge_count(&grid), 2 * 4);
    }
}

#[test]
fn test_external_choices_stay_below_bound() {
    let mut rng = RandomSource::external();
    for _ in 0..200 {
        assert!(rng.next_below(5) < 5);
        assert!(rng.next_below(1) == 0);
    }
}

#[test]
fn test_seeded_choices_repeat() {
    let mut a = RandomSource::seeded(11);
    let mut b = RandomSource::seeded(11);
    for bound in [2usize, 3, 7, 100] {
        for _ in 0..20 {
            assert_eq!(a.next_below(bound), b.next_below(bound));
        }
    }
}

#[test]
fn test_sidewinder_north_row_corridor() {
    for seed in [1u64, 17u64, 400u64] {
        let mut grid = Grid::new(4, 6);
        let mut rng = RandomSource::seeded(seed);

        Sidewinder::new().on(&mut grid, &mut rng);

        for c in 0..5 {
            assert!(grid.has_link((0, c), (0, c + 1)));
        }
    }
}

#[test]
fn test_binary_tree_corner_corridor_every_source() {
    let sources = vec![
        RandomSource::first(),
        RandomSource::seeded(8),
        RandomSource::external(),
    ];
    for mut rng in sources {
        let mut grid = Grid::new(4, 5);

        BinaryTree::new().on(&mut grid, &mut rng);

        // the top row runs east, the east column runs north
        for c in 0..4 {
            assert!(grid.has_link((0, c), (0, c + 1)));
        }
        for r in 1..4 {
            assert!(grid.has_link((r, 4), (r - 1, 4)));
        }
    }
}
