use vstd::prelude::*;

use crate::algorithms::On;
use crate::algorithms::carved_connected;
use crate::algorithms::connected;
use crate::algorithms::fully_linked;
use crate::algorithms::lemma_carved_grows;
use crate::algorithms::reaches;
use crate::algorithms::lemma_all_unlinked_total;
use crate::algorithms::lemma_fully_linked_count;
use crate::algorithms::lemma_neighbor_entry;
use crate::algorithms::spanning_edge_count;
use crate::grid::Grid;
use crate::grid::lemma_unlinked_count_positive;
use crate::grid::unlinked_count;
use crate::random::RandomSource;

verus! {

/// An unbiased random walk: step to a uniformly random topology neighbour;
/// whenever the step reaches a cell not yet in the maze, carve the passage
/// just walked. Every spanning tree is equally likely, at the price of a
/// walk whose length no bound controls; a step budget keeps each run
/// finite, and a run that spends it leaves some cells unlinked.
pub struct AldousBroder {}

impl AldousBroder {
    pub fn new() -> (r: AldousBroder) {
        AldousBroder {  }
    }
}

impl On for AldousBroder {
    /// However a run ends, the passages carved count the cells brought in
    /// (twice the edges equal the cells minus one minus those still
    /// unlinked) and keep the carved region pairwise joined. A run that
    /// links every cell has carved a spanning count joining every pair.
    open spec fn guarantees(&self, pre: Grid, rng: RandomSource, post: Grid) -> bool {
        &&& pre.size() >= 2 ==> post.total_links() == 2 * (pre.size() - 1 - unlinked_count(
            post.cells@,
        ))
        &&& carved_connected(post)
        &&& fully_linked(post) ==> spanning_edge_count(post) && connected(post)
    }

    fn on(&self, grid: &mut Grid, rng: &mut RandomSource) {
        proof {
            lemma_all_unlinked_total(*grid);
            crate::algorithms::lemma_all_unlinked_count(*grid);
        }
        let rows = grid.rows();
        let columns = grid.columns();
        let size: i32 = rows * columns;
        proof {
            assert(size >= 1) by (nonlinear_arith)
                requires
                    rows >= 1,
                    columns >= 1,
                    size == rows * columns,
            ;
        }
        let row = rng.next_below(rows as usize);
        let col = rng.next_below(columns as usize);
        let mut current: (i32, i32) = (row as i32, col as i32);
        let mut unvisited: i32 = size - 1;
        let mut fuel: u64 = u64::MAX;
        while unvisited > 0 && fuel > 0
            invariant
                grid.wf(),
                grid.rows == rows,
                grid.columns == columns,
                size == rows * columns,
                grid.in_bounds(current),
                0 <= unvisited <= size - 1,
                grid.total_links() == 2 * (size - 1 - unvisited),
                unlinked_count(grid.cells@) == unvisited + (if grid.cell_at(
                    current,
                ).links@.len() == 0 {
                    1int
                } else {
                    0int
                }),
                grid.cell_at(current).links@.len() == 0 ==> (unvisited == size - 1 && forall|
                    p: (i32, i32),
                |
                    grid.in_bounds(p) ==> (#[trigger] grid.cell_at(p)).links@.len() == 0),
                grid.cell_at(current).links@.len() == 0 ==> fuel == u64::MAX,
                carved_connected(*grid),
            decreases fuel,
        {
            let neighbors = {
                let cref = grid.cell(current.0, current.1).unwrap();
                cref.neighbors()
            };
            proof {
                assert(crate::grid::topology_ok(
                    grid.cell_at(current),
                    rows,
                    columns,
                    current.0,
                    current.1,
                ));
                if neighbors@.len() == 0 {
                    assert(rows == 1 && columns == 1);
                    assert(size == 1) by (nonlinear_arith)
                        requires
                            rows == 1 && columns == 1 && size == rows * columns,
                    ;
                }
            }
            let k = rng.next_below(neighbors.len());
            let nb = neighbors[k];
            proof {
                assert(grid.cell_at(current).neighbor_seq().contains(nb));
                lemma_neighbor_entry(*grid, current, nb);
            }
            let nb_empty = {
                let nref = grid.cell(nb.0, nb.1).unwrap();
                nref.links().len() == 0
            };
            if nb_empty {
                proof {
                    if grid.linked(current, nb) {
                        assert(grid.cell_at(nb).linked_to(current));
                        assert(false);
                    }
                    if grid.cell_at(current).links@.len() > 0 {
                        crate::grid::lemma_row_major_bounds(
                            rows as int,
                            columns as int,
                            nb.0 as int,
                            nb.1 as int,
                        );
                        lemma_unlinked_count_positive(grid.cells@, grid.idx(nb));
                    }
                }
                let ghost pre = *grid;
                grid.link(current, nb);
                unvisited = unvisited - 1;
                proof {
                    assert forall|x: (i32, i32), y: (i32, i32)| #[trigger]
                        pre.linked(x, y) implies grid.linked(x, y) by {}
                    lemma_carved_grows(pre, *grid, current, nb);
                }
            }
            current = nb;
            fuel = fuel - 1;
        }
        proof {
            if size >= 2 {
                assert(grid.cell_at(current).links@.len() > 0);
                assert(grid.total_links() == 2 * (size - 1 - unlinked_count(grid.cells@)));
            }
            if fully_linked(*grid) {
                lemma_fully_linked_count(*grid);
                assert(grid.cell_at(current).links@.len() > 0);
                assert(unvisited == 0);
                assert(grid.total_links() == 2 * (grid.size() - 1));
                assert forall|a: (i32, i32), b: (i32, i32)|
                    grid.in_bounds(a) && grid.in_bounds(b) implies exists|n: nat|
                    #[trigger] reaches(*grid, a, b, n) by {
                    assert(grid.cell_at(a).links@.len() > 0 && grid.cell_at(b).links@.len() > 0);
                }
            }
        }
    }
}

} // verus!
