use vstd::prelude::*;

use crate::algorithms::On;
use crate::algorithms::fully_linked;
use crate::algorithms::lemma_all_unlinked_count;
use crate::algorithms::lemma_count_drop;
use crate::algorithms::lemma_all_unlinked_total;
use crate::algorithms::lemma_fully_linked_count;
use crate::algorithms::carved_connected;
use crate::algorithms::connected;
use crate::algorithms::lemma_carved_grows;
use crate::algorithms::lemma_neighbor_complete;
use crate::algorithms::reaches;
use crate::algorithms::lemma_neighbor_entry;
use crate::algorithms::lemma_linked_region_covers;
use crate::algorithms::spanning_edge_count;
use crate::grid::Grid;
use crate::grid::adjacent;
use crate::grid::unlinked_count;
use crate::grid::lemma_unlinked_count_bounds;
use crate::random::RandomSource;

verus! {

/// Depth-first carving with an explicit stack: extend the walk into a
/// random unvisited neighbour of the top cell; backtrack when the top cell
/// has none. The stack empties once every cell has been reached.
pub struct RecursiveBacktracker {}

impl RecursiveBacktracker {
    pub fn new() -> (r: RecursiveBacktracker) {
        RecursiveBacktracker {  }
    }
}

impl On for RecursiveBacktracker {
    /// A finished run always carves a spanning count of passages joining
    /// every pair of cells and, on a grid of at least two cells, leaves no
    /// cell unlinked.
    open spec fn guarantees(&self, pre: Grid, rng: RandomSource, post: Grid) -> bool {
        &&& spanning_edge_count(post)
        &&& connected(post)
        &&& pre.size() >= 2 ==> fully_linked(post)
    }

    fn on(&self, grid: &mut Grid, rng: &mut RandomSource) {
        proof {
            lemma_all_unlinked_total(*grid);
            lemma_all_unlinked_count(*grid);
        }
        let rows = grid.rows();
        let columns = grid.columns();
        let size: i32 = rows * columns;
        proof {
            assert(size >= 1) by (nonlinear_arith)
                requires
                    rows >= 1,
                    columns >= 1,
                    size == rows * columns,
            ;
        }
        let row = rng.next_below(rows as usize);
        let col = rng.next_below(columns as usize);
        let start: (i32, i32) = (row as i32, col as i32);
        let mut stack: Vec<(i32, i32)> = Vec::new();
        stack.push(start);
        while stack.len() > 0
            invariant
                grid.wf(),
                grid.rows == rows,
                grid.columns == columns,
                size == rows * columns,
                forall|k: int| 0 <= k < stack@.len() ==> grid.in_bounds(#[trigger] stack@[k]),
                forall|k: int|
                    0 <= k < stack@.len() && (#[trigger] grid.cell_at(stack@[k])).links@.len()
                        == 0 ==> stack@.len() == 1 && (forall|p: (i32, i32)|
                        grid.in_bounds(p) ==> (#[trigger] grid.cell_at(p)).links@.len() == 0),
                forall|p: (i32, i32), q: (i32, i32)|
                    grid.in_bounds(p) && grid.in_bounds(q) && adjacent(p, q) && (
                    #[trigger] grid.cell_at(p)).links@.len() > 0 && !stack@.contains(p) ==> (
                    #[trigger] grid.cell_at(q)).links@.len() > 0,
                (unlinked_count(grid.cells@) == size && grid.total_links() == 0) || (
                grid.total_links() == 2 * (size - unlinked_count(grid.cells@) - 1)),
                0 <= unlinked_count(grid.cells@) <= size,
                size >= 2 && unlinked_count(grid.cells@) == size ==> stack@.len() >= 1,
                carved_connected(*grid),
            decreases unlinked_count(grid.cells@), stack@.len(),
        {
            let current = stack[stack.len() - 1];
            let neighbors = {
                let cref = grid.cell(current.0, current.1).unwrap();
                cref.neighbors()
            };
            let mut unvisited: Vec<(i32, i32)> = Vec::new();
            let nlen = neighbors.len();
            let mut i: usize = 0;
            while i < nlen
                invariant
                    grid.wf(),
                    grid.in_bounds(current),
                    neighbors@ == grid.cell_at(current).neighbor_seq(),
                    nlen == neighbors@.len(),
                    i <= nlen,
                    forall|k: int|
                        0 <= k < i && (#[trigger] grid.cell_at(
                            neighbors@[k],
                        )).links@.len() == 0 ==> unvisited@.contains(neighbors@[k]),
                    forall|j: int|
                        0 <= j < unvisited@.len() ==> neighbors@.contains(
                            #[trigger] unvisited@[j],
                        ) && grid.cell_at(unvisited@[j]).links@.len() == 0,
                decreases nlen - i,
            {
                let q = neighbors[i];
                proof {
                    assert(grid.cell_at(current).neighbor_seq().contains(q));
                    lemma_neighbor_entry(*grid, current, q);
                }
                let q_empty = {
                    let qref = grid.cell(q.0, q.1).unwrap();
                    qref.links().len() == 0
                };
                if q_empty {
                    let ghost pre_unv = unvisited@;
                    unvisited.push(q);
                    proof {
                        assert(unvisited@[unvisited@.len() - 1] == q);
                        assert forall|k: int|
                            0 <= k < i + 1 && (#[trigger] grid.cell_at(
                                neighbors@[k],
                            )).links@.len() == 0 implies unvisited@.contains(neighbors@[k]) by {
                            if k < i {
                                let j = choose|j: int|
                                    0 <= j < pre_unv.len() && pre_unv[j] == neighbors@[k];
                                assert(unvisited@[j] == neighbors@[k]);
                            } else {
                                assert(unvisited@[unvisited@.len() - 1] == neighbors@[k]);
                            }
                        }
                    }
                }
                i = i + 1;
            }
            if unvisited.len() == 0 {
                proof {
                    // the departing cell keeps no unvisited neighbour behind
                    assert forall|q: (i32, i32)|
                        grid.in_bounds(q) && adjacent(current, q) implies (#[trigger] grid.cell_at(
                        q,
                    )).links@.len() > 0 by {
                        lemma_neighbor_complete(*grid, current, q);
                        let k = choose|k: int|
                            0 <= k < neighbors@.len() && neighbors@[k] == q;
                        if grid.cell_at(q).links@.len() == 0 {
                            assert(unvisited@.contains(neighbors@[k]));
                        }
                    }
                    if unlinked_count(grid.cells@) == size {
                        if grid.cell_at(current).links@.len() > 0 {
                            lemma_count_drop(*grid, current);
                        }
                    }
                    // a bare start cell would still have an unvisited side
                    if grid.cell_at(current).links@.len() == 0 {
                        if size >= 2 {
                            assert(rows >= 2 || columns >= 2) by (nonlinear_arith)
                                requires
                                    rows >= 1,
                                    columns >= 1,
                                    size == rows * columns,
                                    size >= 2,
                            ;
                            let q: (i32, i32) = if current.0 > 0 {
                                ((current.0 - 1) as i32, current.1)
                            } else if rows >= 2 {
                                ((current.0 + 1) as i32, current.1)
                            } else if current.1 > 0 {
                                (current.0, (current.1 - 1) as i32)
                            } else {
                                (current.0, (current.1 + 1) as i32)
                            };
                            assert(grid.in_bounds(q) && adjacent(current, q));
                            assert(grid.cell_at(stack@[stack@.len() - 1]).links@.len() == 0);
                            assert(grid.cell_at(q).links@.len() == 0);
                            assert(false);
                        }
                    }
                }
                let ghost pre_stack = stack@;
                stack.pop();
                proof {
                    assert(stack@ =~= pre_stack.drop_last());
                    assert forall|p: (i32, i32), q: (i32, i32)|
                        grid.in_bounds(p) && grid.in_bounds(q) && adjacent(p, q) && (
                        #[trigger] grid.cell_at(p)).links@.len() > 0 && !stack@.contains(p)
                        implies (#[trigger] grid.cell_at(q)).links@.len() > 0 by {
                        if p != current {
                            if pre_stack.contains(p) {
                                let k = choose|k: int|
                                    0 <= k < pre_stack.len() && pre_stack[k] == p;
                                assert(k < pre_stack.len() - 1);
                                assert(stack@[k] == p);
                            }
                        }
                    }
                }
            } else {
                let k = rng.next_below(unvisited.len());
                let nb = unvisited[k];
                proof {
                    assert(neighbors@.contains(nb));
                    lemma_neighbor_entry(*grid, current, nb);
                    if grid.linked(current, nb) {
                        assert(grid.cell_at(nb).linked_to(current));
                        assert(false);
                    }
                }
                let ghost pre = *grid;
                let ghost pre_stack = stack@;
                proof {
                    if pre.cell_at(current).links@.len() == 0 {
                        assert(pre.cell_at(pre_stack[pre_stack.len() - 1]).links@.len() == 0);
                        lemma_all_unlinked_count(pre);
                        lemma_all_unlinked_total(pre);
                    } else {
                        if unlinked_count(pre.cells@) == size {
                            lemma_count_drop(pre, current);
                        }
                    }
                    crate::grid::lemma_links_total_nonneg(pre.cells@);
                }
                grid.link(current, nb);
                stack.push(nb);
                proof {
                    lemma_unlinked_count_bounds(grid.cells@);
                    assert forall|x: (i32, i32), y: (i32, i32)| #[trigger]
                        pre.linked(x, y) implies grid.linked(x, y) by {}
                    lemma_carved_grows(pre, *grid, current, nb);
                    assert(stack@.drop_last() =~= pre_stack);
                    assert forall|kk: int|
                        0 <= kk < stack@.len() && (#[trigger] grid.cell_at(
                            stack@[kk],
                        )).links@.len() == 0 implies stack@.len() == 1 && (forall|p: (i32, i32)|
                        grid.in_bounds(p) ==> (#[trigger] grid.cell_at(p)).links@.len() == 0) by {
                        let c = stack@[kk];
                        if kk == stack@.len() - 1 {
                            assert(c == nb);
                            assert(grid.cell_at(nb).links@.len() > 0);
                        } else {
                            assert(pre_stack[kk] == c);
                            if pre.cell_at(c).links@.len() == 0 {
                                assert(pre_stack.len() == 1);
                                assert(c == current);
                                assert(grid.cell_at(current).links@.len() > 0);
                            } else {
                                if c == current || c == nb {
                                } else {
                                    assert(grid.cell_at(c) == pre.cell_at(c));
                                }
                            }
                        }
                    }
                    assert forall|p: (i32, i32), q: (i32, i32)|
                        grid.in_bounds(p) && grid.in_bounds(q) && adjacent(p, q) && (
                        #[trigger] grid.cell_at(p)).links@.len() > 0 && !stack@.contains(p)
                        implies (#[trigger] grid.cell_at(q)).links@.len() > 0 by {
                        if p != current && p != nb {
                            assert(grid.cell_at(p) == pre.cell_at(p));
                            if pre.cell_at(p).links@.len() > 0 {
                                if !pre_stack.contains(p) {
                                    if pre.cell_at(q).links@.len() > 0 {
                                        if q == current || q == nb {
                                        } else {
                                            assert(grid.cell_at(q) == pre.cell_at(q));
                                        }
                                    }
                                } else {
                                    let j = choose|j: int|
                                        0 <= j < pre_stack.len() && pre_stack[j] == p;
                                    assert(stack@[j] == p);
                                    assert(false);
                                }
                            }
                        } else {
                            assert(stack@[stack@.len() - 1] == nb);
                            if p == current {
                                let j = choose|j: int|
                                    0 <= j < pre_stack.len() && pre_stack[j] == p;
                                assert(stack@[j] == p);
                                assert(false);
                            }
                        }
                    }
                }
            }
        }
        proof {
            lemma_unlinked_count_bounds(grid.cells@);
            if unlinked_count(grid.cells@) == size && grid.total_links() == 0 {
                // nothing was carved: only a one-cell grid backtracks at once
                assert(size == 1);
                assert(spanning_edge_count(*grid)) by {
                    assert(grid.total_links() == 0 && grid.size() == 1);
                }
            } else {
                assert(grid.total_links() == 2 * (size - unlinked_count(grid.cells@) - 1));
                if unlinked_count(grid.cells@) < size {
                    let seed = choose|p: (i32, i32)|
                        grid.in_bounds(p) && (#[trigger] grid.cell_at(p)).links@.len() > 0;
                    assert(grid.in_bounds(seed) && grid.cell_at(seed).links@.len() > 0) by {
                        if forall|p: (i32, i32)|
                            grid.in_bounds(p) ==> (#[trigger] grid.cell_at(p)).links@.len()
                                == 0 {
                            lemma_all_unlinked_count(*grid);
                            assert(false);
                        }
                    }
                    assert forall|p: (i32, i32)| grid.in_bounds(p) implies (
                    #[trigger] grid.cell_at(p)).links@.len() > 0 by {
                        lemma_linked_region_covers(*grid, seed, p);
                    }
                    lemma_fully_linked_count(*grid);
                    assert(spanning_edge_count(*grid));
                } else {
                    crate::grid::lemma_links_total_nonneg(grid.cells@);
                    assert(grid.total_links() == 2 * (size - size - 1));
                    assert(false);
                }
            }
            assert forall|a: (i32, i32), b: (i32, i32)|
                grid.in_bounds(a) && grid.in_bounds(b) implies exists|n: nat| #[trigger] reaches(
                *grid,
                a,
                b,
                n,
            ) by {
                if size >= 2 {
                    assert(grid.cell_at(a).links@.len() > 0 && grid.cell_at(b).links@.len() > 0);
                } else {
                    assert(rows == 1 && columns == 1) by (nonlinear_arith)
                        requires
                            rows >= 1,
                            columns >= 1,
                            size == rows * columns,
                            size < 2,
                    ;
                    assert(a == (0i32, 0i32) && b == (0i32, 0i32));
                    assert(reaches(*grid, a, b, 0));
                }
            }
        }
    }
}

} // verus!
