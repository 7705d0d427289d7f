use vstd::prelude::*;

use crate::algorithms::On;
use crate::algorithms::fully_linked;
use crate::algorithms::lemma_all_unlinked_count;
use crate::algorithms::lemma_all_unlinked_total;
use crate::algorithms::carved_connected;
use crate::algorithms::connected;
use crate::algorithms::lemma_carved_grows;
use crate::algorithms::lemma_count_drop;
use crate::algorithms::reaches;
use crate::algorithms::lemma_fully_linked_count;
use crate::algorithms::lemma_linked_region_covers;
use crate::algorithms::lemma_neighbor_complete;
use crate::algorithms::lemma_neighbor_entry;
use crate::algorithms::spanning_edge_count;
use crate::grid::Grid;
use crate::grid::adjacent;
use crate::grid::lemma_unlinked_count_bounds;
use crate::grid::unlinked_count;
use crate::random::RandomSource;

verus! {

/// Random walk with a rescue scan: extend the walk into a random unvisited
/// neighbour while one exists; when the walk dead-ends, hunt in row-major
/// order for an unvisited cell beside the carved region, link it in, and
/// walk on from there. The run ends when the hunt finds nothing.
pub struct HuntAndKill {}

impl HuntAndKill {
    pub fn new() -> (r: HuntAndKill) {
        HuntAndKill {  }
    }
}

impl On for HuntAndKill {
    /// A finished run always carves a spanning count of passages joining
    /// every pair of cells and, on a grid of at least two cells, leaves no
    /// cell unlinked.
    open spec fn guarantees(&self, pre: Grid, rng: RandomSource, post: Grid) -> bool {
        &&& spanning_edge_count(post)
        &&& connected(post)
        &&& pre.size() >= 2 ==> fully_linked(post)
    }

    fn on(&self, grid: &mut Grid, rng: &mut RandomSource) {
        proof {
            lemma_all_unlinked_total(*grid);
            lemma_all_unlinked_count(*grid);
        }
        let rows = grid.rows();
        let columns = grid.columns();
        let size: i32 = rows * columns;
        proof {
            assert(size >= 1) by (nonlinear_arith)
                requires
                    rows >= 1,
                    columns >= 1,
                    size == rows * columns,
            ;
        }
        let row = rng.next_below(rows as usize);
        let col = rng.next_below(columns as usize);
        let mut current: Option<(i32, i32)> = Some((row as i32, col as i32));
        while current.is_some()
            invariant
                grid.wf(),
                grid.rows == rows,
                grid.columns == columns,
                size == rows * columns,
                match current {
                    Some(c) => grid.in_bounds(c) && (grid.cell_at(c).links@.len() == 0
                        ==> forall|p: (i32, i32)|
                        grid.in_bounds(p) ==> (#[trigger] grid.cell_at(p)).links@.len() == 0),
                    None => (forall|p: (i32, i32), q: (i32, i32)|
                        grid.in_bounds(p) && grid.in_bounds(q) && adjacent(p, q) && (
                        #[trigger] grid.cell_at(p)).links@.len() > 0 ==> (
                        #[trigger] grid.cell_at(q)).links@.len() > 0) && (size >= 2
                        ==> exists|p: (i32, i32)|
                        grid.in_bounds(p) && (#[trigger] grid.cell_at(p)).links@.len() > 0),
                },
                (unlinked_count(grid.cells@) == size && grid.total_links() == 0) || (
                grid.total_links() == 2 * (size - unlinked_count(grid.cells@) - 1)),
                0 <= unlinked_count(grid.cells@) <= size,
                carved_connected(*grid),
            decreases unlinked_count(grid.cells@), (if current is Some {
                1int
            } else {
                0int
            }),
        {
            let cell = current.unwrap();
            let neighbors = {
                let cref = grid.cell(cell.0, cell.1).unwrap();
                cref.neighbors()
            };
            let mut unvisited: Vec<(i32, i32)> = Vec::new();
            let nlen = neighbors.len();
            let mut i: usize = 0;
            while i < nlen
                invariant
                    grid.wf(),
                    grid.in_bounds(cell),
                    neighbors@ == grid.cell_at(cell).neighbor_seq(),
                    nlen == neighbors@.len(),
                    i <= nlen,
                    forall|k: int|
                        0 <= k < i && (#[trigger] grid.cell_at(
                            neighbors@[k],
                        )).links@.len() == 0 ==> unvisited@.contains(neighbors@[k]),
                    forall|j: int|
                        0 <= j < unvisited@.len() ==> neighbors@.contains(
                            #[trigger] unvisited@[j],
                        ) && grid.cell_at(unvisited@[j]).links@.len() == 0,
                decreases nlen - i,
            {
                let q = neighbors[i];
                proof {
                    assert(grid.cell_at(cell).neighbor_seq().contains(q));
                    lemma_neighbor_entry(*grid, cell, q);
                }
                let q_empty = {
                    let qref = grid.cell(q.0, q.1).unwrap();
                    qref.links().len() == 0
                };
                if q_empty {
                    let ghost pre_unv = unvisited@;
                    unvisited.push(q);
                    proof {
                        assert forall|k: int|
                            0 <= k < i + 1 && (#[trigger] grid.cell_at(
                                neighbors@[k],
                            )).links@.len() == 0 implies unvisited@.contains(neighbors@[k]) by {
                            if k < i {
                                let j = choose|j: int|
                                    0 <= j < pre_unv.len() && pre_unv[j] == neighbors@[k];
                                assert(unvisited@[j] == neighbors@[k]);
                            } else {
                                assert(unvisited@[unvisited@.len() - 1] == neighbors@[k]);
                            }
                        }
                    }
                }
                i = i + 1;
            }
            if unvisited.len() > 0 {
                let k = rng.next_below(unvisited.len());
                let nb = unvisited[k];
                proof {
                    assert(neighbors@.contains(nb));
                    lemma_neighbor_entry(*grid, cell, nb);
                    if grid.linked(cell, nb) {
                        assert(grid.cell_at(nb).linked_to(cell));
                        assert(false);
                    }
                    if grid.cell_at(cell).links@.len() == 0 {
                        lemma_all_unlinked_count(*grid);
                        lemma_all_unlinked_total(*grid);
                    } else {
                        if unlinked_count(grid.cells@) == size {
                            lemma_count_drop(*grid, cell);
                        }
                    }
                    crate::grid::lemma_links_total_nonneg(grid.cells@);
                }
                let ghost pre = *grid;
                grid.link(cell, nb);
                current = Some(nb);
                proof {
                    lemma_unlinked_count_bounds(grid.cells@);
                    assert forall|x: (i32, i32), y: (i32, i32)| #[trigger]
                        pre.linked(x, y) implies grid.linked(x, y) by {}
                    lemma_carved_grows(pre, *grid, cell, nb);
                }
            } else {
                proof {
                    // the walk dead-ended: a bare walk cell cannot happen
                    // beside empty neighbours on a grid of two or more cells
                    if grid.cell_at(cell).links@.len() == 0 && size >= 2 {
                        assert(rows >= 2 || columns >= 2) by (nonlinear_arith)
                            requires
                                rows >= 1,
                                columns >= 1,
                                size == rows * columns,
                                size >= 2,
                        ;
                        let q: (i32, i32) = if cell.0 > 0 {
                            ((cell.0 - 1) as i32, cell.1)
                        } else if rows >= 2 {
                            ((cell.0 + 1) as i32, cell.1)
                        } else if cell.1 > 0 {
                            (cell.0, (cell.1 - 1) as i32)
                        } else {
                            (cell.0, (cell.1 + 1) as i32)
                        };
                        assert(grid.in_bounds(q) && adjacent(cell, q));
                        lemma_neighbor_complete(*grid, cell, q);
                        let j = choose|j: int|
                            0 <= j < neighbors@.len() && neighbors@[j] == q;
                        assert(grid.cell_at(q).links@.len() == 0);
                        assert(unvisited@.contains(neighbors@[j]));
                        assert(false);
                    }
                }
                let coords = grid.iter();
                let clen = coords.len();
                let mut hi: usize = 0;
                let mut hunted: Option<((i32, i32), (i32, i32))> = None;
                while hi < clen && hunted.is_none()
                    invariant
                        grid.wf(),
                        grid.rows == rows,
                        grid.columns == columns,
                        clen == coords@.len(),
                        hi <= clen,
                        coords@.len() == grid.size(),
                        forall|kk: int|
                            0 <= kk < coords@.len() ==> grid.in_bounds(#[trigger] coords@[kk]),
                        forall|p: (i32, i32)| grid.in_bounds(p) ==> coords@[grid.idx(p)] == p,
                        match hunted {
                            Some(hc) => grid.in_bounds(hc.0) && grid.in_bounds(hc.1)
                                && adjacent(hc.0, hc.1) && grid.cell_at(hc.0).links@.len() == 0
                                && grid.cell_at(hc.1).links@.len() > 0,
                            None => forall|kk: int|
                                0 <= kk < hi ==> !((#[trigger] grid.cell_at(
                                    coords@[kk],
                                )).links@.len() == 0 && exists|q: (i32, i32)|
                                    grid.in_bounds(q) && adjacent(coords@[kk], q) && (
                                    #[trigger] grid.cell_at(q)).links@.len() > 0),
                        },
                    decreases clen - hi,
                {
                    let hcell = coords[hi];
                    let h_empty = {
                        let href = grid.cell(hcell.0, hcell.1).unwrap();
                        href.links().len() == 0
                    };
                    if h_empty {
                        let hneighbors = {
                            let href = grid.cell(hcell.0, hcell.1).unwrap();
                            href.neighbors()
                        };
                        let mut visited: Vec<(i32, i32)> = Vec::new();
                        let hn = hneighbors.len();
                        let mut j: usize = 0;
                        while j < hn
                            invariant
                                grid.wf(),
                                grid.in_bounds(hcell),
                                hneighbors@ == grid.cell_at(hcell).neighbor_seq(),
                                hn == hneighbors@.len(),
                                j <= hn,
                                forall|kk: int|
                                    0 <= kk < j && (#[trigger] grid.cell_at(
                                        hneighbors@[kk],
                                    )).links@.len() > 0 ==> visited@.contains(hneighbors@[kk]),
                                forall|jj: int|
                                    0 <= jj < visited@.len() ==> hneighbors@.contains(
                                        #[trigger] visited@[jj],
                                    ) && grid.cell_at(visited@[jj]).links@.len() > 0,
                            decreases hn - j,
                        {
                            let q = hneighbors[j];
                            proof {
                                assert(grid.cell_at(hcell).neighbor_seq().contains(q));
                                lemma_neighbor_entry(*grid, hcell, q);
                            }
                            let q_linked = {
                                let qref = grid.cell(q.0, q.1).unwrap();
                                qref.links().len() > 0
                            };
                            if q_linked {
                                let ghost pre_vis = visited@;
                                visited.push(q);
                                proof {
                                    assert forall|kk: int|
                                        0 <= kk < j + 1 && (#[trigger] grid.cell_at(
                                            hneighbors@[kk],
                                        )).links@.len() > 0 implies visited@.contains(
                                        hneighbors@[kk],
                                    ) by {
                                        if kk < j {
                                            let jj = choose|jj: int|
                                                0 <= jj < pre_vis.len() && pre_vis[jj]
                                                    == hneighbors@[kk];
                                            assert(visited@[jj] == hneighbors@[kk]);
                                        } else {
                                            assert(visited@[visited@.len() - 1]
                                                == hneighbors@[kk]);
                                        }
                                    }
                                }
                            }
                            j = j + 1;
                        }
                        if visited.len() > 0 {
                            let vk = rng.next_below(visited.len());
                            let vnb = visited[vk];
                            proof {
                                assert(hneighbors@.contains(vnb));
                                lemma_neighbor_entry(*grid, hcell, vnb);
                            }
                            hunted = Some((hcell, vnb));
                        } else {
                            proof {
                                assert forall|q: (i32, i32)|
                                    grid.in_bounds(q) && adjacent(hcell, q) implies (
                                #[trigger] grid.cell_at(q)).links@.len() == 0 by {
                                    lemma_neighbor_complete(*grid, hcell, q);
                                    let kk = choose|kk: int|
                                        0 <= kk < hneighbors@.len() && hneighbors@[kk] == q;
                                    if grid.cell_at(q).links@.len() > 0 {
                                        assert(visited@.contains(hneighbors@[kk]));
                                    }
                                }
                            }
                        }
                    }
                    hi = hi + 1;
                }
                match hunted {
                    Some(pair) => {
                        let hc = pair.0;
                        let vnb = pair.1;
                        proof {
                            if grid.linked(hc, vnb) {
                                assert(grid.cell_at(vnb).linked_to(hc));
                                assert(false);
                            }
                            if unlinked_count(grid.cells@) == size {
                                lemma_count_drop(*grid, vnb);
                            }
                            crate::grid::lemma_links_total_nonneg(grid.cells@);
                        }
                        let ghost pre = *grid;
                        grid.link(hc, vnb);
                        current = Some(hc);
                        proof {
                            lemma_unlinked_count_bounds(grid.cells@);
                            assert forall|x: (i32, i32), y: (i32, i32)| #[trigger]
                                pre.linked(x, y) implies grid.linked(x, y) by {}
                            lemma_carved_grows(pre, *grid, vnb, hc);
                        }
                    },
                    None => {
                        proof {
                            assert forall|p: (i32, i32), q: (i32, i32)|
                                grid.in_bounds(p) && grid.in_bounds(q) && adjacent(p, q) && (
                            #[trigger] grid.cell_at(p)).links@.len() > 0 implies (
                            #[trigger] grid.cell_at(q)).links@.len() > 0 by {
                                if grid.cell_at(q).links@.len() == 0 {
                                    crate::grid::lemma_row_major_bounds(
                                        rows as int,
                                        columns as int,
                                        q.0 as int,
                                        q.1 as int,
                                    );
                                    assert(coords@[grid.idx(q)] == q);
                                    assert(adjacent(q, p));
                                }
                            }
                            if size >= 2 {
                                assert(grid.in_bounds(cell));
                                assert(grid.cell_at(cell).links@.len() > 0);
                            }
                        }
                        current = None;
                    },
                }
            }
        }
        proof {
            lemma_unlinked_count_bounds(grid.cells@);
            if unlinked_count(grid.cells@) == size && grid.total_links() == 0 {
                if size >= 2 {
                    let seed = choose|p: (i32, i32)|
                        grid.in_bounds(p) && (#[trigger] grid.cell_at(p)).links@.len() > 0;
                    lemma_count_drop(*grid, seed);
                    assert(false);
                }
                assert(spanning_edge_count(*grid)) by {
                    assert(grid.total_links() == 0 && grid.size() == 1);
                }
            } else {
                if size >= 2 {
                    let seed = choose|p: (i32, i32)|
                        grid.in_bounds(p) && (#[trigger] grid.cell_at(p)).links@.len() > 0;
                    assert(grid.in_bounds(seed) && grid.cell_at(seed).links@.len() > 0);
                    assert forall|p: (i32, i32)| grid.in_bounds(p) implies (
                    #[trigger] grid.cell_at(p)).links@.len() > 0 by {
                        lemma_linked_region_covers(*grid, seed, p);
                    }
                    lemma_fully_linked_count(*grid);
                    assert(spanning_edge_count(*grid));
                } else {
                    // a single cell: the lone cell never links
                    assert(size == 1);
                    crate::grid::lemma_links_total_nonneg(grid.cells@);
                    if unlinked_count(grid.cells@) == 0 {
                        assert(grid.total_links() == 2 * (size - 1));
                    } else {
                        assert(unlinked_count(grid.cells@) == 1);
                        assert(grid.total_links() == 2 * (size - 1 - 1));
                        assert(false);
                    }
                }
            }
            assert forall|a: (i32, i32), b: (i32, i32)|
                grid.in_bounds(a) && grid.in_bounds(b) implies exists|n: nat| #[trigger] reaches(
                *grid,
                a,
                b,
                n,
            ) by {
                if size >= 2 {
                    assert(grid.cell_at(a).links@.len() > 0 && grid.cell_at(b).links@.len() > 0);
                } else {
                    assert(rows == 1 && columns == 1) by (nonlinear_arith)
                        requires
                            rows >= 1,
                            columns >= 1,
                            size == rows * columns,
                            size < 2,
                    ;
                    assert(a == (0i32, 0i32) && b == (0i32, 0i32));
                    assert(reaches(*grid, a, b, 0));
                }
            }
        }
    }
}

} // verus!
