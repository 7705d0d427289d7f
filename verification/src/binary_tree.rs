use vstd::prelude::*;

use crate::algorithms::On;
use crate::algorithms::north_or_east_of;
use crate::algorithms::visited_before;
use crate::algorithms::connected;
use crate::algorithms::fully_linked;
use crate::algorithms::lemma_reaches_back;
use crate::algorithms::lemma_reaches_join;
use crate::algorithms::reaches;
use crate::algorithms::spanning_edge_count;
use crate::grid::Grid;
use crate::grid::adjacent;
use crate::grid::topology_ok;
use crate::random::RandomSource;

verus! {

/// The structural bias this strategy always leaves behind: every passage
/// runs north or east out of its lower cell; the top row, whose cells have
/// only an east candidate, is one unbroken eastward corridor; the east
/// column below the corner, whose cells have only a north candidate, is
/// one unbroken northward corridor.
pub open spec fn corner_corridor(g: Grid) -> bool {
    &&& forall|p: (i32, i32), q: (i32, i32)| #[trigger]
        g.linked(p, q) ==> north_or_east_of(q, p) || north_or_east_of(p, q)
    &&& forall|c: int|
        0 <= c < g.columns - 1 ==> #[trigger] g.linked((0i32, c as i32), (0i32, (c + 1) as i32))
    &&& forall|r: int|
        1 <= r < g.rows ==> #[trigger] g.linked(
            (r as i32, (g.columns - 1) as i32),
            ((r - 1) as i32, (g.columns - 1) as i32),
        )
}

/// The candidate a cell carves toward when the source always picks the
/// first one: north where a north neighbour exists, east otherwise.
pub open spec fn first_pick_target(x: (i32, i32)) -> (i32, i32) {
    if x.0 >= 1 {
        (((x.0 - 1) as i32), x.1)
    } else {
        (x.0, ((x.1 + 1) as i32))
    }
}

/// The exact passages a first-candidate run carves: north out of every cell
/// below the top row, east along the top row.
pub open spec fn first_pick_edge(g: Grid, p: (i32, i32), q: (i32, i32)) -> bool {
    &&& g.in_bounds(p)
    &&& g.in_bounds(q)
    &&& {
        ||| (p.0 >= 1 && q == (((p.0 - 1) as i32), p.1))
        ||| (q.0 >= 1 && p == (((q.0 - 1) as i32), q.1))
        ||| (p.0 == 0 && q.0 == 0 && (p.1 + 1 == q.1 || q.1 + 1 == p.1))
    }
}

/// For each cell in row-major order, carves a passage to its north or east
/// neighbour, chosen uniformly; the north-east corner, which has neither,
/// is reached by its west or south neighbour instead.
pub struct BinaryTree {}

impl BinaryTree {
    pub fn new() -> (r: BinaryTree) {
        BinaryTree {  }
    }
}

impl On for BinaryTree {
    /// A finished run always carves a spanning count of passages joining
    /// every pair of cells, shaped as the corner-biased corridor, and, on a
    /// grid of at least two cells, leaves no cell unlinked. A run drawing
    /// from the first-candidate source carves exactly the forced edge set.
    open spec fn guarantees(&self, pre: Grid, rng: RandomSource, post: Grid) -> bool {
        &&& spanning_edge_count(post)
        &&& connected(post)
        &&& corner_corridor(post)
        &&& (pre.size() >= 2 ==> fully_linked(post))
        &&& rng == RandomSource::First ==> forall|p: (i32, i32), q: (i32, i32)|
            #[trigger] post.linked(p, q) <==> first_pick_edge(post, p, q)
    }

    fn on(&self, grid: &mut Grid, rng: &mut RandomSource) {
        let rows = grid.rows();
        let columns = grid.columns();
        let ghost rng0 = *rng;
        let ghost ne: (i32, i32) = (0, (columns - 1) as i32);
        proof {
            crate::algorithms::lemma_all_unlinked_total(*grid);
            if rng0 == RandomSource::First {
                assert forall|p: (i32, i32), q: (i32, i32)|
                    #[trigger] grid.linked(p, q) <==> ((grid.in_bounds(p) && visited_before(p, 0, 0)
                        && grid.in_bounds(q) && q == first_pick_target(p)) || (grid.in_bounds(q) && visited_before(
                        q,
                        0,
                        0,
                    ) && grid.in_bounds(p) && p == first_pick_target(q))) by {
                    if grid.linked(p, q) {
                        assert(grid.cell_at(p).links@.len() == 0);
                        assert(false);
                    }
                }
            }
        }
        let mut r: i32 = 0;
        while r < rows
            invariant
                grid.wf(),
                grid.rows == rows,
                grid.columns == columns,
                ne == (0i32, (columns - 1) as i32),
                0 <= r <= rows,
                forall|p: (i32, i32), q: (i32, i32)|
                    #[trigger] grid.linked(p, q) ==> (visited_before(p, r as int, 0)
                        && north_or_east_of(q, p)) || (grid.in_bounds(q) && visited_before(q, r as int, 0)
                        && north_or_east_of(p, q)),
                forall|p: (i32, i32)|
                    grid.in_bounds(p) && visited_before(p, r as int, 0) && p != ne ==> (
                    #[trigger] grid.cell_at(p)).links@.len() > 0,
                forall|p: (i32, i32)|
                    grid.in_bounds(p) && visited_before(p, r as int, 0) && p != ne ==> (
                    grid.linked(p, (((p.0 - 1) as i32), p.1)) || #[trigger] grid.linked(
                        p,
                        (p.0, ((p.1 + 1) as i32)),
                    )),
                forall|j: int|
                    0 <= j < columns - 1 && visited_before((0i32, j as i32), r as int, 0)
                        ==> #[trigger] grid.linked((0i32, j as i32), (0i32, (j + 1) as i32)),
                forall|rr: int|
                    1 <= rr < rows && visited_before(
                        (rr as i32, (columns - 1) as i32),
                        r as int,
                        0,
                    ) ==> #[trigger] grid.linked(
                        (rr as i32, (columns - 1) as i32),
                        ((rr - 1) as i32, (columns - 1) as i32),
                    ),
                columns >= 2 && visited_before((0i32, (columns - 2) as i32), r as int, 0)
                    ==> grid.cell_at(ne).links@.len() > 0,
                columns == 1 && visited_before((1i32, 0i32), r as int, 0) ==> grid.cell_at(
                    ne,
                ).links@.len() > 0,
                grid.total_links() == 2 * (r * columns - (if visited_before(ne, r as int, 0) {
                    1int
                } else {
                    0int
                })),
                rng0 == RandomSource::First ==> *rng == RandomSource::First,
                rng0 == RandomSource::First ==> forall|p: (i32, i32), q: (i32, i32)|
                    #[trigger] grid.linked(p, q) <==> ((grid.in_bounds(p) && visited_before(p, r as int, 0)
                        && grid.in_bounds(q) && q == first_pick_target(p)) || (grid.in_bounds(q) && visited_before(
                        q,
                        r as int,
                        0,
                    ) && grid.in_bounds(p) && p == first_pick_target(q))),
            decreases rows - r,
        {
            let mut c: i32 = 0;
            while c < columns
                invariant
                    grid.wf(),
                    grid.rows == rows,
                    grid.columns == columns,
                    ne == (0i32, (columns - 1) as i32),
                    0 <= r < rows,
                    0 <= c <= columns,
                    forall|p: (i32, i32), q: (i32, i32)|
                        #[trigger] grid.linked(p, q) ==> (visited_before(p, r as int, c as int)
                            && north_or_east_of(q, p)) || (grid.in_bounds(q) && visited_before(q, r as int, c as int)
                            && north_or_east_of(p, q)),
                    forall|p: (i32, i32)|
                        grid.in_bounds(p) && visited_before(p, r as int, c as int) && p != ne ==> (
                        #[trigger] grid.cell_at(p)).links@.len() > 0,
                    forall|p: (i32, i32)|
                        grid.in_bounds(p) && visited_before(p, r as int, c as int) && p != ne
                            ==> (grid.linked(p, (((p.0 - 1) as i32), p.1)) || #[trigger] grid.linked(
                            p,
                            (p.0, ((p.1 + 1) as i32)),
                        )),
                    forall|j: int|
                        0 <= j < columns - 1 && visited_before((0i32, j as i32), r as int, c as int)
                            ==> #[trigger] grid.linked((0i32, j as i32), (0i32, (j + 1) as i32)),
                    forall|rr: int|
                        1 <= rr < rows && visited_before(
                            (rr as i32, (columns - 1) as i32),
                            r as int,
                            c as int,
                        ) ==> #[trigger] grid.linked(
                            (rr as i32, (columns - 1) as i32),
                            ((rr - 1) as i32, (columns - 1) as i32),
                        ),
                    columns >= 2 && visited_before((0i32, (columns - 2) as i32), r as int, c as int)
                        ==> grid.cell_at(ne).links@.len() > 0,
                    columns == 1 && visited_before((1i32, 0i32), r as int, c as int) ==> grid.cell_at(
                        ne,
                    ).links@.len() > 0,
                    grid.total_links() == 2 * (r * columns + c - (if visited_before(ne, r as int, c as int) {
                        1int
                    } else {
                        0int
                    })),
                    rng0 == RandomSource::First ==> *rng == RandomSource::First,
                    rng0 == RandomSource::First ==> forall|p: (i32, i32), q: (i32, i32)|
                        #[trigger] grid.linked(p, q) <==> ((grid.in_bounds(p) && visited_before(p, r as int, c as int)
                            && grid.in_bounds(q) && q == first_pick_target(p)) || (grid.in_bounds(q) && visited_before(
                            q,
                            r as int,
                            c as int,
                        ) && grid.in_bounds(p) && p == first_pick_target(q))),
                decreases columns - c,
            {
                let cur = (r, c);
                proof {
                    assert(grid.in_bounds(cur));
                    assert(topology_ok(grid.cell_at(cur), rows, columns, r, c));
                }
                let (north_opt, east_opt) = {
                    let cref = grid.cell(r, c).unwrap();
                    (cref.north(), cref.east())
                };
                let mut neighbors: Vec<(i32, i32)> = Vec::new();
                if let Some(n) = north_opt {
                    neighbors.push(n);
                }
                if let Some(e) = east_opt {
                    neighbors.push(e);
                }
                if neighbors.len() > 0 {
                    let k = rng.next_below(neighbors.len());
                    let nb = neighbors[k];
                    proof {
                        assert(north_or_east_of(nb, cur));
                        assert(grid.in_bounds(nb));
                        assert(adjacent(cur, nb));
                        assert(cur != ne);
                        if grid.linked(cur, nb) {
                            assert(visited_before(cur, r as int, c as int) || (visited_before(nb, r as int, c as int)
                                && north_or_east_of(cur, nb)));
                            assert(false);
                        }
                    }
                    let ghost pre = *grid;
                    grid.link(cur, nb);
                    proof {
                        assert forall|p: (i32, i32), q: (i32, i32)|
                            #[trigger] grid.linked(p, q) implies (visited_before(p, r as int, c + 1)
                            && north_or_east_of(q, p)) || (grid.in_bounds(q) && visited_before(q, r as int, c + 1)
                            && north_or_east_of(p, q)) by {
                            if pre.linked(p, q) {
                            } else {
                                assert((p == cur && q == nb) || (p == nb && q == cur));
                            }
                        }
                        if columns >= 2 && cur == (0i32, (columns - 2) as i32) {
                            assert(north_opt is None);
                            assert(nb == ne);
                        }
                        if columns == 1 && cur == (1i32, 0i32) {
                            assert(east_opt is None);
                            assert(nb == ne);
                        }
                        assert forall|x: (i32, i32), y: (i32, i32)| #[trigger]
                            pre.linked(x, y) implies grid.linked(x, y) by {}
                        // boundary cells have a single candidate, so their
                        // passage is forced
                        if r == 0 {
                            assert(north_opt is None);
                            assert(nb == (r, (c + 1) as i32));
                        }
                        if c == columns - 1 {
                            assert(east_opt is None);
                            assert(nb == (((r - 1) as i32), c));
                        }
                        if rng0 == RandomSource::First {
                            // the first candidate is north where it exists
                            assert(k == 0);
                            assert(nb == first_pick_target(cur)) by {
                                if r >= 1 {
                                    assert(neighbors@[0] == (((r - 1) as i32), c));
                                } else {
                                    assert(north_opt is None);
                                    assert(neighbors@[0] == (r, ((c + 1) as i32)));
                                }
                            }
                            assert forall|p: (i32, i32), q: (i32, i32)|
                                #[trigger] grid.linked(p, q) <==> ((grid.in_bounds(p) && visited_before(
                                p,
                                r as int,
                                c + 1,
                            ) && grid.in_bounds(q) && q == first_pick_target(p)) || (
                            grid.in_bounds(q) && visited_before(q, r as int, c + 1) && grid.in_bounds(p) && p
                                == first_pick_target(q))) by {
                                if grid.linked(p, q) {
                                    if !pre.linked(p, q) {
                                        assert((p == cur && q == nb) || (p == nb && q == cur));
                                    }
                                } else {
                                    if (grid.in_bounds(p) && visited_before(p, r as int, c + 1)
                                        && grid.in_bounds(q)
                                        && q == first_pick_target(p)) || (grid.in_bounds(q) && visited_before(
                                        q,
                                        r as int,
                                        c + 1,
                                    ) && grid.in_bounds(p) && p == first_pick_target(q)) {
                                        if visited_before(p, r as int, c as int)
                                            || visited_before(q, r as int, c as int) {
                                            assert(pre.linked(p, q));
                                        } else {
                                            assert(p == cur || q == cur);
                                            assert(grid.linked(cur, nb) && grid.linked(nb, cur));
                                        }
                                        assert(false);
                                    }
                                }
                            }
                        }
                    }
                } else {
                    proof {
                        assert(north_opt is None && east_opt is None);
                        assert(r == 0 && c == columns - 1);
                        assert(cur == ne);
                        if rng0 == RandomSource::First {
                            assert forall|p: (i32, i32), q: (i32, i32)|
                                #[trigger] grid.linked(p, q) <==> ((grid.in_bounds(p) && visited_before(
                                p,
                                r as int,
                                c + 1,
                            ) && grid.in_bounds(q) && q == first_pick_target(p)) || (
                            grid.in_bounds(q) && visited_before(q, r as int, c + 1) && grid.in_bounds(p) && p
                                == first_pick_target(q))) by {
                                // the corner's would-be target lies off the grid
                                assert(!grid.in_bounds(first_pick_target(cur)));
                                if !grid.linked(p, q) {
                                    if (grid.in_bounds(p) && visited_before(p, r as int, c + 1)
                                        && grid.in_bounds(q)
                                        && q == first_pick_target(p)) || (grid.in_bounds(q) && visited_before(
                                        q,
                                        r as int,
                                        c + 1,
                                    ) && grid.in_bounds(p) && p == first_pick_target(q)) {
                                        if visited_before(p, r as int, c as int)
                                            || visited_before(q, r as int, c as int) {
                                            assert(grid.linked(p, q));
                                        } else {
                                            assert(p == cur || q == cur);
                                        }
                                        assert(false);
                                    }
                                }
                            }
                        }
                    }
                }
                c = c + 1;
            }
            proof {
                assert(r * columns + columns == (r + 1) * columns) by (nonlinear_arith);

                assert(visited_before(ne, r as int, columns as int) == visited_before(ne, r + 1, 0));
                if rng0 == RandomSource::First {
                    assert forall|p: (i32, i32), q: (i32, i32)|
                        #[trigger] grid.linked(p, q) <==> ((grid.in_bounds(p) && visited_before(p, r + 1, 0)
                            && grid.in_bounds(q) && q == first_pick_target(p)) || (grid.in_bounds(q) && visited_before(
                            q,
                            r + 1,
                            0,
                        ) && grid.in_bounds(p) && p == first_pick_target(q))) by {
                        // for on-grid coordinates the two row boundaries agree
                        if grid.in_bounds(p) {
                            assert(visited_before(p, r as int, columns as int) == visited_before(
                                p,
                                r + 1,
                                0,
                            ));
                        }
                        if grid.in_bounds(q) {
                            assert(visited_before(q, r as int, columns as int) == visited_before(
                                q,
                                r + 1,
                                0,
                            ));
                        }
                    }
                }
            }
            r = r + 1;
        }
        proof {
            assert(grid.total_links() == 2 * (rows * columns - 1)) by {
                assert(visited_before(ne, rows as int, 0));
                assert(rows * columns == grid.size());
            }
            assert forall|a: (i32, i32), b: (i32, i32)|
                grid.in_bounds(a) && grid.in_bounds(b) implies exists|n: nat| #[trigger] reaches(
                *grid,
                a,
                b,
                n,
            ) by {
                lemma_escape_to_corner(*grid, a);
                lemma_escape_to_corner(*grid, b);
                let n1 = choose|n: nat| reaches(*grid, a, ne, n);
                let n2 = choose|n: nat| reaches(*grid, b, ne, n);
                lemma_reaches_back(*grid, b, ne, n2);
                lemma_reaches_join(*grid, a, ne, b, n1, n2);
                assert(reaches(*grid, a, b, (n1 + n2) as nat));
            }
            if rng0 == RandomSource::First {
                assert forall|p: (i32, i32), q: (i32, i32)|
                    #[trigger] grid.linked(p, q) <==> first_pick_edge(*grid, p, q) by {
                    if grid.linked(p, q) {
                        assert(visited_before(p, rows as int, 0) || visited_before(
                            q,
                            rows as int,
                            0,
                        ));
                        assert(grid.in_bounds(p) && grid.in_bounds(q));
                    }
                    if first_pick_edge(*grid, p, q) {
                        assert(visited_before(p, rows as int, 0) && visited_before(
                            q,
                            rows as int,
                            0,
                        ));
                        if p.0 >= 1 && q == (((p.0 - 1) as i32), p.1) {
                            assert(q == first_pick_target(p));
                        } else if q.0 >= 1 && p == (((q.0 - 1) as i32), q.1) {
                            assert(p == first_pick_target(q));
                        } else {
                            assert(p.0 == 0 && q.0 == 0);
                            if p.1 + 1 == q.1 {
                                assert(q == first_pick_target(p));
                            } else {
                                assert(p == first_pick_target(q));
                            }
                        }
                    }
                }
            }
            if grid.size() >= 2 {
                assert forall|p: (i32, i32)| grid.in_bounds(p) implies (#[trigger] grid.cell_at(
                    p,
                )).links@.len() > 0 by {
                    if p == ne {
                        if columns >= 2 {
                            assert(visited_before((0i32, (columns - 2) as i32), rows as int, 0));
                        } else {
                            assert(rows >= 2) by (nonlinear_arith)
                                requires
                                    rows * columns >= 2,
                                    columns == 1,
                                    rows >= 1,
                            ;
                            assert(visited_before((1i32, 0i32), rows as int, 0));
                        }
                    } else {
                        assert(visited_before(p, rows as int, 0));
                    }
                }
            }
        }
    }
}

/// With every cell but the north-east corner carving north or east, the
/// corner is reachable from everywhere: each carved step moves strictly
/// closer to it.
proof fn lemma_escape_to_corner(g: Grid, p: (i32, i32))
    requires
        g.wf(),
        g.in_bounds(p),
        forall|q: (i32, i32)|
            g.in_bounds(q) && q != (0i32, (g.columns - 1) as i32) ==> (g.linked(
                q,
                (((q.0 - 1) as i32), q.1),
            ) || #[trigger] g.linked(q, (q.0, ((q.1 + 1) as i32)))),
    ensures
        exists|n: nat| #[trigger] reaches(g, p, (0i32, (g.columns - 1) as i32), n),
    decreases p.0 + (g.columns - 1 - p.1),
{
    let ne = (0i32, (g.columns - 1) as i32);
    if p == ne {
        assert(reaches(g, p, ne, 0));
    } else {
        let north = (((p.0 - 1) as i32), p.1);
        let east = (p.0, ((p.1 + 1) as i32));
        assert(g.linked(p, north) || g.linked(p, east));
        let q: (i32, i32) = if g.linked(p, north) {
            north
        } else {
            east
        };
        assert(g.in_bounds(q));
        lemma_escape_to_corner(g, q);
        let n = choose|n: nat| reaches(g, q, ne, n);
        assert(g.linked(p, q) && reaches(g, q, ne, n));
        assert(reaches(g, p, ne, (n + 1) as nat));
    }
}

} // verus!
