use vstd::prelude::*;

use crate::algorithms::On;
use crate::algorithms::carved_connected;
use crate::algorithms::connected;
use crate::algorithms::fully_linked;
use crate::algorithms::lemma_all_unlinked_total;
use crate::algorithms::lemma_chain_reaches;
use crate::algorithms::joined;
use crate::algorithms::lemma_reaches_join;
use crate::algorithms::lemma_reaches_monotone;
use crate::algorithms::north_or_east_of;
use crate::algorithms::reaches;
use crate::algorithms::spanning_edge_count;
use crate::algorithms::visited_before;
use crate::grid::Grid;
use crate::grid::adjacent;
use crate::random::RandomSource;

verus! {

/// The bias this strategy always leaves in the northern row: its runs
/// never close before the eastern boundary, and that forced close carves
/// nothing, so the row ends as one unbroken eastward corridor.
pub open spec fn north_row_corridor(g: Grid) -> bool {
    forall|c: int|
        0 <= c < g.columns - 1 ==> #[trigger] g.linked((0i32, c as i32), (0i32, (c + 1) as i32))
}

/// Row by row, grows a run of cells joined eastward; each cell either
/// extends the run east or closes it by carving north from a random member.
/// The northern row only extends east; the eastern boundary always closes.
pub struct Sidewinder {}

impl Sidewinder {
    pub fn new() -> (r: Sidewinder) {
        Sidewinder {  }
    }
}

impl On for Sidewinder {
    /// A finished run always carves a spanning count of passages joining
    /// every pair of cells, leaves the northern row as one unbroken
    /// eastward corridor, and, on a grid of at least two cells, leaves no
    /// cell unlinked.
    open spec fn guarantees(&self, pre: Grid, rng: RandomSource, post: Grid) -> bool {
        &&& spanning_edge_count(post)
        &&& connected(post)
        &&& north_row_corridor(post)
        &&& pre.size() >= 2 ==> fully_linked(post)
    }

    #[verifier::rlimit(100)]
    fn on(&self, grid: &mut Grid, rng: &mut RandomSource) {
        let rows = grid.rows();
        let columns = grid.columns();
        let ghost ne: (i32, i32) = (0, (columns - 1) as i32);
        proof {
            lemma_all_unlinked_total(*grid);
        }
        let mut r: i32 = 0;
        while r < rows
            invariant
                grid.wf(),
                grid.rows == rows,
                grid.columns == columns,
                ne == (0i32, (columns - 1) as i32),
                0 <= r <= rows,
                forall|p: (i32, i32), q: (i32, i32)|
                    #[trigger] grid.linked(p, q) ==> (visited_before(p, r as int, 0)
                        && north_or_east_of(q, p)) || (visited_before(q, r as int, 0)
                        && north_or_east_of(p, q)),
                forall|p: (i32, i32)|
                    grid.in_bounds(p) && visited_before(p, r as int, 0) && p != ne ==> (
                    #[trigger] grid.cell_at(p)).links@.len() > 0,
                columns >= 2 && visited_before((0i32, (columns - 2) as i32), r as int, 0)
                    ==> grid.cell_at(ne).links@.len() > 0,
                columns == 1 && visited_before((1i32, 0i32), r as int, 0) ==> grid.cell_at(
                    ne,
                ).links@.len() > 0,
                forall|j: int|
                    0 <= j < columns - 1 && visited_before((0i32, j as i32), r as int, 0)
                        ==> #[trigger] grid.linked((0i32, j as i32), (0i32, (j + 1) as i32)),
                grid.total_links() == 2 * (r * columns - (if visited_before(ne, r as int, 0) {
                    1int
                } else {
                    0int
                })),
                carved_connected(*grid),
            decreases rows - r,
        {
            let mut run: Vec<(i32, i32)> = Vec::new();
            let ghost mut run_start: int = 0;
            proof {
                reveal(crate::algorithms::joined);
                assert forall|p: (i32, i32), q: (i32, i32)|
                    grid.in_bounds(p) && grid.in_bounds(q) && (#[trigger] grid.cell_at(
                        p,
                    )).links@.len() > 0 && (#[trigger] grid.cell_at(q)).links@.len() > 0
                    implies joined(*grid, p, q) by {
                    assert(exists|n: nat| #[trigger] reaches(*grid, p, q, n));
                }
            }
            let mut c: i32 = 0;
            while c < columns
                invariant
                    grid.wf(),
                    grid.rows == rows,
                    grid.columns == columns,
                    ne == (0i32, (columns - 1) as i32),
                    0 <= r < rows,
                    0 <= c <= columns,
                    0 <= run_start,
                    run_start + run@.len() == c,
                    forall|j: int|
                        0 <= j < run@.len() ==> #[trigger] run@[j] == (r, (run_start + j) as i32),
                    forall|j: int|
                        0 <= j < run@.len() ==> grid.linked(
                            #[trigger] run@[j],
                            (r, (run_start + j + 1) as i32),
                        ),
                    forall|j: int|
                        0 <= j < run@.len() ==> !(#[trigger] grid.cell_at(
                            run@[j],
                        )).linked_to((((r - 1) as i32), (run_start + j) as i32)),
                    r == 0 ==> run_start == 0 || run_start == columns,
                    c == columns ==> run@.len() == 0 && run_start == columns,
                    forall|p: (i32, i32), q: (i32, i32)|
                        #[trigger] grid.linked(p, q) ==> (visited_before(p, r as int, c as int)
                            && north_or_east_of(q, p)) || (visited_before(q, r as int, c as int)
                            && north_or_east_of(p, q)),
                    forall|p: (i32, i32)|
                        grid.in_bounds(p) && visited_before(p, r as int, c as int) && p != ne
                            ==> (#[trigger] grid.cell_at(p)).links@.len() > 0,
                    columns >= 2 && visited_before((0i32, (columns - 2) as i32), r as int, c as int)
                        ==> grid.cell_at(ne).links@.len() > 0,
                    columns == 1 && visited_before((1i32, 0i32), r as int, c as int)
                        ==> grid.cell_at(ne).links@.len() > 0,
                    forall|j: int|
                        0 <= j < columns - 1 && visited_before((0i32, j as i32), r as int, c as int)
                            ==> #[trigger] grid.linked((0i32, j as i32), (0i32, (j + 1) as i32)),
                    grid.total_links() == 2 * (r * columns + c - (if visited_before(
                        ne,
                        r as int,
                        c as int,
                    ) {
                        1int
                    } else {
                        0int
                    })),
                    forall|p: (i32, i32), q: (i32, i32)|
                        grid.in_bounds(p) && grid.in_bounds(q) && (#[trigger] grid.cell_at(
                            p,
                        )).links@.len() > 0 && (#[trigger] grid.cell_at(q)).links@.len() > 0 && !(
                        p.0 == r && run_start <= p.1 <= c) && !(q.0 == r && run_start <= q.1 <= c)
                            ==> joined(*grid, p, q),
                decreases columns - c,
            {
                let cur = (r, c);
                proof {
                    assert(grid.in_bounds(cur));
                    if grid.cell_at(cur).linked_to((((r - 1) as i32), c)) {
                        assert(grid.linked(cur, (((r - 1) as i32), c)));
                        assert(false);
                    }
                }
                run.push(cur);
                let at_east = c == columns - 1;
                let at_north = r == 0;
                let mut should_close = at_east;
                if !at_east && !at_north {
                    should_close = rng.next_below(2) == 0;
                }
                if should_close {
                    let idx = rng.next_below(run.len());
                    let m = run[idx];
                    proof {
                        assert(run@[idx as int] == (r, (run_start + idx) as i32));
                        assert(grid.in_bounds(m));
                    }
                    if r > 0 {
                        let b = (r - 1, m.1);
                        proof {
                            assert(adjacent(m, b));
                            assert(grid.in_bounds(b));
                            if idx < run.len() - 1 {
                                assert(!grid.cell_at(m).linked_to(b));
                            } else {
                                assert(m == cur);
                                if grid.linked(cur, b) {
                                    assert(false);
                                }
                            }
                        }
                        let ghost pre = *grid;
                        grid.link(m, b);
                        proof {
                            assert forall|p: (i32, i32), q: (i32, i32)|
                                #[trigger] grid.linked(p, q) implies (visited_before(
                                p,
                                r as int,
                                c + 1,
                            ) && north_or_east_of(q, p)) || (visited_before(q, r as int, c + 1)
                                && north_or_east_of(p, q)) by {
                                if pre.linked(p, q) {
                                } else {
                                    assert((p == m && q == b) || (p == b && q == m));
                                }
                            }
                            // the run chain, member by member, in the new grid
                            let seg = run@;
                            assert forall|j: int|
                                0 <= j < seg.len() implies #[trigger] seg[j] == (
                                r,
                                (run_start + j) as i32,
                            ) by {}
                            assert forall|x: (i32, i32), y: (i32, i32)| #[trigger]
                                pre.linked(x, y) implies grid.linked(x, y) by {}
                            // the corner aside, every visited cell above is carved
                            if pre.cell_at(b).links@.len() == 0 {
                                assert(visited_before(b, r as int, c as int));
                                assert(b == ne);
                                if columns >= 2 {
                                    assert(visited_before(
                                        (0i32, (columns - 2) as i32),
                                        r as int,
                                        c as int,
                                    ));
                                    assert(false);
                                }
                                assert(columns == 1 && ne == (0i32, 0i32));
                                assert(r == 1 && c == 0 && run_start == 0);
                                assert forall|x: (i32, i32)|
                                    pre.in_bounds(x) && (#[trigger] pre.cell_at(
                                        x,
                                    )).links@.len() > 0 implies x.0 == r && run_start <= x.1
                                    <= c by {
                                    let t = pre.cell_at(x).links@[0];
                                    assert(pre.cell_at(x).linked_to(t));
                                    assert(pre.linked(x, t));
                                    assert(pre.in_bounds(t));
                                    assert((visited_before(x, r as int, c as int)
                                        && north_or_east_of(t, x)) || (visited_before(
                                        t,
                                        r as int,
                                        c as int,
                                    ) && north_or_east_of(x, t)));
                                    if visited_before(x, r as int, c as int) {
                                        assert(x == (0i32, 0i32));
                                        assert(x == b);
                                        assert(false);
                                    } else {
                                        assert(visited_before(t, r as int, c as int));
                                        assert(t == (0i32, 0i32));
                                        assert(north_or_east_of(x, t));
                                        assert(false);
                                    }
                                }
                            }
                            assert forall|k: int, k2: int|
                                0 <= k && k2 == k + 1 && k2 < seg.len() implies (
                            #[trigger] grid.linked(seg[k], seg[k2])) && grid.linked(
                                seg[k2],
                                seg[k],
                            ) by {
                                assert(seg[k] == (r, (run_start + k) as i32));
                                assert(seg[k2] == (r, (run_start + k + 1) as i32));
                                assert(pre.linked(seg[k], (r, (run_start + k + 1) as i32)));
                                assert(grid.linked(seg[k], seg[k2]));
                                crate::grid::lemma_link_symmetry(*grid, seg[k], seg[k2]);
                            }
                            // every pair of carved cells is joined again
                            assert forall|p: (i32, i32), q: (i32, i32)|
                                grid.in_bounds(p) && grid.in_bounds(q) && (
                            #[trigger] grid.cell_at(p)).links@.len() > 0 && (
                            #[trigger] grid.cell_at(q)).links@.len() > 0 implies joined(
                                *grid,
                                p,
                                q,
                            ) by {
                                lemma_close_merge(pre, *grid, seg, run_start, r, c, m, b, idx as int, p, q);
                            }
                            // the closing cell itself carries a link now
                            if cur != m {
                                assert(run@.len() >= 2);
                                assert(run@[run@.len() - 2] == (r, (c - 1) as i32));
                                assert(pre.linked(run@[run@.len() - 2], cur));
                                assert(grid.linked(run@[run@.len() - 2], cur));
                                assert(grid.cell_at(cur).linked_to(run@[run@.len() - 2]));
                            }
                            if columns == 1 && r == 1 {
                                assert(run_start == 0 && c == 0);
                                assert(idx == 0 && m == cur);
                                assert(b == ne);
                            }
                        }
                    } else {
                        proof {
                            assert(at_east);
                            assert(cur == ne);
                            if columns >= 2 {
                                assert(run@[c - 1] == (0i32, (columns - 2) as i32));
                                assert(grid.linked(run@[c - 1], ne));
                                assert(grid.cell_at(ne).linked_to(run@[c - 1]));
                            }
                            assert(run_start == 0);
                            let seg = run@;
                            assert forall|j: int|
                                0 <= j < seg.len() implies #[trigger] seg[j] == (
                                r,
                                j as i32,
                            ) by {}
                            assert forall|k: int, k2: int|
                                0 <= k && k2 == k + 1 && k2 < seg.len() implies (
                            #[trigger] grid.linked(seg[k], seg[k2])) && grid.linked(
                                seg[k2],
                                seg[k],
                            ) by {
                                assert(grid.linked(seg[k], (r, (run_start + k + 1) as i32)));
                                crate::grid::lemma_link_symmetry(*grid, seg[k], seg[k2]);
                            }
                            // in the top row every carved cell sits on this chain
                            assert forall|p: (i32, i32), q: (i32, i32)|
                                grid.in_bounds(p) && grid.in_bounds(q) && (
                            #[trigger] grid.cell_at(p)).links@.len() > 0 && (
                            #[trigger] grid.cell_at(q)).links@.len() > 0 implies joined(
                                *grid,
                                p,
                                q,
                            ) by {
                                reveal(crate::algorithms::joined);
                                let kp = lemma_top_row_index(*grid, r, c, p);
                                let kq = lemma_top_row_index(*grid, r, c, q);
                                assert(seg[kp] == p && seg[kq] == q);
                                lemma_chain_reaches(*grid, seg, kp, kq);
                            }
                        }
                    }
                    run.clear();
                    proof {
                        run_start = c + 1;
                    }
                } else {
                    let b = (r, c + 1);
                    proof {
                        assert(!at_east);
                        assert(grid.in_bounds(b));
                        assert(adjacent(cur, b));
                        if grid.linked(cur, b) {
                            assert(false);
                        }
                    }
                    let ghost pre = *grid;
                    grid.link(cur, b);
                    proof {
                        assert forall|p: (i32, i32), q: (i32, i32)|
                            #[trigger] grid.linked(p, q) implies (visited_before(
                            p,
                            r as int,
                            c + 1,
                        ) && north_or_east_of(q, p)) || (visited_before(q, r as int, c + 1)
                            && north_or_east_of(p, q)) by {
                            if pre.linked(p, q) {
                            } else {
                                assert((p == cur && q == b) || (p == b && q == cur));
                            }
                        }
                        assert forall|j: int|
                            0 <= j < run@.len() implies !(#[trigger] grid.cell_at(
                            run@[j],
                        )).linked_to((((r - 1) as i32), (run_start + j) as i32)) by {
                            let nj = (((r - 1) as i32), (run_start + j) as i32);
                            if grid.cell_at(run@[j]).linked_to(nj) {
                                assert(grid.linked(run@[j], nj));
                                assert(pre.linked(run@[j], nj) || (run@[j] == cur && nj == b) || (
                                run@[j] == b && nj == cur));
                            }
                        }
                        if columns >= 2 && cur == (0i32, (columns - 2) as i32) {
                            assert(b == ne);
                            assert(grid.cell_at(ne).links@.len() > 0);
                        }
                        // cells beyond the run stay pairwise joined
                        assert forall|p: (i32, i32), q: (i32, i32)|
                            grid.in_bounds(p) && grid.in_bounds(q) && (#[trigger] grid.cell_at(
                                p,
                            )).links@.len() > 0 && (#[trigger] grid.cell_at(q)).links@.len() > 0
                                && !(p.0 == r && run_start <= p.1 <= c + 1) && !(q.0 == r
                                && run_start <= q.1 <= c + 1) implies joined(*grid, p, q) by {
                            reveal(crate::algorithms::joined);
                            assert(p != cur && p != b && q != cur && q != b);
                            assert(grid.cell_at(p) == pre.cell_at(p));
                            assert(grid.cell_at(q) == pre.cell_at(q));
                            assert(joined(pre, p, q));
                            assert(exists|n: nat| #[trigger] reaches(pre, p, q, n));
                            let n = choose|n: nat| #[trigger] reaches(pre, p, q, n);
                            lemma_reaches_monotone(pre, *grid, p, q, n);
                        }
                    }
                }
                c = c + 1;
            }
            proof {
                assert(r * columns + columns == (r + 1) * columns) by (nonlinear_arith);
                assert(visited_before(ne, r as int, columns as int) == visited_before(
                    ne,
                    r + 1,
                    0,
                ));
                // the row closed its last run: no cell is excluded any more
                assert forall|p: (i32, i32), q: (i32, i32)|
                    grid.in_bounds(p) && grid.in_bounds(q) && grid.cell_at(p).links@.len() > 0
                        && grid.cell_at(q).links@.len() > 0 implies exists|n: nat|
                    #[trigger] reaches(*grid, p, q, n) by {
                    reveal(crate::algorithms::joined);
                    assert(run_start == columns);
                    assert(!(p.0 == r && run_start <= p.1 <= c));
                    assert(!(q.0 == r && run_start <= q.1 <= c));
                    assert(joined(*grid, p, q));
                }
            }
            r = r + 1;
        }
        proof {
            assert(grid.total_links() == 2 * (rows * columns - 1)) by {
                assert(visited_before(ne, rows as int, 0));
                assert(rows * columns == grid.size());
            }
            assert forall|a: (i32, i32), b2: (i32, i32)|
                grid.in_bounds(a) && grid.in_bounds(b2) implies exists|n: nat| #[trigger] reaches(
                *grid,
                a,
                b2,
                n,
            ) by {
                if grid.size() >= 2 {
                    assert(grid.cell_at(a).links@.len() > 0 && grid.cell_at(b2).links@.len() > 0);
                } else {
                    assert(rows == 1 && columns == 1) by (nonlinear_arith)
                        requires
                            rows >= 1,
                            columns >= 1,
                            grid.size() == rows * columns,
                            grid.size() < 2,
                        ;
                    assert(a == (0i32, 0i32) && b2 == (0i32, 0i32));
                    assert(reaches(*grid, a, b2, 0));
                }
            }
            if grid.size() >= 2 {
                assert forall|p: (i32, i32)| grid.in_bounds(p) implies (#[trigger] grid.cell_at(
                    p,
                )).links@.len() > 0 by {
                    if p == ne {
                        if columns >= 2 {
                            assert(visited_before(
                                (0i32, (columns - 2) as i32),
                                rows as int,
                                0,
                            ));
                        } else {
                            assert(rows >= 2) by (nonlinear_arith)
                                requires
                                    rows * columns >= 2,
                                    columns == 1,
                                    rows >= 1,
                            ;
                            assert(visited_before((1i32, 0i32), rows as int, 0));
                        }
                    } else {
                        assert(visited_before(p, rows as int, 0));
                    }
                }
            }
        }
    }
}

/// Closing a run joins the whole segment to the carved region above: every
/// pair of carved cells is joined once the chosen member carves north.
#[verifier::rlimit(60)]
proof fn lemma_close_merge(
    pre: Grid,
    g: Grid,
    seg: Seq<(i32, i32)>,
    run_start: int,
    r: i32,
    c: i32,
    m: (i32, i32),
    b: (i32, i32),
    idx: int,
    p: (i32, i32),
    q: (i32, i32),
)
    requires
        g.rows == pre.rows,
        g.columns == pre.columns,
        pre.in_bounds(b),
        0 <= r < pre.rows,
        0 <= c < pre.columns,
        0 <= run_start,
        run_start + seg.len() == c + 1,
        seg.len() >= 1,
        forall|j: int| 0 <= j < seg.len() ==> #[trigger] seg[j] == (r, (run_start + j) as i32),
        forall|k: int, k2: int|
            0 <= k && k2 == k + 1 && k2 < seg.len() ==> (#[trigger] g.linked(seg[k], seg[k2]))
                && g.linked(seg[k2], seg[k]),
        0 <= idx < seg.len(),
        m == seg[idx],
        b.0 != r,
        g.linked(m, b),
        g.linked(b, m),
        forall|x: (i32, i32), y: (i32, i32)| #[trigger] pre.linked(x, y) ==> g.linked(x, y),
        forall|x: (i32, i32)|
            pre.in_bounds(x) && x != m && x != b ==> g.cell_at(x) == pre.cell_at(x),
        forall|x: (i32, i32), y: (i32, i32)|
            pre.in_bounds(x) && pre.in_bounds(y) && (#[trigger] pre.cell_at(x)).links@.len() > 0
                && (#[trigger] pre.cell_at(y)).links@.len() > 0 && !(x.0 == r && run_start <= x.1
                <= c) && !(y.0 == r && run_start <= y.1 <= c) ==> joined(pre, x, y),
        pre.cell_at(b).links@.len() > 0 || (forall|x: (i32, i32)|
            pre.in_bounds(x) && (#[trigger] pre.cell_at(x)).links@.len() > 0 ==> x.0 == r
                && run_start <= x.1 <= c),
        g.in_bounds(p),
        g.in_bounds(q),
        g.cell_at(p).links@.len() > 0,
        g.cell_at(q).links@.len() > 0,
    ensures
        joined(g, p, q),
{
    reveal(crate::algorithms::joined);
    // from any carved cell to the north end of the fresh passage
    let np = lemma_reach_to_close(pre, g, seg, run_start, r, c, m, b, idx, p);
    // and from there to any carved cell
    let nq = lemma_reach_from_close(pre, g, seg, run_start, r, c, m, b, idx, q);
    lemma_reaches_join(g, p, b, q, np, nq);
    assert(reaches(g, p, q, (np + nq) as nat));
}

/// Steps from a carved cell to the north end of the fresh passage.
proof fn lemma_reach_to_close(
    pre: Grid,
    g: Grid,
    seg: Seq<(i32, i32)>,
    run_start: int,
    r: i32,
    c: i32,
    m: (i32, i32),
    b: (i32, i32),
    idx: int,
    p: (i32, i32),
) -> (np: nat)
    requires
        g.rows == pre.rows,
        g.columns == pre.columns,
        pre.in_bounds(b),
        0 <= r < pre.rows,
        0 <= c < pre.columns,
        0 <= run_start,
        run_start + seg.len() == c + 1,
        seg.len() >= 1,
        forall|j: int| 0 <= j < seg.len() ==> #[trigger] seg[j] == (r, (run_start + j) as i32),
        forall|k: int, k2: int|
            0 <= k && k2 == k + 1 && k2 < seg.len() ==> (#[trigger] g.linked(seg[k], seg[k2]))
                && g.linked(seg[k2], seg[k]),
        0 <= idx < seg.len(),
        m == seg[idx],
        b.0 != r,
        g.linked(m, b),
        g.linked(b, m),
        forall|x: (i32, i32), y: (i32, i32)| #[trigger] pre.linked(x, y) ==> g.linked(x, y),
        forall|x: (i32, i32)|
            pre.in_bounds(x) && x != m && x != b ==> g.cell_at(x) == pre.cell_at(x),
        forall|x: (i32, i32), y: (i32, i32)|
            pre.in_bounds(x) && pre.in_bounds(y) && (#[trigger] pre.cell_at(x)).links@.len() > 0
                && (#[trigger] pre.cell_at(y)).links@.len() > 0 && !(x.0 == r && run_start <= x.1
                <= c) && !(y.0 == r && run_start <= y.1 <= c) ==> joined(pre, x, y),
        pre.cell_at(b).links@.len() > 0 || (forall|x: (i32, i32)|
            pre.in_bounds(x) && (#[trigger] pre.cell_at(x)).links@.len() > 0 ==> x.0 == r
                && run_start <= x.1 <= c),
        g.in_bounds(p),
        g.cell_at(p).links@.len() > 0,
    ensures
        reaches(g, p, b, np),
{
    reveal(crate::algorithms::joined);
    if p == b {
        assert(reaches(g, p, b, 0));
        0
    } else if p.0 == r && run_start <= p.1 <= c {
        let kp = p.1 - run_start;
        assert(seg[kp] == p);
        lemma_chain_reaches(g, seg, kp, idx);
        let n = choose|n: nat| #[trigger] reaches(g, p, m, n);
        crate::algorithms::lemma_reaches_extend(g, p, m, b, n);
        assert(reaches(g, p, b, (n + 1) as nat));
        (n + 1) as nat
    } else {
        assert(g.cell_at(p) == pre.cell_at(p));
        assert(pre.cell_at(p).links@.len() > 0);
        assert(pre.cell_at(b).links@.len() > 0) by {
            if pre.cell_at(b).links@.len() == 0 {
                assert(p.0 == r && run_start <= p.1 <= c);
            }
        }
        assert(!(b.0 == r && run_start <= b.1 <= c));
        assert(joined(pre, p, b));
        assert(exists|n: nat| #[trigger] reaches(pre, p, b, n));
        let n = choose|n: nat| #[trigger] reaches(pre, p, b, n);
        lemma_reaches_monotone(pre, g, p, b, n);
        n
    }
}

/// Steps from the north end of the fresh passage to a carved cell.
proof fn lemma_reach_from_close(
    pre: Grid,
    g: Grid,
    seg: Seq<(i32, i32)>,
    run_start: int,
    r: i32,
    c: i32,
    m: (i32, i32),
    b: (i32, i32),
    idx: int,
    q: (i32, i32),
) -> (nq: nat)
    requires
        g.rows == pre.rows,
        g.columns == pre.columns,
        pre.in_bounds(b),
        0 <= r < pre.rows,
        0 <= c < pre.columns,
        0 <= run_start,
        run_start + seg.len() == c + 1,
        seg.len() >= 1,
        forall|j: int| 0 <= j < seg.len() ==> #[trigger] seg[j] == (r, (run_start + j) as i32),
        forall|k: int, k2: int|
            0 <= k && k2 == k + 1 && k2 < seg.len() ==> (#[trigger] g.linked(seg[k], seg[k2]))
                && g.linked(seg[k2], seg[k]),
        0 <= idx < seg.len(),
        m == seg[idx],
        b.0 != r,
        g.linked(m, b),
        g.linked(b, m),
        forall|x: (i32, i32), y: (i32, i32)| #[trigger] pre.linked(x, y) ==> g.linked(x, y),
        forall|x: (i32, i32)|
            pre.in_bounds(x) && x != m && x != b ==> g.cell_at(x) == pre.cell_at(x),
        forall|x: (i32, i32), y: (i32, i32)|
            pre.in_bounds(x) && pre.in_bounds(y) && (#[trigger] pre.cell_at(x)).links@.len() > 0
                && (#[trigger] pre.cell_at(y)).links@.len() > 0 && !(x.0 == r && run_start <= x.1
                <= c) && !(y.0 == r && run_start <= y.1 <= c) ==> joined(pre, x, y),
        pre.cell_at(b).links@.len() > 0 || (forall|x: (i32, i32)|
            pre.in_bounds(x) && (#[trigger] pre.cell_at(x)).links@.len() > 0 ==> x.0 == r
                && run_start <= x.1 <= c),
        g.in_bounds(q),
        g.cell_at(q).links@.len() > 0,
    ensures
        reaches(g, b, q, nq),
{
    reveal(crate::algorithms::joined);
    if q == b {
        assert(reaches(g, b, q, 0));
        0
    } else if q.0 == r && run_start <= q.1 <= c {
        let kq = q.1 - run_start;
        assert(seg[kq] == q);
        lemma_chain_reaches(g, seg, idx, kq);
        let n = choose|n: nat| #[trigger] reaches(g, m, q, n);
        assert(g.linked(b, m) && reaches(g, m, q, n));
        assert(reaches(g, b, q, (n + 1) as nat));
        (n + 1) as nat
    } else {
        assert(g.cell_at(q) == pre.cell_at(q));
        assert(pre.cell_at(q).links@.len() > 0);
        assert(pre.cell_at(b).links@.len() > 0) by {
            if pre.cell_at(b).links@.len() == 0 {
                assert(q.0 == r && run_start <= q.1 <= c);
            }
        }
        assert(!(b.0 == r && run_start <= b.1 <= c));
        assert(joined(pre, b, q));
        assert(exists|n: nat| #[trigger] reaches(pre, b, q, n));
        let n = choose|n: nat| #[trigger] reaches(pre, b, q, n);
        lemma_reaches_monotone(pre, g, b, q, n);
        n
    }
}

/// While the top row is being carved, a carved cell lies on its chain; the
/// helper returns its chain index.
proof fn lemma_top_row_index(g: Grid, r: i32, c: i32, x: (i32, i32)) -> (k: int)
    requires
        g.wf(),
        r == 0,
        0 <= c < g.columns,
        g.in_bounds(x),
        g.cell_at(x).links@.len() > 0,
        forall|p: (i32, i32), q: (i32, i32)|
            #[trigger] g.linked(p, q) ==> (visited_before(p, r as int, c as int)
                && north_or_east_of(q, p)) || (visited_before(q, r as int, c as int)
                && north_or_east_of(p, q)),
    ensures
        0 <= k <= c,
        x == (0i32, k as i32),
{
    let t = g.cell_at(x).links@[0];
    assert(g.cell_at(x).linked_to(t));
    assert(g.linked(x, t));
    assert(g.in_bounds(t));
    if visited_before(x, r as int, c as int) {
        assert(x.0 == 0 && 0 <= x.1 < c);
    } else {
        assert(visited_before(t, r as int, c as int) && north_or_east_of(x, t));
        assert(t.0 == 0 && 0 <= t.1 < c);
        assert(x.0 == 0 && x.1 == t.1 + 1);
    }
    x.1 as int
}

} // verus!
