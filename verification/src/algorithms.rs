use vstd::prelude::*;

use crate::aldous_broder::AldousBroder;
use crate::binary_tree::BinaryTree;
use crate::grid::Grid;
use crate::hunt_and_kill::HuntAndKill;
use crate::recursive_backtracker::RecursiveBacktracker;
use crate::sidewinder::Sidewinder;
use crate::wilsons::Wilsons;
use crate::grid::adjacent;
use crate::grid::unlinked_count;
use crate::grid::links_total;
use crate::grid::lemma_links_total_zero;
use crate::grid::lemma_unlinked_count_positive;
use crate::grid::lemma_unlinked_count_zero;
use crate::grid::lemma_row_major_bounds;
use crate::random::RandomSource;

verus! {

/// Cells at coordinates before `(r, c)` in row-major order.
pub open spec fn visited_before(p: (i32, i32), r: int, c: int) -> bool {
    p.0 < r || (p.0 == r && p.1 < c)
}

/// Whether `x` is the north or the east topology neighbour of `y`.
pub open spec fn north_or_east_of(x: (i32, i32), y: (i32, i32)) -> bool {
    (x.0 + 1 == y.0 && x.1 == y.1) || (x.0 == y.0 && x.1 == y.1 + 1)
}

/// Every cell has joined the passage graph.
pub open spec fn fully_linked(g: Grid) -> bool {
    forall|p: (i32, i32)| g.in_bounds(p) ==> (#[trigger] g.cell_at(p)).links@.len() > 0
}

/// The passage graph carries exactly one fewer symmetric edge than the grid
/// has cells, the count a spanning tree must have.
pub open spec fn spanning_edge_count(g: Grid) -> bool {
    g.total_links() == 2 * (g.size() - 1)
}

/// A grid whose cells all carry links has `unlinked_count` zero, and the
/// other way round.
pub proof fn lemma_fully_linked_count(g: Grid)
    requires
        g.dims_ok(),
    ensures
        fully_linked(g) <==> unlinked_count(g.cells@) == 0,
{
    if fully_linked(g) {
        assert forall|i: int| 0 <= i < g.cells@.len() implies (#[trigger] g.cells@[i]).links@.len()
            > 0 by {
            let p = ((i / g.columns as int) as i32, (i % g.columns as int) as i32);
            assert(g.in_bounds(p) && g.idx(p) == i) by (nonlinear_arith)
                requires
                    1 <= g.columns,
                    1 <= g.rows,
                    0 <= i < g.cells@.len(),
                    g.cells@.len() == g.rows * g.columns,
                    p == ((i / g.columns as int) as i32, (i % g.columns as int) as i32),
                    g.idx(p) == p.0 * g.columns + p.1,
            ;
            assert(g.cell_at(p).links@.len() > 0);
        }
        lemma_unlinked_count_zero(g.cells@);
    }
    if unlinked_count(g.cells@) == 0 {
        assert forall|p: (i32, i32)| g.in_bounds(p) implies (#[trigger] g.cell_at(
            p,
        )).links@.len() > 0 by {
            lemma_row_major_bounds(g.rows as int, g.columns as int, p.0 as int, p.1 as int);
            if g.cell_at(p).links@.len() == 0 {
                lemma_unlinked_count_positive(g.cells@, g.idx(p));
            }
        }
    }
}

/// A grid with no links yet has link total zero.
pub proof fn lemma_all_unlinked_total(g: Grid)
    requires
        g.dims_ok(),
        g.all_unlinked(),
    ensures
        links_total(g.cells@) == 0,
{
    assert forall|i: int| 0 <= i < g.cells@.len() implies (#[trigger] g.cells@[i]).links@.len()
        == 0 by {
        let p = ((i / g.columns as int) as i32, (i % g.columns as int) as i32);
        assert(g.in_bounds(p) && g.idx(p) == i) by (nonlinear_arith)
            requires
                1 <= g.columns,
                1 <= g.rows,
                0 <= i < g.cells@.len(),
                g.cells@.len() == g.rows * g.columns,
                p == ((i / g.columns as int) as i32, (i % g.columns as int) as i32),
                g.idx(p) == p.0 * g.columns + p.1,
        ;
        assert(g.cell_at(p).links@.len() == 0);
    }
    lemma_links_total_zero(g.cells@);
}

/// A grid with no links yet counts every cell as unlinked.
pub proof fn lemma_all_unlinked_count(g: Grid)
    requires
        g.dims_ok(),
        g.all_unlinked(),
    ensures
        unlinked_count(g.cells@) == g.size(),
{
    assert forall|i: int| 0 <= i < g.cells@.len() implies (#[trigger] g.cells@[i]).links@.len()
        == 0 by {
        let p = ((i / g.columns as int) as i32, (i % g.columns as int) as i32);
        assert(g.in_bounds(p) && g.idx(p) == i) by (nonlinear_arith)
            requires
                1 <= g.columns,
                1 <= g.rows,
                0 <= i < g.cells@.len(),
                g.cells@.len() == g.rows * g.columns,
                p == ((i / g.columns as int) as i32, (i % g.columns as int) as i32),
                g.idx(p) == p.0 * g.columns + p.1,
        ;
        assert(g.cell_at(p).links@.len() == 0);
    }
    crate::grid::lemma_unlinked_count_full(g.cells@);
}

/// A grid holding a linked cell counts fewer unlinked cells than it has
/// cells.
pub proof fn lemma_count_drop(g: Grid, p: (i32, i32))
    requires
        g.dims_ok(),
        g.in_bounds(p),
        g.cell_at(p).links@.len() > 0,
    ensures
        unlinked_count(g.cells@) < g.cells@.len(),
{
    lemma_row_major_bounds(g.rows as int, g.columns as int, p.0 as int, p.1 as int);
    lemma_count_drop_rec(g.cells@, g.idx(p));
}

proof fn lemma_count_drop_rec(cells: Seq<crate::cell::Cell>, i: int)
    requires
        0 <= i < cells.len(),
        cells[i].links@.len() > 0,
    ensures
        unlinked_count(cells) < cells.len(),
    decreases cells.len(),
{
    crate::grid::lemma_unlinked_count_bounds(cells.drop_last());
    if i < cells.len() - 1 {
        lemma_count_drop_rec(cells.drop_last(), i);
    }
}

/// Straight-line walking distance between two coordinates.
pub open spec fn manhattan(a: (i32, i32), b: (i32, i32)) -> int {
    (if a.0 <= b.0 {
        b.0 - a.0
    } else {
        a.0 - b.0
    }) + (if a.1 <= b.1 {
        b.1 - a.1
    } else {
        a.1 - b.1
    })
}

/// When the linked region can no longer grow, it has covered the whole
/// grid: a cell with links, plus the property that every neighbour of a
/// linked cell is linked, reaches every cell of the connected rectangle.
pub proof fn lemma_linked_region_covers(g: Grid, seed: (i32, i32), target: (i32, i32))
    requires
        g.dims_ok(),
        g.in_bounds(seed),
        g.in_bounds(target),
        g.cell_at(seed).links@.len() > 0,
        forall|p: (i32, i32), q: (i32, i32)|
            g.in_bounds(p) && g.in_bounds(q) && adjacent(p, q) && (#[trigger] g.cell_at(
                p,
            )).links@.len() > 0 ==> (#[trigger] g.cell_at(q)).links@.len() > 0,
    ensures
        g.cell_at(target).links@.len() > 0,
    decreases manhattan(seed, target),
{
    if target != seed {
        let step: (i32, i32) = if target.0 < seed.0 {
            ((target.0 + 1) as i32, target.1)
        } else if target.0 > seed.0 {
            ((target.0 - 1) as i32, target.1)
        } else if target.1 < seed.1 {
            (target.0, (target.1 + 1) as i32)
        } else {
            (target.0, (target.1 - 1) as i32)
        };
        assert(g.in_bounds(step));
        assert(adjacent(step, target));
        assert(manhattan(seed, step) < manhattan(seed, target));
        lemma_linked_region_covers(g, seed, step);
    }
}

/// Every entry of a cell's neighbour list is an adjacent cell of the grid.
pub proof fn lemma_neighbor_entry(g: Grid, p: (i32, i32), q: (i32, i32))
    requires
        g.wf(),
        g.in_bounds(p),
        g.cell_at(p).neighbor_seq().contains(q),
    ensures
        g.in_bounds(q),
        adjacent(p, q),
        q != p,
{
    let cell = g.cell_at(p);
    assert(crate::grid::topology_ok(cell, g.rows, g.columns, p.0, p.1));
    let s = cell.neighbor_seq();
    let k = choose|k: int| 0 <= k < s.len() && s[k] == q;
    assert(cell.north == Some(q) || cell.south == Some(q) || cell.west == Some(q) || cell.east
        == Some(q));
}

/// Every adjacent cell of the grid shows up in a cell's neighbour list.
pub proof fn lemma_neighbor_complete(g: Grid, p: (i32, i32), q: (i32, i32))
    requires
        g.wf(),
        g.in_bounds(p),
        g.in_bounds(q),
        adjacent(p, q),
    ensures
        g.cell_at(p).neighbor_seq().contains(q),
{
    let cell = g.cell_at(p);
    assert(crate::grid::topology_ok(cell, g.rows, g.columns, p.0, p.1));
    let s = cell.neighbor_seq();
    let n = crate::cell::opt_seq(cell.north);
    let so = crate::cell::opt_seq(cell.south);
    let w = crate::cell::opt_seq(cell.west);
    if cell.north == Some(q) {
        assert(s[0] == q);
    } else if cell.south == Some(q) {
        assert(s[n.len() as int] == q);
    } else if cell.west == Some(q) {
        assert(s[(n.len() + so.len()) as int] == q);
    } else {
        assert(cell.east == Some(q));
        assert(s[(n.len() + so.len() + w.len()) as int] == q);
    }
}

/// Whether `b` can be reached from `a` in at most `n` passage steps.
pub open spec fn reaches(g: Grid, a: (i32, i32), b: (i32, i32), n: nat) -> bool
    decreases n,
{
    a == b || (n > 0 && exists|q: (i32, i32)| #[trigger]
        g.linked(a, q) && reaches(g, q, b, (n - 1) as nat))
}

/// Every pair of cells is joined through the passage graph.
pub open spec fn connected(g: Grid) -> bool {
    forall|a: (i32, i32), b: (i32, i32)|
        g.in_bounds(a) && g.in_bounds(b) ==> exists|n: nat| #[trigger] reaches(g, a, b, n)
}

/// A reachable cell stays reachable after one more passage step at the end.
pub proof fn lemma_reaches_extend(g: Grid, a: (i32, i32), b: (i32, i32), c: (i32, i32), n: nat)
    requires
        reaches(g, a, b, n),
        g.linked(b, c),
    ensures
        reaches(g, a, c, (n + 1) as nat),
    decreases n,
{
    if a == b {
        assert(g.linked(a, c) && reaches(g, c, c, n));
    } else {
        let q = choose|q: (i32, i32)| #[trigger]
            g.linked(a, q) && reaches(g, q, b, (n - 1) as nat);
        lemma_reaches_extend(g, q, b, c, (n - 1) as nat);
        assert(g.linked(a, q) && reaches(g, q, c, n as nat));
    }
}

/// Over symmetric passages reachability runs both ways.
pub proof fn lemma_reaches_back(g: Grid, a: (i32, i32), b: (i32, i32), n: nat)
    requires
        g.wf(),
        reaches(g, a, b, n),
    ensures
        reaches(g, b, a, n),
    decreases n,
{
    if a != b {
        let q = choose|q: (i32, i32)| #[trigger]
            g.linked(a, q) && reaches(g, q, b, (n - 1) as nat);
        lemma_reaches_back(g, q, b, (n - 1) as nat);
        crate::grid::lemma_link_symmetry(g, a, q);
        lemma_reaches_extend(g, b, q, a, (n - 1) as nat);
    }
}

/// Reachability composes across a shared cell.
pub proof fn lemma_reaches_join(g: Grid, a: (i32, i32), b: (i32, i32), c: (i32, i32), n: nat, m: nat)
    requires
        reaches(g, a, b, n),
        reaches(g, b, c, m),
    ensures
        reaches(g, a, c, (n + m) as nat),
    decreases n,
{
    if a == b {
        lemma_reaches_pad(g, b, c, m, (n + m) as nat);
    } else {
        let q = choose|q: (i32, i32)| #[trigger]
            g.linked(a, q) && reaches(g, q, b, (n - 1) as nat);
        lemma_reaches_join(g, q, b, c, (n - 1) as nat, m);
    }
}

/// A step bound can always grow.
pub proof fn lemma_reaches_pad(g: Grid, a: (i32, i32), b: (i32, i32), n: nat, m: nat)
    requires
        reaches(g, a, b, n),
        n <= m,
    ensures
        reaches(g, a, b, m),
    decreases n,
{
    if a != b {
        let q = choose|q: (i32, i32)| #[trigger]
            g.linked(a, q) && reaches(g, q, b, (n - 1) as nat);
        lemma_reaches_pad(g, q, b, (n - 1) as nat, (m - 1) as nat);
    }
}

/// Reachability survives carving more passages.
pub proof fn lemma_reaches_monotone(g1: Grid, g2: Grid, a: (i32, i32), b: (i32, i32), n: nat)
    requires
        reaches(g1, a, b, n),
        forall|x: (i32, i32), y: (i32, i32)| #[trigger] g1.linked(x, y) ==> g2.linked(x, y),
    ensures
        reaches(g2, a, b, n),
    decreases n,
{
    if a != b {
        let q = choose|q: (i32, i32)| #[trigger]
            g1.linked(a, q) && reaches(g1, q, b, (n - 1) as nat);
        lemma_reaches_monotone(g1, g2, q, b, (n - 1) as nat);
        assert(g2.linked(a, q) && reaches(g2, q, b, (n - 1) as nat));
    }
}

/// Whether two cells are joined through the passage graph. Kept opaque so
/// loop invariants can carry it cheaply; proofs reveal it where they build
/// or use the underlying step bound.
#[verifier::opaque]
pub open spec fn joined(g: Grid, a: (i32, i32), b: (i32, i32)) -> bool {
    exists|n: nat| reaches(g, a, b, n)
}

/// The pairwise form of `connected`, restricted to the cells already carved
/// into the maze.
pub open spec fn carved_connected(g: Grid) -> bool {
    forall|a: (i32, i32), b: (i32, i32)|
        g.in_bounds(a) && g.in_bounds(b) && g.cell_at(a).links@.len() > 0 && g.cell_at(
            b,
        ).links@.len() > 0 ==> exists|n: nat| #[trigger] reaches(g, a, b, n)
}

/// Carving a passage from the region to one fresh cell keeps the region
/// pairwise reachable; so does the very first passage of a run.
pub proof fn lemma_carved_grows(pre: Grid, post: Grid, a: (i32, i32), b: (i32, i32))
    requires
        pre.in_bounds(a),
        pre.in_bounds(b),
        post.rows == pre.rows,
        post.columns == pre.columns,
        carved_connected(pre),
        pre.cell_at(b).links@.len() == 0,
        pre.cell_at(a).links@.len() > 0 || (forall|p: (i32, i32)|
            pre.in_bounds(p) ==> (#[trigger] pre.cell_at(p)).links@.len() == 0),
        forall|x: (i32, i32), y: (i32, i32)| #[trigger] pre.linked(x, y) ==> post.linked(x, y),
        post.linked(a, b),
        post.linked(b, a),
        forall|p: (i32, i32)|
            pre.in_bounds(p) && p != a && p != b ==> post.cell_at(p) == pre.cell_at(p),
    ensures
        carved_connected(post),
{
    assert forall|p: (i32, i32), q: (i32, i32)|
        post.in_bounds(p) && post.in_bounds(q) && post.cell_at(p).links@.len() > 0
            && post.cell_at(q).links@.len() > 0 implies exists|n: nat| #[trigger] reaches(
        post,
        p,
        q,
        n,
    ) by {
        assert(reaches(post, b, a, 1)) by {
            assert(post.linked(b, a) && reaches(post, a, a, 0));
        }
        assert(reaches(post, a, b, 1)) by {
            assert(post.linked(a, b) && reaches(post, b, b, 0));
        }
        if pre.cell_at(a).links@.len() > 0 {
            // every carved cell of the new grid can reach `a` ...
            let pa: nat = if p == a {
                0
            } else if p == b {
                1
            } else {
                assert(pre.in_bounds(p) && post.cell_at(p) == pre.cell_at(p));
                assert(pre.cell_at(p).links@.len() > 0);
                assert(exists|n: nat| #[trigger] reaches(pre, p, a, n));
                let n = choose|n: nat| #[trigger] reaches(pre, p, a, n);
                lemma_reaches_monotone(pre, post, p, a, n);
                n
            };
            assert(reaches(post, p, a, pa));
            // ... and `a` can reach every carved cell
            let aq: nat = if q == a {
                0
            } else if q == b {
                1
            } else {
                assert(pre.in_bounds(q) && post.cell_at(q) == pre.cell_at(q));
                assert(pre.cell_at(q).links@.len() > 0);
                assert(exists|n: nat| #[trigger] reaches(pre, a, q, n));
                let n = choose|n: nat| #[trigger] reaches(pre, a, q, n);
                lemma_reaches_monotone(pre, post, a, q, n);
                n
            };
            assert(reaches(post, a, q, aq));
            lemma_reaches_join(post, p, a, q, pa, aq);
            assert(reaches(post, p, q, (pa + aq) as nat));
        } else {
            // the first passage: only its two ends are carved
            assert(p == a || p == b);
            assert(q == a || q == b);
            if p == q {
                assert(reaches(post, p, q, 0));
            } else if p == a {
                assert(reaches(post, p, q, 1));
            } else {
                assert(reaches(post, p, q, 1));
            }
        }
    }
}

/// Cells strung on a chain of consecutive two-way passages reach one
/// another.
pub proof fn lemma_chain_reaches(g: Grid, s: Seq<(i32, i32)>, i: int, j: int)
    requires
        forall|k: int, k2: int|
            0 <= k && k2 == k + 1 && k2 < s.len() ==> (#[trigger] g.linked(s[k], s[k2]))
                && g.linked(s[k2], s[k]),
        0 <= i < s.len(),
        0 <= j < s.len(),
    ensures
        exists|n: nat| #[trigger] reaches(g, s[i], s[j], n),
    decreases (if i <= j {
        j - i
    } else {
        i - j
    }),
{
    if i == j {
        assert(reaches(g, s[i], s[j], 0));
    } else if i < j {
        lemma_chain_reaches(g, s, i, j - 1);
        let n = choose|n: nat| #[trigger] reaches(g, s[i], s[j - 1], n);
        assert(g.linked(s[j - 1], s[j]));
        lemma_reaches_extend(g, s[i], s[j - 1], s[j], n);
        assert(reaches(g, s[i], s[j], (n + 1) as nat));
    } else {
        lemma_chain_reaches(g, s, i, j + 1);
        let n = choose|n: nat| #[trigger] reaches(g, s[i], s[j + 1], n);
        assert(g.linked(s[j], s[j + 1]));
        assert(g.linked(s[j + 1], s[j]));
        lemma_reaches_extend(g, s[i], s[j + 1], s[j], n);
        assert(reaches(g, s[i], s[j], (n + 1) as nat));
    }
}

/// A strategy that carves a maze over a grid's link graph.
pub trait On {
    /// What this strategy promises of the grid it finishes, given the
    /// source its run drew from.
    spec fn guarantees(&self, pre: Grid, rng: RandomSource, post: Grid) -> bool;

    /// Carves passages in place, drawing choices from `rng`.
    fn on(&self, grid: &mut Grid, rng: &mut RandomSource)
        requires
            old(grid).wf(),
            old(grid).all_unlinked(),
        ensures
            final(grid).wf(),
            final(grid).rows == old(grid).rows,
            final(grid).columns == old(grid).columns,
            self.guarantees(*old(grid), *old(rng), *final(grid)),
    ;
}

/// The closed set of carving strategies.
pub enum Algorithms {
    BinaryTree(BinaryTree),
    Sidewinder(Sidewinder),
    AldousBroder(AldousBroder),
    Wilsons(Wilsons),
    HuntAndKill(HuntAndKill),
    RecursiveBacktracker(RecursiveBacktracker),
}

impl Algorithms {
    /// What the chosen strategy promises of the grid it finishes.
    pub open spec fn chosen_guarantees(&self, pre: Grid, rng: RandomSource, post: Grid) -> bool {
        match self {
            Algorithms::BinaryTree(a) => a.guarantees(pre, rng, post),
            Algorithms::Sidewinder(a) => a.guarantees(pre, rng, post),
            Algorithms::AldousBroder(a) => a.guarantees(pre, rng, post),
            Algorithms::Wilsons(a) => a.guarantees(pre, rng, post),
            Algorithms::HuntAndKill(a) => a.guarantees(pre, rng, post),
            Algorithms::RecursiveBacktracker(a) => a.guarantees(pre, rng, post),
        }
    }
}

/// Dispatch over the closed set of strategies.
pub trait Apply {
    spec fn dispatch_guarantees(&self, pre: Grid, rng: RandomSource, post: Grid) -> bool;

    fn apply(&self, grid: &mut Grid, rng: &mut RandomSource)
        requires
            old(grid).wf(),
            old(grid).all_unlinked(),
        ensures
            final(grid).wf(),
            final(grid).rows == old(grid).rows,
            final(grid).columns == old(grid).columns,
            self.dispatch_guarantees(*old(grid), *old(rng), *final(grid)),
    ;
}

impl Apply for Algorithms {
    open spec fn dispatch_guarantees(&self, pre: Grid, rng: RandomSource, post: Grid) -> bool {
        self.chosen_guarantees(pre, rng, post)
    }

    fn apply(&self, grid: &mut Grid, rng: &mut RandomSource) {
        match self {
            Algorithms::BinaryTree(a) => a.on(grid, rng),
            Algorithms::Sidewinder(a) => a.on(grid, rng),
            Algorithms::AldousBroder(a) => a.on(grid, rng),
            Algorithms::Wilsons(a) => a.on(grid, rng),
            Algorithms::HuntAndKill(a) => a.on(grid, rng),
            Algorithms::RecursiveBacktracker(a) => a.on(grid, rng),
        }
    }
}

/// Whether the eastward passage out of column `j` of the top row is carved.
pub open spec fn row_edge(g: Grid, j: int) -> bool {
    g.linked((0i32, j as i32), (0i32, (j + 1) as i32))
}

/// How many of the first `m` eastward passages of the top row are carved.
pub open spec fn chain_edges(g: Grid, m: int) -> int
    decreases m,
{
    if m <= 0 {
        0
    } else {
        chain_edges(g, m - 1) + if row_edge(g, m - 1) {
            1int
        } else {
            0int
        }
    }
}

/// Each prefix of the chain carries at most one passage per step.
proof fn lemma_chain_edges_bound(g: Grid, a: int, b: int)
    requires
        a <= b,
    ensures
        chain_edges(g, b) <= chain_edges(g, a) + (b - a),
        chain_edges(g, a) <= chain_edges(g, b),
    decreases b - a,
{
    if a < b {
        lemma_chain_edges_bound(g, a, b - 1);
    }
}

/// On a single-row grid a cell's link count is decided by its two possible
/// passages.
proof fn lemma_single_row_cell_len(g: Grid, j: int)
    requires
        g.wf(),
        g.rows == 1,
        0 <= j < g.columns,
    ensures
        g.cell_at((0i32, j as i32)).links@.len() == (if j > 0 && row_edge(g, j - 1) {
            1int
        } else {
            0int
        }) + (if row_edge(g, j) {
            1int
        } else {
            0int
        }),
{
    let p = (0i32, j as i32);
    let w = (0i32, (j - 1) as i32);
    let e = (0i32, (j + 1) as i32);
    let links = g.cell_at(p).links@;
    assert(crate::grid::topology_ok(g.cell_at(p), g.rows, g.columns, p.0, p.1));
    assert forall|k: int| 0 <= k < links.len() implies links[k] == w || links[k] == e by {
        let q = links[k];
        assert(g.cell_at(p).linked_to(q));
        assert(g.in_bounds(q) && adjacent(p, q));
        assert(q.0 == 0);
    }
    if j > 0 && row_edge(g, j - 1) {
        crate::grid::lemma_link_symmetry(g, w, p);
        assert(links.contains(w));
    }
    if row_edge(g, j) {
        assert(links.contains(e));
    }
    if links.contains(w) {
        assert(g.linked(p, w));
        crate::grid::lemma_link_symmetry(g, w, p);
        assert(j > 0 && row_edge(g, j - 1)) by {
            assert(g.in_bounds(w));
        }
    }
    if links.contains(e) {
        assert(g.linked(p, e));
        assert(row_edge(g, j));
    }
    if links.len() >= 3 {
        assert(links[0] != links[1] && links[0] != links[2] && links[1] != links[2]);
        assert(false);
    }
    if links.len() == 2 {
        assert(links[0] != links[1]);
        assert(links.contains(links[0]) && links.contains(links[1]));
        assert(links.contains(w) && links.contains(e));
    }
    if links.len() == 1 {
        assert(links.contains(links[0]));
        assert(!(links.contains(w) && links.contains(e))) by {
            if links.contains(w) && links.contains(e) {
                let kw = choose|k: int| 0 <= k < links.len() && links[k] == w;
                let ke = choose|k: int| 0 <= k < links.len() && links[k] == e;
                assert(kw == 0 && ke == 0);
                assert(w != e);
            }
        }
    }
    if links.len() == 0 {
        assert(!links.contains(w) && !links.contains(e));
    }
}

/// Summing the top row's link lists cell by cell counts every carved
/// eastward passage twice, except the one leaving the prefix.
proof fn lemma_single_row_total(g: Grid, k: int)
    requires
        g.wf(),
        g.rows == 1,
        0 <= k <= g.columns,
    ensures
        crate::grid::links_total(g.cells@.subrange(0, k)) == 2 * chain_edges(g, k - 1) + (if k
            >= 1 && row_edge(g, k - 1) {
            1int
        } else {
            0int
        }),
    decreases k,
{
    if k == 0 {
        assert(g.cells@.subrange(0, 0) =~= Seq::<crate::cell::Cell>::empty());
    } else {
        lemma_single_row_total(g, k - 1);
        let pre = g.cells@.subrange(0, k - 1);
        let cur = g.cells@.subrange(0, k);
        assert(cur.drop_last() =~= pre);
        assert(cur.last() == g.cells@[k - 1]);
        assert(0 <= k - 1 < g.columns as int);
        assert(((k - 1) as i32) as int == k - 1);
        assert(g.idx((0i32, (k - 1) as i32)) == 0 * g.columns + (k - 1));
        assert(g.idx((0i32, (k - 1) as i32)) == k - 1);
        assert(cur.last() == g.cell_at((0i32, (k - 1) as i32)));
        lemma_single_row_cell_len(g, k - 1);
    }
}

/// On a single-row grid, a spanning count of passages forces the only
/// possible maze: the full eastward chain.
pub proof fn lemma_single_row_chain(g: Grid)
    requires
        g.wf(),
        g.rows == 1,
        spanning_edge_count(g),
    ensures
        forall|j: int| 0 <= j < g.columns - 1 ==> row_edge(g, j),
{
    let cols = g.columns as int;
    lemma_single_row_total(g, cols);
    assert(g.cells@.subrange(0, cols) =~= g.cells@);
    // the passage out of the last column leaves the grid and cannot exist
    assert(!row_edge(g, cols - 1)) by {
        if row_edge(g, cols - 1) {
            let p = (0i32, (cols - 1) as i32);
            let e = (0i32, cols as i32);
            assert(g.cell_at(p).linked_to(e));
            assert(g.in_bounds(e));
        }
    }
    assert(2 * (g.size() - 1) == 2 * chain_edges(g, cols - 1));
    assert(g.size() == cols) by (nonlinear_arith)
        requires
            g.size() == g.rows * g.columns,
            g.rows == 1,
            cols == g.columns,
    ;
    assert(chain_edges(g, cols - 1) == cols - 1);
    assert forall|j: int| 0 <= j < cols - 1 implies row_edge(g, j) by {
        if !row_edge(g, j) {
            lemma_chain_edges_bound(g, 0, j);
            assert(chain_edges(g, j + 1) == chain_edges(g, j));
            lemma_chain_edges_bound(g, j + 1, cols - 1);
            assert(chain_edges(g, cols - 1) <= j + (cols - 1 - j - 1));
            assert(false);
        }
    }
}

} // verus!
