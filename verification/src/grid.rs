use vstd::prelude::*;

use crate::cell::Cell;

verus! {

/// Why a grid could not be built.
#[derive(Clone, Copy, PartialEq, Eq, Structural, Debug)]
pub enum MazeError {
    InvalidDimensions,
}

/// Whether `a` and `b` are adjacent in the fixed rectangular topology:
/// same row and neighbouring columns, or same column and neighbouring rows.
pub open spec fn adjacent(a: (i32, i32), b: (i32, i32)) -> bool {
    ||| (a.0 == b.0 && (a.1 + 1 == b.1 || b.1 + 1 == a.1))
    ||| (a.1 == b.1 && (a.0 + 1 == b.0 || b.0 + 1 == a.0))
}

/// Row-major position of a coordinate in a grid with the given column count.
pub open spec fn cell_index(columns: i32, p: (i32, i32)) -> int {
    p.0 * columns + p.1
}

/// The topology a cell at `(r, c)` must carry: each of the four sides
/// present exactly when it stays inside a `rows x columns` grid.
pub open spec fn topology_ok(cell: Cell, rows: i32, columns: i32, r: i32, c: i32) -> bool {
    &&& cell.coord() == (r, c)
    &&& cell.north == (if r > 0 {
        Some(((r - 1) as i32, c))
    } else {
        None
    })
    &&& cell.south == (if r + 1 < rows {
        Some(((r + 1) as i32, c))
    } else {
        None
    })
    &&& cell.west == (if c > 0 {
        Some((r, (c - 1) as i32))
    } else {
        None
    })
    &&& cell.east == (if c + 1 < columns {
        Some((r, (c + 1) as i32))
    } else {
        None
    })
}

/// Sum of the lengths of all link lists: twice the number of symmetric
/// passage edges in a well-formed grid.
pub open spec fn links_total(cells: Seq<Cell>) -> int
    decreases cells.len(),
{
    if cells.len() == 0 {
        0
    } else {
        links_total(cells.drop_last()) + cells.last().links@.len()
    }
}

/// How many cells still have an empty link list.
pub open spec fn unlinked_count(cells: Seq<Cell>) -> int
    decreases cells.len(),
{
    if cells.len() == 0 {
        0
    } else {
        unlinked_count(cells.drop_last()) + if cells.last().links@.len() == 0 {
            1int
        } else {
            0int
        }
    }
}

pub proof fn lemma_links_total_update(cells: Seq<Cell>, i: int, c: Cell)
    requires
        0 <= i < cells.len(),
    ensures
        links_total(cells.update(i, c)) == links_total(cells) - cells[i].links@.len()
            + c.links@.len(),
    decreases cells.len(),
{
    let upd = cells.update(i, c);
    if i == cells.len() - 1 {
        assert(upd.drop_last() =~= cells.drop_last());
    } else {
        assert(upd.drop_last() =~= cells.drop_last().update(i, c));
        lemma_links_total_update(cells.drop_last(), i, c);
    }
}

pub proof fn lemma_unlinked_count_update(cells: Seq<Cell>, i: int, c: Cell)
    requires
        0 <= i < cells.len(),
    ensures
        unlinked_count(cells.update(i, c)) == unlinked_count(cells) - (if cells[i].links@.len()
            == 0 {
            1int
        } else {
            0int
        }) + (if c.links@.len() == 0 {
            1int
        } else {
            0int
        }),
    decreases cells.len(),
{
    let upd = cells.update(i, c);
    if i == cells.len() - 1 {
        assert(upd.drop_last() =~= cells.drop_last());
    } else {
        assert(upd.drop_last() =~= cells.drop_last().update(i, c));
        lemma_unlinked_count_update(cells.drop_last(), i, c);
    }
}

/// `unlinked_count` is never negative and never exceeds the cell count.
pub proof fn lemma_unlinked_count_bounds(cells: Seq<Cell>)
    ensures
        0 <= unlinked_count(cells) <= cells.len(),
    decreases cells.len(),
{
    if cells.len() > 0 {
        lemma_unlinked_count_bounds(cells.drop_last());
    }
}

/// A cell with an empty link list keeps `unlinked_count` positive.
pub proof fn lemma_unlinked_count_positive(cells: Seq<Cell>, i: int)
    requires
        0 <= i < cells.len(),
        cells[i].links@.len() == 0,
    ensures
        unlinked_count(cells) >= 1,
    decreases cells.len(),
{
    if i == cells.len() - 1 {
        lemma_unlinked_count_bounds(cells.drop_last());
    } else {
        lemma_unlinked_count_positive(cells.drop_last(), i);
    }
}

/// If no cell has an empty link list, `unlinked_count` is zero.
pub proof fn lemma_unlinked_count_zero(cells: Seq<Cell>)
    requires
        forall|i: int| 0 <= i < cells.len() ==> (#[trigger] cells[i]).links@.len() > 0,
    ensures
        unlinked_count(cells) == 0,
    decreases cells.len(),
{
    if cells.len() > 0 {
        lemma_unlinked_count_zero(cells.drop_last());
    }
}

/// The link total is a sum of lengths and never negative.
pub proof fn lemma_links_total_nonneg(cells: Seq<Cell>)
    ensures
        links_total(cells) >= 0,
    decreases cells.len(),
{
    if cells.len() > 0 {
        lemma_links_total_nonneg(cells.drop_last());
    }
}

/// With every link list empty every cell counts as unlinked.
pub proof fn lemma_unlinked_count_full(cells: Seq<Cell>)
    requires
        forall|i: int| 0 <= i < cells.len() ==> (#[trigger] cells[i]).links@.len() == 0,
    ensures
        unlinked_count(cells) == cells.len(),
    decreases cells.len(),
{
    if cells.len() > 0 {
        lemma_unlinked_count_full(cells.drop_last());
    }
}

/// With every link list empty the link total is zero.
pub proof fn lemma_links_total_zero(cells: Seq<Cell>)
    requires
        forall|i: int| 0 <= i < cells.len() ==> (#[trigger] cells[i]).links@.len() == 0,
    ensures
        links_total(cells) == 0,
    decreases cells.len(),
{
    if cells.len() > 0 {
        lemma_links_total_zero(cells.drop_last());
    }
}

pub proof fn lemma_row_major_bounds(rows: int, columns: int, r: int, c: int)
    by (nonlinear_arith)
    requires
        0 <= r < rows,
        0 <= c < columns,
    ensures
        0 <= r * columns + c < rows * columns,
        r * columns + c < (r + 1) * columns,
{
}

pub proof fn lemma_row_major_injective(columns: int, r1: int, c1: int, r2: int, c2: int)
    by (nonlinear_arith)
    requires
        0 <= c1 < columns,
        0 <= c2 < columns,
        0 <= r1,
        0 <= r2,
        r1 * columns + c1 == r2 * columns + c2,
    ensures
        r1 == r2 && c1 == c2,
{
}

/// Link symmetry: a well-formed grid records each passage in both
/// directions or in neither.
pub proof fn lemma_link_symmetry(g: Grid, a: (i32, i32), b: (i32, i32))
    requires
        g.wf(),
    ensures
        g.linked(a, b) == g.linked(b, a),
{
    if g.linked(a, b) {
        assert(g.in_bounds(b) && adjacent(a, b));
        assert(g.cell_at(b).linked_to(a));
    }
    if g.linked(b, a) {
        assert(g.in_bounds(a) && adjacent(b, a));
        assert(g.cell_at(a).linked_to(b));
    }
}

/// An arena of cells in row-major order, with fixed dimensions.
pub struct Grid {
    pub rows: i32,
    pub columns: i32,
    pub cells: Vec<Cell>,
}

impl Grid {
    /// Whether a coordinate lies inside the grid.
    pub open spec fn in_bounds(self, p: (i32, i32)) -> bool {
        0 <= p.0 < self.rows && 0 <= p.1 < self.columns
    }

    /// Row-major position of a coordinate.
    pub open spec fn idx(self, p: (i32, i32)) -> int {
        cell_index(self.columns, p)
    }

    /// The cell stored at a coordinate.
    pub open spec fn cell_at(self, p: (i32, i32)) -> Cell {
        self.cells@[self.idx(p)]
    }

    /// Whether a passage link `a -> b` is recorded (false off the grid).
    pub open spec fn linked(self, a: (i32, i32), b: (i32, i32)) -> bool {
        self.in_bounds(a) && self.cell_at(a).linked_to(b)
    }

    /// Number of cells the grid was created with.
    pub open spec fn size(self) -> int {
        self.rows * self.columns
    }

    /// Dimensions are positive, the cell arena matches them, and the cell
    /// count fits an `i32` so distances and indices stay in machine range.
    pub open spec fn dims_ok(self) -> bool {
        &&& 1 <= self.rows
        &&& 1 <= self.columns
        &&& self.size() <= i32::MAX
        &&& self.cells@.len() == self.size()
    }

    /// Every cell sits at its own coordinate with the rectangular topology,
    /// a duplicate-free link list, and links only to adjacent cells.
    pub open spec fn cells_ok(self) -> bool {
        forall|p: (i32, i32)|
            self.in_bounds(p) ==> {
                &&& topology_ok(#[trigger] self.cell_at(p), self.rows, self.columns, p.0, p.1)
                &&& self.cell_at(p).links_distinct()
                &&& forall|q: (i32, i32)|
                    self.cell_at(p).linked_to(q) ==> self.in_bounds(q) && adjacent(p, q)
            }
    }

    /// Passage links always come in symmetric pairs.
    pub open spec fn symmetric(self) -> bool {
        forall|a: (i32, i32), b: (i32, i32)|
            self.in_bounds(a) && self.in_bounds(b) ==> (#[trigger] self.cell_at(a).linked_to(b)
                == self.cell_at(b).linked_to(a))
    }

    /// The grid invariant.
    pub open spec fn wf(self) -> bool {
        self.dims_ok() && self.cells_ok() && self.symmetric()
    }

    /// No passage has been carved yet.
    pub open spec fn all_unlinked(self) -> bool {
        forall|p: (i32, i32)|
            self.in_bounds(p) ==> (#[trigger] self.cell_at(p)).links@.len() == 0
    }

    /// Twice the number of passage edges.
    pub open spec fn total_links(self) -> int {
        links_total(self.cells@)
    }

    /// Builds the grid with its fixed rectangular topology and no links.
    pub fn new(rows: i32, columns: i32) -> (g: Grid)
        requires
            1 <= rows,
            1 <= columns,
            rows * columns <= i32::MAX,
        ensures
            g.wf(),
            g.rows == rows,
            g.columns == columns,
            g.all_unlinked(),
            g.total_links() == 0,
    {
        let mut cells: Vec<Cell> = Vec::new();
        let mut r: i32 = 0;
        while r < rows
            invariant
                1 <= rows,
                1 <= columns,
                rows * columns <= i32::MAX,
                0 <= r <= rows,
                cells@.len() == r * columns,
                forall|p: (i32, i32)|
                    0 <= p.0 < r && 0 <= p.1 < columns ==> {
                        &&& 0 <= #[trigger] cell_index(columns, p) < cells@.len()
                        &&& topology_ok(cells@[cell_index(columns, p)], rows, columns, p.0, p.1)
                        &&& cells@[cell_index(columns, p)].links@.len() == 0
                    },
                links_total(cells@) == 0,
            decreases rows - r,
        {
            let mut c: i32 = 0;
            while c < columns
                invariant
                    1 <= rows,
                    1 <= columns,
                    rows * columns <= i32::MAX,
                    0 <= r < rows,
                    0 <= c <= columns,
                    cells@.len() == r * columns + c,
                    forall|p: (i32, i32)|
                        (0 <= p.0 < r && 0 <= p.1 < columns) || (p.0 == r && 0 <= p.1 < c) ==> {
                            &&& 0 <= #[trigger] cell_index(columns, p) < cells@.len()
                            &&& topology_ok(
                                cells@[cell_index(columns, p)],
                                rows,
                                columns,
                                p.0,
                                p.1,
                            )
                            &&& cells@[cell_index(columns, p)].links@.len() == 0
                        },
                    links_total(cells@) == 0,
                decreases columns - c,
            {
                let mut cell = Cell::new(r, c);
                if r > 0 {
                    cell.set_north(Some((r - 1, c)));
                }
                if r < rows - 1 {
                    cell.set_south(Some((r + 1, c)));
                }
                if c > 0 {
                    cell.set_west(Some((r, c - 1)));
                }
                if c < columns - 1 {
                    cell.set_east(Some((r, c + 1)));
                }
                let ghost pre = cells@;
                cells.push(cell);
                proof {
                    assert(cells@.drop_last() =~= pre);
                    assert(links_total(cells@) == 0);
                    assert(cell_index(columns, (r, c)) == pre.len());
                    assert forall|p: (i32, i32)|
                        (0 <= p.0 < r && 0 <= p.1 < columns) || (p.0 == r && 0 <= p.1 < c + 1)
                            implies {
                            &&& 0 <= #[trigger] cell_index(columns, p) < cells@.len()
                            &&& topology_ok(
                                cells@[cell_index(columns, p)],
                                rows,
                                columns,
                                p.0,
                                p.1,
                            )
                            &&& cells@[cell_index(columns, p)].links@.len() == 0
                        } by {
                        if p.0 == r && p.1 == c {
                            assert(cells@[cell_index(columns, p)] == cell);
                        } else {
                            lemma_row_major_bounds(
                                rows as int,
                                columns as int,
                                p.0 as int,
                                p.1 as int,
                            );
                            if p.0 < r {
                                assert(p.0 * columns + p.1 < r * columns) by (nonlinear_arith)
                                    requires
                                        0 <= p.0 < r,
                                        0 <= p.1 < columns,
                                        1 <= columns,
                                ;
                            }
                            assert(cell_index(columns, p) < pre.len());
                            assert(cells@[cell_index(columns, p)] == pre[cell_index(columns, p)]);
                        }
                    }
                }
                c = c + 1;
            }
            proof {
                assert(r * columns + columns == (r + 1) * columns) by (nonlinear_arith);
            }
            r = r + 1;
        }
        let g = Grid { rows, columns, cells };
        proof {
            assert forall|p: (i32, i32)| g.in_bounds(p) implies {
                &&& topology_ok(#[trigger] g.cell_at(p), g.rows, g.columns, p.0, p.1)
                &&& g.cell_at(p).links_distinct()
                &&& g.cell_at(p).links@.len() == 0
            } by {
                lemma_row_major_bounds(rows as int, columns as int, p.0 as int, p.1 as int);
                assert(cell_index(columns, p) == g.idx(p));
            }
            assert(g.wf());
            assert(g.all_unlinked());
        }
        g
    }

    /// Builds a grid, rejecting non-positive dimensions.
    pub fn create(rows: i32, columns: i32) -> (r: Result<Grid, MazeError>)
        requires
            rows * columns <= i32::MAX,
        ensures
            match r {
                Ok(g) => {
                    &&& rows >= 1 && columns >= 1
                    &&& g.wf()
                    &&& g.rows == rows
                    &&& g.columns == columns
                    &&& g.all_unlinked()
                },
                Err(e) => e == MazeError::InvalidDimensions && (rows < 1 || columns < 1),
            },
    {
        if rows < 1 || columns < 1 {
            return Err(MazeError::InvalidDimensions);
        }
        Ok(Grid::new(rows, columns))
    }

    pub fn rows(&self) -> (r: i32)
        ensures
            r == self.rows,
    {
        self.rows
    }

    pub fn columns(&self) -> (r: i32)
        ensures
            r == self.columns,
    {
        self.columns
    }

    /// Row-major arena position of an in-bounds coordinate.
    fn index_of(&self, p: (i32, i32)) -> (r: usize)
        requires
            self.wf(),
            self.in_bounds(p),
        ensures
            r == self.idx(p),
            r < self.cells@.len(),
    {
        proof {
            lemma_row_major_bounds(
                self.rows as int,
                self.columns as int,
                p.0 as int,
                p.1 as int,
            );
        }
        (p.0 as usize) * (self.columns as usize) + (p.1 as usize)
    }

    /// Bounds-checked lookup; `None` off the grid, never a fault.
    pub fn cell(&self, row: i32, column: i32) -> (r: Option<&Cell>)
        requires
            self.wf(),
        ensures
            match r {
                Some(c) => self.in_bounds((row, column)) && *c == self.cell_at((row, column)),
                None => !self.in_bounds((row, column)),
            },
    {
        if row >= 0 && row < self.rows && column >= 0 && column < self.columns {
            let i = self.index_of((row, column));
            Some(&self.cells[i])
        } else {
            None
        }
    }

    /// Whether the symmetric passage between `a` and `b` is present.
    pub fn has_link(&self, a: (i32, i32), b: (i32, i32)) -> (r: bool)
        requires
            self.wf(),
        ensures
            r == self.linked(a, b),
    {
        match self.cell(a.0, a.1) {
            Some(c) => c.has_link(b),
            None => false,
        }
    }

    /// All coordinates in row-major order.
    pub fn iter(&self) -> (r: Vec<(i32, i32)>)
        requires
            self.wf(),
        ensures
            r@.len() == self.size(),
            forall|k: int| 0 <= k < r@.len() ==> self.in_bounds(#[trigger] r@[k]),
            forall|p: (i32, i32)| self.in_bounds(p) ==> r@[self.idx(p)] == p,
            forall|k: int| 0 <= k < r@.len() ==> self.idx(#[trigger] r@[k]) == k,
    {
        let rows = self.rows;
        let columns = self.columns;
        let mut list: Vec<(i32, i32)> = Vec::new();
        let mut r: i32 = 0;
        while r < rows
            invariant
                1 <= rows,
                1 <= columns,
                rows * columns <= i32::MAX,
                0 <= r <= rows,
                list@.len() == r * columns,
                forall|k: int|
                    0 <= k < list@.len() ==> 0 <= (#[trigger] list@[k]).0 < rows && 0
                        <= list@[k].1 < columns,
                forall|k: int|
                    0 <= k < list@.len() ==> cell_index(columns, #[trigger] list@[k]) == k,
                forall|p: (i32, i32)|
                    0 <= p.0 < r && 0 <= p.1 < columns ==> {
                        &&& 0 <= #[trigger] cell_index(columns, p) < list@.len()
                        &&& list@[cell_index(columns, p)] == p
                    },
            decreases rows - r,
        {
            let mut c: i32 = 0;
            while c < columns
                invariant
                    1 <= rows,
                    1 <= columns,
                    rows * columns <= i32::MAX,
                    0 <= r < rows,
                    0 <= c <= columns,
                    list@.len() == r * columns + c,
                    forall|k: int|
                        0 <= k < list@.len() ==> 0 <= (#[trigger] list@[k]).0 < rows && 0
                            <= list@[k].1 < columns,
                    forall|k: int|
                        0 <= k < list@.len() ==> cell_index(columns, #[trigger] list@[k]) == k,
                    forall|p: (i32, i32)|
                        (0 <= p.0 < r && 0 <= p.1 < columns) || (p.0 == r && 0 <= p.1 < c) ==> {
                            &&& 0 <= #[trigger] cell_index(columns, p) < list@.len()
                            &&& list@[cell_index(columns, p)] == p
                        },
                decreases columns - c,
            {
                let ghost pre = list@;
                list.push((r, c));
                proof {
                    assert(cell_index(columns, (r, c)) == pre.len());
                    assert forall|p: (i32, i32)|
                        (0 <= p.0 < r && 0 <= p.1 < columns) || (p.0 == r && 0 <= p.1 < c + 1)
                            implies {
                            &&& 0 <= #[trigger] cell_index(columns, p) < list@.len()
                            &&& list@[cell_index(columns, p)] == p
                        } by {
                        if p.0 == r && p.1 == c {
                            assert(list@[cell_index(columns, p)] == (r, c));
                        } else {
                            lemma_row_major_bounds(
                                rows as int,
                                columns as int,
                                p.0 as int,
                                p.1 as int,
                            );
                            if p.0 < r {
                                assert(p.0 * columns + p.1 < r * columns) by (nonlinear_arith)
                                    requires
                                        0 <= p.0 < r,
                                        0 <= p.1 < columns,
                                        1 <= columns,
                                ;
                            }
                            assert(cell_index(columns, p) < pre.len());
                            assert(list@[cell_index(columns, p)] == pre[cell_index(columns, p)]);
                        }
                    }
                }
                c = c + 1;
            }
            proof {
                assert(r * columns + columns == (r + 1) * columns) by (nonlinear_arith);
            }
            r = r + 1;
        }
        proof {
            assert forall|p: (i32, i32)| self.in_bounds(p) implies list@[self.idx(p)] == p by {
                assert(0 <= cell_index(columns, p) < list@.len() && list@[cell_index(columns, p)]
                    == p);
            }
        }
        list
    }

    /// A cell drawn uniformly over the grid: a row first, then a column.
    /// For the deterministic sources the ensures pins the drawn coordinate.
    pub fn random_cell(&self, rng: &mut crate::random::RandomSource) -> (r: Option<(i32, i32)>)
        requires
            self.wf(),
        ensures
            match r {
                Some(p) => self.in_bounds(p),
                None => false,
            },
            match *old(rng) {
                crate::random::RandomSource::External => *final(rng)
                    == crate::random::RandomSource::External,
                crate::random::RandomSource::Seeded { state } => {
                    &&& *final(rng) == (crate::random::RandomSource::Seeded {
                        state: crate::random::seed_step(crate::random::seed_step(state)),
                    })
                    &&& r == Some(
                        (
                            crate::random::seed_pick(state, self.rows as usize) as i32,
                            crate::random::seed_pick(
                                crate::random::seed_step(state),
                                self.columns as usize,
                            ) as i32,
                        ),
                    )
                },
                crate::random::RandomSource::First => *final(rng)
                    == crate::random::RandomSource::First && r == Some((0i32, 0i32)),
            },
    {
        let row = rng.next_below(self.rows as usize);
        let column = rng.next_below(self.columns as usize);
        Some((row as i32, column as i32))
    }

    /// Carves the symmetric passage between two adjacent cells. Idempotent.
    pub fn link(&mut self, a: (i32, i32), b: (i32, i32))
        requires
            old(self).wf(),
            old(self).in_bounds(a),
            old(self).in_bounds(b),
            adjacent(a, b),
        ensures
            final(self).wf(),
            final(self).rows == old(self).rows,
            final(self).columns == old(self).columns,
            forall|p: (i32, i32), q: (i32, i32)|
                final(self).linked(p, q) <==> (old(self).linked(p, q) || (p == a && q == b) || (p
                    == b && q == a)),
            forall|p: (i32, i32)|
                old(self).in_bounds(p) && p != a && p != b ==> final(self).cell_at(p) == old(
                    self,
                ).cell_at(p),
            final(self).total_links() == old(self).total_links() + (if old(self).linked(a, b) {
                0int
            } else {
                2int
            }),
            unlinked_count(final(self).cells@) == unlinked_count(old(self).cells@) - (if old(
                self,
            ).cell_at(a).links@.len() == 0 {
                1int
            } else {
                0int
            }) - (if old(self).cell_at(b).links@.len() == 0 {
                1int
            } else {
                0int
            }),
            final(self).cell_at(a).links@.len() > 0,
            final(self).cell_at(b).links@.len() > 0,
            final(self).cell_at(a).links@ == (if old(self).linked(a, b) {
                old(self).cell_at(a).links@
            } else {
                old(self).cell_at(a).links@.push(b)
            }),
            final(self).cell_at(b).links@ == (if old(self).linked(b, a) {
                old(self).cell_at(b).links@
            } else {
                old(self).cell_at(b).links@.push(a)
            }),
    {
        let ia = self.index_of(a);
        let ib = self.index_of(b);
        proof {
            if ia == ib {
                lemma_row_major_injective(
                    self.columns as int,
                    a.0 as int,
                    a.1 as int,
                    b.0 as int,
                    b.1 as int,
                );
            }
            assert(ia != ib);
        }
        let ghost pre = *self;
        let ca = &mut self.cells[ia];
        ca.link(b);
        let ghost mid = *self;
        proof {
            assert(mid.cells@ =~= pre.cells@.update(ia as int, mid.cells@[ia as int]));
            lemma_links_total_update(pre.cells@, ia as int, mid.cells@[ia as int]);
            lemma_unlinked_count_update(pre.cells@, ia as int, mid.cells@[ia as int]);
        }
        let cb = &mut self.cells[ib];
        cb.link(a);
        proof {
            let post = *self;
            assert(post.cells@ =~= mid.cells@.update(ib as int, post.cells@[ib as int]));
            lemma_links_total_update(mid.cells@, ib as int, post.cells@[ib as int]);
            lemma_unlinked_count_update(mid.cells@, ib as int, post.cells@[ib as int]);
            // the two ends agreed on the old link state
            assert(pre.cell_at(a).linked_to(b) == pre.cell_at(b).linked_to(a));
            // cells away from a and b kept their value
            assert forall|p: (i32, i32)|
                pre.in_bounds(p) && p != a && p != b implies post.cell_at(p) == pre.cell_at(
                p,
            ) by {
                lemma_row_major_bounds(
                    pre.rows as int,
                    pre.columns as int,
                    p.0 as int,
                    p.1 as int,
                );
                if pre.idx(p) == pre.idx(a) {
                    lemma_row_major_injective(
                        pre.columns as int,
                        p.0 as int,
                        p.1 as int,
                        a.0 as int,
                        a.1 as int,
                    );
                }
                if pre.idx(p) == pre.idx(b) {
                    lemma_row_major_injective(
                        pre.columns as int,
                        p.0 as int,
                        p.1 as int,
                        b.0 as int,
                        b.1 as int,
                    );
                }
            }
            assert(post.cell_at(a) == mid.cells@[ia as int]);
            assert(post.cell_at(b) == post.cells@[ib as int]);
            assert forall|p: (i32, i32), q: (i32, i32)|
                post.linked(p, q) <==> (pre.linked(p, q) || (p == a && q == b) || (p == b && q
                    == a)) by {
                if pre.in_bounds(p) {
                    if p != a && p != b {
                        assert(post.cell_at(p) == pre.cell_at(p));
                    }
                }
            }
            assert(post.cells_ok()) by {
                assert forall|p: (i32, i32)| post.in_bounds(p) implies {
                    &&& topology_ok(#[trigger] post.cell_at(p), post.rows, post.columns, p.0, p.1)
                    &&& post.cell_at(p).links_distinct()
                    &&& forall|q: (i32, i32)|
                        post.cell_at(p).linked_to(q) ==> post.in_bounds(q) && adjacent(p, q)
                } by {
                    if p != a && p != b {
                        assert(post.cell_at(p) == pre.cell_at(p));
                    }
                    assert forall|q: (i32, i32)| post.cell_at(p).linked_to(q)
                        implies post.in_bounds(q) && adjacent(p, q) by {
                        assert(post.linked(p, q));
                        assert(topology_ok(pre.cell_at(p), pre.rows, pre.columns, p.0, p.1));
                        if pre.linked(p, q) {
                            assert(pre.cell_at(p).linked_to(q));
                            assert(pre.in_bounds(q) && adjacent(p, q));
                        } else {
                            assert((p == a && q == b) || (p == b && q == a));
                        }
                    }
                }
            }
            assert(post.symmetric()) by {
                assert forall|x: (i32, i32), y: (i32, i32)|
                    post.in_bounds(x) && post.in_bounds(y) implies (
                #[trigger] post.cell_at(x).linked_to(y) == post.cell_at(y).linked_to(x)) by {
                    assert(post.cell_at(x).linked_to(y) == post.linked(x, y));
                    assert(post.cell_at(y).linked_to(x) == post.linked(y, x));
                }
            }
        }
    }

    /// Removes the symmetric passage between `a` and `b`; a no-op when the
    /// two cells are not linked.
    pub fn unlink(&mut self, a: (i32, i32), b: (i32, i32))
        requires
            old(self).wf(),
            old(self).in_bounds(a),
            old(self).in_bounds(b),
            a != b,
        ensures
            final(self).wf(),
            final(self).rows == old(self).rows,
            final(self).columns == old(self).columns,
            forall|p: (i32, i32), q: (i32, i32)|
                final(self).linked(p, q) <==> (old(self).linked(p, q) && !(p == a && q == b) && !(
                p == b && q == a)),
            forall|p: (i32, i32)|
                old(self).in_bounds(p) && p != a && p != b ==> final(self).cell_at(p) == old(
                    self,
                ).cell_at(p),
            final(self).total_links() == old(self).total_links() - (if old(self).linked(a, b) {
                2int
            } else {
                0int
            }),
    {
        let ia = self.index_of(a);
        let ib = self.index_of(b);
        proof {
            if ia == ib {
                lemma_row_major_injective(
                    self.columns as int,
                    a.0 as int,
                    a.1 as int,
                    b.0 as int,
                    b.1 as int,
                );
            }
            assert(ia != ib);
        }
        let ghost pre = *self;
        let ca = &mut self.cells[ia];
        ca.unlink(b);
        let ghost mid = *self;
        proof {
            assert(mid.cells@ =~= pre.cells@.update(ia as int, mid.cells@[ia as int]));
            lemma_links_total_update(pre.cells@, ia as int, mid.cells@[ia as int]);
        }
        let cb = &mut self.cells[ib];
        cb.unlink(a);
        proof {
            let post = *self;
            assert(post.cells@ =~= mid.cells@.update(ib as int, post.cells@[ib as int]));
            lemma_links_total_update(mid.cells@, ib as int, post.cells@[ib as int]);
            assert(pre.cell_at(a).linked_to(b) == pre.cell_at(b).linked_to(a));
            assert forall|p: (i32, i32)|
                pre.in_bounds(p) && p != a && p != b implies post.cell_at(p) == pre.cell_at(
                p,
            ) by {
                lemma_row_major_bounds(
                    pre.rows as int,
                    pre.columns as int,
                    p.0 as int,
                    p.1 as int,
                );
                if pre.idx(p) == pre.idx(a) {
                    lemma_row_major_injective(
                        pre.columns as int,
                        p.0 as int,
                        p.1 as int,
                        a.0 as int,
                        a.1 as int,
                    );
                }
                if pre.idx(p) == pre.idx(b) {
                    lemma_row_major_injective(
                        pre.columns as int,
                        p.0 as int,
                        p.1 as int,
                        b.0 as int,
                        b.1 as int,
                    );
                }
            }
            assert(post.cell_at(a) == mid.cells@[ia as int]);
            assert(post.cell_at(b) == post.cells@[ib as int]);
            assert forall|p: (i32, i32), q: (i32, i32)|
                post.linked(p, q) <==> (pre.linked(p, q) && !(p == a && q == b) && !(p == b && q
                    == a)) by {
                if pre.in_bounds(p) {
                    if p != a && p != b {
                        assert(post.cell_at(p) == pre.cell_at(p));
                    }
                }
            }
            assert(post.cells_ok()) by {
                assert forall|p: (i32, i32)| post.in_bounds(p) implies {
                    &&& topology_ok(#[trigger] post.cell_at(p), post.rows, post.columns, p.0, p.1)
                    &&& post.cell_at(p).links_distinct()
                    &&& forall|q: (i32, i32)|
                        post.cell_at(p).linked_to(q) ==> post.in_bounds(q) && adjacent(p, q)
                } by {
                    if p != a && p != b {
                        assert(post.cell_at(p) == pre.cell_at(p));
                    }
                    assert forall|q: (i32, i32)| post.cell_at(p).linked_to(q)
                        implies post.in_bounds(q) && adjacent(p, q) by {
                        assert(post.linked(p, q));
                        assert(topology_ok(pre.cell_at(p), pre.rows, pre.columns, p.0, p.1));
                        assert(pre.linked(p, q));
                        assert(pre.cell_at(p).linked_to(q));
                        assert(pre.in_bounds(q) && adjacent(p, q));
                    }
                }
            }
            assert(post.symmetric()) by {
                assert forall|x: (i32, i32), y: (i32, i32)|
                    post.in_bounds(x) && post.in_bounds(y) implies (
                #[trigger] post.cell_at(x).linked_to(y) == post.cell_at(y).linked_to(x)) by {
                    assert(post.cell_at(x).linked_to(y) == post.linked(x, y));
                    assert(post.cell_at(y).linked_to(x) == post.linked(y, x));
                }
            }
        }
    }
}

} // verus!
