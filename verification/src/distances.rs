use vstd::prelude::*;

use crate::cell::coord_eq;
use crate::grid::Grid;
use crate::grid::lemma_row_major_bounds;
use crate::grid::lemma_row_major_injective;

verus! {

/// The finite map a distance table holds: later entries win, though a
/// well-formed table never repeats a key.
pub open spec fn map_of(entries: Seq<((i32, i32), usize)>) -> Map<(i32, i32), usize>
    decreases entries.len(),
{
    if entries.len() == 0 {
        Map::empty()
    } else {
        map_of(entries.drop_last()).insert(entries.last().0, entries.last().1)
    }
}

/// No two entries share a key.
pub open spec fn keys_distinct(entries: Seq<((i32, i32), usize)>) -> bool {
    forall|i: int, j: int|
        0 <= i < j < entries.len() ==> (#[trigger] entries[i]).0 != (#[trigger] entries[j]).0
}

pub proof fn lemma_map_of_contains(entries: Seq<((i32, i32), usize)>, p: (i32, i32))
    ensures
        map_of(entries).dom().contains(p) <==> exists|i: int|
            0 <= i < entries.len() && (#[trigger] entries[i]).0 == p,
    decreases entries.len(),
{
    if entries.len() > 0 {
        lemma_map_of_contains(entries.drop_last(), p);
        if entries.last().0 == p {
            assert(entries[entries.len() - 1].0 == p);
        }
        if exists|i: int| 0 <= i < entries.len() && (#[trigger] entries[i]).0 == p {
            let i = choose|i: int| 0 <= i < entries.len() && (#[trigger] entries[i]).0 == p;
            if i < entries.len() - 1 {
                assert(entries.drop_last()[i].0 == p);
            }
        }
    }
}

pub proof fn lemma_map_of_index(entries: Seq<((i32, i32), usize)>, i: int)
    requires
        keys_distinct(entries),
        0 <= i < entries.len(),
    ensures
        map_of(entries).dom().contains(entries[i].0),
        map_of(entries)[entries[i].0] == entries[i].1,
    decreases entries.len(),
{
    if i < entries.len() - 1 {
        assert(entries.drop_last()[i] == entries[i]);
        lemma_map_of_index(entries.drop_last(), i);
        assert(entries[i].0 != entries.last().0);
    }
}

/// Updating the entry that holds a key acts as an insert on the map.
pub proof fn lemma_map_of_update(entries: Seq<((i32, i32), usize)>, i: int, v: usize)
    requires
        keys_distinct(entries),
        0 <= i < entries.len(),
    ensures
        map_of(entries.update(i, (entries[i].0, v))) =~= map_of(entries).insert(entries[i].0, v),
    decreases entries.len(),
{
    let k = entries[i].0;
    let upd = entries.update(i, (k, v));
    if i == entries.len() - 1 {
        assert(upd.drop_last() =~= entries.drop_last());
    } else {
        assert(upd.drop_last() =~= entries.drop_last().update(i, (k, v)));
        assert(entries.drop_last()[i] == entries[i]);
        lemma_map_of_update(entries.drop_last(), i, v);
        assert(upd.last() == entries.last());
        assert(k != entries.last().0);
        assert(map_of(upd) =~= map_of(entries).insert(k, v));
    }
}

/// A distance table with distinct in-bounds keys has no more entries than
/// the grid has cells.
pub proof fn lemma_entries_bounded(g: Grid, entries: Seq<((i32, i32), usize)>)
    requires
        g.dims_ok(),
        keys_distinct(entries),
        forall|i: int| 0 <= i < entries.len() ==> g.in_bounds((#[trigger] entries[i]).0),
    ensures
        entries.len() <= g.size(),
{
    let idxs = entries.map_values(|e: ((i32, i32), usize)| crate::grid::cell_index(g.columns, e.0));
    assert forall|i: int, j: int| 0 <= i < j < idxs.len() implies idxs[i] != idxs[j] by {
        if idxs[i] == idxs[j] {
            lemma_row_major_injective(
                g.columns as int,
                entries[i].0.0 as int,
                entries[i].0.1 as int,
                entries[j].0.0 as int,
                entries[j].0.1 as int,
            );
        }
    }
    assert(idxs.no_duplicates());
    idxs.unique_seq_to_set();
    assert forall|x: int| idxs.to_set().contains(x) implies vstd::set_lib::set_int_range(
        0,
        g.size(),
    ).contains(x) by {
        let i = choose|i: int| 0 <= i < idxs.len() && idxs[i] == x;
        lemma_row_major_bounds(
            g.rows as int,
            g.columns as int,
            entries[i].0.0 as int,
            entries[i].0.1 as int,
        );
    }
    vstd::set_lib::lemma_int_range(0, g.size());
    vstd::set_lib::lemma_len_subset(idxs.to_set(), vstd::set_lib::set_int_range(0, g.size()));
}

/// A recorded cell all of whose linked neighbours are recorded at most one
/// step further out.
pub open spec fn bfs_closed(g: Grid, d: Map<(i32, i32), usize>, p: (i32, i32)) -> bool {
    forall|q: (i32, i32)| #[trigger]
        g.linked(p, q) ==> d.dom().contains(q) && d[q] <= d[p] + 1
}

/// What a finished breadth-first pass over the link graph guarantees: the
/// root at zero; every recorded cell on the grid; every recorded cell but
/// the root one step further than some recorded linked neighbour; every
/// linked neighbour of a recorded cell recorded at most one step further;
/// and every recorded distance of the same parity as the straight-line
/// coordinate offset from the root.
pub open spec fn bfs_complete(g: Grid, d: Distances) -> bool {
    &&& d@.dom().contains(d.root) && d@[d.root] == 0
    &&& forall|p: (i32, i32)| #[trigger] d@.dom().contains(p) ==> g.in_bounds(p)
    &&& forall|p: (i32, i32)|
        #[trigger] d@.dom().contains(p) && p != d.root ==> exists|q: (i32, i32)|
            g.linked(p, q) && #[trigger] d@.dom().contains(q) && d@[p] == d@[q] + 1
    &&& forall|p: (i32, i32)| #[trigger] d@.dom().contains(p) ==> bfs_closed(g, d@, p)
    &&& forall|p: (i32, i32)| #[trigger]
        d@.dom().contains(p) ==> (d@[p] + p.0 + p.1 + d.root.0 + d.root.1) % 2 == 0
}

/// Moving one step along a passage flips the parity of the coordinate sum,
/// so distance plus coordinate offset keeps its parity.
pub proof fn lemma_parity_step(df: int, f: (i32, i32), q: (i32, i32), root: (i32, i32))
    requires
        crate::grid::adjacent(f, q),
        (df + f.0 + f.1 + root.0 + root.1) % 2 == 0,
    ensures
        (df + 1 + q.0 + q.1 + root.0 + root.1) % 2 == 0,
{
    let sf = df + f.0 + f.1 + root.0 + root.1;
    let sq = df + 1 + q.0 + q.1 + root.0 + root.1;
    assert(sq == sf + 2 || sq == sf);
    if sq == sf + 2 {
        assert((sf + 2) % 2 == sf % 2) by (nonlinear_arith);
    }
}

/// The farthest recorded cell and its distance; ties go to the lowest row,
/// then the lowest column.
pub struct MaxDistance {
    pub cell: (i32, i32),
    pub value: usize,
}

impl MaxDistance {
    pub fn new(cell: (i32, i32), value: usize) -> (r: MaxDistance)
        ensures
            r.cell == cell,
            r.value == value,
    {
        MaxDistance { cell, value }
    }

    pub fn cell(&self) -> (r: (i32, i32))
        ensures
            r == self.cell,
    {
        self.cell
    }

    pub fn value(&self) -> (r: usize)
        ensures
            r == self.value,
    {
        self.value
    }
}

/// Whether `a` comes before `b` in the fixed tie-break order: lowest row,
/// then lowest column.
pub open spec fn coord_before(a: (i32, i32), b: (i32, i32)) -> bool {
    a.0 < b.0 || (a.0 == b.0 && a.1 <= b.1)
}

/// Distances from one root coordinate, filled in by a breadth-first walk of
/// the link graph.
pub struct Distances {
    pub root: (i32, i32),
    pub cells: Vec<((i32, i32), usize)>,
}

impl View for Distances {
    type V = Map<(i32, i32), usize>;

    open spec fn view(&self) -> Map<(i32, i32), usize> {
        map_of(self.cells@)
    }
}

impl Distances {
    /// The entry list never repeats a key.
    pub open spec fn wf(self) -> bool {
        keys_distinct(self.cells@)
    }

    /// A fresh table: the root at distance zero, nothing else.
    pub fn new(root: (i32, i32)) -> (r: Distances)
        ensures
            r.root == root,
            r.wf(),
            r@ == Map::<(i32, i32), usize>::empty().insert(root, 0),
            r.cells@.len() == 1,
    {
        let mut cells: Vec<((i32, i32), usize)> = Vec::new();
        cells.push((root, 0));
        proof {
            assert(cells@.drop_last() =~= Seq::<((i32, i32), usize)>::empty());
            assert(map_of(cells@.drop_last()) =~= Map::<(i32, i32), usize>::empty());
            assert(map_of(cells@) =~= Map::<(i32, i32), usize>::empty().insert(root, 0));
        }
        Distances { root, cells }
    }

    /// The root this table measures from.
    pub fn root(&self) -> (r: (i32, i32))
        ensures
            r == self.root,
    {
        self.root
    }

    /// The recorded distance of a cell, absent when the cell was never
    /// reached.
    pub fn get(&self, cell: (i32, i32)) -> (r: Option<usize>)
        requires
            self.wf(),
        ensures
            r == (if self@.dom().contains(cell) {
                Some(self@[cell])
            } else {
                None::<usize>
            }),
    {
        let n = self.cells.len();
        let mut i: usize = 0;
        while i < n
            invariant
                self.wf(),
                n == self.cells@.len(),
                i <= n,
                forall|k: int| 0 <= k < i ==> (#[trigger] self.cells@[k]).0 != cell,
            decreases n - i,
        {
            let entry = self.cells[i];
            if coord_eq(entry.0, cell) {
                proof {
                    lemma_map_of_index(self.cells@, i as int);
                }
                return Some(entry.1);
            }
            i = i + 1;
        }
        proof {
            lemma_map_of_contains(self.cells@, cell);
        }
        None
    }

    /// Records a distance, replacing any earlier value for the cell.
    pub fn set(&mut self, cell: (i32, i32), distance: usize)
        requires
            old(self).wf(),
        ensures
            final(self).wf(),
            final(self).root == old(self).root,
            final(self)@ == old(self)@.insert(cell, distance),
            final(self).cells@.len() == old(self).cells@.len() + (if old(
                self,
            )@.dom().contains(cell) {
                0int
            } else {
                1int
            }),
            forall|k: int|
                0 <= k < final(self).cells@.len() ==> (#[trigger] final(self).cells@[k]).0 == cell
                    || (0 <= k < old(self).cells@.len() && final(self).cells@[k] == old(
                    self,
                ).cells@[k]),
    {
        let n = self.cells.len();
        let mut i: usize = 0;
        while i < n
            invariant
                self.wf(),
                *self == *old(self),
                n == self.cells@.len(),
                i <= n,
                forall|k: int| 0 <= k < i ==> (#[trigger] self.cells@[k]).0 != cell,
            decreases n - i,
        {
            let entry = self.cells[i];
            if coord_eq(entry.0, cell) {
                self.cells[i] = (cell, distance);
                proof {
                    lemma_map_of_update(old(self).cells@, i as int, distance);
                    lemma_map_of_contains(old(self).cells@, cell);
                }
                return ;
            }
            i = i + 1;
        }
        let ghost pre = self.cells@;
        self.cells.push((cell, distance));
        proof {
            assert(self.cells@.drop_last() =~= pre);
            lemma_map_of_contains(pre, cell);
            assert(self.cells@[pre.len() as int].0 == cell);
        }
    }

    /// Fills the table by breadth-first expansion over the link graph,
    /// frontier by frontier, starting from the root of a fresh table.
    pub fn calculate(&mut self, root: (i32, i32), grid: &Grid)
        requires
            grid.wf(),
            old(self).wf(),
            root == old(self).root,
            grid.in_bounds(root),
            old(self)@ == Map::<(i32, i32), usize>::empty().insert(root, 0),
            old(self).cells@.len() == 1,
        ensures
            final(self).wf(),
            final(self).root == root,
            bfs_complete(*grid, *final(self)),
    {
        let mut frontier: Vec<(i32, i32)> = Vec::new();
        frontier.push(root);
        let ghost mut level: int = 0;
        proof {
            assert(frontier@[0] == root);
            lemma_map_of_index(self.cells@, 0);
            assert(self.cells@[0].0 == root);
            lemma_entries_bounded(*grid, self.cells@);
        }
        while frontier.len() > 0
            invariant
                grid.wf(),
                self.wf(),
                self.root == root,
                grid.in_bounds(root),
                self@.dom().contains(root),
                self@[root] == 0,
                forall|p: (i32, i32)| #[trigger] self@.dom().contains(p) ==> grid.in_bounds(p),
                forall|p: (i32, i32)|
                    #[trigger] self@.dom().contains(p) && p != root ==> exists|q: (i32, i32)|
                        grid.linked(p, q) && #[trigger] self@.dom().contains(q) && self@[p]
                            == self@[q] + 1,
                forall|p: (i32, i32)| #[trigger]
                    self@.dom().contains(p) ==> (self@[p] + p.0 + p.1 + root.0 + root.1) % 2
                        == 0,
                0 <= level,
                forall|p: (i32, i32)| #[trigger] self@.dom().contains(p) ==> self@[p] <= level,
                forall|k: int|
                    0 <= k < frontier@.len() ==> self@.dom().contains(#[trigger] frontier@[k])
                        && self@[frontier@[k]] == level,
                forall|p: (i32, i32)|
                    #[trigger] self@.dom().contains(p) ==> bfs_closed(*grid, self@, p) || exists|
                        k: int,
                    |
                        0 <= k < frontier@.len() && frontier@[k] == p,
                frontier@.len() > 0 ==> level < self.cells@.len(),
                self.cells@.len() <= grid.size(),
            decreases grid.size() - self.cells@.len(), frontier@.len(),
        {
            let ghost outer_len = self.cells@.len() as int;
            let mut new_frontier: Vec<(i32, i32)> = Vec::new();
            let flen = frontier.len();
            let mut fi: usize = 0;
            while fi < flen
                invariant
                    grid.wf(),
                    self.wf(),
                    self.root == root,
                    grid.in_bounds(root),
                    self@.dom().contains(root),
                    self@[root] == 0,
                    forall|p: (i32, i32)| #[trigger] self@.dom().contains(p) ==> grid.in_bounds(
                        p,
                    ),
                    forall|p: (i32, i32)|
                        #[trigger] self@.dom().contains(p) && p != root ==> exists|q: (i32, i32)|
                            grid.linked(p, q) && #[trigger] self@.dom().contains(q) && self@[p]
                                == self@[q] + 1,
                    forall|p: (i32, i32)| #[trigger]
                        self@.dom().contains(p) ==> (self@[p] + p.0 + p.1 + root.0 + root.1) % 2
                            == 0,
                    0 <= level,
                    forall|p: (i32, i32)| #[trigger] self@.dom().contains(p) ==> self@[p] <= level
                        + 1,
                    flen == frontier@.len(),
                    fi <= flen,
                    forall|k: int|
                        0 <= k < frontier@.len() ==> self@.dom().contains(
                            #[trigger] frontier@[k],
                        ) && self@[frontier@[k]] == level,
                    forall|k: int|
                        0 <= k < new_frontier@.len() ==> self@.dom().contains(
                            #[trigger] new_frontier@[k],
                        ) && self@[new_frontier@[k]] == level + 1,
                    forall|p: (i32, i32)|
                        #[trigger] self@.dom().contains(p) ==> bfs_closed(*grid, self@, p)
                            || (exists|k: int|
                            fi <= k < frontier@.len() && frontier@[k] == p) || (exists|k: int|
                            0 <= k < new_frontier@.len() && new_frontier@[k] == p),
                    level < self.cells@.len(),
                    self.cells@.len() == outer_len + new_frontier@.len(),
                    self.cells@.len() <= grid.size(),
                decreases flen - fi,
            {
                let f = frontier[fi];
                let dist = self.get(f).unwrap();
                let fcell = grid.cell(f.0, f.1).unwrap();
                let ghost dpre = self@;
                let nlinks = fcell.links().len();
                let mut li: usize = 0;
                while li < nlinks
                    invariant
                        grid.wf(),
                        self.wf(),
                        self.root == root,
                        grid.in_bounds(root),
                        self@.dom().contains(root),
                        self@[root] == 0,
                        grid.in_bounds(f),
                        *fcell == grid.cell_at(f),
                        nlinks == fcell.links@.len(),
                        li <= nlinks,
                        self@.dom().contains(f),
                        self@[f] == level,
                        dist == level,
                        forall|p: (i32, i32)| #[trigger]
                            self@.dom().contains(p) ==> grid.in_bounds(p),
                        forall|p: (i32, i32)|
                            #[trigger] self@.dom().contains(p) && p != root ==> exists|
                                q: (i32, i32),
                            |
                                grid.linked(p, q) && #[trigger] self@.dom().contains(q)
                                    && self@[p] == self@[q] + 1,
                        forall|p: (i32, i32)| #[trigger]
                            self@.dom().contains(p) ==> (self@[p] + p.0 + p.1 + root.0 + root.1)
                                % 2 == 0,
                        0 <= level,
                        forall|p: (i32, i32)| #[trigger] self@.dom().contains(p) ==> self@[p]
                            <= level + 1,
                        flen == frontier@.len(),
                        fi < flen,
                        f == frontier@[fi as int],
                        forall|k: int|
                            0 <= k < frontier@.len() ==> self@.dom().contains(
                                #[trigger] frontier@[k],
                            ) && self@[frontier@[k]] == level,
                        forall|k: int|
                            0 <= k < new_frontier@.len() ==> self@.dom().contains(
                                #[trigger] new_frontier@[k],
                            ) && self@[new_frontier@[k]] == level + 1,
                        forall|p: (i32, i32)|
                            #[trigger] self@.dom().contains(p) ==> bfs_closed(*grid, self@, p)
                                || (exists|k: int|
                                fi <= k < frontier@.len() && frontier@[k] == p) || (exists|
                                k: int,
                            |
                                0 <= k < new_frontier@.len() && new_frontier@[k] == p),
                        forall|k: int|
                            0 <= k < li ==> {
                                let q = #[trigger] fcell.links@[k];
                                self@.dom().contains(q) && self@[q] <= level + 1
                            },
                        level < self.cells@.len(),
                        self.cells@.len() == outer_len + new_frontier@.len(),
                        self.cells@.len() <= grid.size(),
                    decreases nlinks - li,
                {
                    let q = fcell.links[li];
                    proof {
                        assert(grid.cell_at(f).linked_to(q));
                        assert(grid.linked(f, q));
                        assert(grid.in_bounds(q) && crate::grid::adjacent(f, q));
                    }
                    match self.get(q) {
                        Some(_) => {
                        },
                        None => {
                            let ghost dold = self@;
                            let ghost nfpre = new_frontier@;
                            self.set(q, dist + 1);
                            new_frontier.push(q);
                            proof {
                                assert(self@ == dold.insert(q, (dist + 1) as usize));
                                assert forall|i: int| 0 <= i < self.cells@.len() implies grid.in_bounds(
                                    (#[trigger] self.cells@[i]).0,
                                ) by {
                                    lemma_map_of_index(self.cells@, i);
                                }
                                lemma_entries_bounded(*grid, self.cells@);
                                lemma_parity_step(level, f, q, root);
                                // the fresh cell has its parent one step in
                                assert(grid.linked(q, f));
                                assert(self@.dom().contains(f) && self@[q] == self@[f] + 1);
                                assert forall|p: (i32, i32)|
                                    #[trigger] self@.dom().contains(p) && p != root implies exists|
                                    qq: (i32, i32),
                                |
                                    grid.linked(p, qq) && #[trigger] self@.dom().contains(qq)
                                        && self@[p] == self@[qq] + 1 by {
                                    if p == q {
                                        assert(grid.linked(q, f) && self@.dom().contains(f)
                                            && self@[q] == self@[f] + 1);
                                    } else {
                                        assert(dold.dom().contains(p));
                                        let qq = choose|qq: (i32, i32)|
                                            grid.linked(p, qq) && #[trigger] dold.dom().contains(
                                                qq,
                                            ) && dold[p] == dold[qq] + 1;
                                        assert(grid.linked(p, qq) && self@.dom().contains(qq)
                                            && self@[p] == self@[qq] + 1);
                                    }
                                }
                                assert forall|p: (i32, i32)|
                                    #[trigger] self@.dom().contains(p) implies bfs_closed(
                                    *grid,
                                    self@,
                                    p,
                                ) || (exists|k: int|
                                    fi <= k < frontier@.len() && frontier@[k] == p) || (exists|
                                    k: int,
                                |
                                    0 <= k < new_frontier@.len() && new_frontier@[k] == p) by {
                                    if p == q {
                                        assert(new_frontier@[new_frontier@.len() - 1] == q);
                                    } else {
                                        assert(dold.dom().contains(p));
                                        if bfs_closed(*grid, dold, p) {
                                            assert forall|qq: (i32, i32)| #[trigger]
                                                grid.linked(p, qq) implies self@.dom().contains(
                                                qq,
                                            ) && self@[qq] <= self@[p] + 1 by {
                                                assert(dold.dom().contains(qq) && dold[qq]
                                                    <= dold[p] + 1);
                                            }
                                        } else if exists|k: int|
                                            fi <= k < frontier@.len() && frontier@[k] == p {
                                        } else {
                                            let k = choose|k: int|
                                                0 <= k < nfpre.len() && nfpre[k] == p;
                                            assert(new_frontier@[k] == p);
                                        }
                                    }
                                }
                            }
                        },
                    }
                    li = li + 1;
                }
                proof {
                    // every linked neighbour of f sits in the table one step out
                    assert(bfs_closed(*grid, self@, f)) by {
                        assert forall|q: (i32, i32)| #[trigger] grid.linked(f, q)
                            implies self@.dom().contains(q) && self@[q] <= self@[f] + 1 by {
                            let k = choose|k: int|
                                0 <= k < fcell.links@.len() && fcell.links@[k] == q;
                        }
                    }
                    assert forall|p: (i32, i32)|
                        #[trigger] self@.dom().contains(p) implies bfs_closed(*grid, self@, p)
                            || (exists|k: int|
                            fi + 1 <= k < frontier@.len() && frontier@[k] == p) || (exists|k: int|
                            0 <= k < new_frontier@.len() && new_frontier@[k] == p) by {
                        if !bfs_closed(*grid, self@, p) {
                            if exists|k: int| fi <= k < frontier@.len() && frontier@[k] == p {
                                let k = choose|k: int|
                                    fi <= k < frontier@.len() && frontier@[k] == p;
                                if k == fi {
                                    assert(p == f);
                                    assert(bfs_closed(*grid, self@, f));
                                } else {
                                    assert(fi + 1 <= k < frontier@.len() && frontier@[k] == p);
                                }
                            }
                        }
                    }
                }
                fi = fi + 1;
            }
            frontier = new_frontier;
            proof {
                level = level + 1;
            }
        }
        proof {
            assert forall|p: (i32, i32)| #[trigger] final(self)@.dom().contains(p) implies
                bfs_closed(*grid, final(self)@, p) by {
                assert(frontier@.len() == 0);
            }
        }
    }

    /// The shortest path from the root to `goal`, rebuilt by walking from
    /// the goal to ever smaller recorded distances. Absent when the goal was
    /// never reached, or when the table does not describe a complete
    /// breadth-first pass over this grid's links.
    pub fn path_to(&self, goal: (i32, i32), grid: &Grid) -> (r: Option<Vec<(i32, i32)>>)
        requires
            grid.wf(),
            self.wf(),
        ensures
            match r {
                None => !(bfs_complete(*grid, *self) && self@.dom().contains(goal)),
                Some(path) => {
                    &&& self@.dom().contains(goal)
                    &&& path@.len() == self@[goal] + 1
                    &&& path@[0] == self.root
                    &&& path@[path@.len() - 1] == goal
                    &&& forall|i: int|
                        0 <= i < path@.len() ==> self@.dom().contains(#[trigger] path@[i])
                            && self@[path@[i]] == i
                    &&& forall|i: int|
                        0 <= i < path@.len() - 1 ==> grid.linked(#[trigger] path@[i + 1], path@[i])
                },
            },
            !self@.dom().contains(goal) ==> r is None,
    {
        let root = self.root;
        let dg = match self.get(goal) {
            None => {
                return None;
            },
            Some(d) => d,
        };
        let mut rev: Vec<(i32, i32)> = Vec::new();
        rev.push(goal);
        let mut current = goal;
        let mut dist = dg;
        while dist > 0
            invariant
                grid.wf(),
                self.wf(),
                root == self.root,
                self@.dom().contains(goal),
                self@[goal] == dg,
                self@.dom().contains(current),
                self@[current] == dist,
                dist <= dg,
                rev@.len() == dg - dist + 1,
                rev@[0] == goal,
                rev@[rev@.len() - 1] == current,
                forall|i: int|
                    0 <= i < rev@.len() ==> self@.dom().contains(#[trigger] rev@[i])
                        && self@[rev@[i]] == dg - i,
                forall|i: int|
                    0 <= i < rev@.len() - 1 ==> grid.linked(#[trigger] rev@[i], rev@[i + 1]),
            decreases dist,
        {
            let ccell = match grid.cell(current.0, current.1) {
                None => {
                    proof {
                        if bfs_complete(*grid, *self) {
                            assert(grid.in_bounds(current));
                        }
                    }
                    return None;
                },
                Some(c) => c,
            };
            let nl = ccell.links().len();
            let mut li: usize = 0;
            let mut found: Option<(i32, i32)> = None;
            while li < nl && found.is_none()
                invariant
                    grid.wf(),
                    self.wf(),
                    grid.in_bounds(current),
                    *ccell == grid.cell_at(current),
                    nl == ccell.links@.len(),
                    li <= nl,
                    dist > 0,
                    match found {
                        Some(q) => grid.linked(current, q) && self@.dom().contains(q)
                            && self@[q] == dist - 1,
                        None => forall|k: int|
                            0 <= k < li ==> !(self@.dom().contains(#[trigger] ccell.links@[k])
                                && self@[ccell.links@[k]] == dist - 1),
                    },
                decreases nl - li,
            {
                let q = ccell.links[li];
                match self.get(q) {
                    Some(dq) => {
                        if dq == dist - 1 {
                            found = Some(q);
                            proof {
                                assert(grid.cell_at(current).linked_to(q));
                            }
                        }
                    },
                    None => {},
                }
                li = li + 1;
            }
            match found {
                Some(q) => {
                    rev.push(q);
                    current = q;
                    dist = dist - 1;
                    proof {
                        assert(rev@[rev@.len() - 2] == grid.cell_at(rev@[rev@.len() - 2]).coord()
                            || true);
                        assert(grid.linked(rev@[rev@.len() - 2], rev@[rev@.len() - 1]));
                    }
                },
                None => {
                    proof {
                        if bfs_complete(*grid, *self) {
                            assert(self@[current] > 0);
                            assert(current != self.root);
                            let q = choose|q: (i32, i32)|
                                grid.linked(current, q) && #[trigger] self@.dom().contains(q)
                                    && self@[current] == self@[q] + 1;
                            assert(grid.cell_at(current).linked_to(q));
                            let k = choose|k: int|
                                0 <= k < ccell.links@.len() && ccell.links@[k] == q;
                            assert(!(self@.dom().contains(ccell.links@[k])
                                && self@[ccell.links@[k]] == dist - 1));
                            assert(false);
                        }
                    }
                    return None;
                },
            }
        }
        if !coord_eq(current, root) {
            proof {
                if bfs_complete(*grid, *self) {
                    assert(self@.dom().contains(current) && current != self.root);
                    let q = choose|q: (i32, i32)|
                        grid.linked(current, q) && #[trigger] self@.dom().contains(q)
                            && self@[current] == self@[q] + 1;
                    assert(self@[current] == self@[q] + 1 >= 1);
                    assert(false);
                }
            }
            return None;
        }
        let n = rev.len();
        let mut path: Vec<(i32, i32)> = Vec::new();
        let mut i: usize = n;
        while i > 0
            invariant
                n == rev@.len(),
                i <= n,
                path@.len() == n - i,
                forall|k: int| 0 <= k < path@.len() ==> #[trigger] path@[k] == rev@[n - 1 - k],
            decreases i,
        {
            i = i - 1;
            path.push(rev[i]);
        }
        proof {
            assert(path@[0] == rev@[n - 1]);
            assert(path@[path@.len() - 1] == rev@[0]);
            assert forall|k: int|
                0 <= k < path@.len() - 1 implies grid.linked(
                #[trigger] path@[k + 1],
                path@[k],
            ) by {
                assert(path@[k + 1] == rev@[n - 2 - k]);
                assert(path@[k] == rev@[n - 1 - k]);
                assert(grid.linked(rev@[n - 2 - k], rev@[n - 2 - k + 1]));
            }
        }
        Some(path)
    }

    /// The farthest reached cell with its distance, ties broken toward the
    /// lowest row and then the lowest column; the root at zero for a table
    /// with no entries.
    pub fn max_distance(&self) -> (r: MaxDistance)
        requires
            self.wf(),
        ensures
            forall|p: (i32, i32)| self@.dom().contains(p) ==> self@[p] <= r.value,
            self.cells@.len() == 0 ==> r.cell == self.root && r.value == 0,
            self.cells@.len() > 0 ==> self@.dom().contains(r.cell) && self@[r.cell] == r.value,
            forall|p: (i32, i32)|
                self@.dom().contains(p) && self@[p] == r.value ==> coord_before(r.cell, p),
    {
        let n = self.cells.len();
        if n == 0 {
            proof {
                assert forall|p: (i32, i32)| self@.dom().contains(p) implies self@[p] <= 0 by {
                    lemma_map_of_contains(self.cells@, p);
                }
            }
            return MaxDistance::new(self.root, 0);
        }
        let first = self.cells[0];
        let mut best_cell = first.0;
        let mut best = first.1;
        let ghost mut bk: int = 0;
        let mut i: usize = 1;
        while i < n
            invariant
                self.wf(),
                n == self.cells@.len(),
                1 <= i <= n,
                0 <= bk < i,
                self.cells@[bk] == (best_cell, best),
                forall|k: int| 0 <= k < i ==> (#[trigger] self.cells@[k]).1 <= best,
                forall|k: int|
                    0 <= k < i && (#[trigger] self.cells@[k]).1 == best ==> coord_before(
                        best_cell,
                        self.cells@[k].0,
                    ),
            decreases n - i,
        {
            let entry = self.cells[i];
            let closer = entry.0.0 < best_cell.0 || (entry.0.0 == best_cell.0 && entry.0.1
                < best_cell.1);
            if entry.1 > best || (entry.1 == best && closer) {
                best_cell = entry.0;
                best = entry.1;
                proof {
                    bk = i as int;
                }
            }
            i = i + 1;
        }
        proof {
            lemma_map_of_index(self.cells@, bk);
            assert forall|p: (i32, i32)| self@.dom().contains(p) implies self@[p] <= best by {
                lemma_map_of_contains(self.cells@, p);
                let k = choose|k: int|
                    0 <= k < self.cells@.len() && (#[trigger] self.cells@[k]).0 == p;
                lemma_map_of_index(self.cells@, k);
            }
            assert forall|p: (i32, i32)|
                self@.dom().contains(p) && self@[p] == best implies coord_before(
                best_cell,
                p,
            ) by {
                lemma_map_of_contains(self.cells@, p);
                let k = choose|k: int|
                    0 <= k < self.cells@.len() && (#[trigger] self.cells@[k]).0 == p;
                lemma_map_of_index(self.cells@, k);
            }
        }
        MaxDistance::new(best_cell, best)
    }
}

/// Tree-distance law: across any recorded passage of a grid whose distance
/// table came from a finished breadth-first pass, the two recorded
/// distances differ by exactly one.
pub proof fn lemma_linked_distance_step(g: Grid, d: Distances, a: (i32, i32), b: (i32, i32))
    requires
        g.wf(),
        bfs_complete(g, d),
        g.linked(a, b),
        d@.dom().contains(a),
    ensures
        d@.dom().contains(b),
        d@[a] - d@[b] == 1 || d@[b] - d@[a] == 1,
{
    assert(bfs_closed(g, d@, a));
    assert(d@.dom().contains(b) && d@[b] <= d@[a] + 1);
    crate::grid::lemma_link_symmetry(g, a, b);
    assert(g.linked(b, a));
    assert(bfs_closed(g, d@, b));
    assert(d@[a] <= d@[b] + 1);
    let r = d.root;
    let x = d@[a] + a.0 + a.1 + r.0 + r.1;
    let y = d@[b] + b.0 + b.1 + r.0 + r.1;
    assert(x % 2 == 0 && y % 2 == 0);
    assert(crate::grid::adjacent(a, b));
    if d@[a] == d@[b] {
        assert(x == y + 1 || y == x + 1);
        assert(false) by (nonlinear_arith)
            requires
                x % 2 == 0 && y % 2 == 0,
                x == y + 1 || y == x + 1,
        ;
    }
}

} // verus!
