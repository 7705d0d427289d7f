use vstd::prelude::*;

use crate::distances::Distances;
use crate::distances::bfs_complete;
use crate::grid::Grid;

verus! {

/// A grid paired with a distance table rooted at its north-west corner, the
/// state a renderer reads to label cells with their distances.
pub struct DistanceGrid {
    pub grid: Grid,
    pub distances: Distances,
}

impl DistanceGrid {
    /// The grid keeps its invariant, the table keeps distinct keys, and the
    /// table measures from the north-west corner.
    pub open spec fn wf(self) -> bool {
        &&& self.grid.wf()
        &&& self.distances.wf()
        &&& self.distances.root == (0i32, 0i32)
    }

    /// A fresh pairing: an unlinked grid and an empty table at the corner.
    pub fn new(rows: i32, columns: i32) -> (r: DistanceGrid)
        requires
            1 <= rows,
            1 <= columns,
            rows * columns <= i32::MAX,
        ensures
            r.wf(),
            r.grid.rows == rows,
            r.grid.columns == columns,
            r.grid.all_unlinked(),
            r.distances@ == Map::<(i32, i32), usize>::empty().insert((0i32, 0i32), 0),
            r.distances.cells@.len() == 1,
    {
        DistanceGrid { distances: Distances::new((0, 0)), grid: Grid::new(rows, columns) }
    }

    pub fn rows(&self) -> (r: i32)
        ensures
            r == self.grid.rows,
    {
        self.grid.rows()
    }

    pub fn columns(&self) -> (r: i32)
        ensures
            r == self.grid.columns,
    {
        self.grid.columns()
    }

    /// The grid this pairing measures.
    pub fn grid(&self) -> (r: &Grid)
        ensures
            r == &self.grid,
    {
        &self.grid
    }

    /// The table of distances from the north-west corner.
    pub fn distances(&self) -> (r: &Distances)
        ensures
            r == &self.distances,
    {
        &self.distances
    }

    /// Fills the table by the breadth-first pass from the corner; called
    /// once, after the maze has been carved.
    pub fn compute(&mut self)
        requires
            old(self).wf(),
            old(self).distances@ == Map::<(i32, i32), usize>::empty().insert((0i32, 0i32), 0),
            old(self).distances.cells@.len() == 1,
        ensures
            final(self).wf(),
            final(self).grid == old(self).grid,
            bfs_complete(final(self).grid, final(self).distances),
    {
        let root = (0, 0);
        let distances = &mut self.distances;
        distances.calculate(root, &self.grid);
    }
}

} // verus!
