use vstd::prelude::*;

use crate::grid::Grid;
use crate::random::RandomSource;
use crate::random::seed_pick;
use crate::random::seed_step;

verus! {

/// A cell drawn uniformly over the whole grid: a row first, then a column.
/// For the deterministic sources the ensures pins the drawn coordinate.
pub fn random_cell(grid: &Grid, rng: &mut RandomSource) -> (r: (i32, i32))
    requires
        grid.wf(),
    ensures
        grid.in_bounds(r),
        match *old(rng) {
            RandomSource::External => *final(rng) == RandomSource::External,
            RandomSource::Seeded { state } => {
                &&& *final(rng) == (RandomSource::Seeded { state: seed_step(seed_step(state)) })
                &&& r == (
                    seed_pick(state, grid.rows as usize) as i32,
                    seed_pick(seed_step(state), grid.columns as usize) as i32,
                )
            },
            RandomSource::First => *final(rng) == RandomSource::First && r == (0i32, 0i32),
        },
{
    let row = rng.next_below(grid.rows() as usize);
    let column = rng.next_below(grid.columns() as usize);
    (row as i32, column as i32)
}

/// A coordinate drawn uniformly from a non-empty list of neighbours, each
/// of which must name a cell of the grid. For the deterministic sources
/// the ensures pins the drawn entry.
pub fn random_neighbor(grid: &Grid, neighbors: &Vec<(i32, i32)>, rng: &mut RandomSource) -> (r: (
    i32,
    i32,
))
    requires
        grid.wf(),
        neighbors@.len() > 0,
        forall|j: int| 0 <= j < neighbors@.len() ==> grid.in_bounds(#[trigger] neighbors@[j]),
    ensures
        neighbors@.contains(r),
        grid.in_bounds(r),
        match *old(rng) {
            RandomSource::External => *final(rng) == RandomSource::External,
            RandomSource::Seeded { state } => {
                &&& *final(rng) == (RandomSource::Seeded { state: seed_step(state) })
                &&& r == neighbors@[seed_pick(state, neighbors@.len() as usize) as int]
            },
            RandomSource::First => *final(rng) == RandomSource::First && r == neighbors@[0],
        },
{
    let index = rng.next_below(neighbors.len());
    let p = neighbors[index];
    let cell = grid.cell(p.0, p.1).unwrap();
    (cell.row(), cell.column())
}

} // verus!
