use vstd::prelude::*;

use crate::algorithms::On;
use crate::algorithms::carved_connected;
use crate::algorithms::connected;
use crate::algorithms::fully_linked;
use crate::algorithms::lemma_chain_reaches;
use crate::algorithms::lemma_reaches_join;
use crate::algorithms::lemma_reaches_monotone;
use crate::algorithms::reaches;
use crate::algorithms::lemma_all_unlinked_count;
use crate::algorithms::lemma_all_unlinked_total;
use crate::algorithms::lemma_neighbor_entry;
use crate::algorithms::spanning_edge_count;
use crate::cell::coord_eq;
use crate::grid::Grid;
use crate::grid::adjacent;
use crate::grid::unlinked_count;
use crate::random::RandomSource;

verus! {

/// A coordinate list that never repeats an entry.
pub open spec fn coords_distinct(s: Seq<(i32, i32)>) -> bool {
    forall|i: int, j: int| 0 <= i < j < s.len() ==> s[i] != s[j]
}

/// Whether `x` is one of the walk cells carved into the chain so far: the
/// first `i + 1` path cells, never the final, already carved one.
spec fn in_walk_chain(path: Seq<(i32, i32)>, i: int, x: (i32, i32)) -> bool {
    exists|k: int| 0 <= k <= i && k < path.len() - 1 && path[k] == x
}

/// The index of the first occurrence of `p`, if `p` occurs at all.
fn position_of(v: &Vec<(i32, i32)>, p: (i32, i32)) -> (r: Option<usize>)
    ensures
        match r {
            Some(i) => i < v@.len() && v@[i as int] == p,
            None => !v@.contains(p),
        },
{
    let n = v.len();
    let mut i: usize = 0;
    while i < n
        invariant
            n == v@.len(),
            i <= n,
            forall|k: int| 0 <= k < i ==> v@[k] != p,
        decreases n - i,
    {
        if coord_eq(v[i], p) {
            return Some(i);
        }
        i = i + 1;
    }
    None
}

/// Removing an entry from a duplicate-free list keeps it duplicate-free and
/// keeps exactly the other entries.
proof fn lemma_remove_coord(s: Seq<(i32, i32)>, i: int)
    requires
        coords_distinct(s),
        0 <= i < s.len(),
    ensures
        coords_distinct(s.remove(i)),
        forall|p: (i32, i32)| s.remove(i).contains(p) <==> (s.contains(p) && p != s[i]),
{
    s.remove_ensures(i);
    let rem = s.remove(i);
    assert forall|a: int, b: int| 0 <= a < b < rem.len() implies rem[a] != rem[b] by {
        if b < i {
        } else if a < i {
            assert(rem[a] == s[a] && rem[b] == s[b + 1]);
        } else {
            assert(rem[a] == s[a + 1] && rem[b] == s[b + 1]);
        }
    }
    assert forall|p: (i32, i32)| rem.contains(p) <==> (s.contains(p) && p != s[i]) by {
        if rem.contains(p) {
            let k = choose|k: int| 0 <= k < rem.len() && rem[k] == p;
            if k < i {
                assert(s[k] == p);
            } else {
                assert(s[k + 1] == p);
            }
        }
        if s.contains(p) && p != s[i] {
            let k = choose|k: int| 0 <= k < s.len() && s[k] == p;
            if k < i {
                assert(rem[k] == p);
            } else {
                assert(k != i);
                assert(rem[k - 1] == p);
            }
        }
    }
}

/// Loop-erased random walks: walk from a random cell still outside the
/// maze, erasing any loop the walk closes, until the walk meets the carved
/// region; then carve the walked path and repeat until no cell is outside.
/// A step budget keeps each walk finite; a run that spends it returns with
/// the grid only partly carved.
pub struct Wilsons {}

impl Wilsons {
    pub fn new() -> (r: Wilsons) {
        Wilsons {  }
    }
}

impl On for Wilsons {
    /// However a run ends, the passages carved count the cells brought in:
    /// either nothing was carved at all, or twice the edges equal the cells
    /// minus one minus those still unlinked; the carved region stays
    /// pairwise joined, and a run that links every cell has carved exactly
    /// a spanning count joining every pair.
    open spec fn guarantees(&self, pre: Grid, rng: RandomSource, post: Grid) -> bool {
        &&& post.total_links() <= 2 * (pre.size() - 1)
        &&& (post.total_links() == 0 && unlinked_count(post.cells@) == pre.size())
            || post.total_links() == 2 * (pre.size() - 1 - unlinked_count(post.cells@))
        &&& carved_connected(post)
        &&& fully_linked(post) ==> spanning_edge_count(post) && connected(post)
    }

    #[verifier::rlimit(100)]
    fn on(&self, grid: &mut Grid, rng: &mut RandomSource) {
        proof {
            lemma_all_unlinked_total(*grid);
        }
        let rows = grid.rows();
        let columns = grid.columns();
        let size: i32 = rows * columns;
        proof {
            assert(size >= 1) by (nonlinear_arith)
                requires
                    rows >= 1,
                    columns >= 1,
                    size == rows * columns,
            ;
        }
        let mut unvisited = grid.iter();
        proof {
            assert forall|i: int, j: int|
                0 <= i < j < unvisited@.len() implies unvisited@[i] != unvisited@[j] by {
                assert(grid.idx(unvisited@[i]) == i && grid.idx(unvisited@[j]) == j);
            }
        }
        let first = rng.next_below(unvisited.len());
        let ghost seed: (i32, i32) = unvisited@[first as int];
        let ghost pre_unv = unvisited@;
        unvisited.remove(first);
        proof {
            lemma_all_unlinked_count(*grid);
            lemma_remove_coord(pre_unv, first as int);
            assert forall|p: (i32, i32)|
                grid.in_bounds(p) && (#[trigger] grid.cell_at(p)).links@.len() == 0
                    implies unvisited@.contains(p) || p == seed by {
                if p != seed {
                    crate::grid::lemma_row_major_bounds(
                        rows as int,
                        columns as int,
                        p.0 as int,
                        p.1 as int,
                    );
                    assert(pre_unv[grid.idx(p)] == p);
                    assert(pre_unv.contains(p));
                    assert(unvisited@ == pre_unv.remove(first as int));
                    assert(pre_unv.remove(first as int).contains(p));
                }
            }
        }
        let mut fuel: u64 = u64::MAX;
        while unvisited.len() > 0
            invariant
                grid.wf(),
                grid.rows == rows,
                grid.columns == columns,
                rows == old(grid).rows,
                columns == old(grid).columns,
                size == rows * columns,
                grid.in_bounds(seed),
                coords_distinct(unvisited@),
                !unvisited@.contains(seed),
                forall|j: int|
                    0 <= j < unvisited@.len() ==> grid.in_bounds(#[trigger] unvisited@[j])
                        && grid.cell_at(unvisited@[j]).links@.len() == 0,
                forall|p: (i32, i32)|
                    grid.in_bounds(p) && (#[trigger] grid.cell_at(p)).links@.len() == 0
                        ==> unvisited@.contains(p) || p == seed,
                grid.cell_at(seed).links@.len() == 0 ==> unvisited@.len() == size - 1
                    && forall|p: (i32, i32)|
                    grid.in_bounds(p) ==> (#[trigger] grid.cell_at(p)).links@.len() == 0,
                grid.total_links() == 2 * (size - 1 - unvisited@.len()),
                unlinked_count(grid.cells@) == unvisited@.len() + (if grid.cell_at(
                    seed,
                ).links@.len() == 0 {
                    1int
                } else {
                    0int
                }),
                carved_connected(*grid),
            decreases unvisited@.len(),
        {
            let si = rng.next_below(unvisited.len());
            let start = unvisited[si];
            proof {
                assert(unvisited@.contains(start));
            }
            let mut path: Vec<(i32, i32)> = Vec::new();
            path.push(start);
            let mut current = start;
            let mut walking = true;
            while walking
                invariant
                    grid.wf(),
                    grid.rows == rows,
                    grid.columns == columns,
                    size == rows * columns,
                    unvisited@.len() > 0,
                    rows == old(grid).rows,
                    columns == old(grid).columns,
                    grid.total_links() == 2 * (size - 1 - unvisited@.len()),
                    unlinked_count(grid.cells@) == unvisited@.len() + (if grid.cell_at(
                        seed,
                    ).links@.len() == 0 {
                        1int
                    } else {
                        0int
                    }),
                    grid.cell_at(seed).links@.len() == 0 ==> unvisited@.len() == size - 1,
                    carved_connected(*grid),
                    grid.in_bounds(seed),
                    !unvisited@.contains(seed),
                    forall|j: int|
                        0 <= j < unvisited@.len() ==> grid.in_bounds(#[trigger] unvisited@[j])
                            && grid.cell_at(unvisited@[j]).links@.len() == 0,
                    path@.len() >= 1,
                    path@[path@.len() - 1] == current,
                    path@[0] == start,
                    unvisited@.contains(start),
                    coords_distinct(path@),
                    forall|j: int| 0 <= j < path@.len() ==> grid.in_bounds(#[trigger] path@[j]),
                    forall|j: int|
                        0 <= j < path@.len() - 1 ==> #[trigger] adjacent(path@[j], path@[j + 1]),
                    forall|j: int|
                        0 <= j < path@.len() - 1 ==> unvisited@.contains(#[trigger] path@[j]),
                    !walking ==> !unvisited@.contains(current) && path@.len() >= 2,
                decreases fuel, (if walking {
                    1int
                } else {
                    0int
                }),
            {
                if position_of(&unvisited, current).is_none() {
                    proof {
                        if path@.len() < 2 {
                            assert(path@[0] == current);
                            assert(false);
                        }
                    }
                    walking = false;
                } else {
                    if fuel == 0 {
                        // the walk spent its budget: leave the grid as it is
                        proof {
                            assert(unvisited@.len() > 0);
                            if fully_linked(*grid) {
                                assert(grid.cell_at(unvisited@[0]).links@.len() > 0);
                            }
                        }
                        return ;
                    }
                    fuel = fuel - 1;
                    let neighbors = {
                        let cref = grid.cell(current.0, current.1).unwrap();
                        cref.neighbors()
                    };
                    proof {
                        assert(crate::grid::topology_ok(
                            grid.cell_at(current),
                            rows,
                            columns,
                            current.0,
                            current.1,
                        ));
                        if neighbors@.len() == 0 {
                            assert(rows == 1 && columns == 1);
                            assert(size == 1) by (nonlinear_arith)
                                requires
                                    rows == 1 && columns == 1 && size == rows * columns,
                            ;
                            assert(grid.in_bounds(unvisited@[0]) && grid.in_bounds(seed));
                            assert(unvisited@[0] == (0i32, 0i32) && seed == (0i32, 0i32));
                            assert(unvisited@.contains(unvisited@[0]));
                            assert(false);
                        }
                    }
                    let k = rng.next_below(neighbors.len());
                    let nb = neighbors[k];
                    proof {
                        assert(grid.cell_at(current).neighbor_seq().contains(nb));
                        lemma_neighbor_entry(*grid, current, nb);
                    }
                    let ghost pre_path = path@;
                    match position_of(&path, nb) {
                        Some(pos) => {
                            let pl = path.len();
                            proof {
                                assert(pos < pl);
                            }
                            path.truncate(pos + 1);
                            proof {
                                assert(path@ =~= pre_path.subrange(0, pos + 1));
                                assert(path@[path@.len() - 1] == pre_path[pos as int]);
                                assert forall|a: int, b: int|
                                    0 <= a < b < path@.len() implies path@[a] != path@[b] by {
                                    assert(path@[a] == pre_path[a] && path@[b] == pre_path[b]);
                                }
                                assert forall|j: int|
                                    0 <= j < path@.len() implies grid.in_bounds(
                                    #[trigger] path@[j],
                                ) by {
                                    assert(path@[j] == pre_path[j]);
                                }
                                assert forall|j: int|
                                    0 <= j < path@.len() - 1 implies #[trigger] adjacent(
                                    path@[j],
                                    path@[j + 1],
                                ) by {
                                    assert(adjacent(pre_path[j], pre_path[j + 1]));
                                    assert(path@[j] == pre_path[j] && path@[j + 1] == pre_path[
                                        j + 1
                                    ]);
                                }
                                assert forall|j: int|
                                    0 <= j < path@.len() - 1 implies unvisited@.contains(
                                    #[trigger] path@[j],
                                ) by {
                                    assert(path@[j] == pre_path[j]);
                                }
                            }
                        },
                        None => {
                            path.push(nb);
                            proof {
                                assert(path@[path@.len() - 1] == nb);
                                assert forall|j: int|
                                    0 <= j < path@.len() - 1 implies #[trigger] adjacent(
                                    path@[j],
                                    path@[j + 1],
                                ) by {
                                    if j < path@.len() - 2 {
                                        assert(adjacent(pre_path[j], pre_path[j + 1]));
                                        assert(path@[j] == pre_path[j] && path@[j + 1]
                                            == pre_path[j + 1]);
                                    } else {
                                        assert(path@[j] == current && path@[j + 1] == nb);
                                    }
                                }
                                assert forall|a: int, b: int|
                                    0 <= a < b < path@.len() implies path@[a] != path@[b] by {
                                    if b < path@.len() - 1 {
                                        assert(path@[a] == pre_path[a] && path@[b] == pre_path[b]);
                                    } else {
                                        assert(path@[a] == pre_path[a] && path@[b] == nb);
                                        assert(!pre_path.contains(nb));
                                    }
                                }
                                assert forall|j: int|
                                    0 <= j < path@.len() - 1 implies unvisited@.contains(
                                    #[trigger] path@[j],
                                ) by {
                                    if j < path@.len() - 2 {
                                        assert(path@[j] == pre_path[j]);
                                    } else {
                                        assert(path@[j] == pre_path[pre_path.len() - 1]);
                                        assert(path@[j] == current);
                                    }
                                }
                            }
                        },
                    }
                    current = nb;
                }
            }
            // carve the walked path and take its cells out of the waiting set
            proof {
                if grid.cell_at(seed).links@.len() == 0 {
                    assert(grid.cell_at(path@[path@.len() - 1]).links@.len() == 0);
                    assert(path@[path@.len() - 1] == seed);
                }
            }
            let plen = path.len();
            let mut i: usize = 0;
            let ghost unv_entry = unvisited@;
            while i < plen - 1
                invariant
                    grid.wf(),
                    grid.rows == rows,
                    grid.columns == columns,
                    size == rows * columns,
                    grid.in_bounds(seed),
                    plen == path@.len(),
                    plen >= 2,
                    i <= plen - 1,
                    coords_distinct(path@),
                    forall|j: int| 0 <= j < path@.len() ==> grid.in_bounds(#[trigger] path@[j]),
                    forall|j: int|
                        0 <= j < path@.len() - 1 ==> #[trigger] adjacent(path@[j], path@[j + 1]),
                    coords_distinct(unvisited@),
                    !unvisited@.contains(seed),
                    forall|j: int|
                        0 <= j < unvisited@.len() ==> grid.in_bounds(#[trigger] unvisited@[j]),
                    forall|j: int|
                        i <= j < path@.len() - 1 ==> unvisited@.contains(#[trigger] path@[j]),
                    !unvisited@.contains(path@[path@.len() - 1]),
                    forall|j: int|
                        0 <= j < unvisited@.len() ==> (#[trigger] grid.cell_at(
                            unvisited@[j],
                        )).links@.len() == 0 || (i >= 1 && unvisited@[j] == path@[i as int]),
                    forall|j: int|
                        i < j < path@.len() - 1 ==> (#[trigger] grid.cell_at(
                            path@[j],
                        )).links@.len() == 0,
                    i == 0 ==> grid.cell_at(path@[0]).links@.len() == 0,
                    1 <= i < plen - 1 ==> grid.cell_at(path@[i as int]).links@ =~= seq![path@[i - 1]],
                    i >= 1 ==> grid.cell_at(path@[i as int]).links@.len() > 0,
                    grid.cell_at(seed).links@.len() > 0 || (seed == path@[path@.len() - 1] && i
                        < plen - 1),
                    forall|p: (i32, i32)|
                        grid.in_bounds(p) && (#[trigger] grid.cell_at(p)).links@.len() == 0
                            ==> unvisited@.contains(p) || p == seed || (i >= 1 && p == path@[
                            i as int
                        ]),
                    grid.total_links() == 2 * (size - 1 - unv_entry.len() + i),
                    unvisited@.len() == unv_entry.len() - i,
                    unlinked_count(grid.cells@) == unvisited@.len() - (if 1 <= i < plen - 1 {
                        1int
                    } else {
                        0int
                    }) + (if grid.cell_at(seed).links@.len() == 0 {
                        1int
                    } else {
                        0int
                    }),
                    forall|k: int, k2: int|
                        0 <= k && k2 == k + 1 && k2 <= i ==> (#[trigger] grid.linked(
                            path@[k],
                            path@[k2],
                        )) && grid.linked(path@[k2], path@[k]),
                    forall|p: (i32, i32), q: (i32, i32)|
                        grid.in_bounds(p) && grid.in_bounds(q) && grid.cell_at(
                            p,
                        ).links@.len() > 0 && grid.cell_at(q).links@.len() > 0 && !in_walk_chain(
                            path@,
                            i as int,
                            p,
                        ) && !in_walk_chain(path@, i as int, q) ==> exists|n: nat|
                            #[trigger] reaches(*grid, p, q, n),
                    grid.cell_at(path@[plen - 1]).links@.len() > 0 || (forall|p: (i32, i32)|
                        grid.in_bounds(p) && (#[trigger] grid.cell_at(p)).links@.len() > 0
                            ==> in_walk_chain(path@, i as int, p)),
                decreases plen - 1 - i,
            {
                let a = path[i];
                let b = path[i + 1];
                proof {
                    assert(adjacent(path@[i as int], path@[i as int + 1]));
                    assert(adjacent(a, b));
                    if i == 0 {
                        assert(grid.cell_at(a).links@.len() == 0);
                        if grid.linked(a, b) {
                            assert(grid.cell_at(b).linked_to(a));
                            assert(false);
                        }
                    } else {
                        if grid.linked(a, b) {
                            assert(grid.cell_at(a).linked_to(b));
                            assert(b == path@[i - 1]);
                            assert(false);
                        }
                    }
                }
                let ghost pre = *grid;
                grid.link(a, b);
                let pos = match position_of(&unvisited, a) {
                    Some(pos) => pos,
                    None => {
                        proof {
                            assert(unvisited@.contains(path@[i as int]));
                            assert(false);
                        }
                        0
                    },
                };
                let ghost pre_unv2 = unvisited@;
                unvisited.remove(pos);
                proof {
                    lemma_remove_coord(pre_unv2, pos as int);
                    assert(pre_unv2[pos as int] == a);
                    assert(grid.cell_at(b).links@ == pre.cell_at(b).links@.push(a));
                    if i + 1 < plen - 1 {
                        assert(pre.cell_at(b).links@.len() == 0);
                        assert(grid.cell_at(b).links@ =~= seq![a]);
                    }
                    assert forall|p: (i32, i32)|
                        grid.in_bounds(p) && (#[trigger] grid.cell_at(p)).links@.len() == 0
                            implies unvisited@.contains(p) || p == seed || (p == path@[i + 1])
                        by {
                        if p != a && p != b {
                            assert(grid.cell_at(p) == pre.cell_at(p));
                            assert(pre_unv2.contains(p) || p == seed || (i >= 1 && p == path@[
                                i as int
                            ]));
                            if pre_unv2.contains(p) {
                                assert(unvisited@.contains(p));
                            }
                        } else {
                            assert(grid.cell_at(a).links@.len() > 0);
                            assert(grid.cell_at(b).links@.len() > 0);
                            assert(false);
                        }
                    }
                    assert forall|j: int|
                        0 <= j < unvisited@.len() implies (#[trigger] grid.cell_at(
                        unvisited@[j],
                    )).links@.len() == 0 || (i + 1 >= 1 && unvisited@[j] == path@[i + 1]) by {
                        let p = unvisited@[j];
                        assert(pre_unv2.contains(p));
                        if p != a && p != b {
                            assert(grid.cell_at(p) == pre.cell_at(p));
                        }
                        if p == b {
                            assert(p == path@[i + 1]);
                        }
                    }
                    if grid.cell_at(seed).links@.len() == 0 {
                        assert(seed != a && seed != b);
                        assert(pre.cell_at(seed).links@.len() == 0);
                        assert(seed == path@[path@.len() - 1]);
                        if i + 1 == plen - 1 {
                            assert(b == path@[plen - 1]);
                            assert(false);
                        }
                    }
                    // the carved chain grows by one passage
                    assert forall|x: (i32, i32), y: (i32, i32)| #[trigger]
                        pre.linked(x, y) implies grid.linked(x, y) by {}
                    assert forall|k: int, k2: int|
                        0 <= k && k2 == k + 1 && k2 <= i + 1 implies (#[trigger] grid.linked(
                        path@[k],
                        path@[k2],
                    )) && grid.linked(path@[k2], path@[k]) by {
                        if k2 <= i {
                            assert(pre.linked(path@[k], path@[k2]));
                            assert(pre.linked(path@[k2], path@[k]));
                        } else {
                            assert(path@[k] == a && path@[k2] == b);
                        }
                    }
                    // cells outside the chain stay pairwise joined
                    assert forall|p: (i32, i32), q: (i32, i32)|
                        grid.in_bounds(p) && grid.in_bounds(q) && grid.cell_at(
                            p,
                        ).links@.len() > 0 && grid.cell_at(q).links@.len() > 0
                            && !in_walk_chain(path@, i + 1, p) && !in_walk_chain(
                            path@,
                            i + 1,
                            q,
                        ) implies exists|n: nat| #[trigger] reaches(*grid, p, q, n) by {
                        assert(p != a && q != a) by {
                            assert(path@[i as int] == a);
                            assert((i as int) <= i + 1);
                            assert((i as int) < path@.len() - 1);
                            assert(in_walk_chain(path@, i + 1, a));
                        }
                        if p == q {
                            assert(reaches(*grid, p, q, 0));
                        } else if p != b && q != b {
                            assert(grid.cell_at(p) == pre.cell_at(p));
                            assert(grid.cell_at(q) == pre.cell_at(q));
                            assert(pre.in_bounds(p) && pre.in_bounds(q));
                            assert(pre.cell_at(p).links@.len() > 0);
                            assert(pre.cell_at(q).links@.len() > 0);
                            assert(!in_walk_chain(path@, i as int, p));
                            assert(!in_walk_chain(path@, i as int, q));
                            assert(exists|n: nat| #[trigger] reaches(pre, p, q, n));
                            let n = choose|n: nat| #[trigger] reaches(pre, p, q, n);
                            lemma_reaches_monotone(pre, *grid, p, q, n);
                        } else {
                            let x: (i32, i32) = if p == b {
                                q
                            } else {
                                p
                            };
                            // x is an old carved cell beside the chain's end
                            assert(x != a && x != b);
                            assert(i + 1 == plen - 1) by {
                                if i + 1 < plen - 1 {
                                    assert(path@[i + 1] == b);
                                    assert(in_walk_chain(path@, i + 1, b));
                                }
                            }
                            assert(grid.cell_at(x) == pre.cell_at(x));
                            assert(pre.cell_at(x).links@.len() > 0);
                            if pre.cell_at(path@[plen - 1]).links@.len() > 0 {
                                assert(b == path@[plen - 1]);
                                assert(!in_walk_chain(path@, i as int, b)) by {
                                    assert(coords_distinct(path@));
                                }
                                assert(!in_walk_chain(path@, i as int, x));
                                assert(pre.in_bounds(x) && pre.in_bounds(b));
                                assert(pre.cell_at(x).links@.len() > 0);
                                assert(pre.cell_at(b).links@.len() > 0);
                                if p == b {
                                    assert(exists|n: nat| #[trigger] reaches(pre, b, x, n));
                                    let n = choose|n: nat| #[trigger] reaches(pre, b, x, n);
                                    lemma_reaches_monotone(pre, *grid, b, x, n);
                                } else {
                                    assert(exists|n: nat| #[trigger] reaches(pre, x, b, n));
                                    let n = choose|n: nat| #[trigger] reaches(pre, x, b, n);
                                    lemma_reaches_monotone(pre, *grid, x, b, n);
                                }
                            } else {
                                assert(in_walk_chain(path@, i as int, x));
                                assert(false);
                            }
                        }
                    }
                }
                i = i + 1;
            }
            proof {
                // the chain has joined the carved region: every carved pair
                // is joined again
                let g = *grid;
                assert(grid.cell_at(path@[plen - 1]).links@.len() > 0) by {
                    assert(grid.linked(path@[plen - 2], path@[(plen - 2) + 1]));
                    assert(grid.linked(path@[plen - 1], path@[plen - 2]));
                }
                assert forall|p: (i32, i32), q: (i32, i32)|
                    g.in_bounds(p) && g.in_bounds(q) && g.cell_at(p).links@.len() > 0
                        && g.cell_at(q).links@.len() > 0 implies exists|n: nat|
                    #[trigger] reaches(g, p, q, n) by {
                    let last = path@[plen - 1];
                    assert forall|k: int, k2: int|
                        0 <= k && k2 == k + 1 && k2 < path@.len() implies (#[trigger] g.linked(
                        path@[k],
                        path@[k2],
                    )) && g.linked(path@[k2], path@[k]) by {
                        assert(k2 <= plen - 1);
                        assert(grid.linked(path@[k], path@[k2]));
                        assert(grid.linked(path@[k2], path@[k]));
                    }
                    assert(!in_walk_chain(path@, plen - 1, last)) by {
                        assert(coords_distinct(path@));
                    }
                    if exists|k: int| 0 <= k < path@.len() && path@[k] == p {
                        let kp = choose|k: int| 0 <= k < path@.len() && path@[k] == p;
                        if exists|k: int| 0 <= k < path@.len() && path@[k] == q {
                            let kq = choose|k: int| 0 <= k < path@.len() && path@[k] == q;
                            lemma_chain_reaches(g, path@, kp, kq);
                        } else {
                            lemma_chain_reaches(g, path@, kp, plen - 1);
                            let n1 = choose|n: nat| #[trigger] reaches(g, p, last, n);
                            assert(!in_walk_chain(path@, plen - 1, q));
                            assert(exists|n: nat| #[trigger] reaches(g, last, q, n));
                            let n2 = choose|n: nat| #[trigger] reaches(g, last, q, n);
                            lemma_reaches_join(g, p, last, q, n1, n2);
                            assert(reaches(g, p, q, (n1 + n2) as nat));
                        }
                    } else {
                        if exists|k: int| 0 <= k < path@.len() && path@[k] == q {
                            let kq = choose|k: int| 0 <= k < path@.len() && path@[k] == q;
                            assert(!in_walk_chain(path@, plen - 1, p));
                            assert(exists|n: nat| #[trigger] reaches(g, p, last, n));
                            let n1 = choose|n: nat| #[trigger] reaches(g, p, last, n);
                            lemma_chain_reaches(g, path@, plen - 1, kq);
                            let n2 = choose|n: nat| #[trigger] reaches(g, last, q, n);
                            lemma_reaches_join(g, p, last, q, n1, n2);
                            assert(reaches(g, p, q, (n1 + n2) as nat));
                        } else {
                            assert(!in_walk_chain(path@, plen - 1, p));
                            assert(!in_walk_chain(path@, plen - 1, q));
                            assert(exists|n: nat| #[trigger] reaches(g, p, q, n));
                        }
                    }
                }
            }
        }
        proof {
            if fully_linked(*grid) {
                assert(grid.total_links() == 2 * (size - 1 - 0));
                assert(grid.size() == size);
                assert forall|a: (i32, i32), b: (i32, i32)|
                    grid.in_bounds(a) && grid.in_bounds(b) implies exists|n: nat|
                    #[trigger] reaches(*grid, a, b, n) by {
                    assert(grid.cell_at(a).links@.len() > 0 && grid.cell_at(b).links@.len() > 0);
                }
            }
        }
    }
}

} // verus!
