use vstd::prelude::*;

verus! {

/// A node of the grid graph: a fixed coordinate, up to four fixed topology
/// neighbours, and a mutable set of passage links held as a duplicate-free
/// list of coordinates.
pub struct Cell {
    pub row: i32,
    pub column: i32,
    pub north: Option<(i32, i32)>,
    pub south: Option<(i32, i32)>,
    pub west: Option<(i32, i32)>,
    pub east: Option<(i32, i32)>,
    pub links: Vec<(i32, i32)>,
}

impl Cell {
    /// The coordinate of this cell.
    pub open spec fn coord(self) -> (i32, i32) {
        (self.row, self.column)
    }

    /// The links of this cell, as a sequence of coordinates.
    pub open spec fn links_seq(self) -> Seq<(i32, i32)> {
        self.links@
    }

    /// Whether this cell holds a passage link to `other`.
    pub open spec fn linked_to(self, other: (i32, i32)) -> bool {
        self.links@.contains(other)
    }

    /// The topology neighbours of this cell, in north, south, west, east
    /// order, skipping absent sides.
    pub open spec fn neighbor_seq(self) -> Seq<(i32, i32)> {
        opt_seq(self.north) + opt_seq(self.south) + opt_seq(self.west) + opt_seq(self.east)
    }

    pub open spec fn spec_north(self) -> Option<(i32, i32)> {
        self.north
    }

    pub open spec fn spec_south(self) -> Option<(i32, i32)> {
        self.south
    }

    pub open spec fn spec_west(self) -> Option<(i32, i32)> {
        self.west
    }

    pub open spec fn spec_east(self) -> Option<(i32, i32)> {
        self.east
    }

    /// The link list never repeats a coordinate.
    pub open spec fn links_distinct(self) -> bool {
        forall|i: int, j: int|
            0 <= i < j < self.links@.len() ==> self.links@[i] != self.links@[j]
    }

    pub fn new(row: i32, column: i32) -> (c: Cell)
        ensures
            c.coord() == (row, column),
            c.spec_north() == None::<(i32, i32)>,
            c.spec_south() == None::<(i32, i32)>,
            c.spec_west() == None::<(i32, i32)>,
            c.spec_east() == None::<(i32, i32)>,
            c.links_seq() === Seq::<(i32, i32)>::empty(),
            c.links_distinct(),
    {
        Cell {
            row,
            column,
            north: None,
            south: None,
            west: None,
            east: None,
            links: Vec::new(),
        }
    }

    pub fn row(&self) -> (r: i32)
        ensures
            r == self.coord().0,
    {
        self.row
    }

    pub fn column(&self) -> (r: i32)
        ensures
            r == self.coord().1,
    {
        self.column
    }

    pub fn north(&self) -> (r: Option<(i32, i32)>)
        ensures
            r == self.spec_north(),
    {
        self.north
    }

    pub fn south(&self) -> (r: Option<(i32, i32)>)
        ensures
            r == self.spec_south(),
    {
        self.south
    }

    pub fn west(&self) -> (r: Option<(i32, i32)>)
        ensures
            r == self.spec_west(),
    {
        self.west
    }

    pub fn east(&self) -> (r: Option<(i32, i32)>)
        ensures
            r == self.spec_east(),
    {
        self.east
    }

    pub fn set_north(&mut self, north: Option<(i32, i32)>)
        ensures
            *final(self) == (Cell { north, ..*old(self) }),
    {
        self.north = north;
    }

    pub fn set_south(&mut self, south: Option<(i32, i32)>)
        ensures
            *final(self) == (Cell { south, ..*old(self) }),
    {
        self.south = south;
    }

    pub fn set_west(&mut self, west: Option<(i32, i32)>)
        ensures
            *final(self) == (Cell { west, ..*old(self) }),
    {
        self.west = west;
    }

    pub fn set_east(&mut self, east: Option<(i32, i32)>)
        ensures
            *final(self) == (Cell { east, ..*old(self) }),
    {
        self.east = east;
    }

    /// A read-only view of the link list.
    pub fn links(&self) -> (r: &Vec<(i32, i32)>)
        ensures
            r@ == self.links_seq(),
    {
        &self.links
    }

    /// Whether this cell holds a link to `other`.
    pub fn has_link(&self, other: (i32, i32)) -> (r: bool)
        ensures
            r == self.linked_to(other),
    {
        let n = self.links.len();
        let mut i: usize = 0;
        while i < n
            invariant
                n == self.links@.len(),
                i <= n,
                forall|k: int| 0 <= k < i ==> self.links@[k] != other,
            decreases n - i,
        {
            if coord_eq(self.links[i], other) {
                return true;
            }
            i = i + 1;
        }
        false
    }

    /// Add `other` to this cell's links (one direction only; the grid keeps
    /// the symmetric direction). Idempotent.
    pub fn link(&mut self, other: (i32, i32))
        ensures
            final(self).coord() == old(self).coord(),
            final(self).spec_north() == old(self).spec_north(),
            final(self).spec_south() == old(self).spec_south(),
            final(self).spec_west() == old(self).spec_west(),
            final(self).spec_east() == old(self).spec_east(),
            final(self).links_seq() == if old(self).linked_to(other) {
                old(self).links_seq()
            } else {
                old(self).links_seq().push(other)
            },
            old(self).links_distinct() ==> final(self).links_distinct(),
            forall|p: (i32, i32)| final(self).linked_to(p) <==> (old(self).linked_to(p) || p == other),
    {
        if !self.has_link(other) {
            self.links.push(other);
            assert forall|p: (i32, i32)|
                self.linked_to(p) <==> (old(self).linked_to(p) || p == other) by {
                if old(self).linked_to(p) {
                    let k = choose|k: int| 0 <= k < old(self).links@.len() && old(self).links@[k] == p;
                    assert(self.links@[k] == p);
                }
                if p == other {
                    assert(self.links@[self.links@.len() - 1] == p);
                }
            }
        }
    }

    /// Remove `other` from this cell's links (one direction only). A no-op
    /// when no such link exists.
    pub fn unlink(&mut self, other: (i32, i32))
        requires
            old(self).links_distinct(),
        ensures
            final(self).coord() == old(self).coord(),
            final(self).spec_north() == old(self).spec_north(),
            final(self).spec_south() == old(self).spec_south(),
            final(self).spec_west() == old(self).spec_west(),
            final(self).spec_east() == old(self).spec_east(),
            final(self).links_distinct(),
            forall|p: (i32, i32)| final(self).linked_to(p) <==> (old(self).linked_to(p) && p != other),
            final(self).links@.len() == old(self).links@.len() - (if old(self).linked_to(other) {
                1int
            } else {
                0int
            }),
    {
        let n = self.links.len();
        let mut i: usize = 0;
        while i < n
            invariant
                *self == *old(self),
                old(self).links_distinct(),
                n == self.links@.len(),
                i <= n,
                forall|k: int| 0 <= k < i ==> self.links@[k] != other,
            decreases n - i,
        {
            if coord_eq(self.links[i], other) {
                let ghost pre = old(self).links@;
                self.links.remove(i);
                proof {
                    pre.remove_ensures(i as int);
                    assert forall|p: (i32, i32)|
                        self.linked_to(p) <==> (old(self).linked_to(p) && p != other) by {
                        if self.linked_to(p) {
                            let k = choose|k: int|
                                0 <= k < self.links@.len() && self.links@[k] == p;
                            if k < i {
                                assert(pre[k] == p);
                            } else {
                                assert(pre[k + 1] == p);
                            }
                        }
                        if old(self).linked_to(p) && p != other {
                            let k = choose|k: int| 0 <= k < pre.len() && pre[k] == p;
                            if k < i {
                                assert(self.links@[k] == p);
                            } else {
                                assert(k != i);
                                assert(self.links@[k - 1] == p);
                            }
                        }
                    }
                    assert forall|a: int, b: int|
                        0 <= a < b < self.links@.len() implies self.links@[a] != self.links@[b] by {
                        if b < i {
                            assert(self.links@[a] == pre[a] && self.links@[b] == pre[b]);
                        } else if a < i {
                            assert(self.links@[a] == pre[a] && self.links@[b] == pre[b + 1]);
                        } else {
                            assert(self.links@[a] == pre[a + 1] && self.links@[b] == pre[b + 1]);
                        }
                    }
                }
                return ;
            }
            i = i + 1;
        }
    }

    /// The topology neighbours that exist, in north, south, west, east order.
    pub fn neighbors(&self) -> (r: Vec<(i32, i32)>)
        ensures
            r@ == self.neighbor_seq(),
            r@.len() <= 4,
    {
        let mut list: Vec<(i32, i32)> = Vec::new();
        if let Some(cell) = self.north {
            list.push(cell);
        }
        if let Some(cell) = self.south {
            list.push(cell);
        }
        if let Some(cell) = self.west {
            list.push(cell);
        }
        if let Some(cell) = self.east {
            list.push(cell);
        }
        assert(list@ =~= self.neighbor_seq());
        list
    }
}

/// Whether two coordinates are the same pair.
pub fn coord_eq(a: (i32, i32), b: (i32, i32)) -> (r: bool)
    ensures
        r == (a == b),
{
    a.0 == b.0 && a.1 == b.1
}

/// A one-element sequence for a present side, an empty one for an absent side.
pub open spec fn opt_seq(o: Option<(i32, i32)>) -> Seq<(i32, i32)> {
    match o {
        Some(p) => seq![p],
        None => Seq::empty(),
    }
}

} // verus!
