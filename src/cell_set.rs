//! A finite set of grid cells.

use vstd::prelude::*;

use crate::position::{cell_of, Position};

verus! {

/// A set of cells, kept as a list of positions with no cell listed twice.
/// Membership goes by `x` and `y` alone.
#[derive(Debug)]
pub struct PositionSet {
    items: Vec<Position>,
}

impl View for PositionSet {
    type V = Set<(int, int)>;

    closed spec fn view(&self) -> Set<(int, int)> {
        self.cells().to_set()
    }
}

impl PositionSet {
    /// The listed cells, in the order they were added.
    pub closed spec fn cells(&self) -> Seq<(int, int)> {
        self.items@.map_values(|p: Position| cell_of(p))
    }

    /// No cell is listed twice.
    pub closed spec fn wf(&self) -> bool {
        self.cells().no_duplicates()
    }

    pub proof fn lemma_finite(&self)
        ensures
            self@.finite(),
    {
    }

    pub fn new() -> (r: PositionSet)
        ensures
            r.wf(),
            r@ == Set::<(int, int)>::empty(),
    {
        let r = PositionSet { items: Vec::new() };
        assert(r.cells() =~= Seq::<(int, int)>::empty());
        assert(r@ =~= Set::<(int, int)>::empty());
        r
    }

    /// Whether the cell `(x, y)` is in the set.
    pub fn contains_xy(&self, x: i32, y: i32) -> (r: bool)
        ensures
            r == self@.contains((x as int, y as int)),
    {
        let mut i: usize = 0;
        while i < self.items.len()
            invariant
                0 <= i <= self.items@.len(),
                forall|j: int| 0 <= j < i ==> self.cells()[j] != (x as int, y as int),
            decreases self.items@.len() - i,
        {
            if self.items[i].x == x && self.items[i].y == y {
                assert(self.cells()[i as int] == (x as int, y as int));
                return true;
            }
            i += 1;
        }
        proof {
            if self@.contains((x as int, y as int)) {
                let j = choose|j: int| 0 <= j < self.cells().len() && self.cells()[j] == (x as int, y as int);
            }
        }
        false
    }

    /// Whether the cell of `p` is in the set.
    pub fn contains(&self, p: &Position) -> (r: bool)
        ensures
            r == self@.contains(cell_of(*p)),
    {
        self.contains_xy(p.x, p.y)
    }

    /// Adds the cell of `p`; a cell already present is left as it is.
    pub fn insert(&mut self, p: Position)
        requires
            old(self).wf(),
        ensures
            final(self).wf(),
            final(self)@ == old(self)@.insert(cell_of(p)),
    {
        if !self.contains(&p) {
            let ghost before = self.cells();
            self.items.push(p);
            assert(self.cells() =~= before.push(cell_of(p)));
            assert(self.cells().no_duplicates()) by {
                assert(!before.contains(cell_of(p))) by {
                    if before.contains(cell_of(p)) {
                        let j = choose|j: int| 0 <= j < before.len() && before[j] == cell_of(p);
                        assert(old(self)@.contains(cell_of(p)));
                    }
                }
            }
            assert(self@ =~= old(self)@.insert(cell_of(p))) by {
                assert forall|c: (int, int)| self@.contains(c) implies old(self)@.insert(cell_of(p)).contains(c) by {
                    let j = choose|j: int| 0 <= j < self.cells().len() && self.cells()[j] == c;
                    if j < before.len() {
                        assert(before[j] == c);
                    }
                }
                assert forall|c: (int, int)| old(self)@.insert(cell_of(p)).contains(c) implies self@.contains(c) by {
                    if c == cell_of(p) {
                        assert(self.cells()[before.len() as int] == c);
                    } else {
                        let j = choose|j: int| 0 <= j < before.len() && before[j] == c;
                        assert(self.cells()[j] == c);
                    }
                }
            }
        } else {
            assert(self@ =~= old(self)@.insert(cell_of(p)));
        }
    }

    /// The number of cells in the set.
    pub fn len(&self) -> (r: usize)
        requires
            self.wf(),
        ensures
            r == self@.len(),
    {
        proof {
            self.cells().unique_seq_to_set();
        }
        self.items.len()
    }

    /// The positions of the set, one for each cell.
    pub fn to_vec(&self) -> (r: Vec<Position>)
        requires
            self.wf(),
        ensures
            r@.len() == self@.len(),
            forall|c: (int, int)| self@.contains(c) <==> exists|i: int| 0 <= i < r@.len() && #[trigger] cell_of(r@[i]) == c,
    {
        proof {
            self.cells().unique_seq_to_set();
        }
        let r = self.items.clone();
        assert forall|c: (int, int)| self@.contains(c) <==> exists|i: int| 0 <= i < r@.len() && #[trigger] cell_of(r@[i]) == c by {
            if self@.contains(c) {
                let j = choose|j: int| 0 <= j < self.cells().len() && self.cells()[j] == c;
                assert(cell_of(r@[j]) == c);
            }
            if exists|i: int| 0 <= i < r@.len() && #[trigger] cell_of(r@[i]) == c {
                let j = choose|i: int| 0 <= i < r@.len() && #[trigger] cell_of(r@[i]) == c;
                assert(self.cells()[j] == c);
            }
        }
        r
    }
}

impl Clone for PositionSet {
    /// The same cells, in the same order.
    fn clone(&self) -> (r: PositionSet)
        ensures
            r.cells() == self.cells(),
            r@ == self@,
            r.wf() == self.wf(),
    {
        let mut items: Vec<Position> = Vec::new();
        let mut i: usize = 0;
        while i < self.items.len()
            invariant
                0 <= i <= self.items@.len(),
                items@ == self.items@.subrange(0, i as int),
            decreases self.items@.len() - i,
        {
            items.push(self.items[i]);
            assert(items@ =~= self.items@.subrange(0, i + 1));
            i += 1;
        }
        assert(items@ =~= self.items@);
        PositionSet { items }
    }
}

} // verus!
