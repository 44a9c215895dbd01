use vstd::prelude::*;
use crate::types::{flat_index, in_grid, Location, RegionId};

verus! {

/// The labels of a map after every cell of region `source` has been handed
/// to region `target`.
pub open spec fn relabeled(
    m: Map<Location, Option<RegionId>>,
    source: RegionId,
    target: RegionId,
) -> Map<Location, Option<RegionId>> {
    Map::new(
        |l: Location| m.dom().contains(l),
        |l: Location|
            if m[l] == Some(source) {
                Some(target)
            } else {
                m[l]
            },
    )
}

/// The map in which no cell of the grid has a region yet.
pub open spec fn all_unassigned(side: int) -> Map<Location, Option<RegionId>> {
    Map::new(|l: Location| in_grid(l, side), |l: Location| None::<RegionId>)
}

/// The position of a cell of the grid is below the number of cells.
pub proof fn lemma_flat_index_bound(loc: Location, side: int)
    requires
        in_grid(loc, side),
    ensures
        0 <= flat_index(loc, side) < side * side,
{
    let r = loc.row as int;
    let c = loc.col as int;
    assert(0 <= r * side + c < side * side) by (nonlinear_arith)
        requires
            0 <= r < side,
            0 <= c < side,
    ;
}

/// Two cells of the grid at one position are one cell.
pub proof fn lemma_flat_index_injective(a: Location, b: Location, side: int)
    requires
        in_grid(a, side),
        in_grid(b, side),
        flat_index(a, side) == flat_index(b, side),
    ensures
        a == b,
{
    let ar = a.row as int;
    let ac = a.col as int;
    let br = b.row as int;
    let bc = b.col as int;
    assert(ar == br) by (nonlinear_arith)
        requires
            0 <= ac < side,
            0 <= bc < side,
            ar * side + ac == br * side + bc,
    ;
}

/// Which region owns each cell of a square grid, if any.
pub struct RegionMap {
    side: usize,
    cells: Vec<Option<RegionId>>,
}

impl RegionMap {
    /// Side of the grid.
    pub closed spec fn side(&self) -> int {
        self.side as int
    }

    /// The cells are stored row by row, one entry per cell of the grid.
    pub closed spec fn wf(&self) -> bool {
        &&& self.side <= 65536
        &&& self.cells@.len() == self.side * self.side
    }

    /// The label of each cell of the grid: `None` while it is unassigned.
    pub closed spec fn view(&self) -> Map<Location, Option<RegionId>> {
        Map::new(
            |l: Location| in_grid(l, self.side as int),
            |l: Location| self.cells@[flat_index(l, self.side as int)],
        )
    }

    /// The labelled cells are those of the grid.
    pub proof fn lemma_domain(&self)
        ensures
            forall|l: Location| self@.dom().contains(l) <==> in_grid(l, self.side()),
    {
    }

    /// A grid of the given side on which no cell is assigned. The side is
    /// one that 16-bit coordinates can address, and the number of cells
    /// fits a `usize`.
    pub fn new(side: usize) -> (m: RegionMap)
        requires
            side <= 65536,
            side * side <= usize::MAX,
        ensures
            m.wf(),
            m.side() == side,
            m@ == all_unassigned(side as int),
    {
        let total: usize = side * side;
        let mut cells: Vec<Option<RegionId>> = Vec::new();
        let mut i: usize = 0;
        while i < total
            invariant
                i <= total,
                cells@.len() == i,
                forall|j: int| 0 <= j < i ==> cells@[j] is None,
            decreases total - i,
        {
            cells.push(None);
            i += 1;
        }
        let m = RegionMap { side, cells };
        proof {
            assert forall|l: Location| in_grid(l, side as int) implies m.cells@[flat_index(
                l,
                side as int,
            )] is None by {
                lemma_flat_index_bound(l, side as int);
            }
            assert(m@ =~= all_unassigned(side as int));
        }
        m
    }

    /// Side of the grid.
    pub fn side_length(&self) -> (s: usize)
        ensures
            s == self.side(),
    {
        self.side
    }

    /// Where the label of a cell is stored.
    fn index_of(&self, loc: &Location) -> (i: usize)
        requires
            self.wf(),
            in_grid(*loc, self.side()),
        ensures
            i == flat_index(*loc, self.side()),
            i < self.cells@.len(),
    {
        proof {
            lemma_flat_index_bound(*loc, self.side as int);
            let r = loc.row as int;
            let s = self.side as int;
            assert(0 <= r * s <= s * s) by (nonlinear_arith)
                requires
                    0 <= r < s,
            ;
            assert(self.cells.len() <= usize::MAX);
        }
        loc.row as usize * self.side + loc.col as usize
    }

    /// The label of a cell: `None` for a cell outside the grid, `Some(None)`
    /// for an unassigned cell of the grid.
    pub fn get(&self, loc: &Location) -> (r: Option<Option<RegionId>>)
        requires
            self.wf(),
        ensures
            r == (if self@.dom().contains(*loc) {
                Some(self@[*loc])
            } else {
                None
            }),
    {
        if (loc.row as usize) < self.side && (loc.col as usize) < self.side {
            let i = self.index_of(loc);
            Some(self.cells[i])
        } else {
            None
        }
    }

    /// Whether the cell lies on the grid and has no region yet.
    pub fn is_unassigned(&self, loc: &Location) -> (r: bool)
        requires
            self.wf(),
        ensures
            r == (self@.dom().contains(*loc) && self@[*loc] is None),
    {
        match self.get(loc) {
            Some(None) => true,
            _ => false,
        }
    }

    /// Gives a cell of the grid to a region and returns its previous label.
    pub fn assign(&mut self, loc: Location, region: RegionId) -> (previous: Option<RegionId>)
        requires
            old(self).wf(),
            in_grid(loc, old(self).side()),
        ensures
            final(self).wf(),
            final(self).side() == old(self).side(),
            previous == old(self)@[loc],
            final(self)@ == old(self)@.insert(loc, Some(region)),
    {
        let i = self.index_of(&loc);
        let previous = self.cells[i];
        self.cells[i] = Some(region);
        proof {
            assert forall|l: Location| in_grid(l, self.side as int) implies #[trigger] final(self)@[l]
                == old(self)@.insert(loc, Some(region))[l] by {
                lemma_flat_index_bound(l, self.side as int);
                if l != loc {
                    if flat_index(l, self.side as int) == flat_index(loc, self.side as int) {
                        lemma_flat_index_injective(l, loc, self.side as int);
                    }
                }
            }
            assert(final(self)@ =~= old(self)@.insert(loc, Some(region)));
        }
        previous
    }

    /// Hands every cell of region `source` to region `target`; the other
    /// cells keep their labels.
    pub fn relabel(&mut self, source: RegionId, target: RegionId)
        requires
            old(self).wf(),
        ensures
            final(self).wf(),
            final(self).side() == old(self).side(),
            final(self)@ == relabeled(old(self)@, source, target),
    {
        let n = self.cells.len();
        let mut i: usize = 0;
        while i < n
            invariant
                i <= n,
                n == self.cells@.len(),
                self.side == old(self).side,
                self.cells@.len() == old(self).cells@.len(),
                forall|j: int|
                    0 <= j < i ==> self.cells@[j] == (if old(self).cells@[j] == Some(source) {
                        Some(target)
                    } else {
                        old(self).cells@[j]
                    }),
                forall|j: int| i <= j < n ==> self.cells@[j] == old(self).cells@[j],
            decreases n - i,
        {
            if self.cells[i] == Some(source) {
                self.cells[i] = Some(target);
            }
            i += 1;
        }
        proof {
            assert forall|l: Location| in_grid(l, self.side as int) implies #[trigger] final(self)@[l]
                == relabeled(old(self)@, source, target)[l] by {
                lemma_flat_index_bound(l, self.side as int);
            }
            assert(final(self)@ =~= relabeled(old(self)@, source, target));
        }
    }
}

} // verus!
