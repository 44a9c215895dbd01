use vstd::prelude::*;
use vstd::arithmetic::div_mod::{lemma_fundamental_div_mod, lemma_fundamental_div_mod_converse, lemma_mod_bound};
use crate::arith::lemma_div_at_least;
use crate::invariants::{lemma_collapsed, shaped};
use crate::model::{cell_at, with_cell, with_neighbor, with_placement, GrowthModel};
use crate::regions::lemma_flat_index_bound;
use crate::types::{flat_index, in_grid, Color, Location, RegionId};

verus! {

/// The cell at a position of the grid read row by row.
pub open spec fn cell_of(i: int, side: int) -> Location {
    cell_at(i / side, i % side)
}

/// Number of unassigned cells among the first `n` of the grid.
pub open spec fn unassigned_below(
    regions: Map<Location, Option<RegionId>>,
    side: int,
    n: nat,
) -> nat
    decreases n,
{
    if n == 0 {
        0
    } else {
        unassigned_below(regions, side, (n - 1) as nat) + (if regions[cell_of(n - 1, side)] is None {
            1nat
        } else {
            0nat
        })
    }
}

/// Number of unassigned cells of the grid.
pub open spec fn unassigned_count(m: GrowthModel) -> nat {
    unassigned_below(m.regions, m.side, (m.side * m.side) as nat)
}

/// Some placement is on the cell.
pub open spec fn placed_on(placed: Seq<(Color, Location)>, l: Location) -> bool {
    exists|i: int| 0 <= i < placed.len() && (#[trigger] placed[i]).1 == l
}

/// The records agree with the labels of the grid.
pub open spec fn recorded(m: GrowthModel) -> bool {
    &&& forall|c: Color| #[trigger]
        m.assigned.dom().contains(c) ==> in_grid(m.assigned[c].0, m.side)
            && m.regions[m.assigned[c].0] == Some(m.assigned[c].1)
    &&& forall|i: int|
        0 <= i < m.placed.len() ==> in_grid((#[trigger] m.placed[i]).1, m.side)
            && m.regions[m.placed[i].1] is Some && m.assigned.dom().contains(m.placed[i].0)
    &&& forall|i: int, j: int|
        0 <= i < m.placed.len() && 0 <= j < m.placed.len() && i != j ==> (#[trigger] m.placed[i]).1
            != (#[trigger] m.placed[j]).1
    &&& forall|l: Location| #[trigger]
        in_grid(l, m.side) && m.regions[l] is Some ==> placed_on(m.placed, l) && m.regions[l]->0
            < m.placed.len() && m.regions[l]->0 < m.frontiers.len()
    &&& unassigned_count(m) + m.placed.len() == m.side * m.side
}

/// The records while `loc` is being added to `region`: the cell is
/// labelled and not yet recorded.
pub open spec fn recorded_midway(m: GrowthModel, loc: Location, region: RegionId) -> bool {
    &&& region <= m.placed.len()
    &&& region < m.frontiers.len()
    &&& m.regions[loc] == Some(region)
    &&& !placed_on(m.placed, loc)
    &&& forall|c: Color| #[trigger]
        m.assigned.dom().contains(c) ==> in_grid(m.assigned[c].0, m.side)
            && m.regions[m.assigned[c].0] == Some(m.assigned[c].1)
    &&& forall|i: int|
        0 <= i < m.placed.len() ==> in_grid((#[trigger] m.placed[i]).1, m.side)
            && m.regions[m.placed[i].1] is Some && m.assigned.dom().contains(m.placed[i].0)
    &&& forall|i: int, j: int|
        0 <= i < m.placed.len() && 0 <= j < m.placed.len() && i != j ==> (#[trigger] m.placed[i]).1
            != (#[trigger] m.placed[j]).1
    &&& forall|l: Location| #[trigger]
        in_grid(l, m.side) && m.regions[l] is Some ==> (placed_on(m.placed, l) || l == loc) && (
        m.regions[l]->0 < m.placed.len() || m.regions[l]->0 == region) && m.regions[l]->0
            < m.frontiers.len()
    &&& unassigned_count(m) + m.placed.len() + 1 == m.side * m.side
}

/// The cells of the grid and the positions below its size correspond.
pub proof fn lemma_cell_of(i: int, side: int)
    requires
        1 <= side <= 65536,
        0 <= i < side * side,
    ensures
        in_grid(cell_of(i, side), side),
        flat_index(cell_of(i, side), side) == i,
{
    lemma_div_at_least(i, side, side);
    lemma_div_at_least(i, side, 0);
    lemma_mod_bound(i, side);
    lemma_fundamental_div_mod(i, side);
    assert(side * (i / side) == (i / side) * side) by (nonlinear_arith);
}

/// The position of a cell of the grid leads back to the cell.
pub proof fn lemma_cell_of_flat_index(l: Location, side: int)
    requires
        1 <= side <= 65536,
        in_grid(l, side),
    ensures
        0 <= flat_index(l, side) < side * side,
        cell_of(flat_index(l, side), side) == l,
{
    lemma_flat_index_bound(l, side);
    let r = l.row as int;
    let c = l.col as int;
    assert(side * r == r * side) by (nonlinear_arith);
    lemma_fundamental_div_mod_converse(r * side + c, side, r, c);
}

/// Labels that are unassigned on the same cells count the same.
pub proof fn lemma_count_same(
    a: Map<Location, Option<RegionId>>,
    b: Map<Location, Option<RegionId>>,
    side: int,
    n: nat,
)
    requires
        1 <= side <= 65536,
        n <= side * side,
        forall|l: Location| #[trigger] in_grid(l, side) ==> (a[l] is None <==> b[l] is None),
    ensures
        unassigned_below(a, side, n) == unassigned_below(b, side, n),
    decreases n,
{
    if n > 0 {
        lemma_count_same(a, b, side, (n - 1) as nat);
        lemma_cell_of(n - 1, side);
        assert(in_grid(cell_of(n - 1, side), side));
    }
}

/// Assigning one unassigned cell takes one off the count.
pub proof fn lemma_count_assign(
    a: Map<Location, Option<RegionId>>,
    loc: Location,
    region: RegionId,
    side: int,
    n: nat,
)
    requires
        1 <= side <= 65536,
        n <= side * side,
        in_grid(loc, side),
        a[loc] is None,
    ensures
        unassigned_below(a.insert(loc, Some(region)), side, n) + (if flat_index(loc, side) < n {
            1nat
        } else {
            0nat
        }) == unassigned_below(a, side, n),
    decreases n,
{
    if n > 0 {
        lemma_count_assign(a, loc, region, side, (n - 1) as nat);
        lemma_cell_of(n - 1, side);
        lemma_cell_of_flat_index(loc, side);
    }
}

/// Where the count is positive a cell of the grid is unassigned.
pub proof fn lemma_count_positive(a: Map<Location, Option<RegionId>>, side: int, n: nat) -> (l:
    Location)
    requires
        1 <= side <= 65536,
        n <= side * side,
        unassigned_below(a, side, n) > 0,
    ensures
        in_grid(l, side),
        a[l] is None,
    decreases n,
{
    if a[cell_of(n - 1, side)] is None {
        lemma_cell_of(n - 1, side);
        cell_of(n - 1, side)
    } else {
        lemma_count_positive(a, side, (n - 1) as nat)
    }
}

/// An unassigned cell of the grid makes the count positive.
pub proof fn lemma_count_witness(a: Map<Location, Option<RegionId>>, side: int, n: nat, l: Location)
    requires
        1 <= side <= 65536,
        n <= side * side,
        in_grid(l, side),
        a[l] is None,
        flat_index(l, side) < n,
    ensures
        unassigned_below(a, side, n) > 0,
    decreases n,
{
    lemma_cell_of_flat_index(l, side);
    if flat_index(l, side) < n - 1 {
        lemma_count_witness(a, side, (n - 1) as nat, l);
    }
}

/// On a grid without assigned cells every cell counts.
pub proof fn lemma_count_initial(a: Map<Location, Option<RegionId>>, side: int, n: nat)
    requires
        1 <= side <= 65536,
        n <= side * side,
        forall|l: Location| #[trigger] in_grid(l, side) ==> a[l] is None,
    ensures
        unassigned_below(a, side, n) == n,
    decreases n,
{
    if n > 0 {
        lemma_count_initial(a, side, (n - 1) as nat);
        lemma_cell_of(n - 1, side);
        assert(in_grid(cell_of(n - 1, side), side));
    }
}

/// Giving `loc` to `region` starts the bookkeeping of the placement.
pub proof fn lemma_records_start(m: GrowthModel, loc: Location, region: RegionId)
    requires
        shaped(m),
        recorded(m),
        in_grid(loc, m.side),
        m.regions[loc] is None,
        region <= m.placed.len(),
        region < m.frontiers.len(),
    ensures
        recorded_midway(with_cell(m, loc, region), loc, region),
{
    let w = with_cell(m, loc, region);
    assert(m.side * m.side >= 1) by (nonlinear_arith)
        requires
            m.side >= 1,
    ;
    lemma_count_assign(m.regions, loc, region, m.side, (m.side * m.side) as nat);
    lemma_flat_index_bound(loc, m.side);
    if placed_on(m.placed, loc) {
        let i = choose|i: int| 0 <= i < m.placed.len() && (#[trigger] m.placed[i]).1 == loc;
        assert(m.regions[m.placed[i].1] is Some);
    }
    assert forall|l: Location| #[trigger] in_grid(l, w.side) && w.regions[l] is Some implies (
    placed_on(w.placed, l) || l == loc) && (w.regions[l]->0 < w.placed.len() || w.regions[l]->0
        == region) && w.regions[l]->0 < w.frontiers.len() by {
        if l != loc {
            assert(in_grid(l, m.side) && m.regions[l] is Some);
        }
    }
}

/// A look at a neighbour of `loc` keeps the bookkeeping.
pub proof fn lemma_records_look(m: GrowthModel, loc: Location, region: RegionId, row: int, col: int)
    requires
        shaped(m),
        in_grid(loc, m.side),
        recorded_midway(m, loc, region),
    ensures
        recorded_midway(with_neighbor(m, region, row, col), loc, region),
{
    let w = with_neighbor(m, region, row, col);
    if 0 <= row < m.side && 0 <= col < m.side {
        let n = cell_at(row, col);
        assert(in_grid(n, m.side));
        match m.regions[n] {
            None => {
                assert(w.regions == m.regions);
            },
            Some(other) => {
                if other != region {
                    assert(in_grid(n, m.side) && m.regions[n] is Some);
                    lemma_collapsed(m, other, region);
                    assert(m.side * m.side >= 1) by (nonlinear_arith)
                        requires
                            m.side >= 1,
                    ;
                    lemma_count_same(m.regions, w.regions, m.side, (m.side * m.side) as nat);
                    assert forall|l: Location| #[trigger]
                        in_grid(l, w.side) && w.regions[l] is Some implies (placed_on(w.placed, l)
                        || l == loc) && (w.regions[l]->0 < w.placed.len() || w.regions[l]->0
                        == region) && w.regions[l]->0 < w.frontiers.len() by {
                        assert(in_grid(l, m.side) && m.regions[l] is Some);
                    }
                    assert forall|i: int| 0 <= i < w.placed.len() implies in_grid(
                        (#[trigger] w.placed[i]).1,
                        w.side,
                    ) && w.regions[w.placed[i].1] is Some && w.assigned.dom().contains(
                        w.placed[i].0,
                    ) by {
                        assert(in_grid(m.placed[i].1, m.side));
                    }
                    assert forall|c: Color| #[trigger] w.assigned.dom().contains(c) implies in_grid(
                        w.assigned[c].0,
                        w.side,
                    ) && w.regions[w.assigned[c].0] == Some(w.assigned[c].1) by {
                        assert(m.assigned.dom().contains(c));
                        assert(in_grid(m.assigned[c].0, m.side));
                    }
                }
            },
        }
    }
}

/// Recording the placement ends the bookkeeping.
pub proof fn lemma_records_finish(m: GrowthModel, color: Color, loc: Location, region: RegionId)
    requires
        shaped(m),
        in_grid(loc, m.side),
        recorded_midway(m, loc, region),
    ensures
        recorded(with_placement(m, color, loc, region)),
{
    let w = with_placement(m, color, loc, region);
    let last = m.placed.len() as int;
    assert(w.placed[last] == (color, loc));
    assert forall|i: int| 0 <= i < w.placed.len() implies in_grid(
        (#[trigger] w.placed[i]).1,
        w.side,
    ) && w.regions[w.placed[i].1] is Some && w.assigned.dom().contains(w.placed[i].0) by {
        if i < last {
            assert(w.placed[i] == m.placed[i]);
        }
    }
    assert forall|i: int, j: int|
        0 <= i < w.placed.len() && 0 <= j < w.placed.len() && i != j implies (
    #[trigger] w.placed[i]).1 != (#[trigger] w.placed[j]).1 by {
        if i < last {
            assert(w.placed[i] == m.placed[i]);
        }
        if j < last {
            assert(w.placed[j] == m.placed[j]);
        }
    }
    assert forall|l: Location| #[trigger] in_grid(l, w.side) && w.regions[l] is Some implies placed_on(
        w.placed,
        l,
    ) && w.regions[l]->0 < w.placed.len() && w.regions[l]->0 < w.frontiers.len() by {
        assert(in_grid(l, m.side) && m.regions[l] is Some);
        if l == loc {
            assert(w.placed[last].1 == l);
        } else {
            let i = choose|i: int| 0 <= i < m.placed.len() && (#[trigger] m.placed[i]).1 == l;
            assert(w.placed[i] == m.placed[i]);
        }
    }
    assert forall|c: Color| #[trigger] w.assigned.dom().contains(c) implies in_grid(
        w.assigned[c].0,
        w.side,
    ) && w.regions[w.assigned[c].0] == Some(w.assigned[c].1) by {
        if c != color {
            assert(m.assigned.dom().contains(c));
        }
    }
}

} // verus!
