use vstd::prelude::*;
use crate::buckets::{
    buckets_valid, frontier_contains, lemma_with_consumed, lemma_with_inserted, vacant_buckets,
    with_consumed, with_inserted,
};
use crate::model::{cell_at, collapsed, on_grid, with_cell, with_neighbor, GrowthModel};
use crate::types::{in_grid, Location, RegionId};

verus! {

/// The label at the given coordinates; `None` off the grid.
pub open spec fn label_at(
    regions: Map<Location, Option<RegionId>>,
    side: int,
    row: int,
    col: int,
) -> Option<RegionId> {
    if 0 <= row < side && 0 <= col < side {
        regions[cell_at(row, col)]
    } else {
        None
    }
}

/// One of the four neighbours of the cell belongs to the region.
pub open spec fn touches(
    regions: Map<Location, Option<RegionId>>,
    side: int,
    l: Location,
    r: RegionId,
) -> bool {
    ||| label_at(regions, side, l.row + 1, l.col as int) == Some(r)
    ||| label_at(regions, side, l.row as int, l.col + 1) == Some(r)
    ||| label_at(regions, side, l.row - 1, l.col as int) == Some(r)
    ||| label_at(regions, side, l.row as int, l.col - 1) == Some(r)
}

/// The grid, the labelled cells and the indices have the sizes that go
/// together.
pub open spec fn shaped(m: GrowthModel) -> bool {
    &&& 1 <= m.side <= 65536
    &&& m.groups >= 1
    &&& on_grid(m)
    &&& forall|r: int|
        0 <= r < m.frontiers.len() ==> buckets_valid(#[trigger] m.frontiers[r], m.groups, m.side)
}

/// A region's frontier holds exactly the unassigned cells next to a cell of
/// that region.
pub open spec fn frontier_invariant(m: GrowthModel) -> bool {
    forall|r: RegionId, l: Location|
        r < m.frontiers.len() ==> (#[trigger] frontier_contains(m.frontiers[r as int], l) <==> (
        in_grid(l, m.side) && m.regions[l] is None && touches(m.regions, m.side, l, r)))
}

/// Two assigned cells next to each other belong to one region.
pub open spec fn regions_merged(m: GrowthModel) -> bool {
    forall|l: Location| #[trigger]
        in_grid(l, m.side) && m.regions[l] is Some ==> {
            &&& label_at(m.regions, m.side, l.row + 1, l.col as int) is Some ==> label_at(
                m.regions,
                m.side,
                l.row + 1,
                l.col as int,
            ) == m.regions[l]
            &&& label_at(m.regions, m.side, l.row as int, l.col + 1) is Some ==> label_at(
                m.regions,
                m.side,
                l.row as int,
                l.col + 1,
            ) == m.regions[l]
        }
}

/// The coordinates are those of a neighbour of `loc` that has not been
/// looked at after `d` of the four have been.
pub open spec fn is_pending(loc: Location, d: int, row: int, col: int) -> bool {
    ||| d <= 0 && row == loc.row + 1 && col == loc.col
    ||| d <= 1 && row == loc.row && col == loc.col + 1
    ||| d <= 2 && row == loc.row - 1 && col == loc.col
    ||| d <= 3 && row == loc.row && col == loc.col - 1
}

/// A neighbour of `loc` that has not been looked at belongs to region `r`.
pub open spec fn pending_label(m: GrowthModel, loc: Location, d: int, r: RegionId) -> bool {
    ||| d <= 0 && label_at(m.regions, m.side, loc.row + 1, loc.col as int) == Some(r)
    ||| d <= 1 && label_at(m.regions, m.side, loc.row as int, loc.col + 1) == Some(r)
    ||| d <= 2 && label_at(m.regions, m.side, loc.row - 1, loc.col as int) == Some(r)
    ||| d <= 3 && label_at(m.regions, m.side, loc.row as int, loc.col - 1) == Some(r)
}

/// The frontiers while cell `loc` is being added to `region` and `d` of
/// its neighbours have been looked at. A frontier holds only unassigned
/// cells next to its region, but for `loc` itself, which may linger in the
/// frontier of a neighbour not yet looked at; and it holds all of them, but
/// for the neighbours of `loc` that its own region has yet to take in.
pub open spec fn frontier_midway(m: GrowthModel, loc: Location, region: RegionId, d: int) -> bool {
    &&& forall|r: RegionId, l: Location|
        r < m.frontiers.len() && #[trigger] frontier_contains(m.frontiers[r as int], l)
            ==> in_grid(l, m.side) && ((m.regions[l] is None && touches(
            m.regions,
            m.side,
            l,
            r,
        )) || (l == loc && r != region && pending_label(m, loc, d, r)))
    &&& forall|r: RegionId, l: Location|
        r < m.frontiers.len() && in_grid(l, m.side) && m.regions[l] is None && touches(
            m.regions,
            m.side,
            l,
            r,
        ) && !(r == region && is_pending(loc, d, l.row as int, l.col as int))
            ==> #[trigger] frontier_contains(m.frontiers[r as int], l)
}

/// Assigned neighbours belong to one region, but for `loc` and those of
/// its neighbours that have not been looked at.
pub open spec fn merged_midway(m: GrowthModel, loc: Location, d: int) -> bool {
    forall|l: Location| #[trigger]
        in_grid(l, m.side) && m.regions[l] is Some ==> {
            &&& label_at(m.regions, m.side, l.row + 1, l.col as int) is Some && !(l == loc
                && is_pending(loc, d, l.row + 1, l.col as int)) && !(cell_at(
                l.row + 1,
                l.col as int,
            ) == loc && is_pending(loc, d, l.row as int, l.col as int)) ==> label_at(
                m.regions,
                m.side,
                l.row + 1,
                l.col as int,
            ) == m.regions[l]
            &&& label_at(m.regions, m.side, l.row as int, l.col + 1) is Some && !(l == loc
                && is_pending(loc, d, l.row as int, l.col + 1)) && !(cell_at(
                l.row as int,
                l.col + 1,
            ) == loc && is_pending(loc, d, l.row as int, l.col as int)) ==> label_at(
                m.regions,
                m.side,
                l.row as int,
                l.col + 1,
            ) == m.regions[l]
        }
}

/// The frontiers just before cell `loc` is added to `region`: as the
/// frontier invariant has them, but that `loc` is not in the frontier of
/// `region`.
pub open spec fn frontier_ready(m: GrowthModel, loc: Location, region: RegionId) -> bool {
    forall|r: RegionId, l: Location|
        r < m.frontiers.len() ==> (#[trigger] frontier_contains(m.frontiers[r as int], l) <==> (
        in_grid(l, m.side) && m.regions[l] is None && touches(m.regions, m.side, l, r) && !(l
            == loc && r == region)))
}

/// Giving `loc` to `region` starts the round of looks at its neighbours.
pub proof fn lemma_start(m: GrowthModel, loc: Location, region: RegionId)
    requires
        shaped(m),
        in_grid(loc, m.side),
        m.regions[loc] is None,
        region < m.frontiers.len(),
        frontier_ready(m, loc, region),
        regions_merged(m),
    ensures
        shaped(with_cell(m, loc, region)),
        frontier_midway(with_cell(m, loc, region), loc, region, 0),
        merged_midway(with_cell(m, loc, region), loc, 0),
{
    let w = with_cell(m, loc, region);
    assert forall|row: int, col: int| !(row == loc.row && col == loc.col) implies #[trigger] label_at(
        w.regions,
        w.side,
        row,
        col,
    ) == label_at(m.regions, m.side, row, col) by {}
    assert forall|r: RegionId, l: Location|
        r < w.frontiers.len() && #[trigger] frontier_contains(
            w.frontiers[r as int],
            l,
        ) implies in_grid(l, w.side) && ((w.regions[l] is None && touches(
        w.regions,
        w.side,
        l,
        r,
    )) || (l == loc && r != region && pending_label(w, loc, 0, r))) by {
        assert(frontier_contains(m.frontiers[r as int], l));
        if l != loc {
            assert(touches(m.regions, m.side, l, r));
        }
    }
    assert forall|r: RegionId, l: Location|
        r < w.frontiers.len() && in_grid(l, w.side) && w.regions[l] is None && touches(
            w.regions,
            w.side,
            l,
            r,
        ) && !(r == region && is_pending(
            loc,
            0,
            l.row as int,
            l.col as int,
        )) implies #[trigger] frontier_contains(w.frontiers[r as int], l) by {
        assert(l != loc);
        assert(touches(m.regions, m.side, l, r));
        assert(frontier_contains(m.frontiers[r as int], l) <==> (in_grid(l, m.side)
            && m.regions[l] is None && touches(m.regions, m.side, l, r) && !(l == loc && r
            == region)));
    }
    assert forall|l: Location| #[trigger] in_grid(l, w.side) && w.regions[l] is Some implies {
        &&& label_at(w.regions, w.side, l.row + 1, l.col as int) is Some && !(l == loc
            && is_pending(loc, 0, l.row + 1, l.col as int)) && !(cell_at(l.row + 1, l.col as int)
            == loc && is_pending(loc, 0, l.row as int, l.col as int)) ==> label_at(
            w.regions,
            w.side,
            l.row + 1,
            l.col as int,
        ) == w.regions[l]
        &&& label_at(w.regions, w.side, l.row as int, l.col + 1) is Some && !(l == loc
            && is_pending(loc, 0, l.row as int, l.col + 1)) && !(cell_at(l.row as int, l.col + 1)
            == loc && is_pending(loc, 0, l.row as int, l.col as int)) ==> label_at(
            w.regions,
            w.side,
            l.row as int,
            l.col + 1,
        ) == w.regions[l]
    } by {
        if l != loc {
            assert(in_grid(l, m.side) && m.regions[l] is Some);
        }
    }
}

/// Row of the neighbour that is looked at after `d` others.
pub open spec fn neighbor_row(loc: Location, d: int) -> int {
    if d == 0 {
        loc.row + 1
    } else if d == 2 {
        loc.row - 1
    } else {
        loc.row as int
    }
}

/// Column of the neighbour that is looked at after `d` others.
pub open spec fn neighbor_col(loc: Location, d: int) -> int {
    if d == 1 {
        loc.col + 1
    } else if d == 3 {
        loc.col - 1
    } else {
        loc.col as int
    }
}

/// The state while `loc` is being added to `region`, after `d` looks.
pub open spec fn midway(m: GrowthModel, loc: Location, region: RegionId, d: int) -> bool {
    &&& shaped(m)
    &&& in_grid(loc, m.side)
    &&& m.regions[loc] == Some(region)
    &&& region < m.frontiers.len()
    &&& forall|l: Location| #[trigger]
        in_grid(l, m.side) && m.regions[l] is Some ==> m.regions[l]->0 < m.frontiers.len()
    &&& frontier_midway(m, loc, region, d)
    &&& merged_midway(m, loc, d)
}

/// A look at a neighbour off the grid or of the same region.
proof fn lemma_look_skip(m: GrowthModel, loc: Location, region: RegionId, d: int)
    requires
        midway(m, loc, region, d),
        0 <= d < 4,
        label_at(m.regions, m.side, neighbor_row(loc, d), neighbor_col(loc, d)) is None
            ==> !(0 <= neighbor_row(loc, d) < m.side && 0 <= neighbor_col(loc, d) < m.side),
        label_at(m.regions, m.side, neighbor_row(loc, d), neighbor_col(loc, d)) is Some
            ==> label_at(m.regions, m.side, neighbor_row(loc, d), neighbor_col(loc, d)) == Some(
            region,
        ),
    ensures
        midway(m, loc, region, d + 1),
{
    assert forall|r: RegionId, l: Location|
        r < m.frontiers.len() && #[trigger] frontier_contains(
            m.frontiers[r as int],
            l,
        ) implies in_grid(l, m.side) && ((m.regions[l] is None && touches(
        m.regions,
        m.side,
        l,
        r,
    )) || (l == loc && r != region && pending_label(m, loc, d + 1, r))) by {}
    assert forall|r: RegionId, l: Location|
        r < m.frontiers.len() && in_grid(l, m.side) && m.regions[l] is None && touches(
            m.regions,
            m.side,
            l,
            r,
        ) && !(r == region && is_pending(
            loc,
            d + 1,
            l.row as int,
            l.col as int,
        )) implies #[trigger] frontier_contains(m.frontiers[r as int], l) by {
        if r == region && is_pending(loc, d, l.row as int, l.col as int) {
            assert(l.row == neighbor_row(loc, d) && l.col == neighbor_col(loc, d));
            assert(l == cell_at(l.row as int, l.col as int));
        }
    }
    assert forall|l: Location| #[trigger] in_grid(l, m.side) && m.regions[l] is Some implies {
        &&& label_at(m.regions, m.side, l.row + 1, l.col as int) is Some && !(l == loc
            && is_pending(loc, d + 1, l.row + 1, l.col as int)) && !(cell_at(
            l.row + 1,
            l.col as int,
        ) == loc && is_pending(loc, d + 1, l.row as int, l.col as int)) ==> label_at(
            m.regions,
            m.side,
            l.row + 1,
            l.col as int,
        ) == m.regions[l]
        &&& label_at(m.regions, m.side, l.row as int, l.col + 1) is Some && !(l == loc
            && is_pending(loc, d + 1, l.row as int, l.col + 1)) && !(cell_at(
            l.row as int,
            l.col + 1,
        ) == loc && is_pending(loc, d + 1, l.row as int, l.col as int)) ==> label_at(
            m.regions,
            m.side,
            l.row as int,
            l.col + 1,
        ) == m.regions[l]
    } by {
        assert(l == cell_at(l.row as int, l.col as int));
        assert(loc == cell_at(loc.row as int, loc.col as int));
    }
}

/// A look at an unassigned neighbour.
proof fn lemma_look_insert(m: GrowthModel, loc: Location, region: RegionId, d: int)
    requires
        midway(m, loc, region, d),
        0 <= d < 4,
        0 <= neighbor_row(loc, d) < m.side,
        0 <= neighbor_col(loc, d) < m.side,
        m.regions[cell_at(neighbor_row(loc, d), neighbor_col(loc, d))] is None,
    ensures
        midway(with_neighbor(m, region, neighbor_row(loc, d), neighbor_col(loc, d)), loc, region, d + 1),
{
    let n = cell_at(neighbor_row(loc, d), neighbor_col(loc, d));
    let w = with_neighbor(m, region, neighbor_row(loc, d), neighbor_col(loc, d));
    let before = m.frontiers[region as int];
    assert(buckets_valid(before, m.groups, m.side));
    assert(in_grid(n, m.side));
    assert(w.frontiers[region as int] == with_inserted(before, m.groups, m.side, n));
    assert forall|l: Location|
        frontier_contains(w.frontiers[region as int], l) <==> (frontier_contains(before, l) || l
            == n) by {
        lemma_with_inserted(before, m.groups, m.side, n, l);
    }
    lemma_with_inserted(before, m.groups, m.side, n, n);
    assert(shaped(w));
    assert(loc == cell_at(loc.row as int, loc.col as int));
    assert(touches(m.regions, m.side, n, region));
    assert forall|r: RegionId, l: Location|
        r < w.frontiers.len() && #[trigger] frontier_contains(
            w.frontiers[r as int],
            l,
        ) implies in_grid(l, w.side) && ((w.regions[l] is None && touches(
        w.regions,
        w.side,
        l,
        r,
    )) || (l == loc && r != region && pending_label(w, loc, d + 1, r))) by {
        if r == region && l == n {
        } else {
            assert(frontier_contains(m.frontiers[r as int], l));
        }
    }
    assert forall|r: RegionId, l: Location|
        r < w.frontiers.len() && in_grid(l, w.side) && w.regions[l] is None && touches(
            w.regions,
            w.side,
            l,
            r,
        ) && !(r == region && is_pending(
            loc,
            d + 1,
            l.row as int,
            l.col as int,
        )) implies #[trigger] frontier_contains(w.frontiers[r as int], l) by {
        assert(l == cell_at(l.row as int, l.col as int));
        if r == region && is_pending(loc, d, l.row as int, l.col as int) {
            assert(l == n);
        } else {
            assert(frontier_contains(m.frontiers[r as int], l));
        }
    }
    assert forall|l: Location| #[trigger] in_grid(l, w.side) && w.regions[l] is Some implies {
        &&& label_at(w.regions, w.side, l.row + 1, l.col as int) is Some && !(l == loc
            && is_pending(loc, d + 1, l.row + 1, l.col as int)) && !(cell_at(
            l.row + 1,
            l.col as int,
        ) == loc && is_pending(loc, d + 1, l.row as int, l.col as int)) ==> label_at(
            w.regions,
            w.side,
            l.row + 1,
            l.col as int,
        ) == w.regions[l]
        &&& label_at(w.regions, w.side, l.row as int, l.col + 1) is Some && !(l == loc
            && is_pending(loc, d + 1, l.row as int, l.col + 1)) && !(cell_at(
            l.row as int,
            l.col + 1,
        ) == loc && is_pending(loc, d + 1, l.row as int, l.col as int)) ==> label_at(
            w.regions,
            w.side,
            l.row as int,
            l.col + 1,
        ) == w.regions[l]
    } by {
        assert(in_grid(l, m.side) && m.regions[l] is Some);
        assert(l == cell_at(l.row as int, l.col as int));
    }
}

/// What folding `source` into `target` does to labels and frontiers.
pub proof fn lemma_collapsed(m: GrowthModel, source: RegionId, target: RegionId)
    requires
        shaped(m),
        source < m.frontiers.len(),
        target < m.frontiers.len(),
        source != target,
    ensures
        shaped(collapsed(m, source, target)),
        collapsed(m, source, target).frontiers.len() == m.frontiers.len(),
        forall|l: Location| #[trigger]
            in_grid(l, m.side) ==> collapsed(m, source, target).regions[l] == (if m.regions[l]
                == Some(source) {
                Some(target)
            } else {
                m.regions[l]
            }),
        forall|row: int, col: int| #[trigger]
            label_at(collapsed(m, source, target).regions, m.side, row, col) == (if label_at(
                m.regions,
                m.side,
                row,
                col,
            ) == Some(source) {
                Some(target)
            } else {
                label_at(m.regions, m.side, row, col)
            }),
        forall|l: Location|
            !(#[trigger] frontier_contains(collapsed(m, source, target).frontiers[source as int], l)),
        forall|l: Location| #[trigger]
            frontier_contains(collapsed(m, source, target).frontiers[target as int], l) <==> (
            frontier_contains(m.frontiers[target as int], l) || (frontier_contains(
                m.frontiers[source as int],
                l,
            ) && in_grid(l, m.side) && m.regions[l] is None)),
        forall|r: int|
            0 <= r < m.frontiers.len() && r != source && r != target ==> #[trigger] collapsed(
                m,
                source,
                target,
            ).frontiers[r] == m.frontiers[r],
{
    let w = collapsed(m, source, target);
    let mine = m.frontiers[target as int];
    let theirs = m.frontiers[source as int];
    assert(buckets_valid(mine, m.groups, m.side));
    assert(buckets_valid(theirs, m.groups, m.side));
    assert(w.frontiers[target as int] == with_consumed(mine, theirs, m.regions));
    assert(w.frontiers[source as int] == vacant_buckets(m.groups));
    assert forall|l: Location| #[trigger]
        frontier_contains(w.frontiers[target as int], l) <==> (frontier_contains(mine, l) || (
        frontier_contains(theirs, l) && in_grid(l, m.side) && m.regions[l] is None)) by {
        lemma_with_consumed(mine, theirs, m.regions, m.groups, m.side, l);
        crate::buckets::lemma_contains_in_bucket(theirs, m.groups, m.side, l);
    }
    lemma_with_consumed(mine, theirs, m.regions, m.groups, m.side, Location { row: 0, col: 0 });
    assert(buckets_valid(vacant_buckets(m.groups), m.groups, m.side));
    assert forall|r: int| 0 <= r < w.frontiers.len() implies buckets_valid(
        #[trigger] w.frontiers[r],
        w.groups,
        w.side,
    ) by {
        if r != source && r != target {
            assert(w.frontiers[r] == m.frontiers[r]);
        }
    }
    assert forall|l: Location| w.regions.dom().contains(l) <==> in_grid(l, w.side) by {}
    assert forall|row: int, col: int| #[trigger]
        label_at(w.regions, m.side, row, col) == (if label_at(m.regions, m.side, row, col) == Some(
            source,
        ) {
            Some(target)
        } else {
            label_at(m.regions, m.side, row, col)
        }) by {
        if 0 <= row < m.side && 0 <= col < m.side {
            assert(in_grid(cell_at(row, col), m.side));
            assert(m.regions.dom().contains(cell_at(row, col)));
        }
    }
}

/// A look at a neighbour of another region.
proof fn lemma_look_collapse(m: GrowthModel, loc: Location, region: RegionId, d: int, other: RegionId)
    requires
        midway(m, loc, region, d),
        0 <= d < 4,
        label_at(m.regions, m.side, neighbor_row(loc, d), neighbor_col(loc, d)) == Some(other),
        other != region,
    ensures
        midway(collapsed(m, other, region), loc, region, d + 1),
{
    let n = cell_at(neighbor_row(loc, d), neighbor_col(loc, d));
    let w = collapsed(m, other, region);
    assert(in_grid(n, m.side) && m.regions[n] is Some);
    assert(other < m.frontiers.len());
    lemma_collapsed(m, other, region);
    assert(loc == cell_at(loc.row as int, loc.col as int));
    assert forall|l: Location, r: RegionId|
        touches(m.regions, m.side, l, r) && r != other implies touches(w.regions, w.side, l, r) by {}
    assert forall|l: Location|
        touches(m.regions, m.side, l, other) implies touches(w.regions, w.side, l, region) by {}
    assert forall|r: RegionId, l: Location|
        r < w.frontiers.len() && #[trigger] frontier_contains(
            w.frontiers[r as int],
            l,
        ) implies in_grid(l, w.side) && ((w.regions[l] is None && touches(
        w.regions,
        w.side,
        l,
        r,
    )) || (l == loc && r != region && pending_label(w, loc, d + 1, r))) by {
        if r == region {
            if frontier_contains(m.frontiers[region as int], l) {
            } else {
                assert(frontier_contains(m.frontiers[other as int], l));
            }
        } else if r == other {
        } else {
            assert(w.frontiers[r as int] == m.frontiers[r as int]);
            assert(frontier_contains(m.frontiers[r as int], l));
        }
    }
    assert forall|r: RegionId, l: Location|
        r < w.frontiers.len() && in_grid(l, w.side) && w.regions[l] is None && touches(
            w.regions,
            w.side,
            l,
            r,
        ) && !(r == region && is_pending(
            loc,
            d + 1,
            l.row as int,
            l.col as int,
        )) implies #[trigger] frontier_contains(w.frontiers[r as int], l) by {
        assert(l == cell_at(l.row as int, l.col as int));
        assert(m.regions[l] is None);
        if r == region {
            assert(!is_pending(loc, d, l.row as int, l.col as int));
            if touches(m.regions, m.side, l, region) {
                assert(frontier_contains(m.frontiers[region as int], l));
            } else {
                assert(touches(m.regions, m.side, l, other));
                assert(frontier_contains(m.frontiers[other as int], l));
            }
        } else if r == other {
        } else {
            assert(w.frontiers[r as int] == m.frontiers[r as int]);
            assert(touches(m.regions, m.side, l, r));
            assert(frontier_contains(m.frontiers[r as int], l));
        }
    }
    assert forall|l: Location| #[trigger] in_grid(l, w.side) && w.regions[l] is Some implies {
        &&& label_at(w.regions, w.side, l.row + 1, l.col as int) is Some && !(l == loc
            && is_pending(loc, d + 1, l.row + 1, l.col as int)) && !(cell_at(
            l.row + 1,
            l.col as int,
        ) == loc && is_pending(loc, d + 1, l.row as int, l.col as int)) ==> label_at(
            w.regions,
            w.side,
            l.row + 1,
            l.col as int,
        ) == w.regions[l]
        &&& label_at(w.regions, w.side, l.row as int, l.col + 1) is Some && !(l == loc
            && is_pending(loc, d + 1, l.row as int, l.col + 1)) && !(cell_at(
            l.row as int,
            l.col + 1,
        ) == loc && is_pending(loc, d + 1, l.row as int, l.col as int)) ==> label_at(
            w.regions,
            w.side,
            l.row as int,
            l.col + 1,
        ) == w.regions[l]
    } by {
        assert(in_grid(l, m.side) && m.regions[l] is Some);
        assert(l == cell_at(l.row as int, l.col as int));
    }
    assert forall|l: Location| #[trigger] in_grid(l, w.side) && w.regions[l] is Some implies w.regions[l]->0
        < w.frontiers.len() by {
        assert(in_grid(l, m.side) && m.regions[l] is Some);
    }
}

/// One look at a neighbour of `loc` takes the round one step on.
pub proof fn lemma_look(m: GrowthModel, loc: Location, region: RegionId, d: int)
    requires
        midway(m, loc, region, d),
        0 <= d < 4,
    ensures
        midway(
            with_neighbor(m, region, neighbor_row(loc, d), neighbor_col(loc, d)),
            loc,
            region,
            d + 1,
        ),
{
    let row = neighbor_row(loc, d);
    let col = neighbor_col(loc, d);
    if 0 <= row < m.side && 0 <= col < m.side {
        match m.regions[cell_at(row, col)] {
            None => {
                lemma_look_insert(m, loc, region, d);
            },
            Some(other) => {
                if other != region {
                    lemma_look_collapse(m, loc, region, d, other);
                } else {
                    lemma_look_skip(m, loc, region, d);
                }
            },
        }
    } else {
        lemma_look_skip(m, loc, region, d);
    }
}

/// After the four looks the frontier invariant holds again, and
/// neighbouring assigned cells belong to one region.
pub proof fn lemma_round_done(m: GrowthModel, loc: Location, region: RegionId)
    requires
        midway(m, loc, region, 4),
    ensures
        frontier_invariant(m),
        regions_merged(m),
{
    assert forall|r: RegionId, l: Location| r < m.frontiers.len() implies (
    #[trigger] frontier_contains(m.frontiers[r as int], l) <==> (in_grid(l, m.side)
        && m.regions[l] is None && touches(m.regions, m.side, l, r))) by {}
    assert forall|l: Location| #[trigger] in_grid(l, m.side) && m.regions[l] is Some implies {
        &&& label_at(m.regions, m.side, l.row + 1, l.col as int) is Some ==> label_at(
            m.regions,
            m.side,
            l.row + 1,
            l.col as int,
        ) == m.regions[l]
        &&& label_at(m.regions, m.side, l.row as int, l.col + 1) is Some ==> label_at(
            m.regions,
            m.side,
            l.row as int,
            l.col + 1,
        ) == m.regions[l]
    } by {}
}

} // verus!
