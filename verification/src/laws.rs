use vstd::prelude::*;
use crate::assigned::{first_hit, is_hit, lemma_first_hit, probe, target_of};
use crate::bookkeeping::{
    lemma_count_positive, lemma_records_finish, lemma_records_look, lemma_records_start, placed_on,
    recorded, unassigned_count,
};
use crate::buckets::{buckets_valid, frontier_contains, is_vacant, lemma_with_removed};
use crate::invariants::{
    frontier_invariant, frontier_ready, label_at, lemma_collapsed, lemma_look, lemma_round_done,
    lemma_start, midway, neighbor_col, neighbor_row, regions_merged, shaped, touches,
};
use crate::model::{
    cell_at, cell_count_of, collapsed, color_range_of, grown, grown_near, initial, needs_seed,
    placed_at, seed_count_of, seed_for, seeded, side_length_of, step, with_cell, with_extracted,
    with_neighbor, with_placement, GrowthError, GrowthModel,
};
use crate::nearest::{lemma_nearest_exists, nearest};
use crate::offsets::{color_offset_table, in_cube, lemma_offset_table_complete};
use crate::types::{in_grid, Color, ColorOffset, Location, RegionId};

verus! {

/// What holds of the state between placements: the frontier invariant,
/// that touching regions have been merged, and that the records agree with
/// the grid.
pub open spec fn inv(m: GrowthModel) -> bool {
    &&& shaped(m)
    &&& 1 <= m.seed_count <= usize::MAX
    &&& m.frontiers.len() == m.seed_count
    &&& frontier_invariant(m)
    &&& regions_merged(m)
    &&& recorded(m)
}

/// What a placement leaves as it was, and what it adds.
pub open spec fn placement_frame(
    m: GrowthModel,
    w: GrowthModel,
    color: Color,
    loc: Location,
) -> bool {
    &&& w.side == m.side
    &&& w.groups == m.groups
    &&& w.seed_count == m.seed_count
    &&& w.offsets == m.offsets
    &&& w.frontiers.len() == m.frontiers.len()
    &&& w.placed == m.placed.push((color, loc))
    &&& w.assigned.dom() == m.assigned.dom().insert(color)
    &&& w.assigned[color].0 == loc
    &&& forall|c: Color| #[trigger]
        m.assigned.dom().contains(c) && c != color ==> w.assigned[c].0 == m.assigned[c].0
}

/// What a look at a neighbour leaves as it was.
pub open spec fn look_frame(m: GrowthModel, w: GrowthModel) -> bool {
    &&& w.side == m.side
    &&& w.groups == m.groups
    &&& w.seed_count == m.seed_count
    &&& w.offsets == m.offsets
    &&& w.frontiers.len() == m.frontiers.len()
    &&& w.placed == m.placed
    &&& w.assigned.dom() == m.assigned.dom()
    &&& forall|c: Color| #[trigger] m.assigned.dom().contains(c) ==> w.assigned[c].0 == m.assigned[c].0
}

/// A look at a neighbour keeps the sizes, the placements and the cells of
/// the placed colours.
proof fn lemma_look_frame(m: GrowthModel, region: RegionId, row: int, col: int)
    requires
        region < m.frontiers.len(),
        0 <= row < m.side && 0 <= col < m.side && m.regions[cell_at(row, col)] is Some
            ==> m.regions[cell_at(row, col)]->0 < m.frontiers.len(),
    ensures
        look_frame(m, with_neighbor(m, region, row, col)),
{
    let w = with_neighbor(m, region, row, col);
    assert(w.assigned.dom() =~= m.assigned.dom());
}

/// Placing a colour on an unassigned cell for a region restores the
/// invariant, where it held before but for that cell's absence from the
/// region's frontier.
pub proof fn lemma_placed_at(m: GrowthModel, color: Color, loc: Location, region: RegionId)
    requires
        shaped(m),
        1 <= m.seed_count <= usize::MAX,
        m.frontiers.len() == m.seed_count,
        in_grid(loc, m.side),
        m.regions[loc] is None,
        region < m.frontiers.len(),
        region <= m.placed.len(),
        frontier_ready(m, loc, region),
        regions_merged(m),
        recorded(m),
    ensures
        inv(placed_at(m, color, loc, region)),
        placement_frame(m, placed_at(m, color, loc, region), color, loc),
{
    let m0 = with_cell(m, loc, region);
    lemma_start(m, loc, region);
    lemma_records_start(m, loc, region);
    assert(midway(m0, loc, region, 0)) by {
        assert forall|l: Location| #[trigger] in_grid(l, m0.side) && m0.regions[l] is Some implies m0.regions[l]->0
            < m0.frontiers.len() by {}
    }
    let m1 = with_neighbor(m0, region, loc.row + 1, loc.col as int);
    lemma_look(m0, loc, region, 0);
    lemma_records_look(m0, loc, region, loc.row + 1, loc.col as int);
    lemma_look_frame_midway(m0, loc, region, 0);
    let m2 = with_neighbor(m1, region, loc.row as int, loc.col + 1);
    lemma_look(m1, loc, region, 1);
    lemma_records_look(m1, loc, region, loc.row as int, loc.col + 1);
    lemma_look_frame_midway(m1, loc, region, 1);
    let m3 = with_neighbor(m2, region, loc.row - 1, loc.col as int);
    lemma_look(m2, loc, region, 2);
    lemma_records_look(m2, loc, region, loc.row - 1, loc.col as int);
    lemma_look_frame_midway(m2, loc, region, 2);
    let m4 = with_neighbor(m3, region, loc.row as int, loc.col - 1);
    lemma_look(m3, loc, region, 3);
    lemma_records_look(m3, loc, region, loc.row as int, loc.col - 1);
    lemma_look_frame_midway(m3, loc, region, 3);
    lemma_round_done(m4, loc, region);
    lemma_records_finish(m4, color, loc, region);
    let w = with_placement(m4, color, loc, region);
    assert(w == placed_at(m, color, loc, region));
    assert(frontier_invariant(w)) by {
        assert forall|r: RegionId, l: Location| r < w.frontiers.len() implies (
        #[trigger] frontier_contains(w.frontiers[r as int], l) <==> (in_grid(l, w.side)
            && w.regions[l] is None && touches(w.regions, w.side, l, r))) by {
            assert(w.frontiers[r as int] == m4.frontiers[r as int]);
        }
    }
    assert(regions_merged(w)) by {
        assert forall|l: Location| #[trigger] in_grid(l, w.side) && w.regions[l] is Some implies {
            &&& label_at(w.regions, w.side, l.row + 1, l.col as int) is Some ==> label_at(
                w.regions,
                w.side,
                l.row + 1,
                l.col as int,
            ) == w.regions[l]
            &&& label_at(w.regions, w.side, l.row as int, l.col + 1) is Some ==> label_at(
                w.regions,
                w.side,
                l.row as int,
                l.col + 1,
            ) == w.regions[l]
        } by {
            assert(in_grid(l, m4.side) && m4.regions[l] is Some);
        }
    }
    assert(shaped(w)) by {
        assert forall|r: int| 0 <= r < w.frontiers.len() implies buckets_valid(
            #[trigger] w.frontiers[r],
            w.groups,
            w.side,
        ) by {
            assert(w.frontiers[r] == m4.frontiers[r]);
        }
    }
    assert(w.assigned.dom() =~= m.assigned.dom().insert(color));
}

/// The same for the look that comes after `d` others.
proof fn lemma_look_frame_midway(m: GrowthModel, loc: Location, region: RegionId, d: int)
    requires
        midway(m, loc, region, d),
        0 <= d < 4,
    ensures
        look_frame(m, with_neighbor(m, region, neighbor_row(loc, d), neighbor_col(loc, d))),
{
    let row = neighbor_row(loc, d);
    let col = neighbor_col(loc, d);
    if 0 <= row < m.side && 0 <= col < m.side {
        assert(in_grid(cell_at(row, col), m.side));
    }
    lemma_look_frame(m, region, row, col);
}

/// A region with a cell has a cell in its frontier as long as any cell of
/// the grid is unassigned: on the way from the region's cell to the
/// unassigned one, the first unassigned cell borders the region.
pub proof fn lemma_frontier_not_vacant(m: GrowthModel, a: Location, u: Location, r: RegionId)
    requires
        shaped(m),
        frontier_invariant(m),
        regions_merged(m),
        r < m.frontiers.len(),
        in_grid(a, m.side),
        m.regions[a] == Some(r),
        in_grid(u, m.side),
        m.regions[u] is None,
    ensures
        !is_vacant(m.frontiers[r as int]),
    decreases
            (if a.row < u.row { u.row - a.row } else { a.row - u.row }) + (if a.col < u.col {
                u.col - a.col
            } else {
                a.col - u.col
            }),
{
    let n = if a.row < u.row {
        cell_at(a.row + 1, a.col as int)
    } else if a.row > u.row {
        cell_at(a.row - 1, a.col as int)
    } else if a.col < u.col {
        cell_at(a.row as int, a.col + 1)
    } else {
        cell_at(a.row as int, a.col - 1)
    };
    assert(a != u);
    assert(in_grid(n, m.side));
    assert(a == cell_at(a.row as int, a.col as int));
    assert(n == cell_at(n.row as int, n.col as int));
    if m.regions[n] is None {
        assert(touches(m.regions, m.side, n, r));
        assert(frontier_contains(m.frontiers[r as int], n));
        let (i, j) = choose|i: int, j: int|
            0 <= i < m.frontiers[r as int].len() && 0 <= j < m.frontiers[r as int][i].len()
                && #[trigger] m.frontiers[r as int][i][j] == n;
        assert(m.frontiers[r as int][i].len() != 0);
    } else {
        assert(in_grid(a, m.side) && m.regions[a] is Some);
        assert(in_grid(n, m.side) && m.regions[n] is Some);
        assert(m.regions[n] == Some(r));
        lemma_frontier_not_vacant(m, n, u, r);
    }
}

/// A seed on an unassigned cell keeps the invariant.
pub proof fn lemma_seeded(m: GrowthModel, color: Color, seed: Location)
    requires
        inv(m),
        needs_seed(m),
        in_grid(seed, m.side),
        m.regions[seed] is None,
    ensures
        inv(seeded(m, color, seed)),
        placement_frame(m, seeded(m, color, seed), color, seed),
{
    let region = m.placed.len() as RegionId;
    assert forall|row: int, col: int| #[trigger]
        label_at(m.regions, m.side, row, col) != Some(region) by {
        if 0 <= row < m.side && 0 <= col < m.side {
            assert(in_grid(cell_at(row, col), m.side));
        }
    }
    assert forall|r: RegionId, l: Location| r < m.frontiers.len() implies (
    #[trigger] frontier_contains(m.frontiers[r as int], l) <==> (in_grid(l, m.side)
        && m.regions[l] is None && touches(m.regions, m.side, l, r) && !(l == seed && r
        == region))) by {}
    lemma_placed_at(m, color, seed, region);
}

/// The colours placed so far and the table of displacements belong to a
/// cube of side `cr`.
pub open spec fn within_cube(m: GrowthModel, cr: int) -> bool {
    &&& 1 <= cr <= 256
    &&& m.offsets == color_offset_table(cr)
    &&& forall|c: Color| #[trigger] m.assigned.dom().contains(c) ==> in_cube(c, cr)
}

/// Among colours of a cube the search for the nearest placed colour finds
/// one, once something is placed.
pub proof fn lemma_target_found(m: GrowthModel, color: Color, cr: int)
    requires
        recorded(m),
        m.placed.len() >= 1,
        within_cube(m, cr),
        in_cube(color, cr),
    ensures
        target_of(color, m.offsets, m.assigned) is Some,
{
    let first = m.placed[0];
    assert(m.assigned.dom().contains(first.0));
    let c0 = first.0;
    let o = ColorOffset {
        red: (c0.red - color.red) as i16,
        green: (c0.green - color.green) as i16,
        blue: (c0.blue - color.blue) as i16,
    };
    let at = lemma_offset_table_complete(cr, o);
    assert(probe(color, o) == Some(c0));
    assert(is_hit(color, m.offsets[at], m.assigned));
    lemma_first_hit(color, m.offsets, m.assigned, 0);
}

/// Once the seeds are placed and while cells are left, the region of the
/// placed colour that the search finds has a cell in its frontier, and the
/// placement keeps the invariant. Only a search that finds nothing fails.
pub proof fn lemma_grown_near(m: GrowthModel, color: Color)
    requires
        inv(m),
        !needs_seed(m),
        m.placed.len() < m.side * m.side,
    ensures
        grown_near(m, color) is Ok <==> target_of(color, m.offsets, m.assigned) is Some,
        grown_near(m, color) is Err ==> grown_near(m, color) == Err::<GrowthModel, GrowthError>(
            GrowthError::NoColorNeighborFound,
        ),
        grown_near(m, color) is Ok ==> inv(grown_near(m, color)->Ok_0) && placement_frame(
            m,
            grown_near(m, color)->Ok_0,
            color,
            (grown_near(m, color)->Ok_0).placed.last().1,
        ) && in_grid((grown_near(m, color)->Ok_0).placed.last().1, m.side) && m.regions[(
        grown_near(m, color)->Ok_0).placed.last().1] is None,
{
    if target_of(color, m.offsets, m.assigned) is Some {
        lemma_first_hit(color, m.offsets, m.assigned, 0);
        let i = first_hit(color, m.offsets, m.assigned, 0);
        assert(i < m.offsets.len());
        let near = probe(color, m.offsets[i])->0;
        assert(m.assigned.dom().contains(near));
        let found = m.assigned[near];
        assert(target_of(color, m.offsets, m.assigned) == Some(found));
        let cell = found.0;
        let region = found.1;
        assert(in_grid(cell, m.side) && m.regions[cell] is Some);
        let u = lemma_count_positive(m.regions, m.side, (m.side * m.side) as nat);
        lemma_frontier_not_vacant(m, cell, u, region);
        let buckets = m.frontiers[region as int];
        assert(buckets_valid(buckets, m.groups, m.side));
        lemma_nearest_exists(buckets, m.groups, m.side, cell);
        let c = nearest(buckets, m.groups, m.side, cell);
        let loc = buckets[c.0][c.1];
        assert(frontier_contains(m.frontiers[region as int], loc));
        let e = with_extracted(m, region, c);
        assert forall|l: Location|
            frontier_contains(e.frontiers[region as int], l) <==> (frontier_contains(buckets, l)
                && l != loc) by {
            lemma_with_removed(buckets, m.groups, m.side, c, l);
        }
        lemma_with_removed(buckets, m.groups, m.side, c, loc);
        assert(shaped(e)) by {
            assert forall|r: int| 0 <= r < e.frontiers.len() implies buckets_valid(
                #[trigger] e.frontiers[r],
                e.groups,
                e.side,
            ) by {
                if r != region {
                    assert(e.frontiers[r] == m.frontiers[r]);
                }
            }
        }
        assert(frontier_ready(e, loc, region)) by {
            assert forall|r: RegionId, l: Location| r < e.frontiers.len() implies (
            #[trigger] frontier_contains(e.frontiers[r as int], l) <==> (in_grid(l, e.side)
                && e.regions[l] is None && touches(e.regions, e.side, l, r) && !(l == loc && r
                == region))) by {
                if r != region {
                    assert(e.frontiers[r as int] == m.frontiers[r as int]);
                }
                assert(frontier_contains(m.frontiers[r as int], l) <==> (in_grid(l, m.side)
                    && m.regions[l] is None && touches(m.regions, m.side, l, r)));
            }
        }
        assert(regions_merged(e)) by {
            assert forall|l: Location| #[trigger] in_grid(l, e.side) && e.regions[l] is Some implies {
                &&& label_at(e.regions, e.side, l.row + 1, l.col as int) is Some ==> label_at(
                    e.regions,
                    e.side,
                    l.row + 1,
                    l.col as int,
                ) == e.regions[l]
                &&& label_at(e.regions, e.side, l.row as int, l.col + 1) is Some ==> label_at(
                    e.regions,
                    e.side,
                    l.row as int,
                    l.col + 1,
                ) == e.regions[l]
            } by {
                assert(in_grid(l, m.side) && m.regions[l] is Some);
            }
        }
        assert(recorded(e)) by {
            assert(unassigned_count(e) == unassigned_count(m));
            assert forall|l: Location| #[trigger]
                in_grid(l, e.side) && e.regions[l] is Some implies placed_on(e.placed, l)
                && e.regions[l]->0 < e.placed.len() && e.regions[l]->0 < e.frontiers.len() by {
                assert(in_grid(l, m.side) && m.regions[l] is Some);
            }
        }
        lemma_placed_at(e, color, loc, region);
        let w = placed_at(e, color, loc, region);
        assert(grown_near(m, color) == Ok::<GrowthModel, GrowthError>(w));
        assert(w.placed.last() == (color, loc));
    }
}

/// Folding region `source` into region `target` leaves no cell of `source`:
/// its cells belong to `target`, and every other cell keeps its label.
pub proof fn lemma_merge_relabels(m: GrowthModel, source: RegionId, target: RegionId, l: Location)
    requires
        shaped(m),
        source < m.frontiers.len(),
        target < m.frontiers.len(),
        source != target,
        in_grid(l, m.side),
    ensures
        collapsed(m, source, target).regions[l] != Some(source),
        m.regions[l] == Some(source) ==> collapsed(m, source, target).regions[l] == Some(target),
        m.regions[l] != Some(source) ==> collapsed(m, source, target).regions[l] == m.regions[l],
{
    lemma_collapsed(m, source, target);
}

/// The colours of an ordering belong to the cube of side `cr`.
pub open spec fn colors_in_cube(colors: Seq<Color>, cr: int) -> bool {
    forall|i: int| 0 <= i < colors.len() ==> in_cube(#[trigger] colors[i], cr)
}

/// No colour occurs twice in the ordering.
pub open spec fn colors_distinct(colors: Seq<Color>) -> bool {
    forall|i: int, j: int|
        0 <= i < colors.len() && 0 <= j < colors.len() && i != j ==> #[trigger] colors[i]
            != #[trigger] colors[j]
}

/// Number of placements of a run that are seeds.
pub open spec fn seeds_due(size: int) -> int {
    if seed_count_of(size) <= cell_count_of(size) {
        seed_count_of(size)
    } else {
        cell_count_of(size)
    }
}

/// The list gives a cell of the grid for every seed of a run, and no cell
/// twice.
pub open spec fn valid_seeds(seeds: Seq<Location>, size: int) -> bool {
    &&& seeds.len() >= seeds_due(size)
    &&& forall|i: int|
        0 <= i < seeds_due(size) ==> in_grid(#[trigger] seeds[i], side_length_of(size))
    &&& forall|i: int, j: int|
        0 <= i < seeds_due(size) && 0 <= j < seeds_due(size) && i != j ==> #[trigger] seeds[i]
            != #[trigger] seeds[j]
}

/// What holds after `n` placements of a run.
pub open spec fn run_inv(
    m: GrowthModel,
    size: int,
    groups: int,
    colors: Seq<Color>,
    seeds: Seq<Location>,
    n: int,
) -> bool {
    &&& inv(m)
    &&& m.side == side_length_of(size)
    &&& m.groups == groups
    &&& m.seed_count == seed_count_of(size)
    &&& m.offsets == color_offset_table(color_range_of(size))
    &&& m.placed.len() == n
    &&& forall|i: int| 0 <= i < n ==> (#[trigger] m.placed[i]).0 == colors[i]
    &&& forall|i: int| 0 <= i < n && i < m.seed_count ==> (#[trigger] m.placed[i]).1 == seeds[i]
    &&& forall|c: Color|
        m.assigned.dom().contains(c) ==> exists|i: int| 0 <= i < n && #[trigger] colors[i] == c
    &&& colors_distinct(colors.take(n)) ==> forall|i: int|
        0 <= i < n ==> m.assigned[colors[i]].0 == (#[trigger] m.placed[i]).1
}

/// The sizes that go with a size of `1..=16`.
pub proof fn lemma_size_bounds(size: int)
    requires
        1 <= size <= 16,
    ensures
        1 <= color_range_of(size) <= 256,
        1 <= side_length_of(size) <= 4096,
        1 <= cell_count_of(size) <= 16777216,
        2 <= seed_count_of(size) <= 32,
        size >= 2 ==> seed_count_of(size) <= cell_count_of(size),
        cell_count_of(size) == crate::offsets::cube_size(color_range_of(size)),
{
    assert(1 <= size * size <= 256) by (nonlinear_arith)
        requires
            1 <= size <= 16,
    ;
    assert(1 <= size * size * size <= 4096) by (nonlinear_arith)
        requires
            1 <= size <= 16,
    ;
    let s = size * size * size;
    assert(1 <= s * s <= 16777216) by (nonlinear_arith)
        requires
            1 <= s <= 4096,
    ;
    assert(size >= 2 ==> 2 * size <= s * s) by (nonlinear_arith)
        requires
            s == size * size * size,
            1 <= size,
    ;
    assert((size * size * size) * (size * size * size) == (size * size) * (size * size) * (size
        * size)) by (nonlinear_arith);
}

/// The state before the first placement meets the invariant.
pub proof fn lemma_initial(size: int, groups: int, colors: Seq<Color>, seeds: Seq<Location>)
    requires
        1 <= size <= 16,
        groups >= 1,
    ensures
        run_inv(initial(size, groups), size, groups, colors, seeds, 0),
{
    let m = initial(size, groups);
    lemma_size_bounds(size);
    assert(groups * groups >= 1) by (nonlinear_arith)
        requires
            groups >= 1,
    ;
    assert(shaped(m)) by {
        assert forall|r: int| 0 <= r < m.frontiers.len() implies buckets_valid(
            #[trigger] m.frontiers[r],
            m.groups,
            m.side,
        ) by {}
    }
    assert forall|row: int, col: int| #[trigger] label_at(m.regions, m.side, row, col) is None by {
        if 0 <= row < m.side && 0 <= col < m.side {
            assert(in_grid(cell_at(row, col), m.side));
        }
    }
    assert(frontier_invariant(m)) by {
        assert forall|r: RegionId, l: Location| r < m.frontiers.len() implies (
        #[trigger] frontier_contains(m.frontiers[r as int], l) <==> (in_grid(l, m.side)
            && m.regions[l] is None && touches(m.regions, m.side, l, r))) by {
            assert(!touches(m.regions, m.side, l, r));
        }
    }
    assert(m.side * m.side >= 1) by (nonlinear_arith)
        requires
            m.side >= 1,
    ;
    crate::bookkeeping::lemma_count_initial(m.regions, m.side, (m.side * m.side) as nat);
}

/// One more placement of a run keeps what holds of it. With cells left,
/// only a search that finds no placed colour fails.
pub proof fn lemma_step(
    m: GrowthModel,
    size: int,
    groups: int,
    colors: Seq<Color>,
    seeds: Seq<Location>,
    n: int,
)
    requires
        1 <= size <= 16,
        0 <= n < cell_count_of(size),
        n < colors.len(),
        valid_seeds(seeds, size),
        run_inv(m, size, groups, colors, seeds, n),
    ensures
        step(m, colors[n], seed_for(seeds, n)) is Ok <==> (needs_seed(m) || target_of(
            colors[n],
            m.offsets,
            m.assigned,
        ) is Some),
        step(m, colors[n], seed_for(seeds, n)) is Err ==> step(m, colors[n], seed_for(seeds, n))
            == Err::<GrowthModel, GrowthError>(GrowthError::NoColorNeighborFound),
        step(m, colors[n], seed_for(seeds, n)) is Ok ==> run_inv(
            step(m, colors[n], seed_for(seeds, n))->Ok_0,
            size,
            groups,
            colors,
            seeds,
            n + 1,
        ),
        needs_seed(m) ==> n < seeds_due(size) && in_grid(seeds[n], m.side)
            && m.regions[seeds[n]] is None,
{
    lemma_size_bounds(size);
    let color = colors[n];
    let seed = seed_for(seeds, n);
    if needs_seed(m) {
        assert(n < seeds_due(size));
        assert(seed == seeds[n]);
        assert(in_grid(seed, m.side));
        if m.regions[seed] is Some {
            assert(in_grid(seed, m.side) && m.regions[seed] is Some);
            assert(placed_on(m.placed, seed));
            let i = choose|i: int| 0 <= i < m.placed.len() && (#[trigger] m.placed[i]).1 == seed;
            assert(m.placed[i].1 == seeds[i]);
            assert(seeds[i] != seeds[n]);
        }
        lemma_seeded(m, color, seed);
    } else {
        lemma_grown_near(m, color);
    }
    if step(m, color, seed) is Ok {
        let w = step(m, color, seed)->Ok_0;
        let loc = w.placed.last().1;
        assert(placement_frame(m, w, color, loc));
        assert forall|i: int| 0 <= i < n + 1 implies (#[trigger] w.placed[i]).0 == colors[i] by {
            if i < n {
                assert(w.placed[i] == m.placed[i]);
            }
        }
        assert forall|i: int| 0 <= i < n + 1 && i < w.seed_count implies (
        #[trigger] w.placed[i]).1 == seeds[i] by {
            if i < n {
                assert(w.placed[i] == m.placed[i]);
            }
        }
        assert forall|c: Color| w.assigned.dom().contains(c) implies exists|i: int|
            0 <= i < n + 1 && #[trigger] colors[i] == c by {
            if c == color {
                assert(colors[n] == c);
            } else {
                assert(m.assigned.dom().contains(c));
                let i = choose|i: int| 0 <= i < n && #[trigger] colors[i] == c;
                assert(colors[i] == c);
            }
        }
        if colors_distinct(colors.take(n + 1)) {
            assert forall|i: int, j: int|
                0 <= i < colors.take(n).len() && 0 <= j < colors.take(n).len() && i
                    != j implies #[trigger] colors.take(n)[i] != #[trigger] colors.take(n)[j] by {
                assert(colors.take(n + 1)[i] != colors.take(n + 1)[j]);
            }
            assert forall|i: int| 0 <= i < n + 1 implies w.assigned[colors[i]].0 == (
            #[trigger] w.placed[i]).1 by {
                if i < n {
                    assert(w.placed[i] == m.placed[i]);
                    assert(colors.take(n + 1)[i] != colors.take(n + 1)[n]);
                    assert(m.assigned.dom().contains(m.placed[i].0));
                }
            }
        }
    }
}

/// An error ends a run: later placements do not happen.
pub proof fn lemma_error_stays(
    size: int,
    groups: int,
    colors: Seq<Color>,
    seeds: Seq<Location>,
    n: nat,
    later: nat,
)
    requires
        n <= later,
        grown(size, groups, colors, seeds, n) is Err,
    ensures
        grown(size, groups, colors, seeds, later) == grown(size, groups, colors, seeds, n),
    decreases later,
{
    if later > n {
        lemma_error_stays(size, groups, colors, seeds, n, (later - 1) as nat);
    }
}

/// What holds of a run after `n` placements: the invariant, if it got so
/// far; that only a search that finds no placed colour ends it early; and
/// that it does get so far where the colours belong to the cube.
pub proof fn lemma_run(size: int, groups: int, colors: Seq<Color>, seeds: Seq<Location>, n: nat)
    requires
        1 <= size <= 16,
        groups >= 1,
        n <= cell_count_of(size),
        n <= colors.len(),
        valid_seeds(seeds, size),
    ensures
        grown(size, groups, colors, seeds, n) is Ok ==> run_inv(
            grown(size, groups, colors, seeds, n)->Ok_0,
            size,
            groups,
            colors,
            seeds,
            n as int,
        ),
        grown(size, groups, colors, seeds, n) is Err ==> grown(size, groups, colors, seeds, n)
            == Err::<GrowthModel, GrowthError>(GrowthError::NoColorNeighborFound),
        colors_in_cube(colors.take(n as int), color_range_of(size)) ==> grown(
            size,
            groups,
            colors,
            seeds,
            n,
        ) is Ok,
    decreases n,
{
    if n == 0 {
        lemma_initial(size, groups, colors, seeds);
    } else {
        let k = (n - 1) as nat;
        lemma_run(size, groups, colors, seeds, k);
        lemma_size_bounds(size);
        let cr = color_range_of(size);
        if colors_in_cube(colors.take(n as int), cr) {
            assert forall|i: int| 0 <= i < colors.take(k as int).len() implies in_cube(
                #[trigger] colors.take(k as int)[i],
                cr,
            ) by {
                assert(colors.take(n as int)[i] == colors[i]);
            }
        }
        match grown(size, groups, colors, seeds, k) {
            Err(e) => {},
            Ok(m) => {
                lemma_step(m, size, groups, colors, seeds, k as int);
                if colors_in_cube(colors.take(n as int), cr) && !needs_seed(m) {
                    assert(within_cube(m, cr)) by {
                        assert forall|c: Color| #[trigger]
                            m.assigned.dom().contains(c) implies in_cube(c, cr) by {
                            let i = choose|i: int| 0 <= i < k && #[trigger] colors[i] == c;
                            assert(colors.take(n as int)[i] == colors[i]);
                        }
                    }
                    assert(colors.take(n as int)[k as int] == colors[k as int]);
                    lemma_target_found(m, colors[k as int], cr);
                }
            },
        }
    }
}

/// The placements cover the grid one to one: one placement per cell, the
/// colours in the order given.
pub open spec fn covers_grid(placed: Seq<(Color, Location)>, colors: Seq<Color>, side: int) -> bool {
    &&& placed.len() == side * side
    &&& placed.len() == colors.len()
    &&& forall|i: int| 0 <= i < placed.len() ==> (#[trigger] placed[i]).0 == colors[i]
    &&& forall|i: int| 0 <= i < placed.len() ==> in_grid((#[trigger] placed[i]).1, side)
    &&& forall|i: int, j: int|
        0 <= i < placed.len() && 0 <= j < placed.len() && i != j ==> (#[trigger] placed[i]).1
            != (#[trigger] placed[j]).1
    &&& forall|l: Location| #[trigger] in_grid(l, side) ==> placed_on(placed, l)
}

/// A run that places a colour on every cell ends with every cell of the
/// grid holding exactly one colour; where no colour occurs twice in the
/// ordering, every colour has exactly one cell, and the cell that the
/// index of placed colours gives for the colour of a cell is that cell.
pub proof fn lemma_bijection(size: int, groups: int, colors: Seq<Color>, seeds: Seq<Location>)
    requires
        1 <= size <= 16,
        groups >= 1,
        colors.len() == cell_count_of(size),
        valid_seeds(seeds, size),
        grown(size, groups, colors, seeds, colors.len()) is Ok,
    ensures
        covers_grid(
            (grown(size, groups, colors, seeds, colors.len())->Ok_0).placed,
            colors,
            side_length_of(size),
        ),
        colors_distinct(colors) ==> forall|i: int|
            0 <= i < colors.len() ==> (grown(
                size,
                groups,
                colors,
                seeds,
                colors.len(),
            )->Ok_0).assigned[(#[trigger] (grown(
                size,
                groups,
                colors,
                seeds,
                colors.len(),
            )->Ok_0).placed[i]).0].0 == (grown(
                size,
                groups,
                colors,
                seeds,
                colors.len(),
            )->Ok_0).placed[i].1,
{
    let n = colors.len();
    lemma_run(size, groups, colors, seeds, n);
    lemma_size_bounds(size);
    let m = grown(size, groups, colors, seeds, n)->Ok_0;
    assert(colors.take(n as int) =~= colors);
    assert(unassigned_count(m) == 0);
    assert forall|l: Location| #[trigger] in_grid(l, m.side) implies placed_on(m.placed, l) by {
        if m.regions[l] is None {
            crate::regions::lemma_flat_index_bound(l, m.side);
            crate::bookkeeping::lemma_count_witness(
                m.regions,
                m.side,
                (m.side * m.side) as nat,
                l,
            );
        }
        assert(in_grid(l, m.side) && m.regions[l] is Some);
    }
}

/// The first `2 * size` placements of a run of size two or more are the
/// seeds, each on its cell of the list, and no later placement is a seed.
pub proof fn lemma_seed_count(
    size: int,
    groups: int,
    colors: Seq<Color>,
    seeds: Seq<Location>,
    n: nat,
)
    requires
        2 <= size <= 16,
        groups >= 1,
        n <= cell_count_of(size),
        n <= colors.len(),
        valid_seeds(seeds, size),
        grown(size, groups, colors, seeds, n) is Ok,
    ensures
        needs_seed(grown(size, groups, colors, seeds, n)->Ok_0) <==> n < 2 * size,
        forall|i: int|
            0 <= i < n && i < 2 * size ==> (#[trigger] (grown(
                size,
                groups,
                colors,
                seeds,
                n,
            )->Ok_0).placed[i]) == (colors[i], seeds[i]),
{
    lemma_run(size, groups, colors, seeds, n);
}

/// What a run returns: the placements in order, or why it stopped. The
/// size is looked at first, then the number of colours, then the
/// placements one by one.
pub open spec fn run_result(
    size: int,
    groups: int,
    colors: Seq<Color>,
    seeds: Seq<Location>,
) -> Result<Seq<(Color, Location)>, GrowthError> {
    if !(1 <= size <= 16) {
        Err(GrowthError::InvalidSize)
    } else if colors.len() != cell_count_of(size) {
        Err(GrowthError::CardinalityMismatch)
    } else {
        match grown(size, groups, colors, seeds, colors.len()) {
            Ok(m) => Ok(m.placed),
            Err(e) => Err(e),
        }
    }
}

/// The outcome `r` is the one expected.
pub open spec fn is_result(
    r: Result<Vec<(Color, Location)>, GrowthError>,
    expected: Result<Seq<(Color, Location)>, GrowthError>,
) -> bool {
    match expected {
        Ok(placed) => r is Ok && (r->Ok_0)@ == placed,
        Err(e) => r == Err::<Vec<(Color, Location)>, GrowthError>(e),
    }
}

/// Two runs on the same size, bucket count, ordering and seeds return the
/// same placements in the same order, or fail alike.
pub proof fn lemma_deterministic(
    size: int,
    groups: int,
    colors: Seq<Color>,
    seeds: Seq<Location>,
    first: Result<Vec<(Color, Location)>, GrowthError>,
    second: Result<Vec<(Color, Location)>, GrowthError>,
)
    requires
        is_result(first, run_result(size, groups, colors, seeds)),
        is_result(second, run_result(size, groups, colors, seeds)),
    ensures
        first is Ok <==> second is Ok,
        first is Ok ==> (first->Ok_0)@ == (second->Ok_0)@,
        first is Err ==> first->Err_0 == second->Err_0,
{
}

/// After every placement of a run, a cell is in the frontier of a region
/// exactly if it is unassigned and one of its four neighbours belongs to
/// that region.
pub proof fn lemma_frontiers_border_regions(
    size: int,
    groups: int,
    colors: Seq<Color>,
    seeds: Seq<Location>,
    n: nat,
    r: RegionId,
    l: Location,
)
    requires
        1 <= size <= 16,
        groups >= 1,
        n <= cell_count_of(size),
        n <= colors.len(),
        valid_seeds(seeds, size),
        grown(size, groups, colors, seeds, n) is Ok,
        r < seed_count_of(size),
    ensures
        ({
            let m = grown(size, groups, colors, seeds, n)->Ok_0;
            frontier_contains(m.frontiers[r as int], l) <==> (in_grid(l, side_length_of(size))
                && m.regions[l] is None && touches(m.regions, side_length_of(size), l, r))
        }),
{
    lemma_run(size, groups, colors, seeds, n);
}

/// A run on seeds that are distinct cells of the grid never finds a
/// frontier empty; on colours of the cube it places them all.
pub proof fn lemma_run_result(size: int, groups: int, colors: Seq<Color>, seeds: Seq<Location>)
    requires
        groups >= 1,
        1 <= size <= 16 ==> valid_seeds(seeds, size),
    ensures
        run_result(size, groups, colors, seeds) != Err::<Seq<(Color, Location)>, GrowthError>(
            GrowthError::EmptyFrontierQuery,
        ),
        run_result(size, groups, colors, seeds) is Ok ==> covers_grid(
            run_result(size, groups, colors, seeds)->Ok_0,
            colors,
            side_length_of(size),
        ),
        1 <= size <= 16 && colors.len() == cell_count_of(size) && colors_in_cube(
            colors,
            color_range_of(size),
        ) ==> run_result(size, groups, colors, seeds) is Ok,
{
    if 1 <= size <= 16 && colors.len() == cell_count_of(size) {
        lemma_run(size, groups, colors, seeds, colors.len());
        assert(colors.take(colors.len() as int) =~= colors);
        if grown(size, groups, colors, seeds, colors.len()) is Ok {
            lemma_bijection(size, groups, colors, seeds);
        }
    }
}

} // verus!
