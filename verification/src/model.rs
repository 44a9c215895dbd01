use vstd::prelude::*;
use crate::assigned::{relabeled_colors, target_of};
use crate::buckets::{is_vacant, vacant_buckets, with_consumed, with_inserted, with_removed};
use crate::nearest::nearest;
use crate::offsets::color_offset_table;
use crate::regions::{all_unassigned, relabeled};
use crate::types::{in_grid, Color, ColorOffset, Location, RegionId};

verus! {

/// Why a run cannot go on.
#[derive(Clone, Copy, Debug, PartialEq, Eq, Structural)]
pub enum GrowthError {
    /// The size is outside `1..=16`.
    InvalidSize,
    /// The number of colours is not the number of cells.
    CardinalityMismatch,
    /// A region was asked for a bordering cell and has none.
    EmptyFrontierQuery,
    /// No displacement of the table leads to a placed colour.
    NoColorNeighborFound,
}

/// The state of a run as mathematics.
pub struct GrowthModel {
    /// Side of the grid.
    pub side: int,
    /// Buckets along each axis of every region's index.
    pub groups: int,
    /// Number of regions that start from a given cell.
    pub seed_count: int,
    /// The table of colour displacements.
    pub offsets: Seq<ColorOffset>,
    /// The region of each cell, `None` while it is unassigned.
    pub regions: Map<Location, Option<RegionId>>,
    /// For each region, the buckets of its bordering cells.
    pub frontiers: Seq<Seq<Seq<Location>>>,
    /// For each placed colour, its cell and that cell's region.
    pub assigned: Map<Color, (Location, RegionId)>,
    /// The placements so far, in order.
    pub placed: Seq<(Color, Location)>,
}

/// Side of the colour cube for a size.
pub open spec fn color_range_of(size: int) -> int {
    size * size
}

/// Side of the grid for a size.
pub open spec fn side_length_of(size: int) -> int {
    size * size * size
}

/// Number of cells of the grid, which is the number of colours.
pub open spec fn cell_count_of(size: int) -> int {
    side_length_of(size) * side_length_of(size)
}

/// Number of seeded regions for a size.
pub open spec fn seed_count_of(size: int) -> int {
    2 * size
}

/// The cell with the given coordinates.
pub open spec fn cell_at(row: int, col: int) -> Location {
    Location { row: row as u16, col: col as u16 }
}

/// The state before anything is placed.
pub open spec fn initial(size: int, groups: int) -> GrowthModel {
    GrowthModel {
        side: side_length_of(size),
        groups: groups,
        seed_count: seed_count_of(size),
        offsets: color_offset_table(color_range_of(size)),
        regions: all_unassigned(side_length_of(size)),
        frontiers: Seq::new(seed_count_of(size) as nat, |r: int| vacant_buckets(groups)),
        assigned: Map::empty(),
        placed: Seq::empty(),
    }
}

/// The indices after region `source` has been folded into region `target`:
/// the source's index is emptied, and the target's takes over its cells
/// that are still unassigned.
pub open spec fn collapsed_frontiers(
    frontiers: Seq<Seq<Seq<Location>>>,
    regions: Map<Location, Option<RegionId>>,
    groups: int,
    source: RegionId,
    target: RegionId,
) -> Seq<Seq<Seq<Location>>> {
    let emptied = frontiers.update(source as int, vacant_buckets(groups));
    emptied.update(
        target as int,
        with_consumed(emptied[target as int], frontiers[source as int], regions),
    )
}

/// The state after region `source` has been folded into region `target`.
pub open spec fn collapsed(m: GrowthModel, source: RegionId, target: RegionId) -> GrowthModel {
    GrowthModel {
        frontiers: collapsed_frontiers(m.frontiers, m.regions, m.groups, source, target),
        regions: relabeled(m.regions, source, target),
        assigned: relabeled_colors(m.assigned, source, target),
        ..m
    }
}

/// The state after region `region`, which has just grown by a cell, has
/// looked at that cell's neighbour at the given coordinates: a neighbour
/// off the grid changes nothing, an unassigned one joins the region's
/// frontier, and one of another region has its region folded into this one.
pub open spec fn with_neighbor(m: GrowthModel, region: RegionId, row: int, col: int) -> GrowthModel {
    if 0 <= row < m.side && 0 <= col < m.side {
        let n = cell_at(row, col);
        match m.regions[n] {
            None => GrowthModel {
                frontiers: m.frontiers.update(
                    region as int,
                    with_inserted(m.frontiers[region as int], m.groups, m.side, n),
                ),
                ..m
            },
            Some(other) => if other != region {
                collapsed(m, other, region)
            } else {
                m
            },
        }
    } else {
        m
    }
}

/// The state after the cell has been given to the region.
pub open spec fn with_cell(m: GrowthModel, loc: Location, region: RegionId) -> GrowthModel {
    GrowthModel { regions: m.regions.insert(loc, Some(region)), ..m }
}

/// The state after the placement has been recorded.
pub open spec fn with_placement(
    m: GrowthModel,
    color: Color,
    loc: Location,
    region: RegionId,
) -> GrowthModel {
    GrowthModel {
        assigned: m.assigned.insert(color, (loc, region)),
        placed: m.placed.push((color, loc)),
        ..m
    }
}

/// The state after a colour has been placed on a cell for a region: the
/// cell joins the region, its four neighbours are looked at (below, right,
/// above, left), and the placement is recorded.
pub open spec fn placed_at(m: GrowthModel, color: Color, loc: Location, region: RegionId) -> GrowthModel {
    let m0 = with_cell(m, loc, region);
    let m1 = with_neighbor(m0, region, loc.row + 1, loc.col as int);
    let m2 = with_neighbor(m1, region, loc.row as int, loc.col + 1);
    let m3 = with_neighbor(m2, region, loc.row - 1, loc.col as int);
    let m4 = with_neighbor(m3, region, loc.row as int, loc.col - 1);
    with_placement(m4, color, loc, region)
}

/// The next placement is a seed.
pub open spec fn needs_seed(m: GrowthModel) -> bool {
    m.placed.len() < m.seed_count
}

/// The state after a seed: the colour starts a region of its own on the
/// given cell; the region's number is the number of placements before it.
pub open spec fn seeded(m: GrowthModel, color: Color, seed: Location) -> GrowthModel {
    placed_at(m, color, seed, m.placed.len() as RegionId)
}

/// The state with a cell taken out of a region's index.
pub open spec fn with_extracted(m: GrowthModel, region: RegionId, c: (int, int)) -> GrowthModel {
    GrowthModel {
        frontiers: m.frontiers.update(region as int, with_removed(m.frontiers[region as int], c)),
        ..m
    }
}

/// The state after a colour has been placed next to the nearest placed
/// colour: on the cell of that colour's region's frontier that is nearest
/// to that colour's cell.
pub open spec fn grown_near(m: GrowthModel, color: Color) -> Result<GrowthModel, GrowthError> {
    match target_of(color, m.offsets, m.assigned) {
        None => Err(GrowthError::NoColorNeighborFound),
        Some(found) => {
            let cell = found.0;
            let region = found.1;
            let buckets = m.frontiers[region as int];
            if is_vacant(buckets) {
                Err(GrowthError::EmptyFrontierQuery)
            } else {
                let c = nearest(buckets, m.groups, m.side, cell);
                Ok(placed_at(with_extracted(m, region, c), color, buckets[c.0][c.1], region))
            }
        },
    }
}

/// The state after one more colour: a seed on the given cell while seeds
/// are due, else a placement next to the nearest placed colour.
pub open spec fn step(m: GrowthModel, color: Color, seed: Location) -> Result<
    GrowthModel,
    GrowthError,
> {
    if needs_seed(m) {
        Ok(seeded(m, color, seed))
    } else {
        grown_near(m, color)
    }
}

/// The seed for the placement at a position: the cell at that position of
/// the list, and for a position beyond the list the corner cell.
pub open spec fn seed_for(seeds: Seq<Location>, i: int) -> Location {
    if 0 <= i < seeds.len() {
        seeds[i]
    } else {
        Location { row: 0, col: 0 }
    }
}

/// The state after the first `n` colours of an ordering have been placed,
/// the seeds on the cells of the list.
pub open spec fn grown(
    size: int,
    groups: int,
    colors: Seq<Color>,
    seeds: Seq<Location>,
    n: nat,
) -> Result<GrowthModel, GrowthError>
    decreases n,
{
    if n == 0 {
        Ok(initial(size, groups))
    } else {
        match grown(size, groups, colors, seeds, (n - 1) as nat) {
            Err(e) => Err(e),
            Ok(m) => step(m, colors[n - 1], seed_for(seeds, n - 1)),
        }
    }
}

/// Every region that a cell or a placed colour names has an index.
pub open spec fn ids_bounded(m: GrowthModel) -> bool {
    &&& forall|l: Location| #[trigger]
        m.regions.dom().contains(l) && m.regions[l] is Some ==> m.regions[l]->0
            < m.frontiers.len()
    &&& forall|c: Color| #[trigger]
        m.assigned.dom().contains(c) ==> m.assigned[c].1 < m.frontiers.len()
}

/// The labelled cells are those of the grid.
pub open spec fn on_grid(m: GrowthModel) -> bool {
    forall|l: Location| m.regions.dom().contains(l) <==> in_grid(l, m.side)
}

} // verus!
