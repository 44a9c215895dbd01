use vstd::prelude::*;
use crate::assigned::{find_target_cell_and_frontier, relabeled_colors, AssignedColors};
use crate::buckets::{cell_total, is_vacant, lemma_cells_below};
use crate::frontier::Frontier;
use crate::laws::{
    colors_in_cube, covers_grid, inv, is_result, lemma_bijection, lemma_error_stays,
    lemma_grown_near, lemma_initial, lemma_run, lemma_seeded, lemma_size_bounds, lemma_step,
    run_result, valid_seeds,
};
use crate::model::{
    cell_at, cell_count_of, collapsed_frontiers, color_range_of, grown, grown_near,
    ids_bounded, initial, needs_seed, placed_at, seeded, side_length_of, step, with_cell,
    with_neighbor, with_placement, GrowthError, GrowthModel,
};
use crate::offsets::color_offsets;
use crate::regions::{relabeled, RegionMap};
use crate::types::{in_grid, Color, ColorOffset, Location, RegionId};

verus! {

/// What a row of indices holds, index by index.
pub open spec fn frontier_views(fs: Seq<Frontier>) -> Seq<Seq<Seq<Location>>> {
    Seq::new(fs.len(), |i: int| fs[i]@)
}

/// All indices are well formed and of one shape.
pub open spec fn same_shape(fs: Seq<Frontier>, groups: int, side: int) -> bool {
    forall|i: int|
        0 <= i < fs.len() ==> (#[trigger] fs[i]).wf() && fs[i].groups() == groups
            && fs[i].extent() == side
}

/// Folds region `source_region` into region `target_region`: the target's
/// index takes over the source's cells that are still unassigned, and
/// every cell and every placed colour of the source is relabelled.
pub fn collapse_into(
    source_region: RegionId,
    target_region: RegionId,
    frontiers: &mut Vec<Frontier>,
    locations_to_regions: &mut RegionMap,
    assigned_colors: &mut AssignedColors,
)
    requires
        source_region < old(frontiers)@.len(),
        target_region < old(frontiers)@.len(),
        same_shape(
            old(frontiers)@,
            old(frontiers)@[0].groups(),
            old(frontiers)@[0].extent(),
        ),
        old(locations_to_regions).wf(),
        old(assigned_colors).wf(),
    ensures
        final(frontiers)@.len() == old(frontiers)@.len(),
        same_shape(
            final(frontiers)@,
            old(frontiers)@[0].groups(),
            old(frontiers)@[0].extent(),
        ),
        frontier_views(final(frontiers)@) == collapsed_frontiers(
            frontier_views(old(frontiers)@),
            old(locations_to_regions)@,
            old(frontiers)@[0].groups(),
            source_region,
            target_region,
        ),
        final(locations_to_regions).wf(),
        final(locations_to_regions).side() == old(locations_to_regions).side(),
        final(locations_to_regions)@ == relabeled(
            old(locations_to_regions)@,
            source_region,
            target_region,
        ),
        final(assigned_colors).wf(),
        final(assigned_colors)@ == relabeled_colors(
            old(assigned_colors)@,
            source_region,
            target_region,
        ),
        source_region != target_region ==> forall|l: Location| #[trigger]
            final(locations_to_regions)@.dom().contains(l) ==> final(locations_to_regions)@[l]
                != Some(source_region),
{
    let ghost groups = frontiers@[0].groups();
    let ghost side = frontiers@[0].extent();
    let mut temp_frontier = Frontier::new_like(&frontiers[source_region]);
    std::mem::swap(&mut temp_frontier, &mut frontiers[source_region]);
    frontiers[target_region].consume(temp_frontier, locations_to_regions);
    locations_to_regions.relabel(source_region, target_region);
    assigned_colors.relabel(source_region, target_region);
    proof {
        assert(frontier_views(final(frontiers)@) =~= collapsed_frontiers(
            frontier_views(old(frontiers)@),
            old(locations_to_regions)@,
            groups,
            source_region,
            target_region,
        ));
    }
}

/// The placement engine: the state of a run, owned in one piece.
pub struct Growth {
    groups: usize,
    seed_count: usize,
    regions: RegionMap,
    frontiers: Vec<Frontier>,
    assigned: AssignedColors,
    offsets: Vec<ColorOffset>,
    placed: Vec<(Color, Location)>,
}

impl Growth {
    /// The state as mathematics.
    pub closed spec fn view(&self) -> GrowthModel {
        GrowthModel {
            side: self.regions.side(),
            groups: self.groups as int,
            seed_count: self.seed_count as int,
            offsets: self.offsets@,
            regions: self.regions@,
            frontiers: frontier_views(self.frontiers@),
            assigned: self.assigned@,
            placed: self.placed@,
        }
    }

    /// The parts are well formed and fit together.
    pub closed spec fn wf(&self) -> bool {
        &&& self.regions.wf()
        &&& self.assigned.wf()
        &&& self.groups >= 1
        &&& 1 <= self.regions.side() <= 4096
        &&& self.frontiers@.len() == self.seed_count
        &&& 1 <= self.seed_count <= 32
        &&& same_shape(self.frontiers@, self.groups as int, self.regions.side())
        &&& ids_bounded(self@)
    }

    /// The view has one entry for each index, and labels for the cells of
    /// the grid.
    proof fn lemma_view_frontiers(&self)
        requires
            self.wf(),
        ensures
            self@.frontiers.len() == self.frontiers@.len(),
            forall|l: Location| self@.regions.dom().contains(l) <==> in_grid(l, self@.side),
    {
        self.regions.lemma_domain();
    }

    /// The engine before anything is placed, for a size of `1..=16` and at
    /// least one bucket along each axis of a frontier; the number of
    /// buckets of a frontier fits a `usize`.
    pub fn new(size: u32, frontier_groups: usize) -> (r: Result<Growth, GrowthError>)
        requires
            frontier_groups >= 1,
            frontier_groups * frontier_groups <= usize::MAX,
        ensures
            r is Ok <==> 1 <= size <= 16,
            r is Err ==> r == Err::<Growth, GrowthError>(GrowthError::InvalidSize),
            r is Ok ==> (r->Ok_0).wf() && (r->Ok_0)@ == initial(size as int, frontier_groups as int)
                && inv((r->Ok_0)@),
    {
        if size < 1 || size > 16 {
            return Err(GrowthError::InvalidSize);
        }
        proof {
            let s = size as int;
            assert(1 <= s * s <= 256) by (nonlinear_arith)
                requires
                    1 <= s <= 16,
            ;
            assert(1 <= s * s * s <= 4096) by (nonlinear_arith)
                requires
                    1 <= s <= 16,
            ;
            assert(s * s * s * (s * s * s) <= 16777216) by (nonlinear_arith)
                requires
                    1 <= s * s * s <= 4096,
            ;
        }
        let color_range: usize = (size * size) as usize;
        let side: usize = (size * size * size) as usize;
        let seed_count: usize = (2 * size) as usize;
        let regions = RegionMap::new(side);
        let mut frontiers: Vec<Frontier> = Vec::new();
        let mut i: usize = 0;
        while i < seed_count
            invariant
                i <= seed_count,
                frontier_groups >= 1,
                frontier_groups * frontier_groups <= usize::MAX,
                1 <= side <= 4096,
                frontiers@.len() == i,
                same_shape(frontiers@, frontier_groups as int, side as int),
                forall|j: int|
                    0 <= j < i ==> (#[trigger] frontiers@[j])@ == crate::buckets::vacant_buckets(
                        frontier_groups as int,
                    ),
            decreases seed_count - i,
        {
            frontiers.push(Frontier::new(frontier_groups, side));
            i += 1;
        }
        let g = Growth {
            groups: frontier_groups,
            seed_count,
            regions,
            frontiers,
            assigned: AssignedColors::new(),
            offsets: color_offsets(color_range),
            placed: Vec::new(),
        };
        proof {
            assert(g@.frontiers =~= initial(size as int, frontier_groups as int).frontiers);
            assert(g@.placed =~= initial(size as int, frontier_groups as int).placed);
            assert(g@ == initial(size as int, frontier_groups as int));
            lemma_initial(size as int, frontier_groups as int, Seq::empty(), Seq::empty());
        }
        Ok(g)
    }

    /// Whether the next placement starts a region of its own.
    pub fn is_seeding(&self) -> (r: bool)
        ensures
            r == needs_seed(self@),
    {
        self.placed.len() < self.seed_count
    }

    /// Side of the grid.
    pub fn side_length(&self) -> (s: usize)
        ensures
            s == self@.side,
    {
        self.regions.side_length()
    }

    /// Number of placements so far.
    pub fn placed_count(&self) -> (n: usize)
        ensures
            n == self@.placed.len(),
    {
        self.placed.len()
    }

    /// Whether the cell lies on the grid and has no colour yet.
    pub fn is_unassigned(&self, loc: &Location) -> (r: bool)
        requires
            self.wf(),
        ensures
            r == (in_grid(*loc, self@.side) && self@.regions[*loc] is None),
    {
        proof {
            self.regions.lemma_domain();
        }
        self.regions.is_unassigned(loc)
    }

    /// The region of a cell: `None` for a cell off the grid, `Some(None)`
    /// for an unassigned cell.
    pub fn region_of(&self, loc: &Location) -> (r: Option<Option<RegionId>>)
        requires
            self.wf(),
        ensures
            r == (if in_grid(*loc, self@.side) {
                Some(self@.regions[*loc])
            } else {
                None
            }),
    {
        proof {
            self.regions.lemma_domain();
        }
        self.regions.get(loc)
    }

    /// The cells in the frontier of a region, bucket by bucket.
    pub fn frontier_cells(&self, region: RegionId) -> (cells: Vec<Location>)
        requires
            self.wf(),
            region < self@.frontiers.len(),
        ensures
            cells@ == crate::buckets::cells_below(
                self@.frontiers[region as int],
                self@.frontiers[region as int].len(),
            ),
    {
        self.frontiers[region].locations()
    }

    /// The placements so far, in order.
    pub fn placements(&self) -> (p: &Vec<(Color, Location)>)
        ensures
            p@ == self@.placed,
    {
        &self.placed
    }

    /// Looks at the neighbour of a cell that `region` has just taken: an
    /// unassigned neighbour joins the frontier, a neighbour of another region
    /// has that region folded into this one.
    fn look_at(&mut self, region: RegionId, row: i32, col: i32)
        requires
            old(self).wf(),
            region < old(self)@.frontiers.len(),
        ensures
            final(self).wf(),
            final(self)@ == with_neighbor(old(self)@, region, row as int, col as int),
    {
        proof {
            self.lemma_view_frontiers();
        }
        let side = self.regions.side_length();
        if row < 0 || col < 0 || row as usize >= side || col as usize >= side {
            return ;
        }
        let neighbor = Location { row: row as u16, col: col as u16 };
        proof {
            self.regions.lemma_domain();
            assert(in_grid(neighbor, self.regions.side()));
        }
        match self.regions.get(&neighbor) {
            Some(None) => {
                self.frontiers[region].insert(neighbor);
                proof {
                    assert(neighbor == cell_at(row as int, col as int));
                    assert(self@.frontiers =~= with_neighbor(
                        old(self)@,
                        region,
                        row as int,
                        col as int,
                    ).frontiers);
                }
            },
            Some(Some(neighbor_region)) => {
                if neighbor_region != region {
                    collapse_into(
                        neighbor_region,
                        region,
                        &mut self.frontiers,
                        &mut self.regions,
                        &mut self.assigned,
                    );
                    proof {
                        final(self).regions.lemma_domain();
                    }
                }
            },
            None => {},
        }
    }

    /// Gives the cell to the region, looks at its four neighbours and records
    /// the placement.
    fn place_at(&mut self, color: Color, loc: Location, region: RegionId)
        requires
            old(self).wf(),
            in_grid(loc, old(self)@.side),
            region < old(self)@.frontiers.len(),
        ensures
            final(self).wf(),
            final(self)@ == placed_at(old(self)@, color, loc, region),
    {
        proof {
            self.lemma_view_frontiers();
        }
        self.regions.assign(loc, region);
        proof {
            self.regions.lemma_domain();
            assert(self@ == with_cell(old(self)@, loc, region));
        }
        self.look_at(region, loc.row as i32 + 1, loc.col as i32);
        self.look_at(region, loc.row as i32, loc.col as i32 + 1);
        self.look_at(region, loc.row as i32 - 1, loc.col as i32);
        self.look_at(region, loc.row as i32, loc.col as i32 - 1);
        let ghost m4 = self@;
        proof {
            self.lemma_view_frontiers();
        }
        self.assigned.insert(color, loc, region);
        self.placed.push((color, loc));
        proof {
            assert(self@ == with_placement(m4, color, loc, region));
        }
    }

    /// Starts a region of its own with the colour on the given cell.
    pub fn place_seed(&mut self, color: Color, seed: Location)
        requires
            old(self).wf(),
            needs_seed(old(self)@),
            in_grid(seed, old(self)@.side),
            old(self)@.regions[seed] is None,
        ensures
            final(self).wf(),
            final(self)@ == seeded(old(self)@, color, seed),
            inv(old(self)@) ==> inv(final(self)@),
    {
        proof {
            self.lemma_view_frontiers();
            if inv(self@) {
                lemma_seeded(self@, color, seed);
            }
        }
        let region = self.placed.len();
        self.place_at(color, seed, region);
    }

    /// Places the colour next to the nearest placed colour and returns the
    /// cell it got. On an error nothing has changed. Where the invariant
    /// holds, the seeds are placed and a cell is left, the only error is
    /// that no placed colour was found, and the invariant holds afterwards.
    pub fn place_near(&mut self, color: Color) -> (r: Result<Location, GrowthError>)
        requires
            old(self).wf(),
        ensures
            final(self).wf(),
            match grown_near(old(self)@, color) {
                Ok(m) => final(self)@ == m && r == Ok::<Location, GrowthError>(m.placed.last().1),
                Err(e) => final(self)@ == old(self)@ && r == Err::<Location, GrowthError>(e),
            },
            inv(old(self)@) && !needs_seed(old(self)@) && old(self)@.placed.len() < old(
                self,
            )@.side * old(self)@.side ==> inv(final(self)@) && r != Err::<Location, GrowthError>(
                GrowthError::EmptyFrontierQuery,
            ),
    {
        proof {
            self.lemma_view_frontiers();
            if inv(self@) && !needs_seed(self@) && self@.placed.len() < self@.side * self@.side {
                lemma_grown_near(self@, color);
            }
        }
        match find_target_cell_and_frontier(color, &self.offsets, &self.assigned) {
            None => Err(GrowthError::NoColorNeighborFound),
            Some((target_cell, region)) => {
                proof {
                    let i = crate::assigned::first_hit(color, self.offsets@, self.assigned@, 0);
                    crate::assigned::lemma_first_hit(color, self.offsets@, self.assigned@, 0);
                    assert(self@.assigned.dom().contains(
                        crate::assigned::probe(color, self.offsets@[i])->0,
                    ));
                }
                match self.frontiers[region].extract_nearest_neighbor(&target_cell) {
                    None => {
                        proof {
                            assert(self@.frontiers =~= old(self)@.frontiers);
                        }
                        Err(GrowthError::EmptyFrontierQuery)
                    },
                    Some(location) => {
                        proof {
                            let buckets = old(self)@.frontiers[region as int];
                            let c = crate::nearest::nearest(
                                buckets,
                                self.groups as int,
                                self@.side,
                                target_cell,
                            );
                            assert(self@ == crate::model::with_extracted(old(self)@, region, c)) by {
                                assert(self@.frontiers =~= crate::model::with_extracted(
                                    old(self)@,
                                    region,
                                    c,
                                ).frontiers);
                            }
                            old(self).frontiers@[region as int].lemma_wf();
                            assert(in_grid(location, self@.side));
                        }
                        self.place_at(color, location, region);
                        Ok(location)
                    },
                }
            },
        }
    }
}

/// Number of indices among the first `n` that hold a cell.
pub open spec fn live_below(frontiers: Seq<Seq<Seq<Location>>>, n: nat) -> nat
    decreases n,
{
    if n == 0 {
        0
    } else {
        live_below(frontiers, (n - 1) as nat) + (if is_vacant(frontiers[n - 1]) {
            0nat
        } else {
            1nat
        })
    }
}

/// Number of cells that the first `n` indices hold together.
pub open spec fn cells_below_all(frontiers: Seq<Seq<Seq<Location>>>, n: nat) -> nat
    decreases n,
{
    if n == 0 {
        0
    } else {
        cells_below_all(frontiers, (n - 1) as nat) + cell_total(frontiers[n - 1])
    }
}

/// Whether progress is to be reported before the placement at
/// `pixel_index`: every `debug_frequency` placements, if a frequency is
/// set, and not before the first.
pub fn progress_due(debug_frequency: Option<usize>, pixel_index: usize) -> (r: bool)
    requires
        debug_frequency != Some(0usize),
    ensures
        r == (debug_frequency is Some && pixel_index > 0 && pixel_index as int % (
        debug_frequency->0 as int) == 0),
{
    match debug_frequency {
        Some(frequency) => pixel_index > 0 && pixel_index % frequency == 0,
        None => false,
    }
}

impl Growth {
    /// Places one more colour: as a seed on the given cell while seeds are
    /// due, else next to the nearest placed colour. Returns the cell the
    /// colour got. On an error nothing has changed. While a cell is left
    /// the invariant is kept, and no frontier is found empty.
    pub fn place(&mut self, color: Color, seed: Location) -> (r: Result<Location, GrowthError>)
        requires
            old(self).wf(),
            needs_seed(old(self)@) ==> in_grid(seed, old(self)@.side) && old(self)@.regions[seed] is None,
        ensures
            final(self).wf(),
            match step(old(self)@, color, seed) {
                Ok(m) => final(self)@ == m && r == Ok::<Location, GrowthError>(m.placed.last().1),
                Err(e) => final(self)@ == old(self)@ && r == Err::<Location, GrowthError>(e),
            },
            inv(old(self)@) && old(self)@.placed.len() < old(self)@.side * old(self)@.side
                ==> inv(final(self)@) && r != Err::<Location, GrowthError>(
                GrowthError::EmptyFrontierQuery,
            ),
    {
        if self.is_seeding() {
            self.place_seed(color, seed);
            Ok(seed)
        } else {
            self.place_near(color)
        }
    }

    /// How many regions have a cell in their frontier, and how many cells
    /// the frontiers hold together.
    pub fn frontier_counts(&self) -> (r: (usize, usize))
        requires
            self.wf(),
        ensures
            r.0 == live_below(self@.frontiers, self@.frontiers.len()),
            r.1 == cells_below_all(self@.frontiers, self@.frontiers.len()),
    {
        let n = self.frontiers.len();
        let mut live: usize = 0;
        let mut cells: usize = 0;
        let mut i: usize = 0;
        while i < n
            invariant
                self.wf(),
                n == self.frontiers@.len(),
                n <= 32,
                i <= n,
                live == live_below(self@.frontiers, i as nat),
                cells == cells_below_all(self@.frontiers, i as nat),
                live <= i,
                cells <= i * 16777216,
            decreases n - i,
        {
            proof {
                let f = self.frontiers@[i as int];
                f.lemma_wf();
                lemma_cells_below(f@, f.groups(), f.extent(), f@.len());
                let p = f.extent();
                assert(p * p <= 16777216) by (nonlinear_arith)
                    requires
                        1 <= p <= 4096,
                ;
            }
            if !self.frontiers[i].is_empty() {
                live += 1;
            }
            cells += self.frontiers[i].len();
            i += 1;
        }
        (live, cells)
    }

    /// The placements, in order, once the engine is no longer needed.
    pub fn into_placements(self) -> (p: Vec<(Color, Location)>)
        ensures
            p@ == self@.placed,
    {
        self.placed
    }
}

/// Places the colours of the ordering one after the other on a grid of
/// side `size * size * size`: the first `2 * size` as seeds on the cells of
/// `seeds`, each of the others next to the nearest colour placed before
/// it. Returns the placements in order. A size outside `1..=16` and an
/// ordering that has not one colour for each cell are rejected. Seeds that
/// are distinct cells of the grid never leave a frontier empty, and with
/// colours of the cube every colour gets its cell.
pub fn grow(size: u32, frontier_groups: usize, colors: &Vec<Color>, seeds: &Vec<Location>) -> (r:
    Result<Vec<(Color, Location)>, GrowthError>)
    requires
        frontier_groups >= 1,
        frontier_groups * frontier_groups <= usize::MAX,
        1 <= size <= 16 ==> valid_seeds(seeds@, size as int),
    ensures
        is_result(r, run_result(size as int, frontier_groups as int, colors@, seeds@)),
        r != Err::<Vec<(Color, Location)>, GrowthError>(GrowthError::EmptyFrontierQuery),
        r is Ok ==> covers_grid((r->Ok_0)@, colors@, side_length_of(size as int)),
        1 <= size <= 16 && colors@.len() == cell_count_of(size as int) && colors_in_cube(
            colors@,
            color_range_of(size as int),
        ) ==> r is Ok,
{
    let mut engine = match Growth::new(size, frontier_groups) {
        Err(e) => {
            return Err(e);
        },
        Ok(g) => g,
    };
    let ghost sz = size as int;
    let ghost groups = frontier_groups as int;
    proof {
        lemma_size_bounds(sz);
    }
    let side = engine.side_length();
    let n = colors.len();
    if n != side * side {
        return Err(GrowthError::CardinalityMismatch);
    }
    let mut i: usize = 0;
    while i < n
        invariant
            1 <= sz <= 16,
            sz == size,
            groups == frontier_groups,
            groups >= 1,
            n == colors@.len(),
            n == cell_count_of(sz),
            valid_seeds(seeds@, sz),
            i <= n,
            engine.wf(),
            grown(sz, groups, colors@, seeds@, i as nat) == Ok::<GrowthModel, GrowthError>(
                engine@,
            ),
        decreases n - i,
    {
        proof {
            lemma_run(sz, groups, colors@, seeds@, i as nat);
            lemma_step(engine@, sz, groups, colors@, seeds@, i as int);
        }
        let color = colors[i];
        if engine.is_seeding() {
            let seed = seeds[i];
            engine.place_seed(color, seed);
        } else {
            match engine.place_near(color) {
                Err(e) => {
                    proof {
                        lemma_error_stays(sz, groups, colors@, seeds@, (i + 1) as nat, n as nat);
                        lemma_run(sz, groups, colors@, seeds@, n as nat);
                    }
                    return Err(e);
                },
                Ok(_) => {},
            }
        }
        i += 1;
    }
    proof {
        lemma_run(sz, groups, colors@, seeds@, n as nat);
        lemma_bijection(sz, groups, colors@, seeds@);
        assert(colors@.take(n as int) =~= colors@);
    }
    Ok(engine.into_placements())
}

} // verus!
