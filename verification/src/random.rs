use vstd::prelude::*;
use rand::Rng;
use crate::bookkeeping::{cell_of, lemma_cell_of};
use crate::growth::grow;
use crate::laws::{colors_in_cube, lemma_size_bounds, run_result, seeds_due, valid_seeds};
use crate::model::{cell_count_of, color_range_of, side_length_of, GrowthError};
use crate::offsets::{
    all_colors, color_cube, in_cube, lemma_cube_coords_bounds, lemma_cube_size_bound,
};
use crate::types::{in_grid, Color, Location};

verus! {

/// Calls `rand::Rng::shuffle` on the generator of `rand::thread_rng`. The
/// call swaps elements of the slice and does nothing else to it, so the
/// vector holds afterwards what it held before, each colour as often as
/// before. Which order comes out is left open. The generator ends the
/// process where the system has no entropy to start it with.
#[verifier::external_body]
fn shuffle_colors(colors: &mut Vec<Color>)
    ensures
        final(colors)@.to_multiset() == old(colors)@.to_multiset(),
{
    rand::thread_rng().shuffle(colors.as_mut_slice());
}

/// Calls `rand::Rng::choose` on the generator of `rand::thread_rng`. The
/// call returns `None` for an empty slice and else an element of the
/// slice. Which element is left open. The generator ends the process
/// where the system has no entropy to start it with.
#[verifier::external_body]
fn choose_location(candidates: &Vec<Location>) -> (r: Option<Location>)
    ensures
        candidates@.len() == 0 ==> r is None,
        candidates@.len() > 0 ==> r is Some && candidates@.contains(r->0),
{
    rand::thread_rng().choose(candidates.as_slice()).copied()
}

/// The cells of a grid, row by row.
pub open spec fn grid_cells(side: int) -> Seq<Location> {
    Seq::new((side * side) as nat, |i: int| cell_of(i, side))
}

/// All cells of a grid of the given side, row by row.
pub fn all_locations(side: usize) -> (cells: Vec<Location>)
    requires
        1 <= side <= 4096,
    ensures
        cells@ == grid_cells(side as int),
{
    proof {
        assert(side * side <= 16777216) by (nonlinear_arith)
            requires
                1 <= side <= 4096,
        ;
    }
    let mut cells: Vec<Location> = Vec::new();
    let mut row: usize = 0;
    while row < side
        invariant
            1 <= side <= 4096,
            row <= side,
            cells@.len() == row * side,
            forall|i: int| 0 <= i < cells@.len() ==> cells@[i] == cell_of(i, side as int),
        decreases side - row,
    {
        let mut col: usize = 0;
        proof {
            assert(row * side + side == (row + 1) * side) by (nonlinear_arith);
            assert((row + 1) * side <= side * side) by (nonlinear_arith)
                requires
                    row < side,
            ;
        }
        while col < side
            invariant
                1 <= side <= 4096,
                row < side,
                col <= side,
                row * side + side <= side * side,
                cells@.len() == row * side + col,
                forall|i: int| 0 <= i < cells@.len() ==> cells@[i] == cell_of(i, side as int),
            decreases side - col,
        {
            proof {
                let i = row * side + col;
                assert(side * row == row * side) by (nonlinear_arith);
                vstd::arithmetic::div_mod::lemma_fundamental_div_mod_converse(
                    i,
                    side as int,
                    row as int,
                    col as int,
                );
            }
            cells.push(Location { row: row as u16, col: col as u16 });
            col += 1;
        }
        proof {
            assert(row * side + side == (row + 1) * side) by (nonlinear_arith);
        }
        row += 1;
    }
    proof {
        assert(cells@ =~= grid_cells(side as int));
    }
    cells
}

/// Where a cell stands in a list that holds it.
fn position_of(cells: &Vec<Location>, loc: Location) -> (i: usize)
    requires
        cells@.contains(loc),
    ensures
        i < cells@.len(),
        cells@[i as int] == loc,
{
    let mut i: usize = 0;
    while i < cells.len()
        invariant
            i <= cells@.len(),
            forall|j: int| 0 <= j < i ==> cells@[j] != loc,
            cells@.contains(loc),
        decreases cells@.len() - i,
    {
        if cells[i] == loc {
            return i;
        }
        i += 1;
    }
    proof {
        let j = choose|j: int| 0 <= j < cells@.len() && cells@[j] == loc;
        assert(false);
    }
    0
}

/// The cells on which the seeds of a run of the given size start: as many
/// as the run has seeds, each drawn at random among the cells of the grid
/// that no earlier seed took.
pub fn draw_seeds(size: u32) -> (seeds: Vec<Location>)
    requires
        1 <= size <= 16,
    ensures
        valid_seeds(seeds@, size as int),
        seeds@.len() == seeds_due(size as int),
{
    proof {
        lemma_size_bounds(size as int);
        let s = size as int;
        assert(1 <= s * s <= 256) by (nonlinear_arith)
            requires
                1 <= s <= 16,
        ;
    }
    let side: usize = (size * size * size) as usize;
    let ghost sd = side as int;
    let due: usize = if 2 * (size as usize) <= side * side {
        2 * (size as usize)
    } else {
        side * side
    };
    let mut candidates = all_locations(side);
    let mut seeds: Vec<Location> = Vec::new();
    proof {
        assert forall|i: int, j: int|
            0 <= i < candidates@.len() && 0 <= j < candidates@.len() && i
                != j implies candidates@[i] != candidates@[j] by {
            lemma_cell_of(i, sd);
            lemma_cell_of(j, sd);
        }
        assert forall|i: int| 0 <= i < candidates@.len() implies in_grid(
            #[trigger] candidates@[i],
            sd,
        ) by {
            lemma_cell_of(i, sd);
        }
    }
    while seeds.len() < due
        invariant
            1 <= sd <= 4096,
            due <= sd * sd,
            seeds@.len() <= due,
            candidates@.len() + seeds@.len() == sd * sd,
            candidates@.no_duplicates(),
            forall|i: int| 0 <= i < candidates@.len() ==> in_grid(#[trigger] candidates@[i], sd),
            forall|i: int| 0 <= i < seeds@.len() ==> in_grid(#[trigger] seeds@[i], sd),
            forall|i: int| 0 <= i < seeds@.len() ==> !candidates@.contains(#[trigger] seeds@[i]),
            forall|i: int, j: int|
                0 <= i < seeds@.len() && 0 <= j < seeds@.len() && i != j ==> #[trigger] seeds@[i]
                    != #[trigger] seeds@[j],
        decreases due - seeds@.len(),
    {
        let ghost before = candidates@;
        let ghost drawn = seeds@;
        match choose_location(&candidates) {
            None => {
                proof {
                    assert(false);
                }
            },
            Some(seed) => {
                let at = position_of(&candidates, seed);
                candidates.swap_remove(at);
                seeds.push(seed);
                proof {
                    crate::vec_set::lemma_removed_at_contains(before, at as int, seed);
                    assert forall|i: int| 0 <= i < candidates@.len() implies in_grid(
                        #[trigger] candidates@[i],
                        sd,
                    ) by {
                        crate::vec_set::lemma_removed_at_contains(before, at as int, candidates@[i]);
                        assert(candidates@.contains(candidates@[i]));
                        let j = choose|j: int| 0 <= j < before.len() && before[j] == candidates@[i];
                        assert(in_grid(before[j], sd));
                    }
                    assert forall|i: int| 0 <= i < seeds@.len() implies !candidates@.contains(
                        #[trigger] seeds@[i],
                    ) by {
                        crate::vec_set::lemma_removed_at_contains(before, at as int, seeds@[i]);
                        if i < drawn.len() {
                            assert(seeds@[i] == drawn[i]);
                        }
                    }
                    assert forall|i: int, j: int|
                        0 <= i < seeds@.len() && 0 <= j < seeds@.len() && i
                            != j implies #[trigger] seeds@[i] != #[trigger] seeds@[j] by {
                        if i < drawn.len() {
                            assert(seeds@[i] == drawn[i]);
                        }
                        if j < drawn.len() {
                            assert(seeds@[j] == drawn[j]);
                        }
                    }
                }
            },
        }
    }
    seeds
}

/// The colours of the cube for a size, in a random order.
pub fn shuffled_colors(size: u32) -> (colors: Vec<Color>)
    requires
        1 <= size <= 16,
    ensures
        colors@.to_multiset() == color_cube(color_range_of(size as int)).to_multiset(),
        colors@.len() == cell_count_of(size as int),
        colors_in_cube(colors@, color_range_of(size as int)),
{
    proof {
        lemma_size_bounds(size as int);
    }
    let color_range: usize = (size * size) as usize;
    let mut colors = all_colors(color_range);
    let ghost cube = colors@;
    shuffle_colors(&mut colors);
    proof {
        let cr = color_range as int;
        lemma_cube_size_bound(cr);
        vstd::seq_lib::to_multiset_len(colors@);
        vstd::seq_lib::to_multiset_len(cube);
        assert forall|i: int| 0 <= i < colors@.len() implies in_cube(#[trigger] colors@[i], cr) by {
            let c = colors@[i];
            assert(colors@.contains(c));
            vstd::seq_lib::to_multiset_contains(colors@, c);
            vstd::seq_lib::to_multiset_contains(cube, c);
            let j = choose|j: int| 0 <= j < cube.len() && cube[j] == c;
            lemma_cube_coords_bounds(j, cr);
        }
    }
    colors
}

/// A whole run for a size: the colours of the cube in a random order, the
/// seeds on cells drawn at random, every colour on a cell of its own.
/// Returns the placements in order.
pub fn make_placements(size: u32, frontier_groups: usize) -> (r: Result<
    Vec<(Color, Location)>,
    GrowthError,
>)
    requires
        frontier_groups >= 1,
        frontier_groups * frontier_groups <= usize::MAX,
    ensures
        r is Ok <==> 1 <= size <= 16,
        r is Err ==> r == Err::<Vec<(Color, Location)>, GrowthError>(GrowthError::InvalidSize),
        r is Ok ==> is_full_placement((r->Ok_0)@, size as int),
        r is Ok ==> exists|colors: Seq<Color>, seeds: Seq<Location>|
            is_random_run((r->Ok_0)@, size as int, frontier_groups as int, colors, seeds),
{
    if size < 1 || size > 16 {
        return Err(GrowthError::InvalidSize);
    }
    let colors = shuffled_colors(size);
    let seeds = draw_seeds(size);
    let r = grow(size, frontier_groups, &colors, &seeds);
    proof {
        if r is Ok {
            let placed = (r->Ok_0)@;
            assert(placed.map_values(|p: (Color, Location)| p.0) =~= colors@);
            assert(is_random_run(placed, size as int, frontier_groups as int, colors@, seeds@));
        }
    }
    r
}

/// The placements are those of the run on some ordering of the colours of
/// the cube and on some seeds that are distinct cells of the grid.
pub open spec fn is_random_run(
    placed: Seq<(Color, Location)>,
    size: int,
    groups: int,
    colors: Seq<Color>,
    seeds: Seq<Location>,
) -> bool {
    &&& colors.to_multiset() == color_cube(color_range_of(size)).to_multiset()
    &&& valid_seeds(seeds, size)
    &&& run_result(size, groups, colors, seeds) == Ok::<Seq<(Color, Location)>, GrowthError>(
        placed,
    )
}

/// Every cell of the grid holds one colour and every colour of the cube
/// lies on one cell.
pub open spec fn is_full_placement(placed: Seq<(Color, Location)>, size: int) -> bool {
    &&& placed.len() == cell_count_of(size)
    &&& placed.map_values(|p: (Color, Location)| p.0).to_multiset() == color_cube(
        color_range_of(size),
    ).to_multiset()
    &&& forall|i: int| 0 <= i < placed.len() ==> in_grid((#[trigger] placed[i]).1, side_length_of(size))
    &&& forall|i: int, j: int|
        0 <= i < placed.len() && 0 <= j < placed.len() && i != j ==> (#[trigger] placed[i]).1
            != (#[trigger] placed[j]).1
    &&& forall|l: Location| #[trigger]
        in_grid(l, side_length_of(size)) ==> crate::bookkeeping::placed_on(placed, l)
}

} // verus!
