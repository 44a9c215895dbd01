use color_growth::assigned::AssignedColors;
use color_growth::frontier::Frontier;
use color_growth::growth::{collapse_into, grow, progress_due, Growth};
use color_growth::model::GrowthError;
use color_growth::offsets::all_colors;
use color_growth::random::{all_locations, draw_seeds, make_placements, shuffled_colors};
use color_growth::regions::RegionMap;
use color_growth::types::{Color, Location, RegionId};

fn rgb(red: u8, green: u8, blue: u8) -> Color {
    Color { red, green, blue }
}

fn loc(row: u16, col: u16) -> Location {
    Location { row, col }
}

/// The 64 colours of the cube of side 4 in a fixed scrambled order.
fn scrambled_colors() -> Vec<Color> {
    let cube = all_colors(4);
    (0..64usize).map(|i| cube[(i * 37 + 11) % 64]).collect()
}

fn corner_seeds() -> Vec<Location> {
    vec![loc(0, 0), loc(7, 7), loc(0, 7), loc(7, 0)]
}

fn is_adjacent(a: &Location, b: &Location) -> bool {
    let dr = (a.row as i32 - b.row as i32).abs();
    let dc = (a.col as i32 - b.col as i32).abs();
    dr + dc == 1
}

fn live_regions(engine: &Growth, side: u16) -> Vec<RegionId> {
    let mut ids = Vec::new();
    for row in 0..side {
        for col in 0..side {
            if let Some(Some(id)) = engine.region_of(&loc(row, col)) {
                if !ids.contains(&id) {
                    ids.push(id);
                }
            }
        }
    }
    ids
}

fn assert_covers_grid(placed: &[(Color, Location)], side: u16) {
    assert_eq!(placed.len(), side as usize * side as usize);
    let mut seen = vec![false; placed.len()];
    for (_, cell) in placed {
        assert!(cell.row < side && cell.col < side);
        let at = cell.row as usize * side as usize + cell.col as usize;
        assert!(!seen[at]);
        seen[at] = true;
    }
    assert!(seen.iter().all(|s| *s));
}

#[test]
fn size_one_places_the_one_color_on_the_one_cell() {
    let colors = vec![rgb(0, 0, 0)];
    let seeds = vec![loc(0, 0)];
    assert_eq!(grow(1, 1, &colors, &seeds), Ok(vec![(rgb(0, 0, 0), loc(0, 0))]));

    let mut engine = Growth::new(1, 1).ok().unwrap();
    assert_eq!(engine.side_length(), 1);
    assert!(engine.is_seeding());
    assert!(engine.is_unassigned(&loc(0, 0)));
    assert_eq!(engine.place(rgb(0, 0, 0), loc(0, 0)), Ok(loc(0, 0)));
    assert_eq!(engine.placed_count(), 1);
    assert_eq!(engine.region_of(&loc(0, 0)), Some(Some(0)));
    assert!(!engine.is_unassigned(&loc(0, 0)));
    assert_eq!(engine.frontier_counts(), (0, 0));
    assert_eq!(engine.into_placements(), vec![(rgb(0, 0, 0), loc(0, 0))]);
}

#[test]
fn size_two_fills_the_grid_and_merges_the_regions() {
    let colors = scrambled_colors();
    let seeds = corner_seeds();
    let mut engine = Growth::new(2, 1).ok().unwrap();
    assert_eq!(engine.side_length(), 8);
    let mut live_before = 0;
    for (i, color) in colors.iter().enumerate() {
        assert_eq!(engine.is_seeding(), i < 4);
        let seed = if i < 4 { seeds[i] } else { loc(0, 0) };
        let cell = engine.place(*color, seed).ok().unwrap();
        if i < 4 {
            assert_eq!(cell, seeds[i]);
            assert_eq!(engine.region_of(&cell), Some(Some(i)));
        }
        let live = live_regions(&engine, 8).len();
        assert!(live >= 1 && live <= 4);
        if i >= 4 {
            assert!(live <= live_before);
        }
        live_before = live;
        assert_eq!(engine.placed_count(), i + 1);
    }
    assert_eq!(live_regions(&engine, 8).len(), 1);
    assert_eq!(engine.frontier_counts(), (0, 0));
    let placed = engine.into_placements();
    assert_covers_grid(&placed, 8);
    for (i, (color, _)) in placed.iter().enumerate() {
        assert_eq!(*color, colors[i]);
    }
}

#[test]
fn every_color_lands_next_to_its_region() {
    let colors = scrambled_colors();
    let seeds = corner_seeds();
    let placed = grow(2, 2, &colors, &seeds).ok().unwrap();
    assert_covers_grid(&placed, 8);
    for i in 4..placed.len() {
        let cell = placed[i].1;
        assert!(placed[..i].iter().any(|(_, other)| is_adjacent(&cell, other)));
    }
}

#[test]
fn frontier_holds_the_unassigned_cells_next_to_a_region() {
    let colors = scrambled_colors();
    let seeds = corner_seeds();
    for groups in [1usize, 3] {
        let mut engine = Growth::new(2, groups).ok().unwrap();
        for (i, color) in colors.iter().enumerate() {
            let seed = if i < 4 { seeds[i] } else { loc(0, 0) };
            engine.place(*color, seed).ok().unwrap();
            for region in 0..4usize {
                let mut held = engine.frontier_cells(region);
                let mut due = Vec::new();
                for cell in all_locations(8) {
                    if engine.region_of(&cell) != Some(None) {
                        continue;
                    }
                    let touches = all_locations(8).iter().any(|other| {
                        is_adjacent(&cell, other) && engine.region_of(other) == Some(Some(region))
                    });
                    if touches {
                        due.push(cell);
                    }
                }
                held.sort_by_key(|cell| (cell.row, cell.col));
                due.sort_by_key(|cell| (cell.row, cell.col));
                assert_eq!(held, due);
            }
        }
    }
}

#[test]
fn same_inputs_give_the_same_placements() {
    let colors = scrambled_colors();
    let seeds = corner_seeds();
    let first = grow(2, 3, &colors, &seeds);
    let second = grow(2, 3, &colors, &seeds);
    assert!(first.is_ok());
    assert_eq!(first, second);
    // seeds beyond those that are due play no part
    let mut longer = seeds.clone();
    longer.push(loc(3, 3));
    assert_eq!(grow(2, 3, &colors, &longer), first);
}

#[test]
fn first_placements_after_the_seeds_are_as_computed_by_hand() {
    // one bucket per frontier, seeds in the four corners
    let colors = scrambled_colors();
    let seeds = corner_seeds();
    let placed = grow(2, 1, &colors, &seeds).ok().unwrap();
    assert_eq!(&colors[..5], &[rgb(0, 2, 3), rgb(3, 0, 0), rgb(1, 1, 1), rgb(3, 2, 2), rgb(1, 3, 3)]);
    assert_eq!(placed[0], (rgb(0, 2, 3), loc(0, 0)));
    assert_eq!(placed[1], (rgb(3, 0, 0), loc(7, 7)));
    assert_eq!(placed[2], (rgb(1, 1, 1), loc(0, 7)));
    assert_eq!(placed[3], (rgb(3, 2, 2), loc(7, 0)));
    // (1, 3, 3) is nearest to (0, 2, 3), which sits at (0, 0); that
    // corner's frontier holds (1, 0) and then (0, 1), both at distance 1
    assert_eq!(placed[4], (rgb(1, 3, 3), loc(1, 0)));
}

#[test]
fn size_out_of_range_is_rejected() {
    let colors = vec![rgb(0, 0, 0)];
    let seeds = vec![loc(0, 0)];
    assert_eq!(grow(0, 1, &colors, &seeds), Err(GrowthError::InvalidSize));
    assert_eq!(grow(17, 1, &colors, &seeds), Err(GrowthError::InvalidSize));
    assert!(Growth::new(0, 1).is_err());
    assert!(Growth::new(17, 1).is_err());
    assert!(Growth::new(1, 1).is_ok());
    assert!(Growth::new(3, 1).is_ok());
    assert_eq!(make_placements(0, 1), Err(GrowthError::InvalidSize));
    assert_eq!(make_placements(17, 1), Err(GrowthError::InvalidSize));
}

#[test]
fn wrong_number_of_colors_is_rejected() {
    let mut colors = scrambled_colors();
    let seeds = corner_seeds();
    colors.pop();
    assert_eq!(grow(2, 1, &colors, &seeds), Err(GrowthError::CardinalityMismatch));
    colors.push(rgb(0, 0, 0));
    colors.push(rgb(0, 0, 1));
    assert_eq!(grow(2, 1, &colors, &seeds), Err(GrowthError::CardinalityMismatch));
    assert_eq!(grow(1, 1, &Vec::new(), &vec![loc(0, 0)]), Err(GrowthError::CardinalityMismatch));
}

#[test]
fn color_far_from_the_cube_finds_no_neighbor() {
    let mut colors = scrambled_colors();
    let seeds = corner_seeds();
    colors[10] = rgb(200, 200, 200);
    assert_eq!(grow(2, 1, &colors, &seeds), Err(GrowthError::NoColorNeighborFound));

    let mut engine = Growth::new(2, 1).ok().unwrap();
    assert_eq!(engine.place_near(rgb(1, 1, 1)), Err(GrowthError::NoColorNeighborFound));
    assert_eq!(engine.placed_count(), 0);
}

#[test]
fn full_grid_has_no_frontier_left() {
    let mut engine = Growth::new(1, 1).ok().unwrap();
    engine.place_seed(rgb(0, 0, 0), loc(0, 0));
    assert_eq!(engine.place_near(rgb(0, 0, 0)), Err(GrowthError::EmptyFrontierQuery));
    assert_eq!(engine.placed_count(), 1);
    assert_eq!(engine.placements(), &vec![(rgb(0, 0, 0), loc(0, 0))]);
}

#[test]
fn seeds_start_regions_and_neighbors_join_frontiers() {
    let mut engine = Growth::new(2, 2).ok().unwrap();
    assert!(engine.is_unassigned(&loc(3, 3)));
    assert!(!engine.is_unassigned(&loc(8, 0)));
    assert_eq!(engine.region_of(&loc(8, 0)), None);
    engine.place_seed(rgb(0, 0, 0), loc(3, 3));
    assert!(!engine.is_unassigned(&loc(3, 3)));
    // below, right, above, left; the first two fall into later buckets
    assert_eq!(engine.frontier_cells(0), vec![loc(2, 3), loc(3, 2), loc(3, 4), loc(4, 3)]);
    assert_eq!(engine.frontier_counts(), (1, 4));
    engine.place_seed(rgb(3, 3, 3), loc(0, 0));
    assert_eq!(engine.frontier_cells(1), vec![loc(1, 0), loc(0, 1)]);
    assert_eq!(engine.frontier_counts(), (2, 6));
    let unassigned = all_locations(8)
        .iter()
        .filter(|cell| engine.is_unassigned(cell))
        .count();
    assert_eq!(unassigned, 62);
    // a seed next to region 0 folds it into the new region
    engine.place_seed(rgb(1, 1, 1), loc(3, 4));
    assert_eq!(engine.region_of(&loc(3, 3)), Some(Some(2)));
    assert_eq!(engine.region_of(&loc(3, 4)), Some(Some(2)));
    assert_eq!(engine.region_of(&loc(0, 0)), Some(Some(1)));
    assert_eq!(engine.frontier_cells(0), Vec::new());
    let mut cells = engine.frontier_cells(2);
    cells.sort_by_key(|cell| (cell.row, cell.col));
    assert_eq!(
        cells,
        vec![loc(2, 3), loc(2, 4), loc(3, 2), loc(3, 5), loc(4, 3), loc(4, 4)]
    );
    assert_eq!(engine.frontier_counts(), (2, 8));
}

#[test]
fn collapse_moves_frontier_and_labels() {
    let mut regions = RegionMap::new(4);
    regions.assign(loc(0, 0), 0);
    regions.assign(loc(0, 1), 1);
    regions.assign(loc(3, 3), 2);
    let mut frontiers = vec![Frontier::new(2, 4), Frontier::new(2, 4), Frontier::new(2, 4)];
    frontiers[0].insert(loc(1, 0));
    frontiers[0].insert(loc(0, 1)); // assigned since
    frontiers[1].insert(loc(1, 1));
    frontiers[1].insert(loc(0, 2));
    frontiers[2].insert(loc(2, 3));
    let mut assigned = AssignedColors::new();
    assigned.insert(rgb(0, 0, 0), loc(0, 0), 0);
    assigned.insert(rgb(1, 1, 1), loc(0, 1), 1);
    assigned.insert(rgb(2, 2, 2), loc(3, 3), 2);
    collapse_into(0, 1, &mut frontiers, &mut regions, &mut assigned);
    assert!(frontiers[0].is_empty());
    assert_eq!(frontiers[1].locations(), vec![loc(1, 1), loc(1, 0), loc(0, 2)]);
    assert_eq!(frontiers[2].locations(), vec![loc(2, 3)]);
    assert_eq!(regions.get(&loc(0, 0)), Some(Some(1)));
    assert_eq!(regions.get(&loc(0, 1)), Some(Some(1)));
    assert_eq!(regions.get(&loc(3, 3)), Some(Some(2)));
    assert_eq!(regions.get(&loc(1, 0)), Some(None));
    assert_eq!(assigned.get(&rgb(0, 0, 0)), Some((loc(0, 0), 1)));
    assert_eq!(assigned.get(&rgb(1, 1, 1)), Some((loc(0, 1), 1)));
    assert_eq!(assigned.get(&rgb(2, 2, 2)), Some((loc(3, 3), 2)));
}

#[test]
fn progress_is_due_at_multiples_of_the_frequency() {
    assert!(!progress_due(None, 10));
    assert!(!progress_due(Some(5), 0));
    assert!(progress_due(Some(5), 5));
    assert!(!progress_due(Some(5), 6));
    assert!(progress_due(Some(1), 7));
}

#[test]
fn all_locations_run_row_by_row() {
    assert_eq!(all_locations(1), vec![loc(0, 0)]);
    assert_eq!(all_locations(2), vec![loc(0, 0), loc(0, 1), loc(1, 0), loc(1, 1)]);
    assert_eq!(all_locations(8).len(), 64);
    assert_eq!(all_locations(8)[19], loc(2, 3));
}

#[test]
fn shuffled_colors_are_the_cube_in_another_order() {
    let cube = all_colors(9);
    let shuffled = shuffled_colors(3);
    assert_eq!(shuffled.len(), 729);
    assert_ne!(shuffled, cube);
    let mut sorted = shuffled.clone();
    sorted.sort_by_key(|c| (c.red, c.green, c.blue));
    assert_eq!(sorted, cube);
    assert_eq!(shuffled_colors(1), vec![rgb(0, 0, 0)]);
}

#[test]
fn drawn_seeds_are_distinct_cells_of_the_grid() {
    assert_eq!(draw_seeds(1), vec![loc(0, 0)]);
    for _ in 0..20 {
        let seeds = draw_seeds(2);
        assert_eq!(seeds.len(), 4);
        for (i, seed) in seeds.iter().enumerate() {
            assert!(seed.row < 8 && seed.col < 8);
            assert!(!seeds[..i].contains(seed));
        }
    }
    // sixty-four cells and four seeds: twenty draws do not all agree
    let first = draw_seeds(2);
    assert!((0..20).any(|_| draw_seeds(2) != first));
}

#[test]
fn random_run_places_every_color_of_the_cube_once() {
    for groups in [1usize, 2, 5] {
        let placed = make_placements(2, groups).ok().unwrap();
        assert_covers_grid(&placed, 8);
        let mut colors: Vec<Color> = placed.iter().map(|(color, _)| *color).collect();
        colors.sort_by_key(|c| (c.red, c.green, c.blue));
        assert_eq!(colors, all_colors(4));
    }
    let placed = make_placements(3, 4).ok().unwrap();
    assert_covers_grid(&placed, 27);
    assert_eq!(make_placements(1, 1), Ok(vec![(rgb(0, 0, 0), loc(0, 0))]));
}
