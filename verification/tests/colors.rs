use color_growth::assigned::{find_target_cell_and_frontier, AssignedColors};
use color_growth::offsets::{all_colors, color_offsets};
use color_growth::types::{Color, ColorOffset, Location};

fn rgb(red: u8, green: u8, blue: u8) -> Color {
    Color { red, green, blue }
}

fn off(red: i16, green: i16, blue: i16) -> ColorOffset {
    ColorOffset { red, green, blue }
}

fn loc(row: u16, col: u16) -> Location {
    Location { row, col }
}

#[test]
fn cube_of_side_one_has_one_color() {
    assert_eq!(all_colors(0), Vec::new());
    assert_eq!(all_colors(1), vec![rgb(0, 0, 0)]);
}

#[test]
fn cube_runs_blue_fastest() {
    assert_eq!(
        all_colors(2),
        vec![
            rgb(0, 0, 0),
            rgb(0, 0, 1),
            rgb(0, 1, 0),
            rgb(0, 1, 1),
            rgb(1, 0, 0),
            rgb(1, 0, 1),
            rgb(1, 1, 0),
            rgb(1, 1, 1),
        ]
    );
    let cube = all_colors(4);
    assert_eq!(cube.len(), 64);
    assert_eq!(cube[27], rgb(1, 2, 3));
    assert_eq!(cube[63], rgb(3, 3, 3));
}

#[test]
fn offsets_of_side_one_are_eight_zeros() {
    assert_eq!(color_offsets(0), Vec::new());
    assert_eq!(color_offsets(1), vec![off(0, 0, 0); 8]);
}

#[test]
fn offsets_come_by_length_and_mirrored() {
    let table = color_offsets(2);
    assert_eq!(table.len(), 64);
    assert_eq!(&table[0..8], &vec![off(0, 0, 0); 8][..]);
    assert_eq!(
        &table[8..16],
        &[
            off(0, 0, 1),
            off(0, 0, 1),
            off(0, 0, 1),
            off(0, 0, -1),
            off(0, 0, 1),
            off(0, 0, -1),
            off(0, 0, -1),
            off(0, 0, -1),
        ][..]
    );
    // equal lengths keep the order of the cube
    assert_eq!(table[16], off(0, 1, 0));
    assert_eq!(table[24], off(1, 0, 0));
    assert_eq!(table[32], off(0, 1, 1));
    assert_eq!(table[40], off(1, 0, 1));
    assert_eq!(table[48], off(1, 1, 0));
    assert_eq!(
        &table[56..64],
        &[
            off(1, 1, 1),
            off(-1, 1, 1),
            off(1, -1, 1),
            off(1, 1, -1),
            off(-1, -1, 1),
            off(-1, 1, -1),
            off(1, -1, -1),
            off(-1, -1, -1),
        ][..]
    );
}

#[test]
fn offsets_ascend_and_cover_all_differences() {
    let table = color_offsets(4);
    assert_eq!(table.len(), 8 * 64);
    let length = |o: &ColorOffset| {
        (o.red as i32).pow(2) + (o.green as i32).pow(2) + (o.blue as i32).pow(2)
    };
    for pair in table.windows(2) {
        assert!(length(&pair[0]) <= length(&pair[1]));
    }
    for red in -3..=3i16 {
        for green in -3..=3i16 {
            for blue in -3..=3i16 {
                assert!(table.contains(&off(red, green, blue)));
            }
        }
    }
    assert_eq!(length(&table[table.len() - 1]), 27);
}

#[test]
fn assigned_colors_remember_and_relabel() {
    let mut assigned = AssignedColors::new();
    assert_eq!(assigned.get(&rgb(1, 1, 1)), None);
    assigned.insert(rgb(1, 1, 1), loc(2, 2), 0);
    assigned.insert(rgb(3, 3, 3), loc(5, 5), 1);
    assigned.insert(rgb(0, 3, 0), loc(6, 1), 2);
    assert_eq!(assigned.get(&rgb(1, 1, 1)), Some((loc(2, 2), 0)));
    assert_eq!(assigned.get(&rgb(3, 3, 3)), Some((loc(5, 5), 1)));
    assert_eq!(assigned.get(&rgb(3, 3, 2)), None);
    assigned.relabel(1, 0);
    assert_eq!(assigned.get(&rgb(1, 1, 1)), Some((loc(2, 2), 0)));
    assert_eq!(assigned.get(&rgb(3, 3, 3)), Some((loc(5, 5), 0)));
    assert_eq!(assigned.get(&rgb(0, 3, 0)), Some((loc(6, 1), 2)));
    assigned.insert(rgb(1, 1, 1), loc(4, 4), 2);
    assert_eq!(assigned.get(&rgb(1, 1, 1)), Some((loc(4, 4), 2)));
}

#[test]
fn target_is_the_nearest_placed_color() {
    let table = color_offsets(4);
    let mut assigned = AssignedColors::new();
    assert_eq!(find_target_cell_and_frontier(rgb(1, 1, 2), &table, &assigned), None);
    assigned.insert(rgb(1, 1, 1), loc(2, 2), 0);
    assigned.insert(rgb(3, 3, 3), loc(5, 5), 1);
    assert_eq!(
        find_target_cell_and_frontier(rgb(1, 1, 2), &table, &assigned),
        Some((loc(2, 2), 0))
    );
    assert_eq!(
        find_target_cell_and_frontier(rgb(3, 2, 3), &table, &assigned),
        Some((loc(5, 5), 1))
    );
    assert_eq!(
        find_target_cell_and_frontier(rgb(0, 0, 0), &table, &assigned),
        Some((loc(2, 2), 0))
    );
    // a placed colour is its own nearest
    assert_eq!(
        find_target_cell_and_frontier(rgb(3, 3, 3), &table, &assigned),
        Some((loc(5, 5), 1))
    );
}

#[test]
fn target_among_equally_near_colors_follows_the_table() {
    let table = color_offsets(4);
    let mut assigned = AssignedColors::new();
    assigned.insert(rgb(1, 1, 1), loc(2, 2), 0);
    assigned.insert(rgb(3, 3, 3), loc(5, 5), 1);
    // both are at (1, 1, 1) from the colour; the table has the unmirrored one first
    assert_eq!(
        find_target_cell_and_frontier(rgb(2, 2, 2), &table, &assigned),
        Some((loc(5, 5), 1))
    );
}

#[test]
fn target_search_stays_within_a_byte() {
    let table = vec![off(-1, 0, 0), off(1, 0, 0), off(0, 0, 300), off(0, 2, 0)];
    let mut assigned = AssignedColors::new();
    assigned.insert(rgb(255, 2, 0), loc(1, 1), 3);
    assert_eq!(
        find_target_cell_and_frontier(rgb(255, 0, 0), &table, &assigned),
        Some((loc(1, 1), 3))
    );
    assert_eq!(find_target_cell_and_frontier(rgb(0, 0, 0), &table, &assigned), None);
}
