use color_growth::frontier::Frontier;
use color_growth::regions::RegionMap;
use color_growth::types::{squared_location_distance, Location};

fn loc(row: u16, col: u16) -> Location {
    Location { row, col }
}

fn filled(groups: usize, side: usize, cells: &[Location]) -> Frontier {
    let mut frontier = Frontier::new(groups, side);
    for cell in cells {
        frontier.insert(*cell);
    }
    frontier
}

#[test]
fn new_frontier_is_empty() {
    let mut frontier = Frontier::new(3, 8);
    assert!(frontier.is_empty());
    assert_eq!(frontier.len(), 0);
    assert_eq!(frontier.locations(), Vec::new());
    assert_eq!(frontier.extract_nearest_neighbor(&loc(1, 1)), None);
    assert!(frontier.is_empty());
}

#[test]
fn new_like_copies_the_shape_only() {
    let frontier = filled(2, 8, &[loc(1, 1), loc(6, 6)]);
    let mut other = Frontier::new_like(&frontier);
    assert!(other.is_empty());
    other.insert(loc(7, 7));
    other.insert(loc(0, 0));
    // two buckets per axis: (0, 0) is in the first bucket, (7, 7) in the last
    assert_eq!(other.locations(), vec![loc(0, 0), loc(7, 7)]);
    assert_eq!(frontier.len(), 2);
}

#[test]
fn insert_ignores_what_is_there() {
    let mut frontier = filled(2, 8, &[loc(1, 1), loc(6, 6), loc(1, 1)]);
    assert_eq!(frontier.len(), 2);
    assert!(!frontier.is_empty());
    frontier.insert(loc(6, 6));
    assert_eq!(frontier.len(), 2);
}

#[test]
fn buckets_are_read_row_by_row() {
    let frontier = filled(2, 8, &[loc(7, 0), loc(0, 7), loc(7, 7), loc(0, 0), loc(3, 3)]);
    assert_eq!(
        frontier.locations(),
        vec![loc(0, 0), loc(3, 3), loc(0, 7), loc(7, 0), loc(7, 7)]
    );
}

#[test]
fn get_square_mut_gives_the_covering_bucket() {
    let mut frontier = filled(2, 8, &[loc(0, 0), loc(7, 7), loc(1, 1)]);
    {
        let square = frontier.get_square_mut(&loc(2, 3));
        assert_eq!(square.len(), 2);
        assert_eq!(square.get(0), loc(0, 0));
        assert_eq!(square.get(1), loc(1, 1));
        square.insert(loc(3, 3));
    }
    assert_eq!(frontier.len(), 4);
    assert_eq!(frontier.get_square_mut(&loc(4, 4)).len(), 1);
    assert_eq!(frontier.get_square_mut(&loc(0, 4)).len(), 0);
}

#[test]
fn extract_takes_the_nearest_and_fills_the_gap() {
    let mut frontier = filled(1, 8, &[loc(1, 1), loc(5, 5), loc(2, 2)]);
    assert_eq!(frontier.extract_nearest_neighbor(&loc(0, 0)), Some(loc(1, 1)));
    assert_eq!(frontier.locations(), vec![loc(2, 2), loc(5, 5)]);
    assert_eq!(frontier.extract_nearest_neighbor(&loc(7, 7)), Some(loc(5, 5)));
    assert_eq!(frontier.extract_nearest_neighbor(&loc(7, 7)), Some(loc(2, 2)));
    assert_eq!(frontier.extract_nearest_neighbor(&loc(7, 7)), None);
    assert!(frontier.is_empty());
}

#[test]
fn extract_looks_across_uneven_buckets() {
    // eight cells in three buckets per axis: 0..=2, 3..=5, 6..=7
    let mut frontier = filled(3, 8, &[loc(5, 3), loc(2, 3)]);
    assert_eq!(frontier.extract_nearest_neighbor(&loc(3, 3)), Some(loc(2, 3)));
    assert_eq!(frontier.extract_nearest_neighbor(&loc(3, 3)), Some(loc(5, 3)));
}

#[test]
fn extract_breaks_ties_by_bound_then_bucket_then_position() {
    // two buckets per axis: 0..=3 and 4..=7; all cells are at distance 4
    let mut frontier = filled(2, 8, &[loc(5, 3), loc(3, 5), loc(3, 1), loc(1, 3)]);
    let target = loc(3, 3);
    // the target's own bucket has the smallest bound; in it the earlier cell wins
    assert_eq!(frontier.extract_nearest_neighbor(&target), Some(loc(3, 1)));
    assert_eq!(frontier.extract_nearest_neighbor(&target), Some(loc(1, 3)));
    // both other buckets have bound 1: the earlier bucket wins
    assert_eq!(frontier.extract_nearest_neighbor(&target), Some(loc(3, 5)));
    assert_eq!(frontier.extract_nearest_neighbor(&target), Some(loc(5, 3)));
}

#[test]
fn extract_accepts_a_target_off_the_covered_area() {
    let mut frontier = filled(2, 4, &[loc(0, 0), loc(3, 3)]);
    assert_eq!(frontier.extract_nearest_neighbor(&loc(100, 100)), Some(loc(3, 3)));
    assert_eq!(frontier.extract_nearest_neighbor(&loc(100, 100)), Some(loc(0, 0)));
}

#[test]
fn extract_agrees_with_a_full_scan() {
    let side: u16 = 6;
    for groups in 1..=7usize {
        for pattern in 0..5u32 {
            let mut cells = Vec::new();
            for row in 0..side {
                for col in 0..side {
                    let n = row as u32 * 31 + col as u32 * 17 + pattern * 7;
                    if n % 3 == 0 || n % 11 == pattern {
                        cells.push(loc(row, col));
                    }
                }
            }
            for row in 0..side {
                for col in 0..side {
                    let target = loc(row, col);
                    let mut frontier = filled(groups, side as usize, &cells);
                    let best = cells
                        .iter()
                        .map(|cell| squared_location_distance(&target, cell))
                        .min()
                        .unwrap();
                    let got = frontier.extract_nearest_neighbor(&target).unwrap();
                    assert!(cells.contains(&got));
                    assert_eq!(squared_location_distance(&target, &got), best);
                    assert_eq!(frontier.len(), cells.len() - 1);
                    assert!(!frontier.locations().contains(&got));
                }
            }
        }
    }
}

#[test]
fn extract_empties_the_index_in_order_of_distance() {
    let cells = [loc(0, 0), loc(9, 9), loc(4, 5), loc(5, 4), loc(2, 8), loc(8, 1)];
    for groups in 1..=4usize {
        let mut frontier = filled(groups, 10, &cells);
        let target = loc(5, 5);
        let mut last = 0;
        for left in (0..cells.len()).rev() {
            let got = frontier.extract_nearest_neighbor(&target).unwrap();
            let d = squared_location_distance(&target, &got);
            assert!(d >= last);
            last = d;
            assert_eq!(frontier.len(), left);
        }
        assert_eq!(frontier.extract_nearest_neighbor(&target), None);
    }
}

#[test]
fn consume_takes_over_unassigned_cells_bucket_for_bucket() {
    let mut regions = RegionMap::new(8);
    regions.assign(loc(6, 6), 0);
    let mut mine = filled(2, 8, &[loc(0, 0), loc(7, 7)]);
    let other = filled(2, 8, &[loc(6, 6), loc(1, 1), loc(0, 0), loc(5, 5), loc(0, 5)]);
    mine.consume(other, &regions);
    assert_eq!(
        mine.locations(),
        vec![loc(0, 0), loc(1, 1), loc(0, 5), loc(7, 7), loc(5, 5)]
    );
    assert_eq!(mine.len(), 5);
}
