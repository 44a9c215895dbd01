use color_growth::regions::RegionMap;
use color_growth::sorting::sort_ranked;
use color_growth::types::{
    color_key_of, location_key_of, squared_location_distance, Color, Location,
};
use color_growth::vec_set::VecSet;

fn loc(row: u16, col: u16) -> Location {
    Location { row, col }
}

fn contents(set: &VecSet) -> Vec<Location> {
    set.iter().cloned().collect()
}

#[test]
fn distance_is_sum_of_squares() {
    assert_eq!(squared_location_distance(&loc(0, 0), &loc(3, 4)), 25);
    assert_eq!(squared_location_distance(&loc(3, 4), &loc(0, 0)), 25);
    assert_eq!(squared_location_distance(&loc(7, 7), &loc(7, 7)), 0);
}

#[test]
fn distance_of_opposite_corners_does_not_overflow() {
    assert_eq!(
        squared_location_distance(&loc(0, 0), &loc(65535, 65535)),
        2 * 65535u64 * 65535u64
    );
}

#[test]
fn keys_tell_values_apart() {
    assert_eq!(location_key_of(&loc(1, 2)), 65538);
    assert_ne!(location_key_of(&loc(1, 2)), location_key_of(&loc(2, 1)));
    let c = Color { red: 1, green: 2, blue: 3 };
    assert_eq!(color_key_of(&c), 66051);
}

#[test]
fn sort_orders_by_rank_then_position() {
    let v = vec![(5u64, 0usize), (1, 1), (5, 2), (0, 3), (1, 4)];
    assert_eq!(sort_ranked(&v), vec![(0, 3), (1, 1), (1, 4), (5, 0), (5, 2)]);
    assert_eq!(sort_ranked(&Vec::new()), Vec::new());
    assert_eq!(sort_ranked(&vec![(9, 9)]), vec![(9, 9)]);
}

#[test]
fn new_set_is_empty() {
    let set = VecSet::new();
    assert!(set.is_empty());
    assert_eq!(set.len(), 0);
    assert_eq!(contents(&set), Vec::new());
}

#[test]
fn insert_keeps_first_occurrence_only() {
    let mut set = VecSet::new();
    set.insert(loc(1, 1));
    set.insert(loc(2, 2));
    set.insert(loc(1, 1));
    set.insert(loc(3, 3));
    assert_eq!(set.len(), 3);
    assert!(!set.is_empty());
    assert_eq!(contents(&set), vec![loc(1, 1), loc(2, 2), loc(3, 3)]);
    assert_eq!(set.get(1), loc(2, 2));
    assert!(set.contains(&loc(3, 3)));
    assert!(!set.contains(&loc(3, 1)));
    set.remove(2);
    assert!(!set.contains(&loc(3, 3)));
}

#[test]
fn remove_moves_last_into_the_gap() {
    let mut set = VecSet::new();
    set.insert(loc(1, 1));
    set.insert(loc(2, 2));
    set.insert(loc(3, 3));
    set.insert(loc(4, 4));
    assert_eq!(set.remove(1), loc(2, 2));
    assert_eq!(contents(&set), vec![loc(1, 1), loc(4, 4), loc(3, 3)]);
    assert_eq!(set.remove(2), loc(3, 3));
    assert_eq!(contents(&set), vec![loc(1, 1), loc(4, 4)]);
    // a removed cell can come back, at the end
    set.insert(loc(2, 2));
    assert_eq!(contents(&set), vec![loc(1, 1), loc(4, 4), loc(2, 2)]);
}

#[test]
fn consume_drops_assigned_and_known_cells() {
    let mut regions = RegionMap::new(4);
    regions.assign(loc(2, 2), 7);
    let mut mine = VecSet::new();
    mine.insert(loc(0, 0));
    mine.insert(loc(1, 1));
    let mut other = VecSet::new();
    other.insert(loc(3, 3));
    other.insert(loc(2, 2)); // assigned by now
    other.insert(loc(1, 1)); // already here
    other.insert(loc(9, 9)); // off the grid
    other.insert(loc(0, 3));
    mine.consume(other, &regions);
    assert_eq!(
        contents(&mine),
        vec![loc(0, 0), loc(1, 1), loc(3, 3), loc(0, 3)]
    );
    // the membership table followed: inserting again changes nothing
    mine.insert(loc(3, 3));
    assert_eq!(mine.len(), 4);
}

#[test]
fn region_map_labels_and_relabels() {
    let mut regions = RegionMap::new(3);
    assert_eq!(regions.side_length(), 3);
    assert_eq!(regions.get(&loc(0, 0)), Some(None));
    assert_eq!(regions.get(&loc(3, 0)), None);
    assert_eq!(regions.get(&loc(0, 3)), None);
    assert!(regions.is_unassigned(&loc(2, 2)));
    assert!(!regions.is_unassigned(&loc(3, 3)));
    assert_eq!(regions.assign(loc(0, 0), 1), None);
    assert_eq!(regions.assign(loc(0, 1), 2), None);
    assert_eq!(regions.assign(loc(1, 1), 1), None);
    assert_eq!(regions.assign(loc(1, 1), 3), Some(1));
    assert!(!regions.is_unassigned(&loc(0, 0)));
    regions.relabel(1, 2);
    assert_eq!(regions.get(&loc(0, 0)), Some(Some(2)));
    assert_eq!(regions.get(&loc(0, 1)), Some(Some(2)));
    assert_eq!(regions.get(&loc(1, 1)), Some(Some(3)));
    assert_eq!(regions.get(&loc(2, 2)), Some(None));
}
