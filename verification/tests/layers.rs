//! The obstacle map and the dynamic obstacle tracker: idempotent
//! placement, detection by proximity, and the split between undiscovered
//! and converted obstacles.

use scout_pathfinder::dob::DobLayer;
use scout_pathfinder::som::SomLayer;

#[test]
fn som_union_and_occupancy() {
    let mut som = SomLayer::new();
    som.set_initial_obstacles(vec![(1, 1), (2, 2), (1, 1)]);
    som.add_converted_dob((3, 3));
    assert!(som.is_cell_occupied((1, 1)));
    assert!(som.is_cell_occupied((2, 2)));
    assert!(som.is_cell_occupied((3, 3)));
    assert!(!som.is_cell_occupied((4, 4)));
    let map = som.get_complete_obstacle_map();
    assert_eq!(map.len(), 3, "duplicate static placements collapse");
    assert!(map.contains(&(1, 1)) && map.contains(&(2, 2)) && map.contains(&(3, 3)));
}

#[test]
fn som_union_lists_an_overlapping_cell_once() {
    // a cell can end up both static and converted (statics are editable
    // between journeys); the union still lists it once
    let mut som = SomLayer::new();
    som.add_converted_dob((1, 1));
    som.set_initial_obstacles(vec![(1, 1), (2, 2)]);
    let map = som.get_complete_obstacle_map();
    assert_eq!(map.iter().filter(|c| **c == (1, 1)).count(), 1);
    assert_eq!(map.len(), 2);
}

#[test]
fn som_converting_twice_is_noop() {
    let mut som = SomLayer::new();
    som.add_converted_dob((5, 5));
    som.add_converted_dob((5, 5));
    let map = som.get_complete_obstacle_map();
    assert_eq!(map, vec![(5, 5)]);
}

#[test]
fn som_clear_converted_keeps_statics() {
    let mut som = SomLayer::new();
    som.set_initial_obstacles(vec![(1, 0)]);
    som.add_converted_dob((2, 0));
    som.clear_converted_dob_obstacles();
    assert!(som.is_cell_occupied((1, 0)));
    assert!(!som.is_cell_occupied((2, 0)));
}

#[test]
fn dob_placement_on_occupied_cell_is_noop() {
    let mut som = SomLayer::new();
    som.set_initial_obstacles(vec![(1, 1)]);
    let mut dob = DobLayer::new();
    assert!(!dob.add_dob((1, 1), &som), "occupied cell rejects a dynamic obstacle");
    assert!(dob.get_amber_dobs_for_display().is_empty());
    assert!(!dob.toggle_dob((1, 1), &som));
    assert!(dob.get_amber_dobs_for_display().is_empty());
}

#[test]
fn dob_duplicate_placement_is_noop() {
    let som = SomLayer::new();
    let mut dob = DobLayer::new();
    assert!(dob.add_dob((4, 4), &som));
    assert!(!dob.add_dob((4, 4), &som), "a tracked cell rejects a second placement");
    assert_eq!(dob.get_amber_dobs_for_display(), vec![(4, 4)]);
}

#[test]
fn dob_toggle_adds_and_removes() {
    let som = SomLayer::new();
    let mut dob = DobLayer::new();
    assert!(dob.toggle_dob((7, 2), &som));
    assert_eq!(dob.get_amber_dobs_for_display(), vec![(7, 2)]);
    assert!(dob.toggle_dob((7, 2), &som));
    assert!(dob.get_amber_dobs_for_display().is_empty());
}

#[test]
fn dob_detection_radius_is_chebyshev_two() {
    let som = SomLayer::new();
    let mut dob = DobLayer::new();
    dob.add_dob((5, 5), &som); // distance 2 from (3,3): detected
    dob.add_dob((6, 6), &som); // distance 3: stays hidden
    dob.add_dob((3, 6), &som); // distance 3 in y: stays hidden
    dob.add_dob((1, 5), &som); // distance 2: detected

    let converted = dob.check_proximity_and_convert((3, 3));
    assert_eq!(converted, vec![(5, 5), (1, 5)], "detection keeps placement order");
    assert_eq!(dob.get_amber_dobs_for_display(), vec![(6, 6), (3, 6)]);
    assert_eq!(dob.get_blue_dobs_for_display(), vec![(5, 5), (1, 5)]);
}

#[test]
fn dob_detection_with_nothing_near_is_noop() {
    let som = SomLayer::new();
    let mut dob = DobLayer::new();
    dob.add_dob((9, 9), &som);
    let converted = dob.check_proximity_and_convert((0, 0));
    assert!(converted.is_empty());
    assert_eq!(dob.get_amber_dobs_for_display(), vec![(9, 9)]);
    assert!(dob.get_blue_dobs_for_display().is_empty());
}

#[test]
fn dob_clear_all_forgets_everything() {
    let som = SomLayer::new();
    let mut dob = DobLayer::new();
    dob.add_dob((2, 2), &som);
    dob.check_proximity_and_convert((2, 3));
    dob.clear_all();
    assert!(dob.get_amber_dobs_for_display().is_empty());
    assert!(dob.get_blue_dobs_for_display().is_empty());
}
