//! The trajectory manager: replanning with fallbacks, the blocked-goal
//! fast failure, movement with desync repair, and the plan/history split.

use scout_pathfinder::trajectory::RoverLayer;

#[test]
fn blocked_goal_fails_immediately() {
    // goal cell marked as an obstacle: compute_path_from_som returns
    // false at once, with no fallback attempted
    let mut layer = RoverLayer::new((0, 0), (9, 9));
    let ok = layer.compute_path_from_som(vec![(9, 9)]);
    assert!(!ok);
    assert!(layer.planned_path.is_empty());
    assert_eq!(layer.traveled_path, vec![(0, 0)]);
}

#[test]
fn empty_map_takes_the_straight_stepper() {
    let mut layer = RoverLayer::new((0, 0), (5, 3));
    assert!(layer.compute_path_from_som(Vec::new()));
    // the straight-line stepper walks both axes at once
    assert_eq!(
        layer.planned_path,
        vec![(0, 0), (1, 1), (2, 2), (3, 3), (4, 3), (5, 3)]
    );
}

#[test]
fn planner_avoids_obstacles() {
    let mut layer = RoverLayer::new((0, 5), (9, 5));
    let mut wall = Vec::new();
    for y in 1..30usize {
        wall.push((5usize, y));
    }
    let ok = layer.compute_path_from_som(wall.clone());
    assert!(ok);
    assert_eq!(layer.planned_path[0], (0, 5));
    assert_eq!(*layer.planned_path.last().unwrap(), (9, 5));
    for c in layer.planned_path.iter().skip(1) {
        assert!(!wall.contains(c));
    }
}

#[test]
fn unreachable_goal_fails_after_fallbacks() {
    let mut layer = RoverLayer::new((0, 0), (9, 9));
    // box the goal in completely
    let walls = vec![(8, 9), (10, 9), (9, 8), (9, 10)];
    let ok = layer.compute_path_from_som(walls);
    assert!(!ok);
    assert!(layer.planned_path.is_empty());
}

#[test]
fn movement_advances_one_adjacent_cell() {
    let mut layer = RoverLayer::new((0, 0), (3, 0));
    assert!(layer.compute_path_from_som(Vec::new()));
    let planned_before = layer.planned_path.clone();
    assert!(layer.execute_movement_step());
    assert_eq!(layer.current_position, planned_before[1]);
    assert_eq!(layer.traveled_path, vec![(0, 0), planned_before[1]]);
    assert_eq!(layer.planned_path, planned_before[1..].to_vec());
}

#[test]
fn movement_needs_two_planned_cells() {
    let mut layer = RoverLayer::new((0, 0), (3, 0));
    assert!(!layer.execute_movement_step(), "no plan, no move");
    layer.planned_path = vec![(0, 0)];
    assert!(!layer.execute_movement_step(), "one cell is not a move");
    assert_eq!(layer.current_position, (0, 0));
}

#[test]
fn movement_repairs_desynchronized_head() {
    let mut layer = RoverLayer::new((2, 2), (5, 2));
    layer.planned_path = vec![(9, 9), (3, 2), (4, 2)];
    assert!(layer.execute_movement_step(), "head is overwritten once, then the step runs");
    assert_eq!(layer.current_position, (3, 2));
    assert_eq!(layer.planned_path, vec![(3, 2), (4, 2)]);
}

#[test]
fn movement_rejects_non_adjacent_step() {
    let mut layer = RoverLayer::new((2, 2), (9, 2));
    layer.planned_path = vec![(2, 2), (7, 7)];
    assert!(!layer.execute_movement_step());
    assert_eq!(layer.current_position, (2, 2));
    assert_eq!(layer.traveled_path, vec![(2, 2)]);
}

#[test]
fn mutators_invalidate_the_plan() {
    let mut layer = RoverLayer::new((0, 0), (4, 0));
    assert!(layer.compute_path_from_som(Vec::new()));
    assert!(!layer.planned_path.is_empty());
    layer.set_algorithm("Field D*");
    assert!(layer.planned_path.is_empty());

    assert!(layer.compute_path_from_som(Vec::new()));
    layer.set_goal((8, 8));
    assert!(layer.planned_path.is_empty());

    assert!(layer.compute_path_from_som(Vec::new()));
    layer.reset_to_start((1, 1));
    assert!(layer.planned_path.is_empty());
    assert_eq!(layer.current_position, (1, 1));
    assert_eq!(layer.traveled_path, vec![(1, 1)]);
    assert!(!layer.is_journey_active);
}

#[test]
fn replan_replaces_never_appends() {
    let mut layer = RoverLayer::new((0, 0), (6, 0));
    assert!(layer.compute_path_from_som(Vec::new()));
    let len_first = layer.planned_path.len();
    assert!(layer.compute_path_from_som(Vec::new()));
    assert_eq!(layer.planned_path.len(), len_first, "a replan replaces the plan wholesale");
}
