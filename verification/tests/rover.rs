//! The rover facade: construction, algorithm switching, grid building,
//! and path computation through each strategy.

use scout_pathfinder::rover::Rover;

#[test]
fn new_rover_defaults() {
    let r = Rover::new(50, 30);
    assert_eq!(r.state.pos, (5, 5));
    assert_eq!(r.state.goal, (45, 25));
    assert!(r.state.path.is_empty());
    assert_eq!(r.state.algorithm, "D*-Lite");
    assert_eq!(r.state.speed, 5);
    assert_eq!(r.state.grid_width(), 50);
    assert_eq!(r.state.grid_height(), 30);
}

#[test]
fn build_grid_marks_both_obstacle_kinds() {
    let mut r = Rover::new(10, 8);
    r.set_obstacles(vec![(1, 1), (20, 20)]); // the second is out of bounds
    r.state.converted_obstacles = vec![(2, 2)];
    let grid = r.build_grid();
    assert_eq!(grid.len(), 10);
    assert_eq!(grid[0].len(), 8);
    assert!(grid[1][1]);
    assert!(grid[2][2]);
    assert!(!grid[3][3]);
}

#[test]
fn compute_path_now_with_each_algorithm() {
    for algo in ["A*", "D*-Lite", "Field D*"] {
        let mut r = Rover::new(12, 12);
        r.set_position((0, 0));
        r.set_goal((9, 9));
        r.set_algorithm(algo);
        assert_eq!(r.state.algorithm, algo);
        let path = r.compute_path_now();
        assert!(!path.is_empty(), "{algo} must find a path on an empty grid");
        assert_eq!(path[0], (0, 0));
        assert_eq!(*path.last().unwrap(), (9, 9));
        assert_eq!(r.state.path, path);
    }
}

#[test]
fn unknown_algorithm_falls_back_to_incremental() {
    let mut r = Rover::new(12, 12);
    r.set_position((0, 0));
    r.set_goal((5, 5));
    r.set_algorithm("Dijkstra");
    let path = r.compute_path_now();
    assert!(!path.is_empty());
    // the fallback is 4-connected: Manhattan-length route
    assert_eq!(path.len(), 11);
}

#[test]
fn compute_path_now_empty_when_unreachable() {
    let mut r = Rover::new(8, 8);
    r.set_position((0, 0));
    r.set_goal((7, 7));
    r.set_algorithm("A*");
    let mut wall = Vec::new();
    for y in 0..8usize {
        wall.push((4usize, y));
    }
    r.set_obstacles(wall);
    assert!(r.compute_path_now().is_empty());
    assert!(r.state.path.is_empty());
}

#[test]
fn clone_is_independent() {
    let mut r = Rover::new(10, 10);
    r.set_obstacles(vec![(3, 3)]);
    let c = r.clone();
    assert_eq!(c.state.obstacles, vec![(3, 3)]);
    r.set_position((9, 9));
    assert_eq!(c.state.pos, (5, 5), "the clone keeps its own state");
    let s = r.clone_state();
    assert_eq!(s.pos, (9, 9));
    assert_eq!(s.obstacles, vec![(3, 3)]);
}

#[test]
fn setters_update_state() {
    let mut r = Rover::new(10, 10);
    r.set_position((1, 2));
    r.set_goal((8, 7));
    r.set_speed(9);
    assert_eq!(r.state.pos, (1, 2));
    assert_eq!(r.state.goal, (8, 7));
    assert_eq!(r.state.speed, 9);
}
