//! The three strategies on concrete grids: valid paths on reachable
//! queries, `None` on unreachable ones, and the Manhattan-optimal route
//! on an empty grid.

use scout_pathfinder::astar::AStar;
use scout_pathfinder::dstar_lite::DStarLite;
use scout_pathfinder::field_dstar::FieldDStar;

fn empty_grid(w: usize, h: usize) -> Vec<Vec<bool>> {
    let mut g = Vec::new();
    for _ in 0..w {
        let mut col = Vec::new();
        for _ in 0..h {
            col.push(false);
        }
        g.push(col);
    }
    g
}

fn wall_grid(w: usize, h: usize, wall_x: usize) -> Vec<Vec<bool>> {
    // a full vertical wall at x == wall_x
    let mut g = empty_grid(w, h);
    for y in 0..h {
        g[wall_x][y] = true;
    }
    g
}

fn check_path_4(path: &[(usize, usize)], start: (usize, usize), goal: (usize, usize), grid: &[Vec<bool>]) {
    assert!(!path.is_empty());
    assert_eq!(path[0], start);
    assert_eq!(*path.last().unwrap(), goal);
    for w in path.windows(2) {
        let (a, b) = (w[0], w[1]);
        let dx = (a.0 as i64 - b.0 as i64).abs();
        let dy = (a.1 as i64 - b.1 as i64).abs();
        assert_eq!(dx + dy, 1, "step {:?} -> {:?} is not orthogonal", a, b);
        assert!(!grid[b.0][b.1], "step into blocked cell {:?}", b);
    }
}

fn check_path_8(path: &[(usize, usize)], start: (usize, usize), goal: (usize, usize), grid: &[Vec<bool>]) {
    assert!(!path.is_empty());
    assert_eq!(path[0], start);
    assert_eq!(*path.last().unwrap(), goal);
    for w in path.windows(2) {
        let (a, b) = (w[0], w[1]);
        let dx = (a.0 as i64 - b.0 as i64).abs();
        let dy = (a.1 as i64 - b.1 as i64).abs();
        assert_eq!(dx.max(dy), 1, "step {:?} -> {:?} is not 8-adjacent", a, b);
        assert!(!grid[b.0][b.1], "step into blocked cell {:?}", b);
    }
}

#[test]
fn astar_manhattan_optimal_on_empty_grid() {
    // 10x10 grid, no obstacles, (0,0) to (9,9): best-first search returns
    // a Manhattan-optimal route of 19 cells
    let grid = empty_grid(10, 10);
    let mut a = AStar::new(grid.clone(), (0, 0), (9, 9));
    let path = a.compute_path((0, 0), (9, 9)).expect("path must exist");
    check_path_4(&path, (0, 0), (9, 9), &grid);
    assert_eq!(path.len(), 19);
}

#[test]
fn astar_routes_around_obstacles() {
    let mut grid = empty_grid(10, 10);
    for y in 0..9 {
        grid[5][y] = true;
    }
    let mut a = AStar::new(grid.clone(), (0, 0), (9, 0));
    let path = a.compute_path((0, 0), (9, 0)).expect("gap at (5,9) leaves a route");
    check_path_4(&path, (0, 0), (9, 0), &grid);
    // detour through the gap: 9 straight steps would be 10 cells; the wall
    // forces at least 18 extra half-steps down and back
    assert!(path.len() > 10);
}

#[test]
fn astar_none_when_walled_off() {
    let grid = wall_grid(10, 10, 5);
    let mut a = AStar::new(grid, (0, 0), (9, 9));
    assert!(a.compute_path((0, 0), (9, 9)).is_none());
}

#[test]
fn astar_start_equals_goal() {
    let grid = empty_grid(4, 4);
    let mut a = AStar::new(grid, (2, 2), (2, 2));
    let path = a.compute_path((2, 2), (2, 2)).expect("trivial path");
    assert_eq!(path, vec![(2, 2)]);
}

#[test]
fn astar_none_when_goal_blocked() {
    let mut grid = empty_grid(5, 5);
    grid[4][4] = true;
    let mut a = AStar::new(grid, (0, 0), (4, 4));
    assert!(a.compute_path((0, 0), (4, 4)).is_none());
}

#[test]
fn astar_update_obstacle_changes_answer() {
    let mut grid = empty_grid(3, 1);
    grid[1][0] = true;
    let mut a = AStar::new(grid, (0, 0), (2, 0));
    assert!(a.compute_path((0, 0), (2, 0)).is_none());
    a.update_obstacle((1, 0), false);
    let path = a.compute_path((0, 0), (2, 0)).expect("cleared cell opens the row");
    assert_eq!(path, vec![(0, 0), (1, 0), (2, 0)]);
}

#[test]
fn field_dstar_diagonal_route() {
    let grid = empty_grid(10, 10);
    let mut f = FieldDStar::new(grid.clone(), (0, 0), (9, 9));
    let path = f.compute_path((0, 0), (9, 9)).expect("path must exist");
    check_path_8(&path, (0, 0), (9, 9), &grid);
    // diagonals allowed: ten cells suffice
    assert_eq!(path.len(), 10);
}

#[test]
fn field_dstar_none_when_walled_off() {
    let grid = wall_grid(10, 10, 4);
    let mut f = FieldDStar::new(grid, (0, 0), (9, 9));
    assert!(f.compute_path((0, 0), (9, 9)).is_none());
}

#[test]
fn field_dstar_squeezes_through_gap() {
    let mut grid = wall_grid(10, 10, 4);
    grid[4][7] = false;
    let mut f = FieldDStar::new(grid.clone(), (0, 0), (9, 0));
    let path = f.compute_path((0, 0), (9, 0)).expect("gap leaves a route");
    check_path_8(&path, (0, 0), (9, 0), &grid);
    assert!(path.contains(&(4, 7)));
}

#[test]
fn dstar_lite_straight_route() {
    let grid = empty_grid(10, 10);
    let mut d = DStarLite::new(grid.clone(), (0, 0), (9, 9));
    let path = d.compute_path((0, 0), (9, 9)).expect("path must exist");
    check_path_4(&path, (0, 0), (9, 9), &grid);
    assert_eq!(path.len(), 19);
}

#[test]
fn dstar_lite_none_when_walled_off() {
    let grid = wall_grid(10, 10, 5);
    let mut d = DStarLite::new(grid, (0, 0), (9, 9));
    assert!(d.compute_path((0, 0), (9, 9)).is_none());
}

#[test]
fn dstar_lite_routes_around_obstacles() {
    let mut grid = empty_grid(10, 10);
    for y in 1..10 {
        grid[5][y] = true;
    }
    let mut d = DStarLite::new(grid.clone(), (0, 5), (9, 5));
    let path = d.compute_path((0, 5), (9, 5)).expect("gap at (5,0) leaves a route");
    check_path_4(&path, (0, 5), (9, 5), &grid);
    assert!(path.contains(&(5, 0)));
}

#[test]
fn field_dstar_edge_costs() {
    let f = FieldDStar::new(vec![vec![false; 3]; 3], (0, 0), (2, 2));
    // diagonal cost only at exact distance one, in thousandths
    assert_eq!(f.edge_cost((1, 1), (2, 2)), 1414);
    assert_eq!(f.edge_cost((1, 1), (1, 2)), 1000);
    assert_eq!(f.edge_cost((0, 0), (2, 2)), 1000);
    assert_eq!(f.edge_cost((0, 0), (0, 2)), 1000);
}
