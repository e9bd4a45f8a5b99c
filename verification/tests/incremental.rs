//! The incremental strategy after `update_obstacle` sequences: the
//! answer must match a full rebuild over the same final occupancy.

use scout_pathfinder::dstar_lite::DStarLite;

fn empty_grid(w: usize, h: usize) -> Vec<Vec<bool>> {
    let mut g = Vec::new();
    for _ in 0..w {
        let mut col = Vec::new();
        for _ in 0..h {
            col.push(false);
        }
        g.push(col);
    }
    g
}

fn check_path_4(path: &[(usize, usize)], start: (usize, usize), goal: (usize, usize), grid: &[Vec<bool>]) {
    assert!(!path.is_empty());
    assert_eq!(path[0], start);
    assert_eq!(*path.last().unwrap(), goal);
    for w in path.windows(2) {
        let (a, b) = (w[0], w[1]);
        let dx = (a.0 as i64 - b.0 as i64).abs();
        let dy = (a.1 as i64 - b.1 as i64).abs();
        assert_eq!(dx + dy, 1);
        assert!(!grid[b.0][b.1]);
    }
}

#[test]
fn incremental_updates_match_full_rebuild() {
    // place obstacles one by one through update_obstacle, then compare the
    // replanned route with a planner built fresh over the final occupancy
    let start = (0, 4);
    let goal = (9, 4);
    let obstacles = [(4, 3), (4, 4), (4, 5), (5, 5)];

    let mut incremental = DStarLite::new(empty_grid(10, 9), start, goal);
    let first = incremental.compute_path(start, goal).expect("empty grid is connected");
    assert_eq!(first.len(), 10);

    let mut final_grid = empty_grid(10, 9);
    for &(x, y) in &obstacles {
        incremental.update_obstacle((x, y), true);
        final_grid[x][y] = true;
    }

    let repaired = incremental.compute_path(start, goal).expect("a detour exists");
    check_path_4(&repaired, start, goal, &final_grid);

    let mut fresh = DStarLite::new(final_grid.clone(), start, goal);
    let rebuilt = fresh.compute_path(start, goal).expect("a detour exists");
    check_path_4(&rebuilt, start, goal, &final_grid);

    assert_eq!(repaired.len(), rebuilt.len(), "incremental repair must not lose optimality");
}

#[test]
fn incremental_unreachable_matches_full_rebuild() {
    let start = (0, 0);
    let goal = (5, 0);
    let mut incremental = DStarLite::new(empty_grid(6, 3), start, goal);
    assert!(incremental.compute_path(start, goal).is_some());

    // wall the goal in
    let mut final_grid = empty_grid(6, 3);
    for &(x, y) in &[(4, 0), (4, 1), (4, 2)] {
        incremental.update_obstacle((x, y), true);
        final_grid[x][y] = true;
    }

    let repaired = incremental.compute_path(start, goal);
    let rebuilt = DStarLite::new(final_grid, start, goal).compute_path(start, goal);
    assert!(rebuilt.is_none());
    assert!(repaired.is_none(), "incremental view must agree the goal is cut off");
}

#[test]
fn incremental_moving_start_replans() {
    // the start advances along the route; km absorbs the drift and the
    // remaining route still reaches the goal
    let start = (0, 0);
    let goal = (6, 0);
    let mut d = DStarLite::new(empty_grid(7, 4), start, goal);
    let path = d.compute_path(start, goal).expect("connected");
    assert_eq!(path[0], start);

    let moved = path[1];
    let repath = d.compute_path(moved, goal).expect("still connected");
    assert_eq!(repath[0], moved);
    assert_eq!(*repath.last().unwrap(), goal);
    assert_eq!(repath.len(), path.len() - 1, "one step closer");
}

#[test]
fn incremental_obstacle_removal_shortens_route() {
    let start = (0, 1);
    let goal = (4, 1);
    let mut grid = empty_grid(5, 3);
    grid[2][0] = true;
    grid[2][1] = true;
    let mut d = DStarLite::new(grid, start, goal);
    let detour = d.compute_path(start, goal).expect("bottom row open");
    assert!(detour.len() > 5);

    d.update_obstacle((2, 1), false);
    let direct = d.compute_path(start, goal).expect("middle row open again");
    assert_eq!(direct.len(), 5);

    let mut final_grid = empty_grid(5, 3);
    final_grid[2][0] = true;
    let rebuilt = DStarLite::new(final_grid, start, goal).compute_path(start, goal).unwrap();
    assert_eq!(direct.len(), rebuilt.len());
}

#[test]
fn incremental_goal_move_replans_cleanly() {
    // the same live instance is asked for a different goal: the old
    // goal's lookahead is repaired and the new route is valid
    let start = (0, 0);
    let mut d = DStarLite::new(empty_grid(8, 8), start, (7, 0));
    let first = d.compute_path(start, (7, 0)).expect("row is open");
    assert_eq!(first.len(), 8);

    let second = d.compute_path(start, (0, 7)).expect("column is open");
    check_path_4(&second, start, (0, 7), &empty_grid(8, 8));
    assert_eq!(second.len(), 8);
}
