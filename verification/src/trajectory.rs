//! The rover trajectory manager: owns the immutable traveled history and
//! the forward plan, invokes the chosen strategy to (re)compute the plan
//! from the obstacle map's union, and advances the rover one adjacent
//! cell per simulation tick. Two bounded fallback steppers (straight-line,
//! then greedy) are tried when the primary strategy yields nothing.

use vstd::prelude::*;
use crate::grid::{
    Coord, GridView, cheb, cheb_spec, contains_coord, copy_coords, free_cell, in_bounds,
    path_valid4, path_valid8, reachable4, reachable8, step_ok4,
    lemma_valid_path_implies_reachable4, lemma_valid_path_implies_reachable8,
    lemma_path4_is_path8,
};
use crate::rover::{Rover, occ_view, occupied_in};

verus! {

/// The fixed grid the simulation runs on.
pub const GRID_WIDTH: usize = 50;

/// See `GRID_WIDTH`.
pub const GRID_HEIGHT: usize = 30;

/// Bound on the fallback steppers, so no repair loop can run away.
pub const STEP_LIMIT: usize = 1000;

/// The occupancy grid described by a plain list of blocked cells.
pub open spec fn map_view(map: Seq<Coord>) -> GridView {
    Seq::new(
        GRID_WIDTH as nat,
        |x: int| Seq::new(GRID_HEIGHT as nat, |y: int| map.contains((x as usize, y as usize))),
    )
}

/// The single cell the straight-line stepper visits after `c` on its way
/// to `goal`: both axes move one cell toward the goal at once.
pub open spec fn step_toward(c: Coord, goal: Coord) -> Coord {
    (
        if c.0 < goal.0 {
            (c.0 + 1) as usize
        } else if c.0 > goal.0 {
            (c.0 - 1) as usize
        } else {
            c.0
        },
        if c.1 < goal.1 {
            (c.1 + 1) as usize
        } else if c.1 > goal.1 {
            (c.1 - 1) as usize
        } else {
            c.1
        },
    )
}

/// The trajectory manager's state. `traveled_path` is history: it begins
/// at the start and only ever grows by the cell of a successful move.
/// `planned_path` is the remaining route: its head is the current
/// position whenever it is non-empty, and it is replaced wholesale — never
/// appended to — on every replan.
pub struct RoverLayer {
    pub current_position: Coord,
    pub goal_position: Coord,
    pub start_position: Coord,
    pub traveled_path: Vec<Coord>,
    pub planned_path: Vec<Coord>,
    pub algorithm: String,
    pub is_journey_active: bool,
}

impl RoverLayer {
    /// The manager's invariant: positions are on the grid, history is
    /// never empty, and a non-empty plan starts where the rover stands.
    pub open spec fn wf(&self) -> bool {
        &&& in_bounds(self.current_position, GRID_WIDTH as int, GRID_HEIGHT as int)
        &&& in_bounds(self.goal_position, GRID_WIDTH as int, GRID_HEIGHT as int)
        &&& in_bounds(self.start_position, GRID_WIDTH as int, GRID_HEIGHT as int)
        &&& self.traveled_path@.len() >= 1
        &&& self.planned_path@.len() > 0 ==> self.planned_path@[0] == self.current_position
        &&& forall|i: int|
            0 <= i < self.planned_path@.len() ==> in_bounds(
                #[trigger] self.planned_path@[i],
                GRID_WIDTH as int,
                GRID_HEIGHT as int,
            )
    }

    /// A fresh trajectory standing at `start`, aiming at `goal`, with the
    /// best-first strategy selected and only the start in its history.
    pub fn new(start: Coord, goal: Coord) -> (r: RoverLayer)
        requires
            in_bounds(start, GRID_WIDTH as int, GRID_HEIGHT as int),
            in_bounds(goal, GRID_WIDTH as int, GRID_HEIGHT as int),
        ensures
            r.wf(),
            r.current_position == start,
            r.goal_position == goal,
            r.start_position == start,
            r.traveled_path@ == seq![start],
            r.planned_path@ == Seq::<Coord>::empty(),
            r.algorithm@ == "A*"@,
            !r.is_journey_active,
    {
        let mut traveled: Vec<Coord> = Vec::new();
        traveled.push(start);
        proof {
            assert(traveled@ =~= seq![start]);
        }
        RoverLayer {
            current_position: start,
            goal_position: goal,
            start_position: start,
            traveled_path: traveled,
            planned_path: Vec::new(),
            algorithm: "A*".to_owned(),
            is_journey_active: false,
        }
    }

    /// A straight-line stepper: walk both axes toward the goal at once,
    /// one cell per step, ignoring obstacles; bounded defensively.
    #[verifier::spinoff_prover]
    #[verifier::rlimit(100)]
    pub fn create_simple_direct_path(start: Coord, goal: Coord) -> (r: Vec<Coord>)
        ensures
            r@.len() >= 1,
            r@[0] == start,
            r@.len() <= STEP_LIMIT + 1,
            cheb_spec(start, goal) <= STEP_LIMIT ==> r@[r@.len() - 1] == goal && r@.len()
                == cheb_spec(start, goal) + 1,
            forall|i: int|
                0 <= i < r@.len() - 1 ==> cheb_spec(#[trigger] r@[i], r@[i + 1]) == 1 && r@[i + 1]
                    == step_toward(r@[i], goal),
            forall|i: int|
                0 <= i < r@.len() ==> (#[trigger] r@[i]).0 <= (if start.0 >= goal.0 {
                    start.0
                } else {
                    goal.0
                }) && r@[i].1 <= (if start.1 >= goal.1 {
                    start.1
                } else {
                    goal.1
                }),
    {
        let mut path: Vec<Coord> = Vec::new();
        path.push(start);
        let mut current = start;
        let ghost bx = if start.0 >= goal.0 {
            start.0
        } else {
            goal.0
        };
        let ghost by = if start.1 >= goal.1 {
            start.1
        } else {
            goal.1
        };
        while !(current.0 == goal.0 && current.1 == goal.1) && path.len() <= STEP_LIMIT
            invariant
                path@.len() >= 1,
                path@.len() <= STEP_LIMIT + 1,
                path@[0] == start,
                path@[path@.len() - 1] == current,
                path@.len() - 1 + cheb_spec(current, goal) == cheb_spec(start, goal),
                forall|i: int|
                    0 <= i < path@.len() - 1 ==> cheb_spec(#[trigger] path@[i], path@[i + 1]) == 1
                        && path@[i + 1] == step_toward(path@[i], goal),
                forall|i: int|
                    0 <= i < path@.len() ==> (#[trigger] path@[i]).0 <= bx && path@[i].1 <= by,
                current.0 <= bx && current.1 <= by,
                goal.0 <= bx && goal.1 <= by,
            decreases cheb_spec(current, goal),
        {
            let (cx, cy) = current;
            let (gx, gy) = goal;

            let next_x = if cx < gx {
                cx + 1
            } else if cx > gx {
                cx - 1
            } else {
                cx
            };
            let next_y = if cy < gy {
                cy + 1
            } else if cy > gy {
                cy - 1
            } else {
                cy
            };

            let ghost path_pre = path@;
            current = (next_x, next_y);
            path.push(current);
            proof {
                assert(current.0 <= bx && current.1 <= by);
                assert(current == step_toward((cx, cy), goal));
                assert forall|i: int|
                    0 <= i < path@.len() - 1 implies cheb_spec(#[trigger] path@[i], path@[i + 1])
                    == 1 && path@[i + 1] == step_toward(path@[i], goal) by {
                    if i < path@.len() - 2 {
                        assert(path@[i] == path_pre[i] && path@[i + 1] == path_pre[i + 1]);
                    } else {
                        assert(path@[i] == (cx, cy) && path@[i + 1] == current);
                    }
                }
                assert forall|i: int|
                    0 <= i < path@.len() implies (#[trigger] path@[i]).0 <= bx && path@[i].1
                    <= by by {
                    if i < path@.len() - 1 {
                        assert(path@[i] == path_pre[i]);
                    } else {
                        assert(path@[i] == current);
                    }
                }
            }
        }
        path
    }

    /// A greedy 4-directional stepper: repeatedly move to the free
    /// neighbor nearest the goal; bounded, and counted a success only when
    /// the goal is actually reached.
    #[verifier::spinoff_prover]
    #[verifier::rlimit(100)]
    pub fn create_greedy_path(start: Coord, goal: Coord, obstacles: &Vec<Coord>) -> (r: Vec<Coord>)
        requires
            in_bounds(start, GRID_WIDTH as int, GRID_HEIGHT as int),
            in_bounds(goal, GRID_WIDTH as int, GRID_HEIGHT as int),
        ensures
            r@.len() > 0 ==> path_valid4(
                map_view(obstacles@),
                r@,
                start,
                goal,
                GRID_WIDTH as int,
                GRID_HEIGHT as int,
            ),
            r@.len() <= STEP_LIMIT + 1,
            start == goal ==> r@ == seq![start],
    {
        let mut path: Vec<Coord> = Vec::new();
        path.push(start);
        let mut current = start;
        let mut round: usize = 0;
        let ghost gv = map_view(obstacles@);
        proof {
            assert(path@ =~= seq![start]);
        }
        while round < STEP_LIMIT && !(current.0 == goal.0 && current.1 == goal.1)
            invariant
                start == goal ==> path@ == seq![start],
                path@.len() >= 1,
                path@.len() <= round + 1,
                round <= STEP_LIMIT,
                path@[0] == start,
                path@[path@.len() - 1] == current,
                in_bounds(current, GRID_WIDTH as int, GRID_HEIGHT as int),
                in_bounds(goal, GRID_WIDTH as int, GRID_HEIGHT as int),
                forall|i: int|
                    0 <= i < path@.len() - 1 ==> #[trigger] step_ok4(
                        gv,
                        path@,
                        i,
                        GRID_WIDTH as int,
                        GRID_HEIGHT as int,
                    ),
                gv == map_view(obstacles@),
            decreases STEP_LIMIT - round,
        {
            let (cx, cy) = current;
            let (gx, gy) = goal;

            let mut nbrs: Vec<Coord> = Vec::new();
            if cy + 1 < GRID_HEIGHT {
                nbrs.push((cx, cy + 1));
            }
            if cy > 0 {
                nbrs.push((cx, cy - 1));
            }
            if cx + 1 < GRID_WIDTH {
                nbrs.push((cx + 1, cy));
            }
            if cx > 0 {
                nbrs.push((cx - 1, cy));
            }
            proof {
                assert forall|k: int| 0 <= k < nbrs@.len() implies cheb_spec(
                    current,
                    #[trigger] nbrs@[k],
                ) == 1 && crate::grid::manhattan_spec(current, nbrs@[k]) == 1 && in_bounds(
                    nbrs@[k],
                    GRID_WIDTH as int,
                    GRID_HEIGHT as int,
                ) by {
                }
            }

            let mut best_next = current;
            let mut best_d2: u64 = 0xFFFF_FFFF;
            let mut k: usize = 0;
            while k < nbrs.len()
                invariant
                    in_bounds(goal, GRID_WIDTH as int, GRID_HEIGHT as int),
                    forall|m: int|
                        0 <= m < nbrs@.len() ==> crate::grid::manhattan_spec(
                            current,
                            #[trigger] nbrs@[m],
                        ) == 1 && in_bounds(nbrs@[m], GRID_WIDTH as int, GRID_HEIGHT as int),
                    gv == map_view(obstacles@),
                    best_next == current || (crate::grid::manhattan_spec(current, best_next) == 1
                        && free_cell(gv, best_next, GRID_WIDTH as int, GRID_HEIGHT as int)),
                decreases nbrs@.len() - k,
            {
                let n = nbrs[k];
                if !contains_coord(obstacles, n) {
                    let dx = if n.0 >= goal.0 {
                        (n.0 - goal.0) as u64
                    } else {
                        (goal.0 - n.0) as u64
                    };
                    let dy = if n.1 >= goal.1 {
                        (n.1 - goal.1) as u64
                    } else {
                        (goal.1 - n.1) as u64
                    };
                    proof {
                        assert(dx < 64 && dy < 64);
                        assert(dx * dx < 4096 && dy * dy < 4096) by (nonlinear_arith)
                            requires
                                dx < 64,
                                dy < 64,
                        {
                        }
                    }
                    let d2 = dx * dx + dy * dy;
                    if d2 < best_d2 {
                        best_d2 = d2;
                        best_next = n;
                        proof {
                            assert(!obstacles@.contains(n));
                            assert(gv[n.0 as int][n.1 as int] == obstacles@.contains(n));
                        }
                    }
                }
                k = k + 1;
            }

            if best_next.0 == current.0 && best_next.1 == current.1 {
                let mut k2: usize = 0;
                while k2 < nbrs.len()
                    invariant
                        forall|m: int|
                            0 <= m < nbrs@.len() ==> crate::grid::manhattan_spec(
                                current,
                                #[trigger] nbrs@[m],
                            ) == 1 && in_bounds(nbrs@[m], GRID_WIDTH as int, GRID_HEIGHT as int),
                        gv == map_view(obstacles@),
                        best_next == current || (crate::grid::manhattan_spec(current, best_next)
                            == 1 && free_cell(gv, best_next, GRID_WIDTH as int, GRID_HEIGHT as int)),
                    decreases nbrs@.len() - k2,
                {
                    let n = nbrs[k2];
                    if !contains_coord(obstacles, n) {
                        best_next = n;
                        proof {
                            assert(gv[n.0 as int][n.1 as int] == obstacles@.contains(n));
                        }
                        break;
                    }
                    k2 = k2 + 1;
                }
            }

            if best_next.0 == current.0 && best_next.1 == current.1 {
                break;
            }

            let ghost path_pre = path@;
            current = best_next;
            path.push(current);
            proof {
                assert forall|i: int|
                    0 <= i < path@.len() - 1 implies #[trigger] step_ok4(
                    gv,
                    path@,
                    i,
                    GRID_WIDTH as int,
                    GRID_HEIGHT as int,
                ) by {
                    if i < path@.len() - 2 {
                        assert(path@[i] == path_pre[i] && path@[i + 1] == path_pre[i + 1]);
                        assert(step_ok4(gv, path_pre, i, GRID_WIDTH as int, GRID_HEIGHT as int));
                    } else {
                        assert(path@[i] == (cx, cy) && path@[i + 1] == current);
                    }
                }
            }
            round = round + 1;
        }

        if current.0 == goal.0 && current.1 == goal.1 {
            path
        } else {
            Vec::new()
        }
    }

    /// Advance one cell along the plan. Requires at least two planned
    /// cells; a desynchronized head is overwritten with the current
    /// position once; a non-adjacent step is rejected. On success the next
    /// cell is appended to the history, removed from the front of the
    /// plan, and becomes the current position.
    pub fn execute_movement_step(&mut self) -> (r: bool)
        requires
            old(self).wf(),
        ensures
            final(self).wf(),
            final(self).goal_position == old(self).goal_position,
            final(self).start_position == old(self).start_position,
            final(self).algorithm == old(self).algorithm,
            final(self).is_journey_active == old(self).is_journey_active,
            old(self).planned_path@.len() < 2 ==> !r && *final(self) == *old(self),
            (old(self).planned_path@.len() >= 2 && cheb_spec(
                old(self).current_position,
                old(self).planned_path@[1],
            ) > 1) ==> {
                &&& !r
                &&& final(self).current_position == old(self).current_position
                &&& final(self).traveled_path@ == old(self).traveled_path@
                &&& final(self).planned_path@ == old(self).planned_path@.update(
                    0,
                    old(self).current_position,
                )
            },
            (old(self).planned_path@.len() >= 2 && cheb_spec(
                old(self).current_position,
                old(self).planned_path@[1],
            ) <= 1) ==> {
                &&& r
                &&& final(self).current_position == old(self).planned_path@[1]
                &&& final(self).traveled_path@ == old(self).traveled_path@.push(
                    old(self).planned_path@[1],
                )
                &&& final(self).planned_path@ == old(self).planned_path@.subrange(
                    1,
                    old(self).planned_path@.len() as int,
                )
            },
            final(self).traveled_path@.len() >= old(self).traveled_path@.len(),
    {
        if self.planned_path.len() < 2 {
            return false;
        }

        let current_step = self.planned_path[0];
        if !(current_step.0 == self.current_position.0 && current_step.1
            == self.current_position.1) {
            let p = self.current_position;
            self.planned_path[0] = p;
        } else {
            proof {
                assert(self.planned_path@ =~= old(self).planned_path@.update(
                    0,
                    old(self).current_position,
                ));
            }
        }

        let next_position = self.planned_path[1];

        let d = cheb(self.current_position, next_position);
        if d > 1 {
            return false;
        }

        self.current_position = next_position;
        self.traveled_path.push(next_position);
        self.planned_path.remove(0);
        proof {
            assert(self.planned_path@ =~= old(self).planned_path@.subrange(
                1,
                old(self).planned_path@.len() as int,
            ));
        }
        true
    }

    /// The rover stands on its goal.
    pub fn has_reached_goal(&self) -> (r: bool)
        ensures
            r == (self.current_position == self.goal_position),
    {
        self.current_position.0 == self.goal_position.0 && self.current_position.1
            == self.goal_position.1
    }

    /// Select a strategy by name; the plan is invalidated since the
    /// search problem changed.
    pub fn set_algorithm(&mut self, algo: &str)
        requires
            old(self).wf(),
        ensures
            final(self).wf(),
            final(self).algorithm@ == algo@,
            final(self).planned_path@ == Seq::<Coord>::empty(),
            final(self).current_position == old(self).current_position,
            final(self).goal_position == old(self).goal_position,
            final(self).start_position == old(self).start_position,
            final(self).traveled_path == old(self).traveled_path,
            final(self).is_journey_active == old(self).is_journey_active,
    {
        self.algorithm = algo.to_owned();
        self.planned_path.clear();
    }

    /// Aim at a new goal; the plan is invalidated.
    pub fn set_goal(&mut self, new_goal: Coord)
        requires
            old(self).wf(),
            in_bounds(new_goal, GRID_WIDTH as int, GRID_HEIGHT as int),
        ensures
            final(self).wf(),
            final(self).goal_position == new_goal,
            final(self).planned_path@ == Seq::<Coord>::empty(),
            final(self).current_position == old(self).current_position,
            final(self).start_position == old(self).start_position,
            final(self).traveled_path == old(self).traveled_path,
            final(self).algorithm == old(self).algorithm,
            final(self).is_journey_active == old(self).is_journey_active,
    {
        self.goal_position = new_goal;
        self.planned_path.clear();
    }

    /// Return to a (possibly new) start: history restarts there, the plan
    /// is dropped, and the journey is no longer active.
    pub fn reset_to_start(&mut self, start: Coord)
        requires
            old(self).wf(),
            in_bounds(start, GRID_WIDTH as int, GRID_HEIGHT as int),
        ensures
            final(self).wf(),
            final(self).start_position == start,
            final(self).current_position == start,
            final(self).traveled_path@ == seq![start],
            final(self).planned_path@ == Seq::<Coord>::empty(),
            final(self).goal_position == old(self).goal_position,
            final(self).algorithm == old(self).algorithm,
            !final(self).is_journey_active,
    {
        self.start_position = start;
        self.current_position = start;
        let mut traveled: Vec<Coord> = Vec::new();
        traveled.push(start);
        proof {
            assert(traveled@ =~= seq![start]);
        }
        self.traveled_path = traveled;
        self.planned_path.clear();
        self.is_journey_active = false;
    }
}

impl RoverLayer {
    /// Recompute the forward plan from the obstacle map's union. The
    /// traveled history is never touched; the old plan is dropped first.
    /// A blocked goal fails immediately, with no fallback attempted. An
    /// empty map takes the straight-line stepper. Otherwise the selected
    /// strategy plans over the map; if it finds nothing the greedy stepper
    /// is tried. With the best-first or continuous-cost strategy active
    /// and a free goal, the call succeeds exactly when the goal is
    /// reachable under that strategy's connectivity.
    #[verifier::spinoff_prover]
    #[verifier::rlimit(100)]
    pub fn compute_path_from_som(&mut self, obstacle_map: Vec<Coord>) -> (r: bool)
        requires
            old(self).wf(),
        ensures
            final(self).wf(),
            final(self).current_position == old(self).current_position,
            final(self).goal_position == old(self).goal_position,
            final(self).start_position == old(self).start_position,
            final(self).traveled_path == old(self).traveled_path,
            final(self).algorithm == old(self).algorithm,
            final(self).is_journey_active == old(self).is_journey_active,
            obstacle_map@.contains(old(self).goal_position) ==> !r,
            !r ==> final(self).planned_path@.len() == 0,
            r ==> final(self).planned_path@.len() >= 1 && final(self).planned_path@[0] == old(
                self,
            ).current_position && final(self).planned_path@[final(self).planned_path@.len() - 1]
                == old(self).goal_position,
            r ==> forall|i: int|
                0 <= i < final(self).planned_path@.len() - 1 ==> cheb_spec(
                    #[trigger] final(self).planned_path@[i],
                    final(self).planned_path@[i + 1],
                ) == 1,
            r && obstacle_map@.len() > 0 ==> forall|i: int|
                1 <= i < final(self).planned_path@.len() ==> !obstacle_map@.contains(
                    #[trigger] final(self).planned_path@[i],
                ),
            obstacle_map@.len() == 0 ==> r,
            (old(self).algorithm@ == "A*"@ && !obstacle_map@.contains(old(self).goal_position)
                && obstacle_map@.len() > 0) ==> (r <==> reachable4(
                map_view(obstacle_map@),
                old(self).current_position,
                old(self).goal_position,
                GRID_WIDTH as int,
                GRID_HEIGHT as int,
            )),
            (old(self).algorithm@ == "Field D*"@ && !obstacle_map@.contains(
                old(self).goal_position,
            ) && obstacle_map@.len() > 0) ==> (r <==> reachable8(
                map_view(obstacle_map@),
                old(self).current_position,
                old(self).goal_position,
                GRID_WIDTH as int,
                GRID_HEIGHT as int,
            )),
    {
        let ghost w = GRID_WIDTH as int;
        let ghost h = GRID_HEIGHT as int;
        let ghost mv = map_view(obstacle_map@);
        self.planned_path.clear();

        if contains_coord(&obstacle_map, self.goal_position) {
            return false;
        }

        if obstacle_map.len() == 0 {
            let simple_path = Self::create_simple_direct_path(
                self.current_position,
                self.goal_position,
            );
            proof {
                assert(cheb_spec(self.current_position, self.goal_position) < 50);
                assert forall|i: int|
                    0 <= i < simple_path@.len() implies in_bounds(
                    #[trigger] simple_path@[i],
                    w,
                    h,
                ) by {
                    assert(simple_path@[i].0 <= (if self.current_position.0
                        >= self.goal_position.0 {
                        self.current_position.0
                    } else {
                        self.goal_position.0
                    }));
                }
            }
            if simple_path.len() > 0 {
                self.planned_path = simple_path;
                return true;
            }
        }

        let mut rover = Rover::new(GRID_WIDTH, GRID_HEIGHT);
        rover.set_position(self.current_position);
        rover.set_goal(self.goal_position);
        rover.set_obstacles(copy_coords(&obstacle_map));
        rover.set_algorithm(self.algorithm.as_str());

        let ghost rs = rover.state;
        proof {
            assert forall|x: int| 0 <= x < w implies occ_view(rs)[x] =~= mv[x] by {
                assert forall|y: int| 0 <= y < h implies occ_view(rs)[x][y] == mv[x][y] by {
                    let c = (x as usize, y as usize);
                    assert(occupied_in(rs, c) == obstacle_map@.contains(c));
                }
            }
            assert(occ_view(rs) =~= mv);
        }
        let new_path = rover.compute_path_now();

        if new_path.len() == 0 {
            let fallback_path = Self::create_greedy_path(
                self.current_position,
                self.goal_position,
                &obstacle_map,
            );
            if fallback_path.len() > 0 {
                proof {
                    lemma_valid_path_implies_reachable4(
                        mv,
                        fallback_path@,
                        self.current_position,
                        self.goal_position,
                        w,
                        h,
                    );
                    lemma_path4_is_path8(
                        mv,
                        fallback_path@,
                        self.current_position,
                        self.goal_position,
                        w,
                        h,
                    );
                    lemma_valid_path_implies_reachable8(
                        mv,
                        fallback_path@,
                        self.current_position,
                        self.goal_position,
                        w,
                        h,
                    );
                    assert forall|i: int|
                        0 <= i < fallback_path@.len() - 1 implies cheb_spec(
                        #[trigger] fallback_path@[i],
                        fallback_path@[i + 1],
                    ) == 1 by {
                        assert(step_ok4(mv, fallback_path@, i, w, h));
                    }
                    assert forall|i: int|
                        0 <= i < fallback_path@.len() implies in_bounds(
                        #[trigger] fallback_path@[i],
                        w,
                        h,
                    ) && (i >= 1 ==> !obstacle_map@.contains(fallback_path@[i])) by {
                        if i >= 1 {
                            assert(step_ok4(mv, fallback_path@, i - 1, w, h));
                            assert(free_cell(mv, fallback_path@[i], w, h));
                            assert(mv[fallback_path@[i].0 as int][fallback_path@[i].1 as int]
                                == obstacle_map@.contains(fallback_path@[i]));
                        }
                    }
                }
                self.planned_path = fallback_path;
                return true;
            }

            proof {
                if self.algorithm@ == "A*"@ && obstacle_map@.len() > 0 {
                    assert(!reachable4(mv, self.current_position, self.goal_position, w, h));
                }
                if self.algorithm@ == "Field D*"@ && obstacle_map@.len() > 0 {
                    assert(!reachable8(mv, self.current_position, self.goal_position, w, h));
                }
            }
            return false;
        }

        proof {
            assert(path_valid8(mv, new_path@, self.current_position, self.goal_position, w, h));
            assert(new_path@[0] == self.current_position);
            if self.algorithm@ == "A*"@ && obstacle_map@.len() > 0 {
                assert(reachable4(mv, self.current_position, self.goal_position, w, h));
            }
            if self.algorithm@ == "Field D*"@ && obstacle_map@.len() > 0 {
                lemma_valid_path_implies_reachable8(
                    mv,
                    new_path@,
                    self.current_position,
                    self.goal_position,
                    w,
                    h,
                );
            }
            assert forall|i: int|
                0 <= i < new_path@.len() - 1 implies cheb_spec(
                #[trigger] new_path@[i],
                new_path@[i + 1],
            ) == 1 by {
                assert(crate::grid::step_ok8(mv, new_path@, i, w, h));
            }
            assert forall|i: int|
                0 <= i < new_path@.len() implies in_bounds(#[trigger] new_path@[i], w, h) && (i
                >= 1 ==> !obstacle_map@.contains(new_path@[i])) by {
                if i >= 1 {
                    assert(crate::grid::step_ok8(mv, new_path@, i - 1, w, h));
                    assert(free_cell(mv, new_path@[i], w, h));
                    assert(mv[new_path@[i].0 as int][new_path@[i].1 as int]
                        == obstacle_map@.contains(new_path@[i]));
                }
            }
        }

        if !(new_path[0].0 == self.current_position.0 && new_path[0].1
            == self.current_position.1) {
            return false;
        }

        self.planned_path = new_path;
        true
    }
}

} // verus!
