//! The rover facade over the pathfinding strategies: holds the journey
//! state (position, goal, obstacle lists, chosen algorithm), builds the
//! occupancy grid that every strategy consumes, and rebuilds the active
//! strategy whenever the occupancy or the algorithm choice changes.

use vstd::prelude::*;
use vstd::string::StrSliceExecFns;
use crate::grid::{
    Coord, GridView, copy_coords, free_cell, in_bounds, path_valid8, reachable4, reachable8,
    view_of_grid, lemma_path4_is_path8,
};
use crate::astar::AStar;
use crate::dstar_lite::DStarLite;
use crate::field_dstar::FieldDStar;

verus! {

/// Largest grid side the rover accepts.
pub const MAX_DIM: usize = 0x1000;

/// The rover's externally visible state: where it stands, where it is
/// going, the route it follows, and the obstacle lists that drive
/// planning. Only the static and converted obstacles block pathfinding;
/// dynamic obstacles stay invisible to the strategies until converted.
pub struct RoverState {
    pub pos: Coord,
    pub goal: Coord,
    pub path: Vec<Coord>,
    pub obstacles: Vec<Coord>,
    pub dynamic_obstacles: Vec<Coord>,
    pub converted_obstacles: Vec<Coord>,
    pub algorithm: String,
    pub speed: u32,
    pub width: usize,
    pub height: usize,
}

/// A cell the rover's planners must avoid: listed as a static or a
/// converted obstacle.
pub open spec fn occupied_in(state: RoverState, c: Coord) -> bool {
    state.obstacles@.contains(c) || state.converted_obstacles@.contains(c)
}

/// The occupancy grid derived from the rover's obstacle lists.
pub open spec fn occ_view(state: RoverState) -> GridView {
    Seq::new(
        state.width as nat,
        |x: int| Seq::new(state.height as nat, |y: int| occupied_in(state, (x as usize, y as usize))),
    )
}

/// Two state values carry the same journey data: equal scalars and
/// equal list contents.
pub open spec fn state_eq(a: RoverState, b: RoverState) -> bool {
    &&& a.pos == b.pos
    &&& a.goal == b.goal
    &&& a.path@ == b.path@
    &&& a.obstacles@ == b.obstacles@
    &&& a.dynamic_obstacles@ == b.dynamic_obstacles@
    &&& a.converted_obstacles@ == b.converted_obstacles@
    &&& a.algorithm@ == b.algorithm@
    &&& a.speed == b.speed
    &&& a.width == b.width
    &&& a.height == b.height
}

/// The active strategy, chosen at runtime by name.
pub enum Strategy {
    AStar(AStar),
    DStarLite(DStarLite),
    FieldDStar(FieldDStar),
}

/// String equality over the characters of two slices.
fn str_eq(a: &str, b: &str) -> (r: bool)
    ensures
        r == (a@ == b@),
{
    let la = a.unicode_len();
    let lb = b.unicode_len();
    if la != lb {
        return false;
    }
    let mut i: usize = 0;
    while i < la
        invariant
            i <= la,
            la == a@.len(),
            la == b@.len(),
            forall|k: int| 0 <= k < i ==> a@[k] == b@[k],
        decreases la - i,
    {
        if a.get_char(i) != b.get_char(i) {
            return false;
        }
        i = i + 1;
    }
    proof {
        assert(a@ =~= b@);
    }
    true
}

/// An all-free occupancy grid of the given dimensions.
fn make_empty_grid(width: usize, height: usize) -> (r: Vec<Vec<bool>>)
    ensures
        r@.len() == width,
        forall|i: int| 0 <= i < width ==> (#[trigger] r@[i])@.len() == height,
        forall|i: int, j: int| 0 <= i < width && 0 <= j < height ==> !(#[trigger] r@[i]@[j]),
    decreases width,
{
    let mut grid: Vec<Vec<bool>> = Vec::new();
    let mut x: usize = 0;
    while x < width
        invariant
            x <= width,
            grid@.len() == x,
            forall|i: int| 0 <= i < x ==> (#[trigger] grid@[i])@.len() == height,
            forall|i: int, j: int| 0 <= i < x && 0 <= j < height ==> !(#[trigger] grid@[i]@[j]),
        decreases width - x,
    {
        let mut col: Vec<bool> = Vec::new();
        let mut y: usize = 0;
        while y < height
            invariant
                y <= height,
                col@.len() == y,
                forall|j: int| 0 <= j < y ==> !(#[trigger] col@[j]),
            decreases height - y,
        {
            col.push(false);
            y = y + 1;
        }
        grid.push(col);
        x = x + 1;
    }
    grid
}

/// Build the strategy named by `algorithm` over `grid`; an unrecognized
/// name falls back to the incremental strategy.
fn make_strategy(grid: Vec<Vec<bool>>, algorithm: &str, pos: Coord, goal: Coord) -> (r: Strategy)
    requires
        forall|i: int| 0 <= i < grid@.len() ==> (#[trigger] grid@[i])@.len() == grid@[0]@.len(),
        grid@.len() > 0,
        grid@[0]@.len() > 0,
        grid@.len() <= MAX_DIM,
        grid@[0]@.len() <= MAX_DIM,
        in_bounds(pos, grid@.len() as int, grid@[0]@.len() as int),
        in_bounds(goal, grid@.len() as int, grid@[0]@.len() as int),
    ensures
        strategy_wf(r),
        strategy_dims(r) == (grid@.len() as int, grid@[0]@.len() as int),
        strategy_grid(r) == view_of_grid(&grid),
        (r is AStar <==> algorithm@ == "A*"@),
        (r is FieldDStar <==> algorithm@ == "Field D*"@),
{
    proof {
        assert(grid@.len() * grid@[0]@.len() <= MAX_DIM * MAX_DIM) by (nonlinear_arith)
            requires
                grid@.len() <= MAX_DIM,
                grid@[0]@.len() <= MAX_DIM,
        {
        }
    }
    proof {
        reveal_strlit("A*");
        reveal_strlit("Field D*");
        assert("A*"@.len() == 2);
        assert("Field D*"@.len() == 8);
    }
    if str_eq(algorithm, "A*") {
        Strategy::AStar(AStar::new(grid, pos, goal))
    } else if str_eq(algorithm, "Field D*") {
        Strategy::FieldDStar(FieldDStar::new(grid, pos, goal))
    } else {
        Strategy::DStarLite(DStarLite::new(grid, pos, goal))
    }
}

pub open spec fn strategy_wf(s: Strategy) -> bool {
    match s {
        Strategy::AStar(a) => a.wf(),
        Strategy::DStarLite(d) => d.wf(),
        Strategy::FieldDStar(f) => f.wf(),
    }
}

pub open spec fn strategy_dims(s: Strategy) -> (int, int) {
    match s {
        Strategy::AStar(a) => (a.spec_width(), a.spec_height()),
        Strategy::DStarLite(d) => (d.spec_width(), d.spec_height()),
        Strategy::FieldDStar(f) => (f.spec_width(), f.spec_height()),
    }
}

pub open spec fn strategy_grid(s: Strategy) -> GridView {
    match s {
        Strategy::AStar(a) => a.gridv(),
        Strategy::DStarLite(d) => d.gridv(),
        Strategy::FieldDStar(f) => f.gridv(),
    }
}

/// The rover: its state plus the currently active strategy instance.
pub struct Rover {
    pub state: RoverState,
    pub pathfinder: Strategy,
    pub width: usize,
    pub height: usize,
}

impl Rover {
    /// The rover's bookkeeping is consistent: the cached dimensions match
    /// the state's, are small enough for every strategy, and leave room
    /// for the default start and goal.
    pub open spec fn wf(&self) -> bool {
        &&& self.width == self.state.width
        &&& self.height == self.state.height
        &&& 5 < self.width <= MAX_DIM
        &&& 5 < self.height <= MAX_DIM
    }

    /// A rover on an empty `width` by `height` grid, standing at `(5, 5)`
    /// and aiming at `(width - 5, height - 5)`, driven by the incremental
    /// strategy at the default speed.
    pub fn new(width: usize, height: usize) -> (r: Rover)
        requires
            5 < width <= MAX_DIM,
            5 < height <= MAX_DIM,
        ensures
            r.wf(),
            r.state.pos == ((5usize, 5usize)),
            r.state.goal == (((width - 5) as usize, (height - 5) as usize)),
            r.state.path@.len() == 0,
            r.state.obstacles@.len() == 0,
            r.state.dynamic_obstacles@.len() == 0,
            r.state.converted_obstacles@.len() == 0,
            r.state.algorithm@ == "D*-Lite"@,
            r.state.speed == 5,
            r.state.width == width,
            r.state.height == height,
    {
        let start = (5usize, 5usize);
        let goal = (width - 5, height - 5);
        let rover_state = RoverState {
            pos: start,
            goal,
            path: Vec::new(),
            obstacles: Vec::new(),
            dynamic_obstacles: Vec::new(),
            converted_obstacles: Vec::new(),
            algorithm: "D*-Lite".to_owned(),
            speed: 5,
            width,
            height,
        };

        let grid = make_empty_grid(width, height);
        proof {
            assert(width * height <= 0x100_0000) by (nonlinear_arith)
                requires
                    width <= 0x1000,
                    height <= 0x1000,
            {
            }
        }
        let pf = Strategy::DStarLite(DStarLite::new(grid, start, goal));

        Rover { state: rover_state, pathfinder: pf, width, height }
    }

    /// An independent rover with the same state: the strategy instance is
    /// rebuilt fresh from the current occupancy.
    pub fn clone(&self) -> (r: Rover)
        requires
            self.wf(),
            in_bounds(self.state.pos, self.width as int, self.height as int),
            in_bounds(self.state.goal, self.width as int, self.height as int),
        ensures
            r.wf(),
            state_eq(r.state, self.state),
    {
        let grid = self.build_grid();
        let pf = make_strategy(grid, self.state.algorithm.as_str(), self.state.pos, self.state.goal);
        Rover { state: self.clone_state(), pathfinder: pf, width: self.width, height: self.height }
    }

    /// A copy of the rover's state, for display and inspection.
    pub fn clone_state(&self) -> (r: RoverState)
        ensures
            state_eq(r, self.state),
    {
        let r = RoverState {
            pos: self.state.pos,
            goal: self.state.goal,
            path: copy_coords(&self.state.path),
            obstacles: copy_coords(&self.state.obstacles),
            dynamic_obstacles: copy_coords(&self.state.dynamic_obstacles),
            converted_obstacles: copy_coords(&self.state.converted_obstacles),
            algorithm: self.state.algorithm.clone(),
            speed: self.state.speed,
            width: self.state.width,
            height: self.state.height,
        };
        r
    }

    /// Switch the active algorithm by name and rebuild the strategy over
    /// the current occupancy; an unknown name selects the incremental
    /// strategy.
    pub fn set_algorithm(&mut self, algo: &str)
        requires
            old(self).wf(),
            in_bounds(old(self).state.pos, old(self).width as int, old(self).height as int),
            in_bounds(old(self).state.goal, old(self).width as int, old(self).height as int),
        ensures
            final(self).wf(),
            final(self).state.algorithm@ == algo@,
            final(self).state.pos == old(self).state.pos,
            final(self).state.goal == old(self).state.goal,
            final(self).state.path == old(self).state.path,
            final(self).state.obstacles == old(self).state.obstacles,
            final(self).state.dynamic_obstacles == old(self).state.dynamic_obstacles,
            final(self).state.converted_obstacles == old(self).state.converted_obstacles,
            final(self).state.speed == old(self).state.speed,
            final(self).state.width == old(self).state.width,
            final(self).state.height == old(self).state.height,
            final(self).width == old(self).width,
            final(self).height == old(self).height,
    {
        let grid = self.build_grid();
        self.state.algorithm = algo.to_owned();
        self.pathfinder = make_strategy(grid, algo, self.state.pos, self.state.goal);
    }

    /// Recompute the stored route from the current position to the goal:
    /// the active strategy is rebuilt over the current occupancy and
    /// queried once; no route leaves an empty path. When the best-first
    /// or continuous-cost strategy is active, the result is a valid route
    /// exactly when the goal is reachable under that connectivity.
    pub fn compute_path_now(&mut self) -> (r: Vec<Coord>)
        requires
            old(self).wf(),
            in_bounds(old(self).state.pos, old(self).width as int, old(self).height as int),
            in_bounds(old(self).state.goal, old(self).width as int, old(self).height as int),
        ensures
            final(self).wf(),
            final(self).state.path@ == r@,
            final(self).state.pos == old(self).state.pos,
            final(self).state.goal == old(self).state.goal,
            final(self).state.obstacles == old(self).state.obstacles,
            final(self).state.dynamic_obstacles == old(self).state.dynamic_obstacles,
            final(self).state.converted_obstacles == old(self).state.converted_obstacles,
            final(self).state.algorithm == old(self).state.algorithm,
            final(self).state.speed == old(self).state.speed,
            final(self).state.width == old(self).state.width,
            final(self).state.height == old(self).state.height,
            r@.len() > 0 ==> path_valid8(
                occ_view(old(self).state),
                r@,
                old(self).state.pos,
                old(self).state.goal,
                old(self).width as int,
                old(self).height as int,
            ),
            old(self).state.algorithm@ == "A*"@ ==> (r@.len() > 0 <==> reachable4(
                occ_view(old(self).state),
                old(self).state.pos,
                old(self).state.goal,
                old(self).width as int,
                old(self).height as int,
            )),
            old(self).state.algorithm@ == "Field D*"@ ==> (r@.len() > 0 <==> reachable8(
                occ_view(old(self).state),
                old(self).state.pos,
                old(self).state.goal,
                old(self).width as int,
                old(self).height as int,
            )),
            // the incremental strategy decides reachability too whenever
            // its propagation drained the fresh instance's frontier and
            // the rover stands on a free cell
            (final(self).pathfinder is DStarLite && (final(self).pathfinder->DStarLite_0).frontier().len() == 0
                && (!occupied_in(old(self).state, old(self).state.pos) || old(self).state.pos
                == old(self).state.goal)) ==> (r@.len() > 0 <==> reachable4(
                occ_view(old(self).state),
                old(self).state.pos,
                old(self).state.goal,
                old(self).width as int,
                old(self).height as int,
            )),
    {
        let ghost w = self.width as int;
        let ghost h = self.height as int;
        let ghost ov = occ_view(old(self).state);
        let grid = self.build_grid();
        self.pathfinder = make_strategy(
            grid,
            self.state.algorithm.as_str(),
            self.state.pos,
            self.state.goal,
        );

        let pos = self.state.pos;
        let goal = self.state.goal;
        let ghost astar_active = self.pathfinder is AStar;
        let ghost fd_active = self.pathfinder is FieldDStar;
        let found = match &mut self.pathfinder {
            Strategy::AStar(a) => {
                let r = a.compute_path(pos, goal);
                proof {
                    if r is Some {
                        lemma_path4_is_path8(ov, r.unwrap()@, pos, goal, w, h);
                    }
                }
                r
            },
            Strategy::DStarLite(d) => {
                let r = d.compute_path(pos, goal);
                proof {
                    if r is Some {
                        lemma_path4_is_path8(ov, r.unwrap()@, pos, goal, w, h);
                    }
                    if d.frontier().len() == 0 && (!occupied_in(old(self).state, pos) || pos
                        == goal) {
                        assert(free_cell(ov, pos, w, h) || pos == goal) by {
                            if pos != goal {
                                assert(ov[pos.0 as int][pos.1 as int] == occupied_in(
                                    old(self).state,
                                    pos,
                                ));
                            }
                        }
                        assert(r is Some <==> reachable4(ov, pos, goal, w, h));
                    }
                }
                r
            },
            Strategy::FieldDStar(f) => f.compute_path(pos, goal),
        };
        proof {
            if found is Some {
                assert(path_valid8(ov, found.unwrap()@, pos, goal, w, h));
            }
            if astar_active {
                assert(found is None ==> !reachable4(ov, pos, goal, w, h));
                if found is Some {
                    crate::grid::lemma_valid_path_implies_reachable4(
                        ov,
                        found.unwrap()@,
                        pos,
                        goal,
                        w,
                        h,
                    );
                }
            }
            if fd_active {
                assert(found is None ==> !reachable8(ov, pos, goal, w, h));
                if found is Some {
                    crate::grid::lemma_valid_path_implies_reachable8(
                        ov,
                        found.unwrap()@,
                        pos,
                        goal,
                        w,
                        h,
                    );
                }
            }
        }
        let path = match found {
            Some(p) => p,
            None => Vec::new(),
        };
        let out = copy_coords(&path);
        self.state.path = path;
        out
    }

    /// The occupancy grid that the strategies consume: static obstacles
    /// and converted obstacles block a cell; dynamic obstacles are
    /// invisible until converted.
    pub fn build_grid(&self) -> (r: Vec<Vec<bool>>)
        requires
            self.wf(),
        ensures
            r@.len() == self.width,
            forall|i: int| 0 <= i < self.width ==> (#[trigger] r@[i])@.len() == self.height,
            view_of_grid(&r) == occ_view(self.state),
    {
        let mut grid = make_empty_grid(self.width, self.height);
        let mut i: usize = 0;
        while i < self.state.obstacles.len()
            invariant
                self.wf(),
                grid@.len() == self.width,
                forall|k: int| 0 <= k < self.width ==> (#[trigger] grid@[k])@.len() == self.height,
                i <= self.state.obstacles@.len(),
                forall|c: Coord|
                    in_bounds(c, self.width as int, self.height as int) ==> (#[trigger] grid@[
                    c.0 as int]@[c.1 as int]) == self.state.obstacles@.take(i as int).contains(c),
            decreases self.state.obstacles@.len() - i,
        {
            let (ox, oy) = self.state.obstacles[i];
            proof {
                broadcast use vstd::seq_lib::lemma_seq_contains_after_push;

                assert(self.state.obstacles@.take(i + 1) =~= self.state.obstacles@.take(
                    i as int,
                ).push(self.state.obstacles@[i as int]));
            }
            if ox < self.width && oy < self.height {
                let col = &mut grid[ox];
                col[oy] = true;
            }
            i = i + 1;
        }
        proof {
            assert(self.state.obstacles@.take(self.state.obstacles@.len() as int)
                =~= self.state.obstacles@);
        }
        let mut j: usize = 0;
        while j < self.state.converted_obstacles.len()
            invariant
                self.wf(),
                grid@.len() == self.width,
                forall|k: int| 0 <= k < self.width ==> (#[trigger] grid@[k])@.len() == self.height,
                j <= self.state.converted_obstacles@.len(),
                forall|c: Coord|
                    in_bounds(c, self.width as int, self.height as int) ==> (#[trigger] grid@[
                    c.0 as int]@[c.1 as int]) == (self.state.obstacles@.contains(c)
                    || self.state.converted_obstacles@.take(j as int).contains(c)),
            decreases self.state.converted_obstacles@.len() - j,
        {
            let (ox, oy) = self.state.converted_obstacles[j];
            proof {
                broadcast use vstd::seq_lib::lemma_seq_contains_after_push;

                assert(self.state.converted_obstacles@.take(j + 1)
                    =~= self.state.converted_obstacles@.take(j as int).push(
                    self.state.converted_obstacles@[j as int],
                ));
            }
            if ox < self.width && oy < self.height {
                let col = &mut grid[ox];
                col[oy] = true;
            }
            j = j + 1;
        }
        proof {
            assert(self.state.converted_obstacles@.take(
                self.state.converted_obstacles@.len() as int,
            ) =~= self.state.converted_obstacles@);
            assert forall|x: int| 0 <= x < self.width implies view_of_grid(&grid)[x] =~= occ_view(
                self.state,
            )[x] by {
                assert forall|y: int| 0 <= y < self.height implies view_of_grid(&grid)[x][y]
                    == occ_view(self.state)[x][y] by {
                    let c = (x as usize, y as usize);
                    assert(grid@[c.0 as int]@[c.1 as int] == (self.state.obstacles@.contains(c)
                        || self.state.converted_obstacles@.contains(c)));
                }
            }
            assert(view_of_grid(&grid) =~= occ_view(self.state));
        }
        grid
    }

    /// Replace the static obstacle list.
    pub fn set_obstacles(&mut self, obstacles: Vec<Coord>)
        ensures
            final(self).state.obstacles@ == obstacles@,
            final(self).state.pos == old(self).state.pos,
            final(self).state.goal == old(self).state.goal,
            final(self).state.path == old(self).state.path,
            final(self).state.dynamic_obstacles == old(self).state.dynamic_obstacles,
            final(self).state.converted_obstacles == old(self).state.converted_obstacles,
            final(self).state.algorithm == old(self).state.algorithm,
            final(self).state.speed == old(self).state.speed,
            final(self).state.width == old(self).state.width,
            final(self).state.height == old(self).state.height,
            final(self).width == old(self).width,
            final(self).height == old(self).height,
            final(self).wf() == old(self).wf(),
    {
        self.state.obstacles = obstacles;
    }

    /// Move the rover to a new cell.
    pub fn set_position(&mut self, new_pos: Coord)
        ensures
            final(self).state.pos == new_pos,
            final(self).state == (RoverState { pos: new_pos, ..old(self).state }),
            final(self).width == old(self).width,
            final(self).height == old(self).height,
            final(self).wf() == old(self).wf(),
    {
        self.state.pos = new_pos;
    }

    /// Aim the rover at a new goal.
    pub fn set_goal(&mut self, new_goal: Coord)
        ensures
            final(self).state.goal == new_goal,
            final(self).state == (RoverState { goal: new_goal, ..old(self).state }),
            final(self).width == old(self).width,
            final(self).height == old(self).height,
            final(self).wf() == old(self).wf(),
    {
        self.state.goal = new_goal;
    }

    /// Set the display speed.
    pub fn set_speed(&mut self, s: u32)
        ensures
            final(self).state.speed == s,
            final(self).state == (RoverState { speed: s, ..old(self).state }),
            final(self).width == old(self).width,
            final(self).height == old(self).height,
            final(self).wf() == old(self).wf(),
    {
        self.state.speed = s;
    }
}

impl RoverState {
    /// Width of the grid this state lives on.
    pub fn grid_width(&self) -> (r: usize)
        ensures
            r == self.width,
    {
        self.width
    }

    /// Height of the grid this state lives on.
    pub fn grid_height(&self) -> (r: usize)
        ensures
            r == self.height,
    {
        self.height
    }
}

} // verus!
