//! Incremental replanning search over a 4-connected grid, after Koenig &
//! Likhachev's D*-Lite. Each cell keeps `g` (best known cost-to-goal) and
//! `rhs` (one-step lookahead); a frontier ordered by a two-part key driven
//! by `km`, the accumulated heuristic drift of the start, lets a replan
//! resume from partially-valid state instead of recomputing every cell.
//! `update_obstacle` repairs the affected cells' lookahead so the next
//! `compute_path` can reuse prior work. A returned path is proved to be a
//! valid 4-connected route through free cells; the planner's invariant
//! keeps every inconsistent cell queued and every free cell's lookahead
//! current, so a drained frontier certifies settled tables, and
//! `compute_path` then provably decides reachability exactly
//! (`lemma_settled_lookahead_decides`). That the bounded, early-stopping
//! propagation drains or stops on every run — and hence matches a fresh
//! rebuild — is checked by the test suite, not by proof.

use vstd::prelude::*;
use crate::pathfinder::Pathfinder;
use crate::grid::{
    Coord, GridView, adj4, free_cell, grid_wf, in_bounds, manhattan_spec, path_valid4, reachable4,
    step_ok4, neighbor_list4, unique_seq, view_of_grid, lemma_valid_path_implies_reachable4,
};
use vstd::set_lib::{lemma_int_range, lemma_len_subset, set_int_range};
use crate::costs::{
    INF, cell_idx, flat_idx, lemma_cell_idx_bound, lemma_cell_idx_distinct,
    lemma_cell_idx_injective, sadd, sadd_spec,
};
use crate::openlist::{Entry, OpenList, popped, popped_any, pops_before};

verus! {

/// Upper bound on the number of grid cells.
pub const MAX_CELLS4: usize = 0x100_0000;

/// The smaller of two mathematical costs.
pub open spec fn min_cost(a: int, b: int) -> int {
    if a <= b {
        a
    } else {
        b
    }
}

/// The cost of reaching the goal by first stepping into `n`: `n`'s best
/// known cost plus one step, infinite when `n` is blocked or off the grid.
pub open spec fn nbr_cost(s: DStarLite, n: Coord) -> int {
    if free_cell(s.gridv(), n, s.spec_width(), s.spec_height()) {
        sadd_spec(s.g_at(n) as int, 1)
    } else {
        INF as int
    }
}

/// The one-step lookahead the propagation maintains for each cell: zero
/// at the goal, otherwise the best cost through any orthogonal neighbor.
pub open spec fn lookahead(s: DStarLite, c: Coord) -> int {
    if c == s.spec_goal() {
        0
    } else {
        min_cost(
            min_cost(
                if c.1 > 0 {
                    nbr_cost(s, (c.0, (c.1 - 1) as usize))
                } else {
                    INF as int
                },
                nbr_cost(s, (c.0, (c.1 + 1) as usize)),
            ),
            min_cost(
                if c.0 > 0 {
                    nbr_cost(s, ((c.0 - 1) as usize, c.1))
                } else {
                    INF as int
                },
                nbr_cost(s, ((c.0 + 1) as usize, c.1)),
            ),
        )
    }
}

/// The first component of a cell's frontier key:
/// `min(g, rhs) + h(c, start) + km`, saturating at the infinite cost.
pub open spec fn key1_of(s: DStarLite, c: Coord) -> int {
    sadd_spec(
        sadd_spec(
            min_cost(s.g_at(c) as int, s.rhs_at(c) as int),
            manhattan_spec(c, s.spec_start()),
        ),
        s.spec_km() as int,
    )
}

/// The second component of a cell's frontier key: `min(g, rhs)`.
pub open spec fn key2_of(s: DStarLite, c: Coord) -> int {
    min_cost(s.g_at(c) as int, s.rhs_at(c) as int)
}

/// Entry `e` sorts in front of cell `c`'s freshly computed key.
pub open spec fn entry_before_key(e: Entry, s: DStarLite, c: Coord) -> bool {
    (e.k1 as int) < key1_of(s, c) || (e.k1 as int == key1_of(s, c) && (e.k2 as int) < key2_of(
        s,
        c,
    ))
}

/// The propagation's own stopping state: the start is locally consistent
/// and the frontier's front entry — the one `pop` would take — does not
/// sort in front of the start's key.
pub open spec fn propagation_stopped(s: DStarLite) -> bool {
    &&& s.g_at(s.spec_start()) == s.rhs_at(s.spec_start())
    &&& s.frontier().len() > 0 ==> exists|j: int|
        0 <= j < s.frontier().len() && (forall|i: int|
            0 <= i < s.frontier().len() && i != j ==> pops_before(
                s.frontier()[j],
                #[trigger] s.frontier()[i],
                false,
            ) || s.frontier()[i] == s.frontier()[j]) && !entry_before_key(
            s.frontier()[j],
            s,
            s.spec_start(),
        )
}

/// Some frontier entry is for cell `c`.
pub open spec fn frontier_has(f: Seq<Entry>, c: Coord) -> bool {
    exists|k: int| 0 <= k < f.len() && (#[trigger] f[k]).coord == c
}

proof fn lemma_frontier_has_after_push(f: Seq<Entry>, e: Entry, c: Coord)
    requires
        frontier_has(f, c) || e.coord == c,
    ensures
        frontier_has(f.push(e), c),
{
    if e.coord == c {
        assert(f.push(e)[f.len() as int].coord == c);
    } else {
        let k = choose|k: int| 0 <= k < f.len() && (#[trigger] f[k]).coord == c;
        assert(f.push(e)[k].coord == c);
    }
}

proof fn lemma_frontier_has_after_remove(f: Seq<Entry>, j: int, c: Coord)
    requires
        0 <= j < f.len(),
        frontier_has(f, c),
        f[j].coord != c,
    ensures
        frontier_has(f.remove(j), c),
{
    let k = choose|k: int| 0 <= k < f.len() && (#[trigger] f[k]).coord == c;
    f.remove_ensures(j);
    if k < j {
        assert(f.remove(j)[k].coord == c);
    } else {
        assert(f.remove(j)[k - 1].coord == c);
    }
}

/// Two planner states with equal costs, grid, dimensions and goal give
/// every cell the same lookahead.
proof fn lemma_lookahead_congruence(s1: DStarLite, s2: DStarLite, c: Coord)
    requires
        s1.g@ == s2.g@,
        s1.gridv() == s2.gridv(),
        s1.spec_width() == s2.spec_width(),
        s1.spec_height() == s2.spec_height(),
        s1.spec_goal() == s2.spec_goal(),
    ensures
        lookahead(s1, c) == lookahead(s2, c),
{
}

/// Toggling one cell's occupancy leaves the lookahead of every cell that
/// is neither that cell nor its orthogonal neighbor unchanged, and leaves
/// every other cell's freeness unchanged.
proof fn lemma_lookahead_grid_local(s1: DStarLite, s2: DStarLite, t: Coord, c: Coord)
    requires
        s1.wf_core(),
        s2.wf_core(),
        s1.g@ == s2.g@,
        s1.spec_width() == s2.spec_width(),
        s1.spec_height() == s2.spec_height(),
        s1.spec_goal() == s2.spec_goal(),
        in_bounds(t, s1.spec_width(), s1.spec_height()),
        in_bounds(c, s1.spec_width(), s1.spec_height()),
        forall|q: Coord|
            in_bounds(q, s1.spec_width(), s1.spec_height()) && q != t ==> free_cell(
                s1.gridv(),
                q,
                s1.spec_width(),
                s1.spec_height(),
            ) == free_cell(s2.gridv(), q, s2.spec_width(), s2.spec_height()),
        c != t,
        !adj4(t, c),
    ensures
        lookahead(s1, c) == lookahead(s2, c),
{
    let w = s1.spec_width();
    let h = s1.spec_height();
    let (x, y) = c;
    assert(w <= MAX_CELLS4 && h <= MAX_CELLS4) by (nonlinear_arith)
        requires
            s1.spec_width() * s1.spec_height() <= MAX_CELLS4,
            t.0 < s1.spec_width(),
            t.1 < s1.spec_height(),
            w == s1.spec_width(),
            h == s1.spec_height(),
    {
    }
    if c != s1.spec_goal() {
        if y > 0 {
            let d = (x, (y - 1) as usize);
            assert(nbr_cost(s1, d) == nbr_cost(s2, d)) by {
                if free_cell(s1.gridv(), d, w, h) || free_cell(s2.gridv(), d, w, h) {
                    assert(d != t);
                }
            }
        }
        let down = (x, (y + 1) as usize);
        assert(nbr_cost(s1, down) == nbr_cost(s2, down)) by {
            if free_cell(s1.gridv(), down, w, h) || free_cell(s2.gridv(), down, w, h) {
                assert(down != t);
            }
        }
        if x > 0 {
            let d = ((x - 1) as usize, y);
            assert(nbr_cost(s1, d) == nbr_cost(s2, d)) by {
                if free_cell(s1.gridv(), d, w, h) || free_cell(s2.gridv(), d, w, h) {
                    assert(d != t);
                }
            }
        }
        let right = ((x + 1) as usize, y);
        assert(nbr_cost(s1, right) == nbr_cost(s2, right)) by {
            if free_cell(s1.gridv(), right, w, h) || free_cell(s2.gridv(), right, w, h) {
                assert(right != t);
            }
        }
    }
}

/// Changing one cell's recorded cost leaves the lookahead of every cell
/// that is not its orthogonal neighbor unchanged: a cell's own cost never
/// enters its own lookahead.
proof fn lemma_lookahead_g_local(s1: DStarLite, s2: DStarLite, t: Coord, c: Coord)
    requires
        s1.wf_core(),
        s2.wf_core(),
        s1.gridv() == s2.gridv(),
        s1.spec_width() == s2.spec_width(),
        s1.spec_height() == s2.spec_height(),
        s1.spec_goal() == s2.spec_goal(),
        in_bounds(t, s1.spec_width(), s1.spec_height()),
        in_bounds(c, s1.spec_width(), s1.spec_height()),
        s2.g@ == s1.g@.update(cell_idx(t, s1.spec_height()), s2.g@[cell_idx(
            t,
            s1.spec_height(),
        )]),
        !adj4(t, c),
    ensures
        lookahead(s1, c) == lookahead(s2, c),
{
    let w = s1.spec_width();
    let h = s1.spec_height();
    let (x, y) = c;
    assert(w <= MAX_CELLS4 && h <= MAX_CELLS4) by (nonlinear_arith)
        requires
            s1.spec_width() * s1.spec_height() <= MAX_CELLS4,
            t.0 < s1.spec_width(),
            t.1 < s1.spec_height(),
            w == s1.spec_width(),
            h == s1.spec_height(),
    {
    }
    lemma_cell_idx_bound(t, w, h);
    if c != s1.spec_goal() {
        if y > 0 {
            let d = (x, (y - 1) as usize);
            assert(nbr_cost(s1, d) == nbr_cost(s2, d)) by {
                if free_cell(s1.gridv(), d, w, h) {
                    assert(d != t);
                    lemma_cell_idx_bound(d, w, h);
                    lemma_cell_idx_distinct(d, t, w, h);
                }
            }
        }
        let down = (x, (y + 1) as usize);
        assert(nbr_cost(s1, down) == nbr_cost(s2, down)) by {
            if free_cell(s1.gridv(), down, w, h) {
                assert(down != t);
                lemma_cell_idx_bound(down, w, h);
                lemma_cell_idx_distinct(down, t, w, h);
            }
        }
        if x > 0 {
            let d = ((x - 1) as usize, y);
            assert(nbr_cost(s1, d) == nbr_cost(s2, d)) by {
                if free_cell(s1.gridv(), d, w, h) {
                    assert(d != t);
                    lemma_cell_idx_bound(d, w, h);
                    lemma_cell_idx_distinct(d, t, w, h);
                }
            }
        }
        let right = ((x + 1) as usize, y);
        assert(nbr_cost(s1, right) == nbr_cost(s2, right)) by {
            if free_cell(s1.gridv(), right, w, h) {
                assert(right != t);
                lemma_cell_idx_bound(right, w, h);
                lemma_cell_idx_distinct(right, t, w, h);
            }
        }
    }
}

/// Moving the goal leaves the lookahead of every cell other than the two
/// goals unchanged: the goal only short-circuits its own cell.
proof fn lemma_lookahead_goal_change(s1: DStarLite, s2: DStarLite, c: Coord)
    requires
        s1.g@ == s2.g@,
        s1.gridv() == s2.gridv(),
        s1.spec_width() == s2.spec_width(),
        s1.spec_height() == s2.spec_height(),
        c != s1.spec_goal(),
        c != s2.spec_goal(),
    ensures
        lookahead(s1, c) == lookahead(s2, c),
{
}

/// The incremental replanning strategy.
pub struct DStarLite {
    grid: Vec<Vec<bool>>,
    width: usize,
    height: usize,
    start: Coord,
    goal: Coord,
    g: Vec<u64>,
    rhs: Vec<u64>,
    km: u64,
    open_list: OpenList,
    last_start: Coord,
}

impl DStarLite {
    pub closed spec fn gridv(&self) -> GridView {
        view_of_grid(&self.grid)
    }

    pub closed spec fn spec_width(&self) -> int {
        self.width as int
    }

    pub closed spec fn spec_height(&self) -> int {
        self.height as int
    }

    /// Best known cost-to-goal recorded for `c`.
    pub closed spec fn g_at(&self, c: Coord) -> u64 {
        self.g@[cell_idx(c, self.spec_height())]
    }

    /// One-step lookahead recorded for `c`.
    pub closed spec fn rhs_at(&self, c: Coord) -> u64 {
        self.rhs@[cell_idx(c, self.spec_height())]
    }

    /// The accumulated heuristic drift of the start.
    pub closed spec fn spec_km(&self) -> u64 {
        self.km
    }

    /// The start position of the most recent replan.
    pub closed spec fn spec_last_start(&self) -> Coord {
        self.last_start
    }

    /// The frontier's entries.
    pub closed spec fn frontier(&self) -> Seq<Entry> {
        self.open_list@
    }

    /// The stored grid is rectangular: exported so callers can reason
    /// pointwise about the occupancy the update clauses describe.
    pub proof fn lemma_wf_shape(&self)
        requires
            self.wf(),
        ensures
            grid_wf(self.gridv(), self.spec_width(), self.spec_height()),
    {
    }

    pub closed spec fn spec_start(&self) -> Coord {
        self.start
    }

    pub closed spec fn spec_goal(&self) -> Coord {
        self.goal
    }

    /// Table shapes, value ranges, and positions on the grid: what every
    /// read of the planner's state relies on.
    pub closed spec fn wf_core(&self) -> bool {
        &&& grid_wf(self.gridv(), self.spec_width(), self.spec_height())
        &&& self.width * self.height <= MAX_CELLS4
        &&& self.g@.len() == self.width * self.height
        &&& self.rhs@.len() == self.width * self.height
        &&& forall|i: int| 0 <= i < self.g@.len() ==> #[trigger] self.g@[i] <= INF
        &&& forall|i: int| 0 <= i < self.rhs@.len() ==> #[trigger] self.rhs@[i] <= INF
        &&& self.km <= INF
        &&& in_bounds(self.start, self.spec_width(), self.spec_height())
        &&& in_bounds(self.goal, self.spec_width(), self.spec_height())
        &&& in_bounds(self.last_start, self.spec_width(), self.spec_height())
        &&& forall|k: int|
            0 <= k < self.open_list@.len() ==> in_bounds(
                (#[trigger] self.open_list@[k]).coord,
                self.spec_width(),
                self.spec_height(),
            )
        &&& self.open_list.tie() == false
    }

    /// The queue discipline, with one cell possibly mid-repair: every
    /// other locally inconsistent cell has a frontier entry.
    pub closed spec fn queued_except(&self, ex: Option<Coord>) -> bool {
        forall|c: Coord|
            in_bounds(c, self.spec_width(), self.spec_height()) && #[trigger] self.g_at(c)
                != self.rhs_at(c) && Some(c) != ex ==> frontier_has(self.frontier(), c)
    }

    /// The lookahead discipline, with the cells around one mid-repair cell
    /// possibly stale: every other free non-goal cell's recorded lookahead
    /// equals the lookahead over the recorded costs.
    pub closed spec fn look_except(&self, ex: Option<Coord>, around: bool) -> bool {
        forall|c: Coord|
            free_cell(self.gridv(), c, self.spec_width(), self.spec_height()) && c
                != self.spec_goal() && (ex is Some ==> c != ex.unwrap() && (around ==> !adj4(
                ex.unwrap(),
                c,
            ))) ==> #[trigger] self.rhs_at(c) as int == lookahead(*self, c)
    }

    /// The full invariant: shapes and ranges, every inconsistent cell
    /// queued, and every free cell's lookahead current.
    pub closed spec fn wf(&self) -> bool {
        &&& self.wf_core()
        &&& self.queued_except(None)
        &&& self.look_except(None, false)
    }

    /// Set up the planner on `grid`: every cell starts unknown except the
    /// goal, whose lookahead is zero and which seeds the frontier.
    pub fn new(grid: Vec<Vec<bool>>, start: Coord, goal: Coord) -> (r: DStarLite)
        requires
            forall|i: int|
                0 <= i < grid@.len() ==> (#[trigger] grid@[i])@.len() == grid@[0]@.len(),
            grid@.len() * (if grid@.len() > 0 {
                grid@[0]@.len()
            } else {
                0nat
            }) <= MAX_CELLS4,
            in_bounds(start, grid@.len() as int, grid@[0]@.len() as int),
            in_bounds(goal, grid@.len() as int, grid@[0]@.len() as int),
        ensures
            r.wf(),
            r.gridv() == view_of_grid(&grid),
            r.spec_width() == grid@.len(),
            r.spec_height() == grid@[0]@.len(),
            r.spec_start() == start,
            r.spec_goal() == goal,
            r.spec_last_start() == start,
            r.spec_km() == 0,
            forall|c: Coord| in_bounds(c, r.spec_width(), r.spec_height()) ==> #[trigger] r.g_at(c)
                == INF,
            forall|c: Coord|
                in_bounds(c, r.spec_width(), r.spec_height()) && c != goal ==> #[trigger] r.rhs_at(
                    c,
                ) == INF,
            r.rhs_at(goal) == 0,
            r.frontier().len() == 1 && r.frontier()[0].coord == goal,
    {
        let width = grid.len();
        let height = grid[0].len();
        let cells = width * height;
        let mut g: Vec<u64> = vec![INF; cells];
        let mut rhs: Vec<u64> = vec![INF; cells];
        let gi = flat_idx(goal, width, height);
        rhs[gi] = 0;

        let mut planner = DStarLite {
            grid,
            width,
            height,
            start,
            goal,
            g,
            rhs,
            km: 0,
            open_list: OpenList::new(false),
            last_start: start,
        };

        let goal_key = planner.calculate_key(goal);
        planner.open_list.push(Entry { coord: goal, k1: goal_key.0, k2: goal_key.1 });
        proof {
            let w = planner.spec_width();
            let h = planner.spec_height();
            assert forall|c: Coord| in_bounds(c, w, h) implies #[trigger] planner.g_at(c)
                == INF by {
                lemma_cell_idx_bound(c, w, h);
            }
            assert forall|c: Coord| in_bounds(c, w, h) && c != goal implies #[trigger] planner.rhs_at(
                c,
            ) == INF by {
                lemma_cell_idx_bound(c, w, h);
                lemma_cell_idx_distinct(c, goal, w, h);
            }
            assert(planner.rhs_at(goal) == 0) by {
                lemma_cell_idx_bound(goal, w, h);
            }
            assert forall|c: Coord|
                in_bounds(c, w, h) && #[trigger] planner.g_at(c) != planner.rhs_at(c)
                implies frontier_has(planner.frontier(), c) by {
                if c != goal {
                    assert(planner.g_at(c) == INF && planner.rhs_at(c) == INF);
                } else {
                    assert(planner.frontier()[0].coord == goal);
                }
            }
            assert(planner.queued_except(None));
            assert forall|c: Coord|
                free_cell(planner.gridv(), c, w, h) && c != planner.spec_goal()
                implies #[trigger] planner.rhs_at(c) as int == lookahead(planner, c) by {
                let (x, y) = c;
                if y > 0 {
                    let d = (x, (y - 1) as usize);
                    assert(nbr_cost(planner, d) == INF as int) by {
                        if free_cell(planner.gridv(), d, w, h) {
                            assert(planner.g_at(d) == INF);
                        }
                    }
                }
                let down = (x, (y + 1) as usize);
                assert(nbr_cost(planner, down) == INF as int) by {
                    if free_cell(planner.gridv(), down, w, h) {
                        assert(planner.g_at(down) == INF);
                    }
                }
                if x > 0 {
                    let d = ((x - 1) as usize, y);
                    assert(nbr_cost(planner, d) == INF as int) by {
                        if free_cell(planner.gridv(), d, w, h) {
                            assert(planner.g_at(d) == INF);
                        }
                    }
                }
                let right = ((x + 1) as usize, y);
                assert(nbr_cost(planner, right) == INF as int) by {
                    if free_cell(planner.gridv(), right, w, h) {
                        assert(planner.g_at(right) == INF);
                    }
                }
                assert(lookahead(planner, c) == INF as int);
            }
            assert(planner.look_except(None, false));
            assert(planner.wf());
        }
        planner
    }

    /// Whether the cell `(x, y)` is currently blocked.
    fn cell_blocked(&self, x: usize, y: usize) -> (r: bool)
        requires
            self.wf_core(),
            x < self.spec_width(),
            y < self.spec_height(),
        ensures
            r == self.gridv()[x as int][y as int],
    {
        proof {
            assert(self.gridv()[x as int] == self.grid@[x as int]@);
        }
        self.grid[x][y]
    }

    /// The heuristic: Manhattan distance.
    fn heuristic(&self, a: Coord, b: Coord) -> (r: u64)
        requires
            self.wf_core(),
            in_bounds(a, self.spec_width(), self.spec_height()),
            in_bounds(b, self.spec_width(), self.spec_height()),
        ensures
            r == manhattan_spec(a, b),
            r <= INF,
    {
        proof {
            assert(a.0 + b.0 + a.1 + b.1 < 4 * MAX_CELLS4) by (nonlinear_arith)
                requires
                    a.0 < self.spec_width(),
                    a.1 < self.spec_height(),
                    b.0 < self.spec_width(),
                    b.1 < self.spec_height(),
                    self.spec_width() * self.spec_height() <= MAX_CELLS4,
            {
            }
        }
        let dx = if a.0 >= b.0 {
            a.0 - b.0
        } else {
            b.0 - a.0
        };
        let dy = if a.1 >= b.1 {
            a.1 - b.1
        } else {
            b.1 - a.1
        };
        (dx + dy) as u64
    }

    /// The free orthogonal neighbors of `c`: both the predecessors and the
    /// successors of a cell on a 4-connected grid.
    fn neighbors(&self, c: Coord) -> (r: Vec<Coord>)
        requires
            self.wf_core(),
            in_bounds(c, self.spec_width(), self.spec_height()),
        ensures
            forall|i: int|
                0 <= i < r@.len() ==> adj4(c, #[trigger] r@[i]) && free_cell(
                    self.gridv(),
                    r@[i],
                    self.spec_width(),
                    self.spec_height(),
                ),
            forall|n: Coord|
                adj4(c, n) && free_cell(self.gridv(), n, self.spec_width(), self.spec_height())
                    ==> r@.contains(n),
            unique_seq(r@),
            r@ == neighbor_list4(self.gridv(), c, self.spec_width(), self.spec_height()),
    {
        let (x, y) = c;
        let mut result: Vec<Coord> = Vec::new();
        if y > 0 && !self.cell_blocked(x, y - 1) {
            result.push((x, y - 1));
        }
        if y + 1 < self.height && !self.cell_blocked(x, y + 1) {
            result.push((x, y + 1));
        }
        if x > 0 && !self.cell_blocked(x - 1, y) {
            result.push((x - 1, y));
        }
        if x + 1 < self.width && !self.cell_blocked(x + 1, y) {
            result.push((x + 1, y));
        }
        proof {
            broadcast use vstd::seq_lib::lemma_seq_contains_after_push;

            assert forall|n: Coord|
                adj4(c, n) && free_cell(self.gridv(), n, self.spec_width(), self.spec_height())
                implies result@.contains(n) by {
                let up = (x, (y - 1) as usize);
                let down = (x, (y + 1) as usize);
                let left = ((x - 1) as usize, y);
                let right = ((x + 1) as usize, y);
                assert(n == up || n == down || n == left || n == right);
            }
            assert(unique_seq(result@));
            assert(result@ =~= neighbor_list4(
                self.gridv(),
                c,
                self.spec_width(),
                self.spec_height(),
            ));
        }
        result
    }

    /// Cost of moving between `u` and `v`: one step when `v` is a free
    /// adjacent cell, infinite otherwise.
    fn cost(&self, u: Coord, v: Coord) -> (r: u64)
        requires
            self.wf_core(),
        ensures
            r <= INF,
            r == 1 <==> adj4(u, v) && free_cell(self.gridv(), v, self.spec_width(), self.spec_height()),
    {
        let du = if u.0 >= v.0 {
            u.0 - v.0
        } else {
            v.0 - u.0
        };
        let dv = if u.1 >= v.1 {
            u.1 - v.1
        } else {
            v.1 - u.1
        };
        let step = (du == 1 && dv == 0) || (du == 0 && dv == 1);
        if step && v.0 < self.width && v.1 < self.height && !self.cell_blocked(v.0, v.1) {
            1
        } else {
            INF
        }
    }

    /// The two-part frontier key of `u`:
    /// `(min(g, rhs) + h(u, start) + km, min(g, rhs))`.
    fn calculate_key(&self, u: Coord) -> (r: (u64, u64))
        requires
            self.wf_core(),
            in_bounds(u, self.spec_width(), self.spec_height()),
        ensures
            r.0 <= INF,
            r.1 <= INF,
            r.0 as int == key1_of(*self, u),
            r.1 as int == key2_of(*self, u),
    {
        let ui = flat_idx(u, self.width, self.height);
        let g_u = self.g[ui];
        let rhs_u = self.rhs[ui];
        let m = if g_u <= rhs_u {
            g_u
        } else {
            rhs_u
        };
        proof {
            assert(g_u == self.g_at(u) && rhs_u == self.rhs_at(u));
        }
        let h = self.heuristic(u, self.start);
        let k1 = sadd(sadd(m, h), self.km);
        (k1, m)
    }

    /// The one-step lookahead of `u`: zero at the goal, otherwise the best
    /// `g + cost` over its free neighbors.
    fn compute_rhs(&self, u: Coord) -> (r: u64)
        requires
            self.wf_core(),
            in_bounds(u, self.spec_width(), self.spec_height()),
        ensures
            r <= INF,
            r == lookahead(*self, u),
    {
        if u.0 == self.goal.0 && u.1 == self.goal.1 {
            return 0;
        }
        let nbrs = self.neighbors(u);
        let mut min_rhs = INF;
        let mut i: usize = 0;
        while i < nbrs.len()
            invariant
                self.wf_core(),
                i <= nbrs@.len(),
                min_rhs <= INF,
                forall|k: int|
                    0 <= k < nbrs@.len() ==> adj4(u, #[trigger] nbrs@[k]) && free_cell(
                        self.gridv(),
                        nbrs@[k],
                        self.spec_width(),
                        self.spec_height(),
                    ),
                forall|k: int|
                    0 <= k < i ==> min_rhs <= sadd_spec(
                        self.g_at(#[trigger] nbrs@[k]) as int,
                        1,
                    ),
                min_rhs == INF || exists|k: int|
                    0 <= k < i && min_rhs == sadd_spec(self.g_at(#[trigger] nbrs@[k]) as int, 1),
            decreases nbrs@.len() - i,
        {
            let n = nbrs[i];
            let ni = flat_idx(n, self.width, self.height);
            let tentative = sadd(self.g[ni], 1);
            proof {
                assert(tentative == sadd_spec(self.g_at(n) as int, 1));
            }
            if tentative < min_rhs {
                min_rhs = tentative;
            }
            i = i + 1;
        }
        proof {
            let (x, y) = u;
            if y > 0 {
                let d = (x, (y - 1) as usize);
                if free_cell(self.gridv(), d, self.spec_width(), self.spec_height()) {
                    assert(adj4(u, d));
                    assert(nbrs@.contains(d));
                    let k = choose|k: int| 0 <= k < nbrs@.len() && nbrs@[k] == d;
                    assert(min_rhs <= sadd_spec(self.g_at(nbrs@[k]) as int, 1));
                }
                assert(min_rhs <= nbr_cost(*self, d));
            }
            let down = (x, (y + 1) as usize);
            if free_cell(self.gridv(), down, self.spec_width(), self.spec_height()) {
                assert(adj4(u, down));
                assert(nbrs@.contains(down));
                let k = choose|k: int| 0 <= k < nbrs@.len() && nbrs@[k] == down;
                assert(min_rhs <= sadd_spec(self.g_at(nbrs@[k]) as int, 1));
            }
            assert(min_rhs <= nbr_cost(*self, down));
            if x > 0 {
                let d = ((x - 1) as usize, y);
                if free_cell(self.gridv(), d, self.spec_width(), self.spec_height()) {
                    assert(adj4(u, d));
                    assert(nbrs@.contains(d));
                    let k = choose|k: int| 0 <= k < nbrs@.len() && nbrs@[k] == d;
                    assert(min_rhs <= sadd_spec(self.g_at(nbrs@[k]) as int, 1));
                }
                assert(min_rhs <= nbr_cost(*self, d));
            }
            let right = ((x + 1) as usize, y);
            if free_cell(self.gridv(), right, self.spec_width(), self.spec_height()) {
                assert(adj4(u, right));
                assert(nbrs@.contains(right));
                let k = choose|k: int| 0 <= k < nbrs@.len() && nbrs@[k] == right;
                assert(min_rhs <= sadd_spec(self.g_at(nbrs@[k]) as int, 1));
            }
            assert(min_rhs <= nbr_cost(*self, right));
            if min_rhs < INF {
                let k = choose|k: int|
                    0 <= k < nbrs@.len() && min_rhs == sadd_spec(
                        self.g_at(#[trigger] nbrs@[k]) as int,
                        1,
                    );
                let n = nbrs@[k];
                assert(adj4(u, n) && free_cell(self.gridv(), n, self.spec_width(), self.spec_height()));
                assert(n.1 as int == y - 1 || n.1 as int == y + 1 || n.0 as int == x - 1 || n.0
                    as int == x + 1);
                assert(nbr_cost(*self, n) == min_rhs as int);
                assert(lookahead(*self, u) <= min_rhs as int);
            }
            assert(min_rhs == lookahead(*self, u));
        }
        min_rhs
    }

    /// Re-enqueue `u` when it is locally inconsistent; a consistent cell
    /// needs no further processing. Stale copies already in the frontier
    /// are skipped when popped. Restores the queue discipline for `u`.
    fn update_vertex(&mut self, u: Coord)
        requires
            old(self).wf_core(),
            old(self).queued_except(Some(u)),
            in_bounds(u, old(self).spec_width(), old(self).spec_height()),
        ensures
            final(self).wf_core(),
            final(self).queued_except(None),
            final(self).gridv() == old(self).gridv(),
            final(self).spec_width() == old(self).spec_width(),
            final(self).spec_height() == old(self).spec_height(),
            final(self).spec_start() == old(self).spec_start(),
            final(self).spec_goal() == old(self).spec_goal(),
            final(self).spec_last_start() == old(self).spec_last_start(),
            final(self).spec_km() == old(self).spec_km(),
            final(self).g@ == old(self).g@,
            final(self).rhs@ == old(self).rhs@,
            old(self).g_at(u) == old(self).rhs_at(u) ==> final(self).frontier() == old(
                self,
            ).frontier(),
            old(self).g_at(u) != old(self).rhs_at(u) ==> final(self).frontier().len() == old(
                self,
            ).frontier().len() + 1 && final(self).frontier().last().coord == u && (forall|k: int|
                0 <= k < old(self).frontier().len() ==> final(self).frontier()[k] == old(
                    self,
                ).frontier()[k]),
    {
        let ghost pre = *self;
        let ui = flat_idx(u, self.width, self.height);
        if self.g[ui] != self.rhs[ui] {
            let k = self.calculate_key(u);
            self.open_list.push(Entry { coord: u, k1: k.0, k2: k.1 });
            proof {
                assert forall|c: Coord|
                    in_bounds(c, self.spec_width(), self.spec_height()) && #[trigger] self.g_at(c)
                        != self.rhs_at(c) implies frontier_has(self.frontier(), c) by {
                    if c == u {
                        lemma_frontier_has_after_push(pre.frontier(), self.frontier().last(), c);
                    } else {
                        assert(pre.g_at(c) != pre.rhs_at(c));
                        assert(frontier_has(pre.frontier(), c));
                        lemma_frontier_has_after_push(pre.frontier(), self.frontier().last(), c);
                    }
                }
            }
        } else {
            proof {
                assert(self.g_at(u) == self.rhs_at(u)) by {
                    lemma_cell_idx_bound(u, self.spec_width(), self.spec_height());
                }
                assert forall|c: Coord|
                    in_bounds(c, self.spec_width(), self.spec_height()) && #[trigger] self.g_at(c)
                        != self.rhs_at(c) implies frontier_has(self.frontier(), c) by {
                    assert(c != u);
                }
            }
        }
    }

    /// The main propagation loop: pop inconsistent cells in key order,
    /// settling overconsistent ones and resetting underconsistent ones,
    /// until the start's key is in front and the start is consistent. A
    /// generous work bound keeps the repair from running away on state no
    /// propagation order could settle; the result says whether the loop
    /// genuinely converged — drained its frontier or reached its stopping
    /// state — rather than running out of budget.
    fn compute_shortest_path(&mut self) -> (converged: bool)
        requires
            old(self).wf(),
        ensures
            final(self).wf(),
            final(self).gridv() == old(self).gridv(),
            final(self).spec_width() == old(self).spec_width(),
            final(self).spec_height() == old(self).spec_height(),
            final(self).spec_start() == old(self).spec_start(),
            final(self).spec_goal() == old(self).spec_goal(),
            final(self).spec_last_start() == old(self).spec_last_start(),
            final(self).spec_km() == old(self).spec_km(),
            old(self).rhs_at(old(self).spec_goal()) == 0 ==> final(self).rhs_at(
                old(self).spec_goal(),
            ) == 0,
            converged ==> final(self).frontier().len() == 0 || propagation_stopped(
                *final(self),
            ),
    {
        let cells = self.width * self.height;
        let mut fuel = cells * 8 + 1;
        let backlog = self.open_list.len();
        if backlog < 0x1000_0000 {
            fuel = fuel + backlog;
        } else {
            fuel = fuel + 0x1000_0000;
        }
        let si = flat_idx(self.start, self.width, self.height);
        let mut converged = false;
        while fuel > 0
            invariant
                self.wf(),
                self.gridv() == old(self).gridv(),
                self.spec_width() == old(self).spec_width(),
                self.spec_height() == old(self).spec_height(),
                self.spec_start() == old(self).spec_start(),
                self.spec_goal() == old(self).spec_goal(),
                self.spec_last_start() == old(self).spec_last_start(),
                self.spec_km() == old(self).spec_km(),
                old(self).rhs_at(old(self).spec_goal()) == 0 ==> self.rhs_at(self.spec_goal())
                    == 0,
                si == cell_idx(self.spec_start(), self.spec_height()),
                converged ==> self.frontier().len() == 0 || propagation_stopped(*self),
            decreases fuel,
        {
            fuel = fuel - 1;
            if self.open_list.len() == 0 {
                converged = true;
                break;
            }
            proof {
                lemma_cell_idx_bound(
                    self.spec_start(),
                    self.spec_width(),
                    self.spec_height(),
                );
            }
            let top = self.open_list.peek().unwrap();
            let k_start = self.calculate_key(self.start);
            let rhs_s = self.rhs[si];
            let g_s = self.g[si];
            // run while the top key is in front of the start's key or the
            // start is still locally inconsistent
            let top_before = (top.k1 < k_start.0 || (top.k1 == k_start.0 && top.k2 < k_start.1));
            if !top_before && rhs_s == g_s {
                proof {
                    assert(rhs_s == self.rhs_at(self.spec_start()) && g_s == self.g_at(
                        self.spec_start(),
                    ));
                    assert(!entry_before_key(top, *self, self.spec_start()));
                    assert(propagation_stopped(*self));
                }
                converged = true;
                break;
            }
            let ghost iter0 = *self;
            let ghost fr_pre = self.frontier();
            proof {
                assert(iter0.wf());
            }
            let e = self.open_list.pop().unwrap();
            let u = e.coord;
            let ghost j = choose|j: int| popped(fr_pre, self.frontier(), e, j, false);
            proof {
                assert(popped_any(fr_pre, self.frontier(), e, false));
                assert(fr_pre[j] == e);
                assert(in_bounds(u, self.spec_width(), self.spec_height()));
                // every other inconsistent cell keeps a frontier entry
                assert forall|c: Coord|
                    in_bounds(c, self.spec_width(), self.spec_height()) && #[trigger] self.g_at(c)
                        != self.rhs_at(c) && Some(c) != Some(u) implies frontier_has(
                    self.frontier(),
                    c,
                ) by {
                    assert(iter0.g_at(c) != iter0.rhs_at(c));
                    assert(frontier_has(fr_pre, c));
                    lemma_frontier_has_after_remove(fr_pre, j, c);
                }
            }
            let ui = flat_idx(u, self.width, self.height);
            let k_new = self.calculate_key(u);
            let k_old_stale = (e.k1 < k_new.0 || (e.k1 == k_new.0 && e.k2 < k_new.1));
            if k_old_stale {
                let ghost fr_mid = self.frontier();
                self.open_list.push(Entry { coord: u, k1: k_new.0, k2: k_new.1 });
                proof {
                    assert forall|c: Coord|
                        in_bounds(c, self.spec_width(), self.spec_height()) && #[trigger] self.g_at(
                        c,
                    ) != self.rhs_at(c) implies frontier_has(self.frontier(), c) by {
                        if c != u {
                            assert(iter0.g_at(c) != iter0.rhs_at(c));
                            assert(frontier_has(fr_pre, c));
                            lemma_frontier_has_after_remove(fr_pre, j, c);
                        }
                        lemma_frontier_has_after_push(fr_mid, self.frontier().last(), c);
                    }
                    assert(self.queued_except(None));
                    assert forall|c: Coord|
                        free_cell(self.gridv(), c, self.spec_width(), self.spec_height()) && c
                            != self.spec_goal() implies #[trigger] self.rhs_at(c) as int
                        == lookahead(*self, c) by {
                        assert(iter0.rhs_at(c) as int == lookahead(iter0, c));
                        lemma_lookahead_congruence(*self, iter0, c);
                    }
                    assert(self.wf());
                }
            } else if self.g[ui] > self.rhs[ui] {
                let r = self.rhs[ui];
                let ghost pre = *self;
                self.g[ui] = r;
                proof {
                    assert(self.g@ == pre.g@.update(ui as int, r));
                    lemma_cell_idx_bound(u, self.spec_width(), self.spec_height());
                    assert(self.g_at(u) == self.rhs_at(u));
                    assert forall|c: Coord|
                        in_bounds(c, self.spec_width(), self.spec_height()) && #[trigger] self.g_at(
                        c,
                    ) != self.rhs_at(c) implies frontier_has(self.frontier(), c) by {
                        assert(c != u);
                        lemma_cell_idx_bound(c, self.spec_width(), self.spec_height());
                        lemma_cell_idx_distinct(c, u, self.spec_width(), self.spec_height());
                        assert(pre.g_at(c) != pre.rhs_at(c));
                        assert(iter0.g_at(c) != iter0.rhs_at(c));
                        assert(frontier_has(fr_pre, c));
                        lemma_frontier_has_after_remove(fr_pre, j, c);
                    }
                    assert(self.queued_except(None));
                    assert forall|c: Coord|
                        free_cell(self.gridv(), c, self.spec_width(), self.spec_height()) && c
                            != self.spec_goal() && c != u && !adj4(u, c) implies #[trigger] self.rhs_at(
                        c,
                    ) as int == lookahead(*self, c) by {
                        lemma_cell_idx_bound(c, self.spec_width(), self.spec_height());
                        lemma_cell_idx_distinct(c, u, self.spec_width(), self.spec_height());
                        assert(self.rhs_at(c) == pre.rhs_at(c));
                        assert(iter0.rhs_at(c) as int == lookahead(iter0, c));
                        assert(pre.rhs_at(c) as int == lookahead(pre, c)) by {
                            lemma_lookahead_congruence(pre, iter0, c);
                        }
                        lemma_lookahead_g_local(pre, *self, u, c);
                    }
                    assert(self.look_except(Some(u), true));
                }
                let ghost pre_rx = *self;
                self.relax_neighbors_of(u);
                proof {
                    assert forall|c: Coord|
                        free_cell(self.gridv(), c, self.spec_width(), self.spec_height()) && c
                            != self.spec_goal() implies #[trigger] self.rhs_at(c) as int
                        == lookahead(*self, c) by {
                        if c == u {
                            lemma_cell_idx_bound(u, self.spec_width(), self.spec_height());
                            assert(self.rhs_at(u) == pre_rx.rhs_at(u));
                            assert(pre_rx.rhs_at(u) == pre.rhs_at(u));
                            assert(iter0.rhs_at(u) as int == lookahead(iter0, u));
                            assert(pre.rhs_at(u) as int == lookahead(pre, u)) by {
                                lemma_lookahead_congruence(pre, iter0, u);
                            }
                            lemma_lookahead_g_local(pre, *self, u, u);
                        }
                    }
                    assert(self.wf());
                }
            } else if self.g[ui] < self.rhs[ui] {
                let ghost pre0 = *self;
                self.g[ui] = INF;
                proof {
                    assert(self.g@ == pre0.g@.update(ui as int, INF));
                    lemma_cell_idx_bound(u, self.spec_width(), self.spec_height());
                    assert forall|c: Coord|
                        in_bounds(c, self.spec_width(), self.spec_height()) && #[trigger] self.g_at(
                        c,
                    ) != self.rhs_at(c) && Some(c) != Some(u) implies frontier_has(
                        self.frontier(),
                        c,
                    ) by {
                        lemma_cell_idx_bound(c, self.spec_width(), self.spec_height());
                        lemma_cell_idx_distinct(c, u, self.spec_width(), self.spec_height());
                        assert(pre0.g_at(c) != pre0.rhs_at(c));
                    }
                }
                let r = self.compute_rhs(u);
                let ghost pre = *self;
                self.rhs[ui] = r;
                proof {
                    assert(self.rhs@ == pre.rhs@.update(ui as int, r));
                    lemma_cell_idx_bound(u, self.spec_width(), self.spec_height());
                    if old(self).rhs_at(old(self).spec_goal()) == 0 {
                        lemma_cell_idx_bound(
                            self.spec_goal(),
                            self.spec_width(),
                            self.spec_height(),
                        );
                        if u == self.spec_goal() {
                            assert(r == lookahead(pre, u));
                        } else {
                            lemma_cell_idx_distinct(
                                u,
                                self.spec_goal(),
                                self.spec_width(),
                                self.spec_height(),
                            );
                        }
                        assert(self.rhs_at(self.spec_goal()) == 0);
                    }
                    assert forall|c: Coord|
                        in_bounds(c, self.spec_width(), self.spec_height()) && #[trigger] self.g_at(
                        c,
                    ) != self.rhs_at(c) && Some(c) != Some(u) implies frontier_has(
                        self.frontier(),
                        c,
                    ) by {
                        lemma_cell_idx_bound(c, self.spec_width(), self.spec_height());
                        lemma_cell_idx_distinct(c, u, self.spec_width(), self.spec_height());
                        assert(pre.g_at(c) != pre.rhs_at(c));
                    }
                }
                self.update_vertex(u);
                proof {
                    assert forall|c: Coord|
                        free_cell(self.gridv(), c, self.spec_width(), self.spec_height()) && c
                            != self.spec_goal() && c != u && !adj4(u, c) implies #[trigger] self.rhs_at(
                        c,
                    ) as int == lookahead(*self, c) by {
                        lemma_cell_idx_bound(u, self.spec_width(), self.spec_height());
                        lemma_cell_idx_bound(c, self.spec_width(), self.spec_height());
                        lemma_cell_idx_distinct(c, u, self.spec_width(), self.spec_height());
                        assert(self.rhs_at(c) == pre0.rhs_at(c));
                        assert(iter0.rhs_at(c) as int == lookahead(iter0, c));
                        assert(pre0.rhs_at(c) as int == lookahead(pre0, c)) by {
                            lemma_lookahead_congruence(pre0, iter0, c);
                        }
                        lemma_lookahead_g_local(pre0, *self, u, c);
                    }
                    assert(self.look_except(Some(u), true));
                }
                let ghost pre_rx = *self;
                self.relax_neighbors_of(u);
                proof {
                    assert(self.look_except(Some(u), false));
                    assert forall|c: Coord|
                        free_cell(self.gridv(), c, self.spec_width(), self.spec_height()) && c
                            != self.spec_goal() implies #[trigger] self.rhs_at(c) as int
                        == lookahead(*self, c) by {
                        if c == u {
                            lemma_cell_idx_bound(u, self.spec_width(), self.spec_height());
                            assert(self.rhs_at(u) == pre_rx.rhs_at(u));
                            assert(pre_rx.rhs@ == pre.rhs@.update(ui as int, r));
                            assert(pre_rx.rhs_at(u) == r);
                            assert(r == lookahead(pre, u));
                            lemma_lookahead_congruence(*self, pre, u);
                        } else {
                            assert(c != u);
                        }
                    }
                    assert(self.wf());
                }
            } else {
                proof {
                    lemma_cell_idx_bound(u, self.spec_width(), self.spec_height());
                    assert(self.g_at(u) == self.rhs_at(u));
                    assert forall|c: Coord|
                        in_bounds(c, self.spec_width(), self.spec_height()) && #[trigger] self.g_at(
                        c,
                    ) != self.rhs_at(c) implies frontier_has(self.frontier(), c) by {
                        assert(c != u);
                    }
                    assert forall|c: Coord|
                        free_cell(self.gridv(), c, self.spec_width(), self.spec_height()) && c
                            != self.spec_goal() implies #[trigger] self.rhs_at(c) as int
                        == lookahead(*self, c) by {
                        assert(iter0.rhs_at(c) as int == lookahead(iter0, c));
                        lemma_lookahead_congruence(*self, iter0, c);
                    }
                    assert(self.wf());
                }
            }
            // a popped cell that is already consistent is a leftover copy
            // from an earlier re-enqueue: nothing to do
        }
        converged
    }

    /// Recompute the lookahead of every free neighbor of `u` and
    /// re-enqueue the ones that became inconsistent: afterwards each such
    /// neighbor's recorded lookahead equals the lookahead over the current
    /// costs, and no other cell's lookahead moved.
    fn relax_neighbors_of(&mut self, u: Coord)
        requires
            old(self).wf_core(),
            old(self).queued_except(None),
            old(self).look_except(Some(u), true),
            in_bounds(u, old(self).spec_width(), old(self).spec_height()),
        ensures
            final(self).wf_core(),
            final(self).queued_except(None),
            final(self).look_except(Some(u), false),
            final(self).gridv() == old(self).gridv(),
            final(self).spec_width() == old(self).spec_width(),
            final(self).spec_height() == old(self).spec_height(),
            final(self).spec_start() == old(self).spec_start(),
            final(self).spec_goal() == old(self).spec_goal(),
            final(self).spec_last_start() == old(self).spec_last_start(),
            final(self).spec_km() == old(self).spec_km(),
            final(self).g@ == old(self).g@,
            forall|p: Coord|
                #![trigger final(self).rhs_at(p)]
                in_bounds(p, old(self).spec_width(), old(self).spec_height()) ==> if adj4(u, p)
                    && free_cell(
                    old(self).gridv(),
                    p,
                    old(self).spec_width(),
                    old(self).spec_height(),
                ) {
                    final(self).rhs_at(p) == lookahead(*final(self), p)
                } else {
                    final(self).rhs_at(p) == old(self).rhs_at(p)
                },
    {
        let ghost w = old(self).spec_width();
        let ghost h = old(self).spec_height();
        let nbrs = self.neighbors(u);
        let mut i: usize = 0;
        while i < nbrs.len()
            invariant
                self.wf_core(),
                self.queued_except(None),
                i <= nbrs@.len(),
                self.gridv() == old(self).gridv(),
                self.spec_width() == old(self).spec_width(),
                self.spec_height() == old(self).spec_height(),
                self.spec_start() == old(self).spec_start(),
                self.spec_goal() == old(self).spec_goal(),
                self.spec_last_start() == old(self).spec_last_start(),
                self.spec_km() == old(self).spec_km(),
                self.g@ == old(self).g@,
                w == old(self).spec_width(),
                h == old(self).spec_height(),
                in_bounds(u, w, h),
                unique_seq(nbrs@),
                forall|k: int|
                    0 <= k < nbrs@.len() ==> adj4(u, #[trigger] nbrs@[k]) && free_cell(
                        old(self).gridv(),
                        nbrs@[k],
                        w,
                        h,
                    ),
                forall|n: Coord|
                    adj4(u, n) && free_cell(old(self).gridv(), n, w, h) ==> nbrs@.contains(n),
                forall|k: int|
                    0 <= k < i ==> self.rhs_at(#[trigger] nbrs@[k]) == lookahead(
                        *self,
                        nbrs@[k],
                    ),
                forall|p: Coord|
                    #![trigger self.rhs_at(p)]
                    in_bounds(p, w, h) && (forall|k: int| 0 <= k < i ==> #[trigger] nbrs@[k] != p)
                        ==> self.rhs_at(p) == old(self).rhs_at(p),
            decreases nbrs@.len() - i,
        {
            let p = nbrs[i];
            let pi = flat_idx(p, self.width, self.height);
            let r = self.compute_rhs(p);
            let ghost pre = *self;
            self.rhs[pi] = r;
            proof {
                assert(self.rhs@ == pre.rhs@.update(pi as int, r));
                assert forall|c: Coord|
                    in_bounds(c, self.spec_width(), self.spec_height()) && #[trigger] self.g_at(c)
                        != self.rhs_at(c) && Some(c) != Some(p) implies frontier_has(
                    self.frontier(),
                    c,
                ) by {
                    lemma_cell_idx_bound(c, w, h);
                    lemma_cell_idx_distinct(c, p, w, h);
                    assert(pre.g_at(c) != pre.rhs_at(c));
                }
            }
            self.update_vertex(p);
            proof {
                assert(self.rhs@ == pre.rhs@.update(pi as int, r));
                assert(self.rhs_at(p) == r) by {
                    lemma_cell_idx_bound(p, w, h);
                }
                assert(lookahead(*self, p) == lookahead(pre, p)) by {
                    lemma_lookahead_congruence(*self, pre, p);
                }
                assert forall|k: int| 0 <= k < i + 1 implies self.rhs_at(#[trigger] nbrs@[k])
                    == lookahead(*self, nbrs@[k]) by {
                    if k < i {
                        lemma_cell_idx_bound(nbrs@[k], w, h);
                        lemma_cell_idx_distinct(nbrs@[k], p, w, h);
                        assert(pre.rhs_at(nbrs@[k]) == lookahead(pre, nbrs@[k]));
                        assert(self.rhs_at(nbrs@[k]) == pre.rhs_at(nbrs@[k]));
                        lemma_lookahead_congruence(*self, pre, nbrs@[k]);
                    }
                }
                assert forall|q: Coord|
                    in_bounds(q, w, h) && (forall|k: int|
                        0 <= k < i + 1 ==> #[trigger] nbrs@[k] != q) implies #[trigger] self.rhs_at(
                    q,
                ) == old(self).rhs_at(q) by {
                    assert(forall|k: int| 0 <= k < i ==> #[trigger] nbrs@[k] != q);
                    assert(pre.rhs_at(q) == old(self).rhs_at(q));
                    lemma_cell_idx_bound(q, w, h);
                    lemma_cell_idx_distinct(q, p, w, h);
                }
            }
            i = i + 1;
        }
        proof {
            assert forall|p: Coord|
                in_bounds(p, w, h) implies if adj4(u, p) && free_cell(old(self).gridv(), p, w, h) {
                #[trigger] self.rhs_at(p) == lookahead(*self, p)
            } else {
                self.rhs_at(p) == old(self).rhs_at(p)
            } by {
                if adj4(u, p) && free_cell(old(self).gridv(), p, w, h) {
                    assert(nbrs@.contains(p));
                    let k = choose|k: int| 0 <= k < nbrs@.len() && nbrs@[k] == p;
                    assert(self.rhs_at(nbrs@[k]) == lookahead(*self, nbrs@[k]));
                } else {
                    assert forall|k: int| 0 <= k < nbrs@.len() implies #[trigger] nbrs@[k]
                        != p by {
                        assert(adj4(u, nbrs@[k]) && free_cell(old(self).gridv(), nbrs@[k], w, h));
                    }
                }
            }
            assert forall|c: Coord|
                free_cell(self.gridv(), c, self.spec_width(), self.spec_height()) && c
                    != self.spec_goal() && c != u && !adj4(u, c) implies #[trigger] self.rhs_at(
                c,
            ) as int == lookahead(*self, c) by {
                assert(self.rhs_at(c) == old(self).rhs_at(c));
                assert(old(self).rhs_at(c) as int == lookahead(*old(self), c));
                lemma_lookahead_congruence(*self, *old(self), c);
            }
        }
    }

    /// Walk from the start, always stepping into the free neighbor with
    /// the best `g + cost`, until the goal is reached. Every step is
    /// checked as it is taken, so a returned path is a valid route; the
    /// walk gives up when the lookahead at the start is infinite or no
    /// neighbor offers a finite cost.
    #[verifier::spinoff_prover]
    #[verifier::rlimit(100)]
    fn reconstruct_path(&mut self) -> (r: Option<Vec<Coord>>)
        requires
            old(self).wf(),
        ensures
            *final(self) == *old(self),
            r is Some ==> path_valid4(
                old(self).gridv(),
                r.unwrap()@,
                old(self).spec_start(),
                old(self).spec_goal(),
                old(self).spec_width(),
                old(self).spec_height(),
            ),
            (old(self).spec_start() == old(self).spec_goal() && old(self).rhs_at(
                old(self).spec_start(),
            ) < INF) ==> r is Some && r.unwrap()@ == seq![old(self).spec_start()],
            old(self).rhs_at(old(self).spec_start()) >= INF ==> r is None,
            (settled(*old(self)) && old(self).rhs_at(old(self).spec_goal()) == 0 && (free_cell(
                old(self).gridv(),
                old(self).spec_start(),
                old(self).spec_width(),
                old(self).spec_height(),
            ) || old(self).spec_start() == old(self).spec_goal())) ==> (r is Some <==> old(
                self,
            ).rhs_at(old(self).spec_start()) < INF),
    {
        let ghost gv = self.gridv();
        let ghost w = self.spec_width();
        let ghost h = self.spec_height();
        let si = flat_idx(self.start, self.width, self.height);
        proof {
            lemma_cell_idx_bound(self.spec_start(), w, h);
            assert(self.rhs@[si as int] == self.rhs_at(self.spec_start()));
        }
        if self.rhs[si] >= INF {
            return None;
        }
        let mut path: Vec<Coord> = Vec::new();
        let mut cur = self.start;
        path.push(cur);
        proof {
            assert(path@ =~= seq![old(self).spec_start()]);
        }
        let ghost stl = settled(*old(self)) && old(self).rhs_at(old(self).spec_goal()) == 0 && (
        free_cell(
            old(self).gridv(),
            old(self).spec_start(),
            old(self).spec_width(),
            old(self).spec_height(),
        ) || old(self).spec_start() == old(self).spec_goal());
        let cells = self.width * self.height;
        let mut fuel = cells + 1;
        proof {
            if stl {
                assert(old(self).g_at(old(self).spec_start()) < INF);
                lemma_settled_magnitude(*old(self), old(self).spec_start());
            }
        }
        while fuel > 0 && !(cur.0 == self.goal.0 && cur.1 == self.goal.1)
            invariant
                old(self).wf(),
                old(self).spec_start() == old(self).spec_goal() ==> path@ == seq![
                    old(self).spec_start(),
                ] && cur == old(self).spec_start(),
                self.wf_core(),
                *self == *old(self),
                in_bounds(cur, w, h),
                gv == self.gridv(),
                w == self.spec_width(),
                h == self.spec_height(),
                stl == (settled(*old(self)) && old(self).rhs_at(old(self).spec_goal()) == 0 && (
                free_cell(
                    old(self).gridv(),
                    old(self).spec_start(),
                    old(self).spec_width(),
                    old(self).spec_height(),
                ) || old(self).spec_start() == old(self).spec_goal())),
                stl ==> old(self).g_at(cur) < INF && fuel >= old(self).g_at(cur) + 1 && (
                free_cell(gv, cur, w, h) || cur == old(self).spec_goal()),
                path@.len() >= 1,
                path@[0] == old(self).spec_start(),
                path@.last() == cur,
                forall|i: int| 0 <= i < path@.len() - 1 ==> #[trigger] step_ok4(gv, path@, i, w, h),
            decreases fuel,
        {
            fuel = fuel - 1;
            let nbrs = self.neighbors(cur);
            let mut min_val = INF;
            let mut next_cell: Option<Coord> = None;
            let mut i: usize = 0;
            while i < nbrs.len()
                invariant
                    i <= nbrs@.len(),
                    self.wf_core(),
                    gv == self.gridv(),
                    w == self.spec_width(),
                    h == self.spec_height(),
                    in_bounds(cur, w, h),
                    min_val <= INF,
                    forall|k: int|
                        0 <= k < nbrs@.len() ==> adj4(cur, #[trigger] nbrs@[k]) && free_cell(
                            gv,
                            nbrs@[k],
                            w,
                            h,
                        ),
                    forall|n: Coord|
                        adj4(cur, n) && free_cell(gv, n, w, h) ==> nbrs@.contains(n),
                    forall|k: int|
                        0 <= k < i ==> min_val <= sadd_spec(
                            self.g_at(#[trigger] nbrs@[k]) as int,
                            1,
                        ),
                    next_cell is Some ==> min_val < INF && adj4(cur, next_cell.unwrap())
                        && free_cell(gv, next_cell.unwrap(), w, h) && min_val == sadd_spec(
                        self.g_at(next_cell.unwrap()) as int,
                        1,
                    ),
                    next_cell is None ==> min_val == INF,
                decreases nbrs@.len() - i,
            {
                let n = nbrs[i];
                let ni = flat_idx(n, self.width, self.height);
                let c = self.cost(cur, n);
                let val = sadd(self.g[ni], c);
                proof {
                    assert(c == 1);
                    assert(val == sadd_spec(self.g_at(n) as int, 1));
                }
                if val < min_val {
                    min_val = val;
                    next_cell = Some(n);
                }
                i = i + 1;
            }
            proof {
                if stl && !(cur == old(self).spec_goal()) {
                    let sv = *old(self);
                    let v = sv.g_at(cur) as int;
                    assert(free_cell(gv, cur, w, h));
                    assert(sv.rhs_at(cur) as int == lookahead(sv, cur));
                    assert(v == lookahead(sv, cur));
                    let (x, y) = cur;
                    if y > 0 {
                        let d = (x, (y - 1) as usize);
                        if free_cell(gv, d, w, h) {
                            assert(adj4(cur, d));
                            assert(nbrs@.contains(d));
                            let k = choose|k: int| 0 <= k < nbrs@.len() && nbrs@[k] == d;
                            assert(min_val <= sadd_spec(sv.g_at(nbrs@[k]) as int, 1));
                        }
                        assert(min_val <= nbr_cost(sv, d));
                    }
                    let down = (x, (y + 1) as usize);
                    if free_cell(gv, down, w, h) {
                        assert(adj4(cur, down));
                        assert(nbrs@.contains(down));
                        let k = choose|k: int| 0 <= k < nbrs@.len() && nbrs@[k] == down;
                        assert(min_val <= sadd_spec(sv.g_at(nbrs@[k]) as int, 1));
                    }
                    assert(min_val <= nbr_cost(sv, down));
                    if x > 0 {
                        let d = ((x - 1) as usize, y);
                        if free_cell(gv, d, w, h) {
                            assert(adj4(cur, d));
                            assert(nbrs@.contains(d));
                            let k = choose|k: int| 0 <= k < nbrs@.len() && nbrs@[k] == d;
                            assert(min_val <= sadd_spec(sv.g_at(nbrs@[k]) as int, 1));
                        }
                        assert(min_val <= nbr_cost(sv, d));
                    }
                    let right = ((x + 1) as usize, y);
                    if free_cell(gv, right, w, h) {
                        assert(adj4(cur, right));
                        assert(nbrs@.contains(right));
                        let k = choose|k: int| 0 <= k < nbrs@.len() && nbrs@[k] == right;
                        assert(min_val <= sadd_spec(sv.g_at(nbrs@[k]) as int, 1));
                    }
                    assert(min_val <= nbr_cost(sv, right));
                    assert(min_val <= lookahead(sv, cur));
                    assert(min_val < INF);
                    assert(next_cell is Some);
                    let nx0 = next_cell.unwrap();
                    assert(sadd_spec(sv.g_at(nx0) as int, 1) >= v) by {
                        assert(nbr_cost(sv, nx0) >= lookahead(sv, cur)) by {
                            assert(nx0.1 as int == y - 1 && y > 0 || nx0.1 as int == y + 1
                                || nx0.0 as int == x - 1 && x > 0 || nx0.0 as int == x + 1);
                        }
                    }
                    assert(sv.g_at(nx0) as int == v - 1);
                }
            }
            match next_cell {
                Some(nx) => {
                    let ghost old_path = path@;
                    path.push(nx);
                    proof {
                        assert forall|i: int|
                            0 <= i < path@.len() - 1 implies #[trigger] step_ok4(
                            gv,
                            path@,
                            i,
                            w,
                            h,
                        ) by {
                            if i < path@.len() - 2 {
                                assert(path@[i] == old_path[i]);
                                assert(path@[i + 1] == old_path[i + 1]);
                                assert(step_ok4(gv, old_path, i, w, h));
                            } else {
                                assert(path@[i] == cur && path@[i + 1] == nx);
                            }
                        }
                    }
                    cur = nx;
                },
                None => {
                    proof {
                        if stl {
                            assert(cur == old(self).spec_goal());
                            assert(old(self).g_at(cur) == 0) by {
                                assert(old(self).g_at(cur) == old(self).rhs_at(cur));
                            }
                        }
                    }
                    return None;
                },
            }
        }
        if cur.0 == self.goal.0 && cur.1 == self.goal.1 {
            Some(path)
        } else {
            proof {
                if stl {
                    assert(old(self).g_at(cur) + 1 >= 1);
                }
            }
            None
        }
    }

    /// Absorb the start's heuristic drift into `km`, re-aim the planner
    /// at the query's endpoints — restoring the lookahead of a goal cell
    /// that stopped being the goal — and seed the frontier with the goal.
    #[verifier::spinoff_prover]
    #[verifier::rlimit(100)]
    fn prepare_replan(&mut self, start: Coord, goal: Coord)
        requires
            old(self).wf(),
            in_bounds(start, old(self).spec_width(), old(self).spec_height()),
            in_bounds(goal, old(self).spec_width(), old(self).spec_height()),
        ensures
            final(self).wf(),
            final(self).gridv() == old(self).gridv(),
            final(self).spec_width() == old(self).spec_width(),
            final(self).spec_height() == old(self).spec_height(),
            final(self).spec_start() == start,
            final(self).spec_goal() == goal,
            final(self).spec_last_start() == start,
            start == old(self).spec_last_start() ==> final(self).spec_km() == old(self).spec_km(),
            start != old(self).spec_last_start() ==> final(self).spec_km() == sadd_spec(
                old(self).spec_km() as int,
                manhattan_spec(old(self).spec_last_start(), start),
            ),
            final(self).rhs_at(goal) == 0,
    {
        if !(start.0 == self.last_start.0 && start.1 == self.last_start.1) {
            let drift = self.heuristic(self.last_start, start);
            self.km = sadd(self.km, drift);
            self.last_start = start;
            let old_s = self.start;
            let ghost pre = *self;
            proof {
                assert forall|c: Coord|
                    free_cell(pre.gridv(), c, pre.spec_width(), pre.spec_height()) && c
                        != pre.spec_goal() implies #[trigger] pre.rhs_at(c) as int == lookahead(
                    pre,
                    c,
                ) by {
                    assert(old(self).rhs_at(c) as int == lookahead(*old(self), c));
                    lemma_lookahead_congruence(pre, *old(self), c);
                }
                assert(pre.look_except(Some(old_s), true));
                assert(pre.queued_except(None)) by {
                    assert forall|c: Coord|
                        in_bounds(c, pre.spec_width(), pre.spec_height()) && #[trigger] pre.g_at(c)
                            != pre.rhs_at(c) implies frontier_has(pre.frontier(), c) by {
                        assert(old(self).g_at(c) != old(self).rhs_at(c));
                    }
                }
            }
            self.relax_neighbors_of(old_s);
            proof {
                assert forall|c: Coord|
                    free_cell(self.gridv(), c, self.spec_width(), self.spec_height()) && c
                        != self.spec_goal() implies #[trigger] self.rhs_at(c) as int == lookahead(
                    *self,
                    c,
                ) by {
                    if c == old_s {
                        lemma_cell_idx_bound(old_s, self.spec_width(), self.spec_height());
                        assert(self.rhs_at(old_s) == pre.rhs_at(old_s));
                        assert(pre.rhs_at(old_s) as int == lookahead(pre, old_s));
                        lemma_lookahead_congruence(*self, pre, old_s);
                    }
                }
                assert(self.wf());
            }
        }

        let ghost base = *self;
        proof {
            assert(base.wf());
        }
        let og = self.goal;
        self.start = start;
        self.goal = goal;
        let ghost moved = *self;
        proof {
            assert forall|c: Coord|
                in_bounds(c, moved.spec_width(), moved.spec_height()) && #[trigger] moved.g_at(c)
                    != moved.rhs_at(c) implies frontier_has(moved.frontier(), c) by {
                assert(base.g_at(c) != base.rhs_at(c));
                assert(frontier_has(base.frontier(), c));
            }
            assert(moved.queued_except(None));
            assert forall|c: Coord|
                free_cell(moved.gridv(), c, moved.spec_width(), moved.spec_height()) && c
                    != moved.spec_goal() && c != og implies #[trigger] moved.rhs_at(c) as int
                == lookahead(moved, c) by {
                assert(base.rhs_at(c) as int == lookahead(base, c));
                lemma_lookahead_goal_change(moved, base, c);
            }
        }
        if !(og.0 == goal.0 && og.1 == goal.1) {
            // the old goal is an ordinary cell again: its lookahead is the
            // minimum over its neighbors, as every other cell's
            let ghost pre2 = *self;
            let ogi = flat_idx(og, self.width, self.height);
            let r0 = self.compute_rhs(og);
            self.rhs[ogi] = r0;
            proof {
                assert(self.rhs@ == pre2.rhs@.update(ogi as int, r0));
                lemma_cell_idx_bound(og, self.spec_width(), self.spec_height());
                assert forall|c: Coord|
                    in_bounds(c, self.spec_width(), self.spec_height()) && #[trigger] self.g_at(c)
                        != self.rhs_at(c) && Some(c) != Some(og) implies frontier_has(
                    self.frontier(),
                    c,
                ) by {
                    lemma_cell_idx_bound(c, self.spec_width(), self.spec_height());
                    lemma_cell_idx_distinct(c, og, self.spec_width(), self.spec_height());
                    assert(pre2.g_at(c) != pre2.rhs_at(c));
                    assert(moved.g_at(c) != moved.rhs_at(c));
                }
            }
            self.update_vertex(og);
            proof {
                assert(self.rhs@ == pre2.rhs@.update(ogi as int, r0));
                assert forall|c: Coord|
                    free_cell(self.gridv(), c, self.spec_width(), self.spec_height()) && c
                        != self.spec_goal() implies #[trigger] self.rhs_at(c) as int == lookahead(
                    *self,
                    c,
                ) by {
                    lemma_cell_idx_bound(og, self.spec_width(), self.spec_height());
                    lemma_cell_idx_bound(c, self.spec_width(), self.spec_height());
                    if c == og {
                        assert(self.rhs_at(og) == r0);
                        assert(r0 == lookahead(pre2, og));
                        lemma_lookahead_congruence(*self, pre2, og);
                    } else {
                        lemma_cell_idx_distinct(c, og, self.spec_width(), self.spec_height());
                        assert(self.rhs_at(c) == moved.rhs_at(c));
                        assert(moved.rhs_at(c) as int == lookahead(moved, c));
                        lemma_lookahead_congruence(*self, moved, c);
                    }
                }
                assert(self.wf());
            }
        } else {
            proof {
                assert forall|c: Coord|
                    free_cell(self.gridv(), c, self.spec_width(), self.spec_height()) && c
                        != self.spec_goal() implies #[trigger] self.rhs_at(c) as int == lookahead(
                    *self,
                    c,
                ) by {
                }
                assert(self.wf());
            }
        }
        let gi = flat_idx(self.goal, self.width, self.height);
        let ghost pre3 = *self;
        self.rhs[gi] = 0;
        proof {
            assert(pre3.wf());
            assert(self.rhs@ == pre3.rhs@.update(gi as int, 0));
            lemma_cell_idx_bound(self.spec_goal(), self.spec_width(), self.spec_height());
            assert(self.rhs_at(self.spec_goal()) == 0);
        }

        let goal_key = self.calculate_key(self.goal);
        let gc = self.goal;
        let ghost fr4 = self.frontier();
        self.open_list.push(Entry { coord: gc, k1: goal_key.0, k2: goal_key.1 });
        proof {
            assert(fr4 == pre3.frontier());
            assert forall|c: Coord|
                in_bounds(c, self.spec_width(), self.spec_height()) && #[trigger] self.g_at(c)
                    != self.rhs_at(c) implies frontier_has(self.frontier(), c) by {
                if c != goal {
                    lemma_cell_idx_bound(c, self.spec_width(), self.spec_height());
                    lemma_cell_idx_distinct(c, goal, self.spec_width(), self.spec_height());
                    assert(pre3.g_at(c) != pre3.rhs_at(c));
                    assert(frontier_has(pre3.frontier(), c));
                }
                lemma_frontier_has_after_push(fr4, self.frontier().last(), c);
            }
            assert(self.queued_except(None));
            assert forall|c: Coord|
                free_cell(self.gridv(), c, self.spec_width(), self.spec_height()) && c
                    != self.spec_goal() implies #[trigger] self.rhs_at(c) as int == lookahead(
                *self,
                c,
            ) by {
                lemma_cell_idx_bound(c, self.spec_width(), self.spec_height());
                lemma_cell_idx_distinct(c, goal, self.spec_width(), self.spec_height());
                assert(self.rhs_at(c) == pre3.rhs_at(c));
                assert(pre3.rhs_at(c) as int == lookahead(pre3, c));
                lemma_lookahead_congruence(*self, pre3, c);
            }
            assert(self.wf());
        }

    }

    /// Replan from `start` to `goal` under the current occupancy, reusing
    /// the propagation state of earlier calls: when the start has moved,
    /// `km` absorbs the heuristic drift so old frontier keys stay validly
    /// ordered, and only the cells the move disturbed are re-relaxed.
    #[verifier::spinoff_prover]
    #[verifier::rlimit(100)]
    pub fn compute_path(&mut self, start: Coord, goal: Coord) -> (r: Option<Vec<Coord>>)
        requires
            old(self).wf(),
            in_bounds(start, old(self).spec_width(), old(self).spec_height()),
            in_bounds(goal, old(self).spec_width(), old(self).spec_height()),
        ensures
            final(self).wf(),
            final(self).gridv() == old(self).gridv(),
            final(self).spec_width() == old(self).spec_width(),
            final(self).spec_height() == old(self).spec_height(),
            final(self).spec_start() == start,
            final(self).spec_goal() == goal,
            r is Some ==> path_valid4(
                old(self).gridv(),
                r.unwrap()@,
                start,
                goal,
                old(self).spec_width(),
                old(self).spec_height(),
            ),
            r is Some ==> reachable4(
                old(self).gridv(),
                start,
                goal,
                old(self).spec_width(),
                old(self).spec_height(),
            ),
            final(self).spec_last_start() == start,
            start == old(self).spec_last_start() ==> final(self).spec_km() == old(self).spec_km(),
            start != old(self).spec_last_start() ==> final(self).spec_km() == sadd_spec(
                old(self).spec_km() as int,
                manhattan_spec(old(self).spec_last_start(), start),
            ),
            final(self).rhs_at(goal) == 0,
            final(self).rhs_at(start) >= INF ==> r is None,
            start == goal ==> r is Some && r.unwrap()@ == seq![start],
            // whenever the propagation has settled every cell — in
            // particular whenever it drained its frontier — the result
            // decides reachability exactly, for any start the rover can
            // stand on
            (settled(*final(self)) && (free_cell(
                old(self).gridv(),
                start,
                old(self).spec_width(),
                old(self).spec_height(),
            ) || start == goal)) ==> (r is Some <==> reachable4(
                old(self).gridv(),
                start,
                goal,
                old(self).spec_width(),
                old(self).spec_height(),
            )),
            (final(self).frontier().len() == 0 && (free_cell(
                old(self).gridv(),
                start,
                old(self).spec_width(),
                old(self).spec_height(),
            ) || start == goal)) ==> (r is Some <==> reachable4(
                old(self).gridv(),
                start,
                goal,
                old(self).spec_width(),
                old(self).spec_height(),
            )),
    {
        self.prepare_replan(start, goal);
        let converged = self.compute_shortest_path();
        proof {
            if converged {
                assert(self.frontier().len() == 0 || propagation_stopped(*self));
            }
        }
        let r = self.reconstruct_path();
        proof {
            if r is Some {
                lemma_valid_path_implies_reachable4(
                    old(self).gridv(),
                    r.unwrap()@,
                    start,
                    goal,
                    old(self).spec_width(),
                    old(self).spec_height(),
                );
            }
            if self.frontier().len() == 0 {
                assert forall|c: Coord|
                    in_bounds(c, self.spec_width(), self.spec_height()) implies #[trigger] self.g_at(
                    c,
                ) == self.rhs_at(c) by {
                    if self.g_at(c) != self.rhs_at(c) {
                        assert(frontier_has(self.frontier(), c));
                    }
                }
                assert(settled(*self));
            }
            if settled(*self) && (free_cell(
                old(self).gridv(),
                start,
                old(self).spec_width(),
                old(self).spec_height(),
            ) || start == goal) {
                lemma_settled_lookahead_decides(*self);
            }
        }
        r
    }

    /// Toggle one cell's occupancy, then repair the lookahead of the cell
    /// and its neighbors so the next `compute_path` can resume from
    /// partially-valid state rather than recomputing every cell: the
    /// toggled cell and every free neighbor end with their lookahead
    /// recomputed over the new occupancy, every other cell keeps its
    /// tables, and the best-known costs never move here.
    pub fn update_obstacle(&mut self, coord: Coord, is_blocked: bool)
        requires
            old(self).wf(),
        ensures
            final(self).wf(),
            final(self).spec_width() == old(self).spec_width(),
            final(self).spec_height() == old(self).spec_height(),
            final(self).spec_start() == old(self).spec_start(),
            final(self).spec_goal() == old(self).spec_goal(),
            final(self).spec_last_start() == old(self).spec_last_start(),
            final(self).spec_km() == old(self).spec_km(),
            forall|c: Coord|
                in_bounds(c, old(self).spec_width(), old(self).spec_height())
                    ==> #[trigger] final(self).g_at(c) == old(self).g_at(c),
            in_bounds(coord, old(self).spec_width(), old(self).spec_height())
                ==> final(self).gridv() == old(self).gridv().update(
                coord.0 as int,
                old(self).gridv()[coord.0 as int].update(coord.1 as int, is_blocked),
            ),
            !in_bounds(coord, old(self).spec_width(), old(self).spec_height())
                ==> *final(self) == *old(self),
            in_bounds(coord, old(self).spec_width(), old(self).spec_height()) ==> forall|p: Coord|
                #![trigger final(self).rhs_at(p)]
                in_bounds(p, old(self).spec_width(), old(self).spec_height()) ==> if p == coord || (
                adj4(coord, p) && free_cell(
                    final(self).gridv(),
                    p,
                    old(self).spec_width(),
                    old(self).spec_height(),
                )) {
                    final(self).rhs_at(p) == lookahead(*final(self), p)
                } else {
                    final(self).rhs_at(p) == old(self).rhs_at(p)
                },
    {
        let ghost w = old(self).spec_width();
        let ghost h = old(self).spec_height();
        let (x, y) = coord;
        if x < self.width && y < self.height {
            proof {
                assert(self.grid@.len() == self.width);
                assert(self.gridv()[x as int] == self.grid@[x as int]@);
            }
            self.grid[x][y] = is_blocked;
            proof {
                assert(self.gridv() =~= old(self).gridv().update(
                    x as int,
                    old(self).gridv()[x as int].update(y as int, is_blocked),
                ));
            }
            let ghost mid = *self;
            proof {
                assert forall|q: Coord|
                    in_bounds(q, w, h) && q != coord implies free_cell(mid.gridv(), q, w, h)
                    == free_cell(old(self).gridv(), q, w, h) by {
                }
                assert forall|c: Coord|
                    in_bounds(c, w, h) && #[trigger] mid.g_at(c) != mid.rhs_at(c)
                    implies frontier_has(mid.frontier(), c) by {
                    assert(old(self).g_at(c) != old(self).rhs_at(c));
                }
                assert(mid.queued_except(None));
                assert forall|c: Coord|
                    free_cell(mid.gridv(), c, w, h) && c != mid.spec_goal() && c != coord
                        && !adj4(coord, c) implies #[trigger] mid.rhs_at(c) as int == lookahead(
                    mid,
                    c,
                ) by {
                    assert(free_cell(old(self).gridv(), c, w, h));
                    assert(old(self).rhs_at(c) as int == lookahead(*old(self), c));
                    lemma_lookahead_grid_local(mid, *old(self), coord, c);
                }
                assert(mid.look_except(Some(coord), true));
            }
            self.relax_neighbors_of(coord);
            let ci = flat_idx(coord, self.width, self.height);
            let r = self.compute_rhs(coord);
            let ghost pre = *self;
            self.rhs[ci] = r;
            proof {
                assert(self.rhs@ == pre.rhs@.update(ci as int, r));
                assert forall|c: Coord|
                    in_bounds(c, w, h) && #[trigger] self.g_at(c) != self.rhs_at(c) && Some(c)
                        != Some(coord) implies frontier_has(self.frontier(), c) by {
                    lemma_cell_idx_bound(c, w, h);
                    lemma_cell_idx_distinct(c, coord, w, h);
                    assert(pre.g_at(c) != pre.rhs_at(c));
                }
            }
            self.update_vertex(coord);
            proof {
                assert(self.rhs@ == pre.rhs@.update(ci as int, r));
                assert forall|p: Coord| in_bounds(p, w, h) implies if p == coord || (adj4(
                    coord,
                    p,
                ) && free_cell(self.gridv(), p, w, h)) {
                    #[trigger] self.rhs_at(p) == lookahead(*self, p)
                } else {
                    self.rhs_at(p) == old(self).rhs_at(p)
                } by {
                    lemma_cell_idx_bound(p, w, h);
                    if p == coord {
                        assert(self.rhs_at(p) == r);
                        assert(lookahead(*self, p) == lookahead(pre, p));
                    } else {
                        lemma_cell_idx_distinct(p, coord, w, h);
                        assert(self.rhs_at(p) == pre.rhs_at(p));
                        if adj4(coord, p) && free_cell(self.gridv(), p, w, h) {
                            assert(pre.rhs_at(p) == lookahead(pre, p));
                            assert(lookahead(*self, p) == lookahead(pre, p)) by {
                                lemma_lookahead_congruence(*self, pre, p);
                            }
                        } else {
                            assert(pre.rhs_at(p) == mid.rhs_at(p));
                            assert(mid.rhs_at(p) == old(self).rhs_at(p));
                        }
                    }
                }
                assert forall|c: Coord|
                    free_cell(self.gridv(), c, self.spec_width(), self.spec_height()) && c
                        != self.spec_goal() implies #[trigger] self.rhs_at(c) as int == lookahead(
                    *self,
                    c,
                ) by {
                    lemma_cell_idx_bound(c, w, h);
                    if c == coord {
                        assert(self.rhs_at(c) == lookahead(*self, c));
                    } else if adj4(coord, c) {
                        assert(self.rhs_at(c) == lookahead(*self, c));
                    } else {
                        assert(self.rhs_at(c) == old(self).rhs_at(c));
                        assert(free_cell(old(self).gridv(), c, w, h));
                        assert(old(self).rhs_at(c) as int == lookahead(*old(self), c));
                        assert forall|q: Coord|
                            in_bounds(q, w, h) && q != coord implies free_cell(
                            self.gridv(),
                            q,
                            w,
                            h,
                        ) == free_cell(old(self).gridv(), q, w, h) by {
                        }
                        lemma_lookahead_grid_local(*self, *old(self), coord, c);
                    }
                }
                assert(self.look_except(None, false));
                assert(self.wf());
            }
        } else {
            proof {
                assert(self.gridv() =~= old(self).gridv());
            }
        }
    }
}


impl Pathfinder for DStarLite {
    open spec fn pf_wf(&self) -> bool {
        self.wf()
    }

    open spec fn pf_dims(&self) -> (int, int) {
        (self.spec_width(), self.spec_height())
    }

    fn compute_path(&mut self, start: Coord, goal: Coord) -> (r: Option<Vec<Coord>>) {
        self.compute_path(start, goal)
    }

    fn update_obstacle(&mut self, coord: Coord, is_blocked: bool) {
        self.update_obstacle(coord, is_blocked)
    }
}

/// The propagation's resting state: every cell is locally consistent.
/// Together with the planner's invariant — every recorded lookahead
/// current — this makes the tables a fixed point of the one-step
/// relaxation. `compute_shortest_path` drives the tables toward this
/// state; a drained frontier certifies it.
pub open spec fn settled(s: DStarLite) -> bool {
    forall|c: Coord|
        in_bounds(c, s.spec_width(), s.spec_height()) ==> #[trigger] s.g_at(c) == s.rhs_at(c)
}

/// Extending a valid path by one leading step keeps it valid.
proof fn lemma_prepend_step(
    gv: GridView,
    p: Seq<Coord>,
    c: Coord,
    d: Coord,
    goal: Coord,
    w: int,
    h: int,
)
    requires
        path_valid4(gv, p, d, goal, w, h),
        adj4(c, d),
        free_cell(gv, d, w, h),
    ensures
        path_valid4(gv, seq![c] + p, c, goal, w, h),
{
    let q = seq![c] + p;
    assert(q[0] == c);
    assert(q[q.len() - 1] == goal);
    assert forall|i: int| 0 <= i < q.len() - 1 implies #[trigger] step_ok4(gv, q, i, w, h) by {
        if i == 0 {
            assert(q[1] == p[0]);
        } else {
            assert(q[i] == p[i - 1] && q[i + 1] == p[i]);
            assert(step_ok4(gv, p, i - 1, w, h));
        }
    }
}

/// In a settled table, a cell whose recorded cost is finite reaches the
/// goal: its lookahead names a free neighbor one step cheaper, and the
/// chain of such neighbors descends to the goal.
proof fn lemma_descent_reaches_goal(s: DStarLite, c: Coord)
    requires
        s.wf(),
        settled(s),
        s.rhs_at(s.spec_goal()) == 0,
        in_bounds(c, s.spec_width(), s.spec_height()),
        free_cell(s.gridv(), c, s.spec_width(), s.spec_height()) || c == s.spec_goal(),
        s.g_at(c) < INF,
    ensures
        reachable4(s.gridv(), c, s.spec_goal(), s.spec_width(), s.spec_height()),
    decreases s.g_at(c),
{
    let w = s.spec_width();
    let h = s.spec_height();
    let gv = s.gridv();
    let goal = s.spec_goal();
    if c == goal {
        assert(path_valid4(gv, seq![c], c, goal, w, h));
    } else {
        let v = s.g_at(c) as int;
        assert(s.rhs_at(c) as int == lookahead(s, c));
        assert(v == lookahead(s, c));
        let (x, y) = c;
        // the lookahead is a minimum over at most four candidates; a
        // finite minimum is attained by one of them
        let up = (x, (y - 1) as usize);
        let down = (x, (y + 1) as usize);
        let left = ((x - 1) as usize, y);
        let right = ((x + 1) as usize, y);
        assert((y > 0 && nbr_cost(s, up) == v) || nbr_cost(s, down) == v || (x > 0 && nbr_cost(
            s,
            left,
        ) == v) || nbr_cost(s, right) == v);
        let d = if y > 0 && nbr_cost(s, up) == v {
            up
        } else if nbr_cost(s, down) == v {
            down
        } else if x > 0 && nbr_cost(s, left) == v {
            left
        } else {
            right
        };
        assert(nbr_cost(s, d) == v);
        assert(free_cell(gv, d, w, h));
        assert(adj4(c, d));
        assert(sadd_spec(s.g_at(d) as int, 1) == v);
        assert(s.g_at(d) as int == v - 1);
        lemma_descent_reaches_goal(s, d);
        let p = choose|p: Seq<Coord>| path_valid4(gv, p, d, goal, w, h);
        lemma_prepend_step(gv, p, c, d, goal, w, h);
    }
}

/// The descending chain under a cell with finite recorded cost visits one
/// distinct cell per cost value: collected as a set of table slots.
proof fn lemma_descent_slots(s: DStarLite, c: Coord) -> (t: Set<int>)
    requires
        s.wf(),
        settled(s),
        s.rhs_at(s.spec_goal()) == 0,
        in_bounds(c, s.spec_width(), s.spec_height()),
        free_cell(s.gridv(), c, s.spec_width(), s.spec_height()) || c == s.spec_goal(),
        s.g_at(c) < INF,
    ensures
        t.finite(),
        t.len() == s.g_at(c) + 1,
        forall|j: int| #[trigger]
            t.contains(j) ==> exists|d: Coord|
                in_bounds(d, s.spec_width(), s.spec_height()) && cell_idx(d, s.spec_height()) == j
                    && #[trigger] s.g_at(d) <= s.g_at(c),
    decreases s.g_at(c),
{
    let w = s.spec_width();
    let h = s.spec_height();
    let goal = s.spec_goal();
    if s.g_at(c) == 0 {
        let t = set![cell_idx(c, h)];
        assert(t.len() == 1);
        assert forall|j: int| #[trigger] t.contains(j) implies exists|d: Coord|
            in_bounds(d, w, h) && cell_idx(d, h) == j && #[trigger] s.g_at(d) <= s.g_at(c) by {
            assert(in_bounds(c, w, h) && cell_idx(c, h) == j && s.g_at(c) <= s.g_at(c));
        }
        t
    } else {
        let v = s.g_at(c) as int;
        assert(c != goal) by {
            assert(s.g_at(goal) == s.rhs_at(goal));
        }
        assert(s.rhs_at(c) as int == lookahead(s, c));
        assert(v == lookahead(s, c));
        let (x, y) = c;
        let up = (x, (y - 1) as usize);
        let down = (x, (y + 1) as usize);
        let left = ((x - 1) as usize, y);
        let right = ((x + 1) as usize, y);
        assert((y > 0 && nbr_cost(s, up) == v) || nbr_cost(s, down) == v || (x > 0 && nbr_cost(
            s,
            left,
        ) == v) || nbr_cost(s, right) == v);
        let d = if y > 0 && nbr_cost(s, up) == v {
            up
        } else if nbr_cost(s, down) == v {
            down
        } else if x > 0 && nbr_cost(s, left) == v {
            left
        } else {
            right
        };
        assert(nbr_cost(s, d) == v);
        assert(free_cell(s.gridv(), d, w, h));
        assert(s.g_at(d) as int == v - 1);
        let t0 = lemma_descent_slots(s, d);
        assert(!t0.contains(cell_idx(c, h))) by {
            if t0.contains(cell_idx(c, h)) {
                let d2 = choose|d2: Coord|
                    in_bounds(d2, w, h) && cell_idx(d2, h) == cell_idx(c, h) && #[trigger] s.g_at(
                        d2,
                    ) <= s.g_at(d);
                lemma_cell_idx_injective(d2, c, w, h);
            }
        }
        let t = t0.insert(cell_idx(c, h));
        assert(t.len() == t0.len() + 1);
        assert forall|j: int| #[trigger] t.contains(j) implies exists|d2: Coord|
            in_bounds(d2, w, h) && cell_idx(d2, h) == j && #[trigger] s.g_at(d2) <= s.g_at(c) by {
            if j == cell_idx(c, h) {
                assert(in_bounds(c, w, h) && cell_idx(c, h) == j && s.g_at(c) <= s.g_at(c));
            } else {
                let d2 = choose|d2: Coord|
                    in_bounds(d2, w, h) && cell_idx(d2, h) == j && #[trigger] s.g_at(d2) <= s.g_at(
                        d,
                    );
                assert(in_bounds(d2, w, h) && cell_idx(d2, h) == j && s.g_at(d2) <= s.g_at(c));
            }
        }
        t
    }
}

/// In a settled table every finite recorded cost is smaller than the
/// number of cells: the descending chain pigeonholes into the grid.
proof fn lemma_settled_magnitude(s: DStarLite, c: Coord)
    requires
        s.wf(),
        settled(s),
        s.rhs_at(s.spec_goal()) == 0,
        in_bounds(c, s.spec_width(), s.spec_height()),
        free_cell(s.gridv(), c, s.spec_width(), s.spec_height()) || c == s.spec_goal(),
        s.g_at(c) < INF,
    ensures
        s.g_at(c) < s.spec_width() * s.spec_height(),
{
    let w = s.spec_width();
    let h = s.spec_height();
    let t = lemma_descent_slots(s, c);
    lemma_int_range(0, w * h);
    assert forall|j: int| #[trigger] t.contains(j) implies set_int_range(0, w * h).contains(
        j,
    ) by {
        let d = choose|d: Coord|
            in_bounds(d, w, h) && cell_idx(d, h) == j && #[trigger] s.g_at(d) <= s.g_at(c);
        lemma_cell_idx_bound(d, w, h);
    }
    lemma_len_subset(t, set_int_range(0, w * h));
}

/// In a settled table an infinite cost at the start blocks every path:
/// each step of a valid route would need a neighbor within one step of
/// infinity, which the pigeonhole bound rules out for finite costs.
proof fn lemma_settled_inf_blocks(s: DStarLite, p: Seq<Coord>, i: int)
    requires
        s.wf(),
        settled(s),
        s.rhs_at(s.spec_goal()) == 0,
        path_valid4(s.gridv(), p, s.spec_start(), s.spec_goal(), s.spec_width(), s.spec_height()),
        0 <= i < p.len(),
        in_bounds(p[i], s.spec_width(), s.spec_height()),
        free_cell(s.gridv(), p[i], s.spec_width(), s.spec_height()) || p[i] == s.spec_goal(),
        s.g_at(p[i]) == INF,
    ensures
        s.g_at(s.spec_goal()) == INF,
    decreases p.len() - i,
{
    let w = s.spec_width();
    let h = s.spec_height();
    let goal = s.spec_goal();
    if i == p.len() - 1 {
        assert(p[i] == goal);
    } else {
        if p[i] == goal {
            assert(s.g_at(goal) == s.rhs_at(goal));
        } else {
            assert(step_ok4(s.gridv(), p, i, w, h));
            let c = p[i];
            let d = p[i + 1];
            assert(s.rhs_at(c) as int == lookahead(s, c));
            assert(lookahead(s, c) == INF as int);
            let (x, y) = c;
            assert(nbr_cost(s, d) >= INF as int) by {
                assert(d == (x, (y - 1) as usize) && y > 0 || d == (x, (y + 1) as usize) || d == ((
                x - 1) as usize, y) && x > 0 || d == ((x + 1) as usize, y));
            }
            assert(sadd_spec(s.g_at(d) as int, 1) >= INF as int);
            assert(s.g_at(d) == INF) by {
                if s.g_at(d) < INF {
                    lemma_settled_magnitude(s, d);
                    assert(s.spec_width() * s.spec_height() <= MAX_CELLS4);
                }
            }
            lemma_settled_inf_blocks(s, p, i + 1);
        }
    }
}

/// The incremental planner's tables, once settled, decide reachability:
/// the recorded lookahead at the start is finite exactly when a
/// 4-connected route of free cells from the start to the goal exists.
/// `compute_shortest_path` works toward the settled state; that its
/// bounded propagation reaches it on every run is checked by the test
/// suite, not by proof.
pub proof fn lemma_settled_lookahead_decides(s: DStarLite)
    requires
        s.wf(),
        settled(s),
        s.rhs_at(s.spec_goal()) == 0,
        free_cell(s.gridv(), s.spec_start(), s.spec_width(), s.spec_height()) || s.spec_start()
            == s.spec_goal(),
    ensures
        s.rhs_at(s.spec_start()) < INF <==> reachable4(
            s.gridv(),
            s.spec_start(),
            s.spec_goal(),
            s.spec_width(),
            s.spec_height(),
        ),
{
    let w = s.spec_width();
    let h = s.spec_height();
    let start = s.spec_start();
    let goal = s.spec_goal();
    if s.rhs_at(start) < INF {
        assert(s.g_at(start) < INF);
        lemma_descent_reaches_goal(s, start);
    }
    if reachable4(s.gridv(), start, goal, w, h) && s.rhs_at(start) >= INF {
        assert(s.g_at(start) == INF);
        let p = choose|p: Seq<Coord>| path_valid4(s.gridv(), p, start, goal, w, h);
        lemma_settled_inf_blocks(s, p, 0);
        assert(s.g_at(goal) == s.rhs_at(goal));
    }
}

} // verus!
