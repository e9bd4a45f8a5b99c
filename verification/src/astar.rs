//! Best-first search over a 4-connected grid with the Manhattan-distance
//! heuristic and unit edge costs. `compute_path` is proved sound (a
//! returned path is a valid 4-connected route through free cells),
//! complete (it returns `None` only when no such route exists), and
//! optimal (no valid route is shorter than the returned one).

use vstd::prelude::*;
use crate::pathfinder::Pathfinder;
use crate::grid::{
    back_step_ok4,
    Coord, GridView, adj4, free_cell, grid_wf, in_bounds, manhattan, manhattan_spec, path_valid4,
    reachable4, step_ok4, neighbor_list4, unique_seq, view_of_grid,
};
use crate::costs::{
    INF, cell_idx, fin_set, flat_idx, lemma_cell_idx_bound, lemma_cell_idx_distinct,
    lemma_cell_idx_injective, lemma_fin_set_bound, lemma_fin_set_update, lemma_sum_nonneg,
    lemma_sum_update, sum_of,
};
use crate::openlist::{Entry, OpenList, popped, popped_any, pops_before};

verus! {

/// Upper bound on the number of grid cells, so every cost and index
/// computation stays far from overflow.
pub const MAX_CELLS: usize = 0x100_0000;

/// The best-first ("A*") strategy: an occupancy grid and nothing else —
/// it keeps no state between `compute_path` calls.
pub struct AStar {
    grid: Vec<Vec<bool>>,
    width: usize,
    height: usize,
}

impl AStar {
    pub closed spec fn gridv(&self) -> GridView {
        view_of_grid(&self.grid)
    }

    pub closed spec fn spec_width(&self) -> int {
        self.width as int
    }

    pub closed spec fn spec_height(&self) -> int {
        self.height as int
    }

    /// The stored grid is rectangular: exported so callers can reason
    /// pointwise about the occupancy the update clauses describe.
    pub proof fn lemma_wf_shape(&self)
        requires
            self.wf(),
        ensures
            crate::grid::grid_wf(self.gridv(), self.spec_width(), self.spec_height()),
    {
    }

    pub closed spec fn wf(&self) -> bool {
        &&& grid_wf(self.gridv(), self.spec_width(), self.spec_height())
        &&& self.width * self.height <= MAX_CELLS
    }

    /// Wrap an occupancy grid; `start` and `goal` are accepted for
    /// interface parity with the stateful strategies but ignored.
    pub fn new(grid: Vec<Vec<bool>>, _start: Coord, _goal: Coord) -> (r: AStar)
        requires
            forall|i: int|
                0 <= i < grid@.len() ==> (#[trigger] grid@[i])@.len() == grid@[0]@.len(),
            grid@.len() * (if grid@.len() > 0 {
                grid@[0]@.len()
            } else {
                0nat
            }) <= MAX_CELLS,
        ensures
            r.wf(),
            r.gridv() == view_of_grid(&grid),
            r.spec_width() == grid@.len(),
            grid@.len() > 0 ==> r.spec_height() == grid@[0]@.len(),
            grid@.len() == 0 ==> r.spec_height() == 0,
    {
        let width = grid.len();
        let height = if width > 0 {
            grid[0].len()
        } else {
            0
        };
        AStar { grid, width, height }
    }

    /// The heuristic: Manhattan distance, admissible and consistent for
    /// unit-cost orthogonal moves.
    pub fn heuristic(&self, a: Coord, b: Coord) -> (r: usize)
        requires
            manhattan_spec(a, b) <= usize::MAX,
        ensures
            r == manhattan_spec(a, b),
    {
        manhattan(a, b)
    }

    /// Whether the cell `(x, y)` is currently blocked.
    fn cell_blocked(&self, x: usize, y: usize) -> (r: bool)
        requires
            self.wf(),
            x < self.spec_width(),
            y < self.spec_height(),
        ensures
            r == self.gridv()[x as int][y as int],
    {
        proof {
            assert(self.gridv()[x as int] == self.grid@[x as int]@);
        }
        self.grid[x][y]
    }

    /// The free orthogonal neighbors of `c`, in up/down/left/right order:
    /// exactly the cells a single move from `c` may enter.
    pub fn neighbors(&self, c: Coord) -> (r: Vec<Coord>)
        requires
            self.wf(),
            in_bounds(c, self.spec_width(), self.spec_height()),
        ensures
            forall|i: int|
                0 <= i < r@.len() ==> adj4(c, #[trigger] r@[i]) && free_cell(
                    self.gridv(),
                    r@[i],
                    self.spec_width(),
                    self.spec_height(),
                ),
            forall|n: Coord|
                adj4(c, n) && free_cell(self.gridv(), n, self.spec_width(), self.spec_height())
                    ==> r@.contains(n),
            unique_seq(r@),
            r@ == neighbor_list4(self.gridv(), c, self.spec_width(), self.spec_height()),
    {
        let (x, y) = c;
        let mut result: Vec<Coord> = Vec::new();
        if y > 0 && !self.cell_blocked(x, y - 1) {
            result.push((x, y - 1));
        }
        if y + 1 < self.height && !self.cell_blocked(x, y + 1) {
            result.push((x, y + 1));
        }
        if x > 0 && !self.cell_blocked(x - 1, y) {
            result.push((x - 1, y));
        }
        if x + 1 < self.width && !self.cell_blocked(x + 1, y) {
            result.push((x + 1, y));
        }
        proof {
            broadcast use vstd::seq_lib::lemma_seq_contains_after_push;

            assert forall|n: Coord|
                adj4(c, n) && free_cell(self.gridv(), n, self.spec_width(), self.spec_height())
                implies result@.contains(n) by {
                let up = (x, (y - 1) as usize);
                let down = (x, (y + 1) as usize);
                let left = ((x - 1) as usize, y);
                let right = ((x + 1) as usize, y);
                assert(n == up || n == down || n == left || n == right);
            }
            assert(unique_seq(result@));
            assert(result@ =~= neighbor_list4(
                self.gridv(),
                c,
                self.spec_width(),
                self.spec_height(),
            ));
        }
        result
    }

    /// Record that a single cell became blocked or free. The next
    /// `compute_path` call re-searches from scratch, so nothing else needs
    /// to change.
    pub fn update_obstacle(&mut self, coord: Coord, is_blocked: bool)
        requires
            old(self).wf(),
        ensures
            final(self).wf(),
            final(self).spec_width() == old(self).spec_width(),
            final(self).spec_height() == old(self).spec_height(),
            in_bounds(coord, old(self).spec_width(), old(self).spec_height())
                ==> final(self).gridv() == old(self).gridv().update(
                coord.0 as int,
                old(self).gridv()[coord.0 as int].update(coord.1 as int, is_blocked),
            ),
            !in_bounds(coord, old(self).spec_width(), old(self).spec_height())
                ==> final(self).gridv() == old(self).gridv(),
    {
        let (x, y) = coord;
        if x < self.width && y < self.height {
            proof {
                assert(self.grid@.len() == self.width);
                assert(self.gridv()[x as int] == self.grid@[x as int]@);
            }
            self.grid[x][y] = is_blocked;
            proof {
                assert(self.gridv() =~= old(self).gridv().update(
                    x as int,
                    old(self).gridv()[x as int].update(y as int, is_blocked),
                ));
            }
        } else {
            proof {
                assert(self.gridv() =~= old(self).gridv());
            }
        }
    }
}

/// Some open-list entry is for cell `c`.
pub open spec fn in_open(open: Seq<Entry>, c: Coord) -> bool {
    exists|k: int| 0 <= k < open.len() && (#[trigger] open[k]).coord == c
}

proof fn lemma_in_open_after_remove(open: Seq<Entry>, j: int, c: Coord)
    requires
        0 <= j < open.len(),
        in_open(open, c),
        open[j].coord != c,
    ensures
        in_open(open.remove(j), c),
{
    let k = choose|k: int| 0 <= k < open.len() && (#[trigger] open[k]).coord == c;
    open.remove_ensures(j);
    if k < j {
        assert(open.remove(j)[k].coord == c);
    } else {
        assert(open.remove(j)[k - 1].coord == c);
    }
}

proof fn lemma_in_open_after_push(open: Seq<Entry>, e: Entry, c: Coord)
    requires
        in_open(open, c) || e.coord == c,
    ensures
        in_open(open.push(e), c),
{
    if e.coord == c {
        assert(open.push(e)[open.len() as int].coord == c);
    } else {
        let k = choose|k: int| 0 <= k < open.len() && (#[trigger] open[k]).coord == c;
        assert(open.push(e)[k].coord == c);
    }
}

/// The search state without the expansion clause: table shapes, the
/// start's zero cost, well-formed frontier entries, every discovered cell
/// closed or on the frontier, parent pointers that record legal decreasing
/// steps, and the counting bound that keeps finite costs small.
spec fn inv_base(
    gv: GridView,
    width: int,
    height: int,
    start: Coord,
    goal: Coord,
    open: Seq<Entry>,
    closed: Seq<bool>,
    came: Seq<Option<Coord>>,
    g: Seq<u64>,
) -> bool {
    &&& closed.len() == width * height
    &&& came.len() == width * height
    &&& g.len() == width * height
    &&& g[cell_idx(start, height)] == 0
    &&& !closed[cell_idx(goal, height)]
    &&& forall|k: int|
        0 <= k < open.len() ==> in_bounds((#[trigger] open[k]).coord, width, height) && g[cell_idx(
            open[k].coord,
            height,
        )] < INF
    &&& forall|c: Coord|
        in_bounds(c, width, height) && g[#[trigger] cell_idx(c, height)] < INF ==> closed[cell_idx(
            c,
            height,
        )] || in_open(open, c)
    &&& forall|c: Coord|
        in_bounds(c, width, height) && closed[#[trigger] cell_idx(c, height)] ==> g[cell_idx(
            c,
            height,
        )] < INF
    &&& forall|c: Coord|
        in_bounds(c, width, height) && (#[trigger] came[cell_idx(c, height)]) is Some ==> {
            let p = came[cell_idx(c, height)].unwrap();
            &&& in_bounds(p, width, height)
            &&& adj4(p, c)
            &&& free_cell(gv, c, width, height)
            &&& closed[cell_idx(p, height)]
            &&& g[cell_idx(p, height)] < INF
            &&& g[cell_idx(c, height)] < INF
            &&& g[cell_idx(c, height)] == g[cell_idx(p, height)] + 1
        }
    &&& forall|c: Coord|
        in_bounds(c, width, height) && g[cell_idx(c, height)] < INF && (#[trigger] came[cell_idx(
            c,
            height,
        )]) is None ==> c == start
    &&& forall|i: int| 0 <= i < g.len() && #[trigger] g[i] < INF ==> g[i] <= fin_set(g).len()
}

/// Every closed cell has been expanded: each free orthogonal neighbor has
/// been discovered.
spec fn inv_expanded(
    gv: GridView,
    width: int,
    height: int,
    closed: Seq<bool>,
    g: Seq<u64>,
) -> bool {
    forall|c: Coord, n: Coord|
        #![trigger closed[cell_idx(c, height)], cell_idx(n, height)]
        in_bounds(c, width, height) && closed[cell_idx(c, height)] && adj4(c, n) && free_cell(
            gv,
            n,
            width,
            height,
        ) ==> g[cell_idx(n, height)] < INF
}

/// The triangle inequality of the Manhattan distance.
proof fn lemma_manhattan_triangle(a: Coord, b: Coord, c: Coord)
    ensures
        manhattan_spec(a, c) <= manhattan_spec(a, b) + manhattan_spec(b, c),
{
}

/// Along a path of orthogonal steps, the Manhattan distance between two
/// cells is at most the number of steps between them.
proof fn lemma_path_bounds_manhattan(
    gv: GridView,
    p: Seq<Coord>,
    i: int,
    k: int,
    width: int,
    height: int,
)
    requires
        forall|j: int| 0 <= j < p.len() - 1 ==> #[trigger] step_ok4(gv, p, j, width, height),
        0 <= i <= k < p.len(),
    ensures
        manhattan_spec(p[i], p[k]) <= k - i,
    decreases k - i,
{
    if i < k {
        lemma_path_bounds_manhattan(gv, p, i, k - 1, width, height);
        assert(step_ok4(gv, p, k - 1, width, height));
        lemma_manhattan_triangle(p[i], p[k - 1], p[k]);
    }
}

/// A prefix of a valid chain of steps is a valid path to its last cell.
proof fn lemma_path_prefix_valid(
    gv: GridView,
    p: Seq<Coord>,
    m: int,
    start: Coord,
    width: int,
    height: int,
)
    requires
        p.len() >= 1,
        p[0] == start,
        forall|j: int| 0 <= j < p.len() - 1 ==> #[trigger] step_ok4(gv, p, j, width, height),
        0 <= m < p.len(),
    ensures
        path_valid4(gv, p.subrange(0, m + 1), start, p[m], width, height),
{
    let q = p.subrange(0, m + 1);
    assert forall|j: int| 0 <= j < q.len() - 1 implies #[trigger] step_ok4(gv, q, j, width, height) by {
        assert(q[j] == p[j] && q[j + 1] == p[j + 1]);
        assert(step_ok4(gv, p, j, width, height));
    }
}

/// Tight expansion: a closed cell never undercuts its free neighbors by
/// more than the unit step.
spec fn inv_tight(gv: GridView, width: int, height: int, closed: Seq<bool>, g: Seq<u64>) -> bool {
    forall|c: Coord, n: Coord|
        #![trigger closed[cell_idx(c, height)], cell_idx(n, height)]
        in_bounds(c, width, height) && closed[cell_idx(c, height)] && adj4(c, n) && free_cell(
            gv,
            n,
            width,
            height,
        ) && !closed[cell_idx(n, height)] ==> g[cell_idx(n, height)] <= g[cell_idx(c, height)] + 1
}

/// `inv_tight` with one cell's expansion still pending.
spec fn inv_tight_except(
    gv: GridView,
    width: int,
    height: int,
    closed: Seq<bool>,
    g: Seq<u64>,
    pending: Coord,
) -> bool {
    forall|c: Coord, n: Coord|
        #![trigger closed[cell_idx(c, height)], cell_idx(n, height)]
        in_bounds(c, width, height) && closed[cell_idx(c, height)] && c != pending && adj4(c, n)
            && free_cell(gv, n, width, height) && !closed[cell_idx(n, height)] ==> g[cell_idx(
            n,
            height,
        )] <= g[cell_idx(c, height)] + 1
}

/// Every discovered cell still on the frontier has a fresh entry: one
/// keyed by its current cost plus the heuristic.
spec fn inv_fresh(
    goal: Coord,
    width: int,
    height: int,
    open: Seq<Entry>,
    closed: Seq<bool>,
    g: Seq<u64>,
) -> bool {
    forall|c: Coord|
        in_bounds(c, width, height) && g[#[trigger] cell_idx(c, height)] < INF && !closed[cell_idx(
            c,
            height,
        )] ==> exists|k: int|
            0 <= k < open.len() && (#[trigger] open[k]).coord == c && open[k].k1 == g[cell_idx(
                c,
                height,
            )] + manhattan_spec(c, goal)
    }

/// No frontier entry's key undercuts its cell's current cost plus the
/// heuristic: keys only go stale upward.
spec fn inv_keybound(goal: Coord, height: int, open: Seq<Entry>, g: Seq<u64>) -> bool {
    forall|k: int|
        0 <= k < open.len() ==> (#[trigger] open[k]).k1 >= g[cell_idx(open[k].coord, height)]
            + manhattan_spec(open[k].coord, goal)
}

/// Closed cells' costs lower-bound every valid route to them.
spec fn inv_opt(
    gv: GridView,
    width: int,
    height: int,
    start: Coord,
    closed: Seq<bool>,
    g: Seq<u64>,
) -> bool {
    forall|c: Coord, q: Seq<Coord>|
        in_bounds(c, width, height) && closed[cell_idx(c, height)] && #[trigger] path_valid4(
            gv,
            q,
            start,
            c,
            width,
            height,
        ) ==> q.len() - 1 >= g[cell_idx(c, height)]
}

/// The first cell along `p` that is not yet closed, given that the end of
/// `p` is not closed.
proof fn find_first_unclosed(height: int, closed: Seq<bool>, p: Seq<Coord>, i: int) -> (m: int)
    requires
        0 <= i < p.len(),
        closed.len() > 0,
        forall|k: int| 0 <= k < p.len() ==> 0 <= cell_idx(#[trigger] p[k], height) < closed.len(),
        !closed[cell_idx(p[p.len() - 1], height)],
        forall|k: int| 0 <= k < i ==> closed[cell_idx(#[trigger] p[k], height)],
    ensures
        i <= m < p.len(),
        !closed[cell_idx(p[m], height)],
        forall|k: int| 0 <= k < m ==> closed[cell_idx(#[trigger] p[k], height)],
    decreases p.len() - i,
{
    if !closed[cell_idx(p[i], height)] {
        i
    } else {
        find_first_unclosed(height, closed, p, i + 1)
    }
}

/// The frontier-crossing bound: when the entry `e` is the one `pop`
/// takes, every valid route to its cell is at least as long as the cell's
/// recorded cost — the route's first not-yet-closed cell has a fresh
/// frontier entry whose key ties the route's length to `e`'s key through
/// the heuristic's triangle inequality.
#[verifier::spinoff_prover]
#[verifier::rlimit(100)]
proof fn lemma_pop_bounds_paths(
    gv: GridView,
    w: int,
    h: int,
    start: Coord,
    goal: Coord,
    open_pre: Seq<Entry>,
    j: int,
    e: Entry,
    closed: Seq<bool>,
    came: Seq<Option<Coord>>,
    g: Seq<u64>,
    q: Seq<Coord>,
)
    requires
        in_bounds(start, w, h),
        in_bounds(goal, w, h),
        w * h <= MAX_CELLS,
        inv_base(gv, w, h, start, goal, open_pre, closed, came, g),
        inv_tight(gv, w, h, closed, g),
        inv_fresh(goal, w, h, open_pre, closed, g),
        inv_keybound(goal, h, open_pre, g),
        inv_opt(gv, w, h, start, closed, g),
        0 <= j < open_pre.len(),
        open_pre[j] == e,
        forall|i: int|
            0 <= i < open_pre.len() && i != j ==> pops_before(e, #[trigger] open_pre[i], true)
                || open_pre[i] == e,
        path_valid4(gv, q, start, e.coord, w, h),
        in_bounds(e.coord, w, h),
    ensures
        q.len() - 1 >= g[cell_idx(e.coord, h)],
{
    lemma_cell_idx_bound(e.coord, w, h);
    if closed[cell_idx(e.coord, h)] {
        assert(q.len() - 1 >= g[cell_idx(e.coord, h)]);
    } else {
        assert forall|k: int| 0 <= k < q.len() implies in_bounds(#[trigger] q[k], w, h) by {
            if k == 0 {
            } else {
                assert(step_ok4(gv, q, k - 1, w, h));
            }
        }
        assert forall|k: int|
            0 <= k < q.len() implies 0 <= cell_idx(#[trigger] q[k], h) < closed.len() by {
            lemma_cell_idx_bound(q[k], w, h);
        }
        let m = find_first_unclosed(h, closed, q, 0);
        let y = q[m];
        lemma_cell_idx_bound(y, w, h);
        lemma_fin_set_bound(g);
        if m == 0 {
            assert(y == start);
            assert(g[cell_idx(y, h)] == 0);
        } else {
            lemma_path_prefix_valid(gv, q, m - 1, start, w, h);
            let pre = q.subrange(0, m);
            assert(path_valid4(gv, pre, start, q[m - 1], w, h));
            lemma_cell_idx_bound(q[m - 1], w, h);
            assert(pre.len() - 1 >= g[cell_idx(q[m - 1], h)]);
            assert(step_ok4(gv, q, m - 1, w, h));
            assert(!closed[cell_idx(y, h)]);
            assert(g[cell_idx(y, h)] <= g[cell_idx(q[m - 1], h)] + 1);
            assert(g[cell_idx(q[m - 1], h)] < INF);
        }
        assert(g[cell_idx(y, h)] <= m);
        assert(g[cell_idx(y, h)] < INF);
        let k = choose|k: int|
            0 <= k < open_pre.len() && (#[trigger] open_pre[k]).coord == y && open_pre[k].k1 == g[
                cell_idx(y, h)
            ] + manhattan_spec(y, goal);
        assert(e.k1 <= open_pre[k].k1) by {
            if k != j {
                assert(pops_before(e, open_pre[k], true) || open_pre[k] == e);
            }
        }
        assert(e.k1 >= g[cell_idx(e.coord, h)] + manhattan_spec(e.coord, goal));
        lemma_manhattan_triangle(y, e.coord, goal);
        lemma_path_bounds_manhattan(gv, q, m, q.len() - 1, w, h);
        assert(manhattan_spec(y, goal) <= (q.len() - 1 - m) + manhattan_spec(e.coord, goal));
        assert(g[cell_idx(e.coord, h)] + manhattan_spec(e.coord, goal) <= m + manhattan_spec(
            y,
            goal,
        ));
    }
}

/// The unchanging context of one search: the strategy value, the cached
/// dimensions, and the query endpoints.
spec fn search_ctx(
    s: AStar,
    start: Coord,
    goal: Coord,
    width: usize,
    height: usize,
    cells: usize,
    gv: GridView,
    w: int,
    h: int,
) -> bool {
    &&& s.wf()
    &&& width == s.width
    &&& height == s.height
    &&& cells == width * height
    &&& gv == s.gridv()
    &&& w == width
    &&& h == height
    &&& in_bounds(start, w, h)
    &&& in_bounds(goal, w, h)
    &&& width <= MAX_CELLS
    &&& height <= MAX_CELLS
}

/// `inv_expanded` with one cell's expansion still pending.
spec fn inv_expanded_except(
    gv: GridView,
    width: int,
    height: int,
    closed: Seq<bool>,
    g: Seq<u64>,
    pending: Coord,
) -> bool {
    forall|c: Coord, n: Coord|
        #![trigger closed[cell_idx(c, height)], cell_idx(n, height)]
        in_bounds(c, width, height) && closed[cell_idx(c, height)] && c != pending && adj4(c, n)
            && free_cell(gv, n, width, height) ==> g[cell_idx(n, height)] < INF
}

/// Closing the cell just popped preserves the base invariant: the popped
/// entry is accounted for by the closed bit, and every other frontier
/// entry survives the removal.
#[verifier::rlimit(60)]
proof fn lemma_close_cell(
    gv: GridView,
    w: int,
    h: int,
    start: Coord,
    goal: Coord,
    open_pre: Seq<Entry>,
    open_now: Seq<Entry>,
    j: int,
    e: Entry,
    closed_pre: Seq<bool>,
    closed_now: Seq<bool>,
    came: Seq<Option<Coord>>,
    g: Seq<u64>,
    cur: Coord,
)
    requires
        in_bounds(start, w, h),
        in_bounds(goal, w, h),
        in_bounds(cur, w, h),
        inv_base(gv, w, h, start, goal, open_pre, closed_pre, came, g),
        inv_expanded(gv, w, h, closed_pre, g),
        0 <= j < open_pre.len(),
        open_pre[j] == e,
        open_now == open_pre.remove(j),
        e.coord == cur,
        cur != goal,
        closed_now == closed_pre.update(cell_idx(cur, h), true),
        inv_tight(gv, w, h, closed_pre, g),
        inv_fresh(goal, w, h, open_pre, closed_pre, g),
        inv_keybound(goal, h, open_pre, g),
        inv_opt(gv, w, h, start, closed_pre, g),
        forall|q: Seq<Coord>|
            #[trigger] path_valid4(gv, q, start, cur, w, h) ==> q.len() - 1 >= g[cell_idx(cur, h)],
    ensures
        inv_base(gv, w, h, start, goal, open_now, closed_now, came, g),
        inv_expanded_except(gv, w, h, closed_now, g, cur),
        inv_tight_except(gv, w, h, closed_now, g, cur),
        inv_fresh(goal, w, h, open_now, closed_now, g),
        inv_keybound(goal, h, open_now, g),
        inv_opt(gv, w, h, start, closed_now, g),
        g[cell_idx(cur, h)] < INF,
{
    lemma_cell_idx_bound(cur, w, h);
    lemma_cell_idx_bound(goal, w, h);
    lemma_cell_idx_distinct(cur, goal, w, h);
    open_pre.remove_ensures(j);
    assert forall|kk: int|
        0 <= kk < open_now.len() implies in_bounds((#[trigger] open_now[kk]).coord, w, h)
        && g[cell_idx(open_now[kk].coord, h)] < INF by {
        if kk < j {
            assert(open_now[kk] == open_pre[kk]);
        } else {
            assert(open_now[kk] == open_pre[kk + 1]);
        }
    }
    assert forall|c: Coord|
        in_bounds(c, w, h) && g[#[trigger] cell_idx(c, h)] < INF implies closed_now[cell_idx(
        c,
        h,
    )] || in_open(open_now, c) by {
        lemma_cell_idx_bound(c, w, h);
        if cell_idx(c, h) == cell_idx(cur, h) {
            lemma_cell_idx_injective(c, cur, w, h);
        } else if !closed_now[cell_idx(c, h)] {
            assert(closed_now[cell_idx(c, h)] == closed_pre[cell_idx(c, h)]);
            assert(in_open(open_pre, c));
            assert(c != cur);
            assert(open_pre[j].coord == cur);
            lemma_in_open_after_remove(open_pre, j, c);
        }
    }
    assert forall|c: Coord|
        in_bounds(c, w, h) && closed_now[#[trigger] cell_idx(c, h)] implies g[cell_idx(c, h)]
        < INF by {
        lemma_cell_idx_bound(c, w, h);
        if cell_idx(c, h) == cell_idx(cur, h) {
            lemma_cell_idx_injective(c, cur, w, h);
        } else {
            assert(closed_pre[cell_idx(c, h)]);
        }
    }
    assert forall|c: Coord|
        in_bounds(c, w, h) && (#[trigger] came[cell_idx(c, h)]) is Some implies {
        let p = came[cell_idx(c, h)].unwrap();
        &&& in_bounds(p, w, h)
        &&& adj4(p, c)
        &&& free_cell(gv, c, w, h)
        &&& closed_now[cell_idx(p, h)]
        &&& g[cell_idx(p, h)] < INF
        &&& g[cell_idx(c, h)] < INF
        &&& g[cell_idx(c, h)] == g[cell_idx(p, h)] + 1
    } by {
        lemma_cell_idx_bound(c, w, h);
        let p = came[cell_idx(c, h)].unwrap();
        lemma_cell_idx_bound(p, w, h);
        assert(closed_pre[cell_idx(p, h)]);
    }
    assert forall|c: Coord, n2: Coord|
        #![trigger closed_now[cell_idx(c, h)], cell_idx(n2, h)]
        in_bounds(c, w, h) && closed_now[cell_idx(c, h)] && c != cur && adj4(c, n2) && free_cell(
        gv,
        n2,
        w,
        h,
    ) implies g[cell_idx(n2, h)] < INF && (!closed_now[cell_idx(n2, h)] ==> g[cell_idx(n2, h)]
        <= g[cell_idx(c, h)] + 1) by {
        lemma_cell_idx_bound(c, w, h);
        lemma_cell_idx_distinct(c, cur, w, h);
        assert(closed_pre[cell_idx(c, h)]);
        lemma_cell_idx_bound(n2, w, h);
        if !closed_now[cell_idx(n2, h)] {
            assert(!closed_pre[cell_idx(n2, h)]);
        }
    }
    assert forall|c: Coord|
        in_bounds(c, w, h) && g[#[trigger] cell_idx(c, h)] < INF && !closed_now[cell_idx(c, h)]
        implies exists|k: int|
        0 <= k < open_now.len() && (#[trigger] open_now[k]).coord == c && open_now[k].k1 == g[
            cell_idx(c, h)
        ] + manhattan_spec(c, goal) by {
        lemma_cell_idx_bound(c, w, h);
        assert(c != cur) by {
            lemma_cell_idx_distinct(c, cur, w, h);
        }
        assert(!closed_pre[cell_idx(c, h)]);
        let k = choose|k: int|
            0 <= k < open_pre.len() && (#[trigger] open_pre[k]).coord == c && open_pre[k].k1 == g[
                cell_idx(c, h)
            ] + manhattan_spec(c, goal);
        assert(k != j);
        if k < j {
            assert(open_now[k] == open_pre[k]);
        } else {
            assert(open_now[k - 1] == open_pre[k]);
        }
    }
    assert forall|kk: int|
        0 <= kk < open_now.len() implies (#[trigger] open_now[kk]).k1 >= g[cell_idx(
        open_now[kk].coord,
        h,
    )] + manhattan_spec(open_now[kk].coord, goal) by {
        if kk < j {
            assert(open_now[kk] == open_pre[kk]);
        } else {
            assert(open_now[kk] == open_pre[kk + 1]);
        }
    }
    assert forall|c: Coord, q: Seq<Coord>|
        in_bounds(c, w, h) && closed_now[cell_idx(c, h)] && #[trigger] path_valid4(
        gv,
        q,
        start,
        c,
        w,
        h,
    ) implies q.len() - 1 >= g[cell_idx(c, h)] by {
        lemma_cell_idx_bound(c, w, h);
        if cell_idx(c, h) == cell_idx(cur, h) {
            lemma_cell_idx_injective(c, cur, w, h);
        } else {
            assert(closed_pre[cell_idx(c, h)]);
        }
    }
}

/// Relaxing one improvable neighbor — recording its parent, lowering its
/// cost, and enqueueing it — preserves the base invariant and strictly
/// lowers the cost-table sum.
#[verifier::rlimit(60)]
proof fn lemma_relax_update(
    gv: GridView,
    w: int,
    h: int,
    start: Coord,
    goal: Coord,
    open_before: Seq<Entry>,
    open_now: Seq<Entry>,
    came_before: Seq<Option<Coord>>,
    came_now: Seq<Option<Coord>>,
    g_before: Seq<u64>,
    g_now: Seq<u64>,
    closed: Seq<bool>,
    cur: Coord,
    n: Coord,
    tentative: u64,
    ent: Entry,
)
    requires
        in_bounds(start, w, h),
        in_bounds(goal, w, h),
        in_bounds(cur, w, h),
        in_bounds(n, w, h),
        inv_base(gv, w, h, start, goal, open_before, closed, came_before, g_before),
        closed[cell_idx(cur, h)],
        !closed[cell_idx(n, h)],
        adj4(cur, n),
        free_cell(gv, n, w, h),
        g_before[cell_idx(cur, h)] < INF,
        tentative == g_before[cell_idx(cur, h)] + 1,
        tentative < g_before[cell_idx(n, h)],
        tentative < INF,
        came_now == came_before.update(cell_idx(n, h), Some(cur)),
        g_now == g_before.update(cell_idx(n, h), tentative),
        ent.coord == n,
        ent.k1 == tentative + manhattan_spec(n, goal),
        open_now == open_before.push(ent),
        inv_tight_except(gv, w, h, closed, g_before, cur),
        inv_fresh(goal, w, h, open_before, closed, g_before),
        inv_keybound(goal, h, open_before, g_before),
        inv_opt(gv, w, h, start, closed, g_before),
    ensures
        inv_base(gv, w, h, start, goal, open_now, closed, came_now, g_now),
        inv_tight_except(gv, w, h, closed, g_now, cur),
        inv_fresh(goal, w, h, open_now, closed, g_now),
        inv_keybound(goal, h, open_now, g_now),
        inv_opt(gv, w, h, start, closed, g_now),
        g_now[cell_idx(cur, h)] == g_before[cell_idx(cur, h)],
        sum_of(g_now) == sum_of(g_before) - g_before[cell_idx(n, h)] + tentative,
        sum_of(g_now) < sum_of(g_before),
        forall|i: int| 0 <= i < g_before.len() && #[trigger] g_before[i] < INF ==> g_now[i] < INF,
{
    lemma_cell_idx_bound(cur, w, h);
    lemma_cell_idx_bound(n, w, h);
    lemma_cell_idx_bound(start, w, h);
    lemma_cell_idx_bound(goal, w, h);
    lemma_cell_idx_distinct(cur, n, w, h);
    let ni = cell_idx(n, h);
    lemma_sum_update(g_before, ni, tentative);
    lemma_fin_set_update(g_before, ni, tentative);
    lemma_fin_set_bound(g_before);
    let fin_pre = fin_set(g_before);
    let fin_post = fin_set(g_now);
    if g_before[ni] < INF {
        assert(fin_pre.insert(ni) =~= fin_pre);
        assert(fin_post.len() == fin_pre.len());
    } else {
        assert(!fin_pre.contains(ni));
        assert(fin_post.len() == fin_pre.len() + 1);
    }
    // a relaxation can never lower a cost below zero, so the updated slot
    // is not the start's
    if ni == cell_idx(start, h) {
        assert(g_before[cell_idx(start, h)] == 0);
        assert(false);
    }
    assert(g_now[cell_idx(start, h)] == 0);
    assert(!closed[cell_idx(goal, h)]);
    assert forall|kk: int|
        0 <= kk < open_now.len() implies in_bounds((#[trigger] open_now[kk]).coord, w, h)
        && g_now[cell_idx(open_now[kk].coord, h)] < INF by {
        if kk < open_before.len() {
            assert(open_now[kk] == open_before[kk]);
            lemma_cell_idx_bound(open_now[kk].coord, w, h);
        } else {
            assert(open_now[kk].coord == n);
        }
    }
    assert forall|c: Coord|
        in_bounds(c, w, h) && g_now[#[trigger] cell_idx(c, h)] < INF implies closed[cell_idx(
        c,
        h,
    )] || in_open(open_now, c) by {
        lemma_cell_idx_bound(c, w, h);
        if cell_idx(c, h) == ni {
            lemma_cell_idx_injective(c, n, w, h);
            lemma_in_open_after_push(open_before, ent, c);
        } else {
            if !closed[cell_idx(c, h)] {
                assert(g_before[cell_idx(c, h)] < INF);
                assert(in_open(open_before, c));
                lemma_in_open_after_push(open_before, ent, c);
            }
        }
    }
    assert forall|c: Coord|
        in_bounds(c, w, h) && closed[#[trigger] cell_idx(c, h)] implies g_now[cell_idx(c, h)]
        < INF by {
        lemma_cell_idx_bound(c, w, h);
        if cell_idx(c, h) != ni {
            assert(g_now[cell_idx(c, h)] == g_before[cell_idx(c, h)]);
        }
    }
    assert forall|c: Coord|
        in_bounds(c, w, h) && (#[trigger] came_now[cell_idx(c, h)]) is Some implies {
        let p = came_now[cell_idx(c, h)].unwrap();
        &&& in_bounds(p, w, h)
        &&& adj4(p, c)
        &&& free_cell(gv, c, w, h)
        &&& closed[cell_idx(p, h)]
        &&& g_now[cell_idx(p, h)] < INF
        &&& g_now[cell_idx(c, h)] < INF
        &&& g_now[cell_idx(c, h)] == g_now[cell_idx(p, h)] + 1
    } by {
        lemma_cell_idx_bound(c, w, h);
        if cell_idx(c, h) == ni {
            lemma_cell_idx_injective(c, n, w, h);
            assert(came_now[cell_idx(c, h)].unwrap() == cur);
            assert(cell_idx(cur, h) != ni);
        } else {
            assert(came_now[cell_idx(c, h)] == came_before[cell_idx(c, h)]);
            let p = came_before[cell_idx(c, h)].unwrap();
            lemma_cell_idx_bound(p, w, h);
            assert(closed[cell_idx(p, h)]);
            assert(cell_idx(p, h) != ni);
        }
    }
    assert forall|c: Coord|
        in_bounds(c, w, h) && g_now[cell_idx(c, h)] < INF && (#[trigger] came_now[cell_idx(
        c,
        h,
    )]) is None implies c == start by {
        lemma_cell_idx_bound(c, w, h);
        if cell_idx(c, h) == ni {
            lemma_cell_idx_injective(c, n, w, h);
        } else {
            assert(g_before[cell_idx(c, h)] < INF);
        }
    }
    assert forall|i: int|
        0 <= i < g_now.len() && #[trigger] g_now[i] < INF implies g_now[i] <= fin_set(
        g_now,
    ).len() by {
        if i == ni {
            assert(g_now[i] == g_before[cell_idx(cur, h)] + 1);
            assert(g_before[cell_idx(cur, h)] <= fin_pre.len());
        } else {
            assert(g_now[i] == g_before[i]);
        }
    }
    assert(inv_base(gv, w, h, start, goal, open_now, closed, came_now, g_now));
    assert forall|c: Coord, n2: Coord|
        #![trigger closed[cell_idx(c, h)], cell_idx(n2, h)]
        in_bounds(c, w, h) && closed[cell_idx(c, h)] && c != cur && adj4(c, n2) && free_cell(
        gv,
        n2,
        w,
        h,
    ) && !closed[cell_idx(n2, h)] implies g_now[cell_idx(n2, h)] <= g_now[cell_idx(c, h)]
        + 1 by {
        lemma_cell_idx_bound(c, w, h);
        lemma_cell_idx_bound(n2, w, h);
        assert(cell_idx(c, h) != ni);
        assert(g_before[cell_idx(n2, h)] <= g_before[cell_idx(c, h)] + 1);
    }
    assert forall|c: Coord|
        in_bounds(c, w, h) && g_now[#[trigger] cell_idx(c, h)] < INF && !closed[cell_idx(c, h)]
        implies exists|k: int|
        0 <= k < open_now.len() && (#[trigger] open_now[k]).coord == c && open_now[k].k1 == g_now[
            cell_idx(c, h)
        ] + manhattan_spec(c, goal) by {
        lemma_cell_idx_bound(c, w, h);
        if cell_idx(c, h) == ni {
            lemma_cell_idx_injective(c, n, w, h);
            assert(open_now[open_before.len() as int] == ent);
        } else {
            assert(g_before[cell_idx(c, h)] < INF);
            let k = choose|k: int|
                0 <= k < open_before.len() && (#[trigger] open_before[k]).coord == c
                    && open_before[k].k1 == g_before[cell_idx(c, h)] + manhattan_spec(c, goal);
            assert(open_now[k] == open_before[k]);
        }
    }
    assert forall|kk: int|
        0 <= kk < open_now.len() implies (#[trigger] open_now[kk]).k1 >= g_now[cell_idx(
        open_now[kk].coord,
        h,
    )] + manhattan_spec(open_now[kk].coord, goal) by {
        if kk < open_before.len() {
            assert(open_now[kk] == open_before[kk]);
            lemma_cell_idx_bound(open_now[kk].coord, w, h);
            if cell_idx(open_now[kk].coord, h) == ni {
                assert(g_now[ni] <= g_before[ni]);
            }
        } else {
            assert(open_now[kk] == ent);
        }
    }
    assert forall|c: Coord, q: Seq<Coord>|
        in_bounds(c, w, h) && closed[cell_idx(c, h)] && #[trigger] path_valid4(
        gv,
        q,
        start,
        c,
        w,
        h,
    ) implies q.len() - 1 >= g_now[cell_idx(c, h)] by {
        lemma_cell_idx_bound(c, w, h);
        assert(cell_idx(c, h) != ni);
        assert(q.len() - 1 >= g_before[cell_idx(c, h)]);
    }
}

/// Walking any valid path from the start, every cell stays inside the
/// closed region once the frontier is exhausted.
proof fn lemma_path_stays_closed(
    gv: GridView,
    width: int,
    height: int,
    closed: Seq<bool>,
    g: Seq<u64>,
    start: Coord,
    p: Seq<Coord>,
    i: int,
)
    requires
        in_bounds(start, width, height),
        g.len() == width * height,
        closed.len() == width * height,
        g[cell_idx(start, height)] < INF,
        forall|c: Coord|
            in_bounds(c, width, height) && g[#[trigger] cell_idx(c, height)] < INF ==> closed[
                cell_idx(c, height)
            ],
        inv_expanded(gv, width, height, closed, g),
        p.len() >= 1,
        p[0] == start,
        forall|j: int| 0 <= j < p.len() - 1 ==> #[trigger] step_ok4(gv, p, j, width, height),
        0 <= i < p.len(),
    ensures
        in_bounds(p[i], width, height),
        closed[cell_idx(p[i], height)],
    decreases i,
{
    if i == 0 {
        lemma_cell_idx_bound(start, width, height);
    } else {
        lemma_path_stays_closed(gv, width, height, closed, g, start, p, i - 1);
        assert(step_ok4(gv, p, i - 1, width, height));
        lemma_cell_idx_bound(p[i], width, height);
    }
}

/// When the frontier empties without reaching the goal, no valid path to
/// the goal exists at all.
proof fn lemma_exhausted_unreachable(
    gv: GridView,
    width: int,
    height: int,
    closed: Seq<bool>,
    g: Seq<u64>,
    start: Coord,
    goal: Coord,
)
    requires
        in_bounds(start, width, height),
        in_bounds(goal, width, height),
        g.len() == width * height,
        closed.len() == width * height,
        g[cell_idx(start, height)] < INF,
        forall|c: Coord|
            in_bounds(c, width, height) && g[#[trigger] cell_idx(c, height)] < INF ==> closed[
                cell_idx(c, height)
            ],
        inv_expanded(gv, width, height, closed, g),
        !closed[cell_idx(goal, height)],
    ensures
        !reachable4(gv, start, goal, width, height),
{
    assert forall|p: Seq<Coord>| !path_valid4(gv, p, start, goal, width, height) by {
        if path_valid4(gv, p, start, goal, width, height) {
            lemma_path_stays_closed(gv, width, height, closed, g, start, p, p.len() - 1);
        }
    }
}


impl AStar {
    /// Follow parent pointers back from the goal, then reverse: yields a
    /// valid path because every recorded parent step was a legal move with
    /// strictly smaller cost.
    #[verifier::loop_isolation(false)]
    #[verifier::spinoff_prover]
    #[verifier::rlimit(100)]
    fn rebuild_path(
        &self,
        came: &Vec<Option<Coord>>,
        g: &Vec<u64>,
        start: Coord,
        goal: Coord,
    ) -> (r: Vec<Coord>)
        requires
            self.wf(),
            in_bounds(start, self.spec_width(), self.spec_height()),
            in_bounds(goal, self.spec_width(), self.spec_height()),
            came@.len() == self.spec_width() * self.spec_height(),
            g@.len() == self.spec_width() * self.spec_height(),
            g@[cell_idx(goal, self.spec_height())] < INF,
            g@[cell_idx(start, self.spec_height())] == 0,
            forall|c: Coord|
                in_bounds(c, self.spec_width(), self.spec_height()) && (#[trigger] came@[cell_idx(
                    c,
                    self.spec_height(),
                )]) is Some ==> {
                    let p = came@[cell_idx(c, self.spec_height())].unwrap();
                    &&& in_bounds(p, self.spec_width(), self.spec_height())
                    &&& adj4(p, c)
                    &&& free_cell(self.gridv(), c, self.spec_width(), self.spec_height())
                    &&& g@[cell_idx(p, self.spec_height())] < INF
                    &&& g@[cell_idx(c, self.spec_height())] < INF
                    &&& g@[cell_idx(c, self.spec_height())] == g@[cell_idx(p, self.spec_height())]
                        + 1
                },
            forall|c: Coord|
                in_bounds(c, self.spec_width(), self.spec_height()) && g@[cell_idx(
                    c,
                    self.spec_height(),
                )] < INF && (#[trigger] came@[cell_idx(c, self.spec_height())]) is None ==> c
                    == start,
        ensures
            path_valid4(self.gridv(), r@, start, goal, self.spec_width(), self.spec_height()),
            came@[cell_idx(goal, self.spec_height())] is None ==> r@ == seq![goal],
            r@.len() == g@[cell_idx(goal, self.spec_height())] + 1,
    {
        let width = self.width;
        let height = self.height;
        let ghost gv = self.gridv();
        let mut rev: Vec<Coord> = Vec::new();
        let mut cur = goal;
        rev.push(cur);
        proof {
            assert(rev@ =~= seq![goal]);
        }
        while came[flat_idx(cur, width, height)].is_some()
            invariant
                came@[cell_idx(goal, height as int)] is None ==> rev@ == seq![goal] && cur == goal,
                in_bounds(cur, width as int, height as int),
                g@[cell_idx(cur, height as int)] < INF,
                rev@.len() == g@[cell_idx(goal, height as int)] - g@[cell_idx(cur, height as int)]
                    + 1,
                rev@.len() >= 1,
                rev@[0] == goal,
                rev@.last() == cur,
                forall|i: int|
                    0 <= i < rev@.len() - 1 ==> #[trigger] back_step_ok4(
                        gv,
                        rev@,
                        i,
                        width as int,
                        height as int,
                    ),
            decreases g@[cell_idx(cur, height as int)],
        {
            let ci = flat_idx(cur, width, height);
            let ghost old_rev = rev@;
            let p = came[ci].unwrap();
            proof {
                assert(came@[cell_idx(cur, height as int)] is Some);
            }
            rev.push(p);
            proof {
                assert forall|i: int|
                    0 <= i < rev@.len() - 1 implies #[trigger] back_step_ok4(
                    gv,
                    rev@,
                    i,
                    width as int,
                    height as int,
                ) by {
                    if i < rev@.len() - 2 {
                        assert(rev@[i] == old_rev[i]);
                        assert(rev@[i + 1] == old_rev[i + 1]);
                        assert(back_step_ok4(gv, old_rev, i, width as int, height as int));
                    } else {
                        assert(rev@[i + 1] == p && rev@[i] == cur);
                    }
                }
            }
            cur = p;
        }
        proof {
            assert(cur == start);
        }
        let mut path: Vec<Coord> = Vec::new();
        let mut i = rev.len();
        while i > 0
            invariant
                i <= rev@.len(),
                path@.len() == rev@.len() - i,
                forall|k: int|
                    0 <= k < path@.len() ==> #[trigger] path@[k] == rev@[rev@.len() - 1 - k],
            decreases i,
        {
            i = i - 1;
            let c = rev[i];
            path.push(c);
        }
        proof {
            let l = rev@.len() as int;
            assert(path@[0] == rev@[l - 1]);
            assert(path@[path@.len() - 1] == rev@[0]);
            assert forall|j: int| 0 <= j < path@.len() - 1 implies #[trigger] step_ok4(
                gv,
                path@,
                j,
                width as int,
                height as int,
            ) by {
                assert(path@[j] == rev@[l - 1 - j]);
                assert(path@[j + 1] == rev@[l - 2 - j]);
                assert(back_step_ok4(gv, rev@, l - 2 - j, width as int, height as int));
            }
            if came@[cell_idx(goal, height as int)] is None {
                assert(path@ =~= seq![goal]);
            }
        }
        path
    }
}

impl AStar {
    /// Compute a route from `start` to `goal` under the current occupancy:
    /// a frontier ordered by cost-so-far plus the Manhattan heuristic is
    /// expanded until the goal is popped or the frontier empties. Returns
    /// a valid 4-connected path exactly when one exists.
    #[verifier::spinoff_prover]
    #[verifier::rlimit(100)]
    pub fn compute_path(&mut self, start: Coord, goal: Coord) -> (r: Option<Vec<Coord>>)
        requires
            old(self).wf(),
            in_bounds(start, old(self).spec_width(), old(self).spec_height()),
            in_bounds(goal, old(self).spec_width(), old(self).spec_height()),
        ensures
            *final(self) == *old(self),
            r is Some ==> path_valid4(
                old(self).gridv(),
                r.unwrap()@,
                start,
                goal,
                old(self).spec_width(),
                old(self).spec_height(),
            ),
            r is None ==> !reachable4(
                old(self).gridv(),
                start,
                goal,
                old(self).spec_width(),
                old(self).spec_height(),
            ),
            start == goal ==> r is Some && r.unwrap()@ == seq![start],
            // no valid route is shorter than the returned one: the
            // Manhattan heuristic is admissible and consistent, so the
            // best-first order settles each cell at its true distance
            r is Some ==> forall|q: Seq<Coord>|
                #[trigger] path_valid4(
                    old(self).gridv(),
                    q,
                    start,
                    goal,
                    old(self).spec_width(),
                    old(self).spec_height(),
                ) ==> q.len() >= r.unwrap()@.len(),
    {
        let width = self.width;
        let height = self.height;
        proof {
            assert(width <= MAX_CELLS && height <= MAX_CELLS) by (nonlinear_arith)
                requires
                    width * height <= MAX_CELLS,
                    start.0 < width,
                    start.1 < height,
            {
            }
        }
        let cells = width * height;
        let ghost gv = self.gridv();
        let ghost w = width as int;
        let ghost h = height as int;

        let mut open = OpenList::new(true);
        let mut closed: Vec<bool> = vec![false; cells];
        let mut came: Vec<Option<Coord>> = vec![None; cells];
        let mut g: Vec<u64> = vec![INF; cells];

        let si = flat_idx(start, width, height);
        g[si] = 0;
        let h0 = self.heuristic(start, goal);
        open.push(Entry { coord: start, k1: h0 as u64, k2: 0 });
        proof {
            lemma_cell_idx_bound(start, w, h);
            lemma_cell_idx_bound(goal, w, h);
            assert(open@[0].coord == start);
            assert(in_open(open@, start));
            assert forall|c: Coord|
                in_bounds(c, w, h) && g@[#[trigger] cell_idx(c, h)] < INF implies c == start by {
                lemma_cell_idx_bound(c, w, h);
                if cell_idx(c, h) != si {
                    assert(g@[cell_idx(c, h)] == INF);
                } else {
                    lemma_cell_idx_injective(c, start, w, h);
                }
            }
            assert forall|c: Coord| in_bounds(c, w, h) implies !((#[trigger] came@[cell_idx(
                c,
                h,
            )]) is Some) by {
                lemma_cell_idx_bound(c, w, h);
            }
            assert forall|c: Coord| in_bounds(c, w, h) implies !closed@[#[trigger] cell_idx(c, h)] by {
                lemma_cell_idx_bound(c, w, h);
            }
            assert(inv_base(gv, w, h, start, goal, open@, closed@, came@, g@));
            assert(inv_expanded(gv, w, h, closed@, g@));
            assert(inv_tight(gv, w, h, closed@, g@));
            assert(inv_opt(gv, w, h, start, closed@, g@));
            assert forall|c: Coord|
                in_bounds(c, w, h) && g@[#[trigger] cell_idx(c, h)] < INF && !closed@[cell_idx(
                    c,
                    h,
                )] implies exists|k: int|
                0 <= k < open@.len() && (#[trigger] open@[k]).coord == c && open@[k].k1 == g@[
                    cell_idx(c, h)
                ] + manhattan_spec(c, goal) by {
                assert(c == start);
                assert(open@[0].coord == start && open@[0].k1 == g@[cell_idx(start, h)]
                    + manhattan_spec(start, goal));
            }
            assert(inv_fresh(goal, w, h, open@, closed@, g@));
            assert(inv_keybound(goal, h, open@, g@));
        }
        while open.len() > 0
            invariant
                search_ctx(*self, start, goal, width, height, cells, gv, w, h),
                open.tie() == true,
                inv_base(gv, w, h, start, goal, open@, closed@, came@, g@),
                inv_expanded(gv, w, h, closed@, g@),
                inv_tight(gv, w, h, closed@, g@),
                inv_fresh(goal, w, h, open@, closed@, g@),
                inv_keybound(goal, h, open@, g@),
                inv_opt(gv, w, h, start, closed@, g@),
            decreases sum_of(g@), open@.len(),
        {
            let ghost g_snap = g@;
            let ghost open_pre = open@;
            let popped_entry = open.pop();
            let e = popped_entry.unwrap();
            let cur = e.coord;
            let ghost j = choose|j: int| popped(open_pre, open@, e, j, true);
            proof {
                assert(popped_any(open_pre, open@, e, true));
                assert(open_pre[j] == e);
                assert(in_bounds(cur, w, h) && g@[cell_idx(cur, h)] < INF);
                lemma_cell_idx_bound(cur, w, h);
            }
            if cur.0 == goal.0 && cur.1 == goal.1 {
                proof {
                    if start == goal {
                        if came@[cell_idx(goal, h)] is Some {
                            assert(g@[cell_idx(goal, h)] == g@[cell_idx(
                                came@[cell_idx(goal, h)].unwrap(),
                                h,
                            )] + 1);
                        }
                    }
                    assert forall|q: Seq<Coord>| #[trigger] path_valid4(
                        gv,
                        q,
                        start,
                        goal,
                        w,
                        h,
                    ) implies q.len() - 1 >= g@[cell_idx(goal, h)] by {
                        lemma_pop_bounds_paths(
                            gv,
                            w,
                            h,
                            start,
                            goal,
                            open_pre,
                            j,
                            e,
                            closed@,
                            came@,
                            g@,
                            q,
                        );
                    }
                }
                let path = self.rebuild_path(&came, &g, start, goal);
                return Some(path);
            }
            let ci = flat_idx(cur, width, height);
            proof {
                assert forall|q: Seq<Coord>| #[trigger] path_valid4(
                    gv,
                    q,
                    start,
                    cur,
                    w,
                    h,
                ) implies q.len() - 1 >= g@[cell_idx(cur, h)] by {
                    lemma_pop_bounds_paths(
                        gv,
                        w,
                        h,
                        start,
                        goal,
                        open_pre,
                        j,
                        e,
                        closed@,
                        came@,
                        g@,
                        q,
                    );
                }
            }
            let ghost closed_pre = closed@;
            closed[ci] = true;
            proof {
                assert(closed@ =~= closed_pre.update(cell_idx(cur, h), true));
                lemma_close_cell(
                    gv,
                    w,
                    h,
                    start,
                    goal,
                    open_pre,
                    open@,
                    j,
                    e,
                    closed_pre,
                    closed@,
                    came@,
                    g@,
                    cur,
                );
            }
            self.relax_neighbors(cur, start, goal, &mut open, &mut came, &mut g, &closed);
            proof {
                lemma_sum_nonneg(g@);
                if g@ == g_snap {
                    assert(open@ == open_pre.remove(j));
                    assert(open@.len() < open_pre.len());
                }
            }
        }
        proof {
            assert forall|c: Coord|
                in_bounds(c, w, h) && g@[#[trigger] cell_idx(c, h)] < INF implies closed@[cell_idx(
                c,
                h,
            )] by {
                if !closed@[cell_idx(c, h)] {
                    assert(in_open(open@, c));
                }
            }
            lemma_exhausted_unreachable(gv, w, h, closed@, g@, start, goal);
            if start == goal {
                assert(path_valid4(gv, seq![start], start, goal, w, h));
            }
        }
        None
    }
}


impl AStar {
    /// Expand one freshly closed cell: relax every free orthogonal
    /// neighbor that this cell improves, recording parent and cost and
    /// enqueueing it. Afterwards every neighbor of `cur` is discovered.
    #[verifier::spinoff_prover]
    #[verifier::rlimit(100)]
    fn relax_neighbors(
        &self,
        cur: Coord,
        start: Coord,
        goal: Coord,
        open: &mut OpenList,
        came: &mut Vec<Option<Coord>>,
        g: &mut Vec<u64>,
        closed: &Vec<bool>,
    )
        requires
            self.wf(),
            in_bounds(start, self.spec_width(), self.spec_height()),
            in_bounds(goal, self.spec_width(), self.spec_height()),
            in_bounds(cur, self.spec_width(), self.spec_height()),
            inv_base(
                self.gridv(),
                self.spec_width(),
                self.spec_height(),
                start,
                goal,
                old(open)@,
                closed@,
                old(came)@,
                old(g)@,
            ),
            inv_expanded_except(
                self.gridv(),
                self.spec_width(),
                self.spec_height(),
                closed@,
                old(g)@,
                cur,
            ),
            inv_tight_except(
                self.gridv(),
                self.spec_width(),
                self.spec_height(),
                closed@,
                old(g)@,
                cur,
            ),
            inv_fresh(goal, self.spec_width(), self.spec_height(), old(open)@, closed@, old(g)@),
            inv_keybound(goal, self.spec_height(), old(open)@, old(g)@),
            inv_opt(self.gridv(), self.spec_width(), self.spec_height(), start, closed@, old(g)@),
            closed@[cell_idx(cur, self.spec_height())],
        ensures
            inv_base(
                self.gridv(),
                self.spec_width(),
                self.spec_height(),
                start,
                goal,
                final(open)@,
                closed@,
                final(came)@,
                final(g)@,
            ),
            inv_expanded(self.gridv(), self.spec_width(), self.spec_height(), closed@, final(g)@),
            inv_tight(self.gridv(), self.spec_width(), self.spec_height(), closed@, final(g)@),
            inv_fresh(goal, self.spec_width(), self.spec_height(), final(open)@, closed@, final(g)@),
            inv_keybound(goal, self.spec_height(), final(open)@, final(g)@),
            inv_opt(
                self.gridv(),
                self.spec_width(),
                self.spec_height(),
                start,
                closed@,
                final(g)@,
            ),
            final(open).tie() == old(open).tie(),
            sum_of(final(g)@) <= sum_of(old(g)@),
            (final(g)@ == old(g)@ && final(open)@ == old(open)@) || sum_of(final(g)@) < sum_of(
                old(g)@,
            ),
    {
        let width = self.width;
        let height = self.height;
        proof {
            assert(width <= MAX_CELLS && height <= MAX_CELLS) by (nonlinear_arith)
                requires
                    width * height <= MAX_CELLS,
                    cur.0 < width,
                    cur.1 < height,
            {
            }
        }
        let cells = width * height;
        let ghost gv = self.gridv();
        let ghost w = width as int;
        let ghost h = height as int;
        let ghost g_snap = g@;
        let ghost open_snap = open@;
        let ci = flat_idx(cur, width, height);
        let nbrs = self.neighbors(cur);
        let gci = g[ci];
        proof {
            assert(g@[cell_idx(cur, h)] < INF);
            lemma_fin_set_bound(g@);
            assert(gci <= cells);
        }
        let mut k: usize = 0;
        while k < nbrs.len()
            invariant
                search_ctx(*self, start, goal, width, height, cells, gv, w, h),
                in_bounds(cur, w, h),
                ci == cell_idx(cur, h),
                closed@.len() == cells,
                closed@[cell_idx(cur, h)],
                forall|i: int|
                    0 <= i < nbrs@.len() ==> adj4(cur, #[trigger] nbrs@[i]) && free_cell(
                        gv,
                        nbrs@[i],
                        w,
                        h,
                    ),
                k <= nbrs@.len(),
                inv_base(gv, w, h, start, goal, open@, closed@, came@, g@),
                inv_expanded_except(gv, w, h, closed@, g@, cur),
                inv_tight_except(gv, w, h, closed@, g@, cur),
                inv_fresh(goal, w, h, open@, closed@, g@),
                inv_keybound(goal, h, open@, g@),
                inv_opt(gv, w, h, start, closed@, g@),
                g@[cell_idx(cur, h)] == gci,
                gci <= cells,
                forall|m: int|
                    0 <= m < k ==> g@[cell_idx(#[trigger] nbrs@[m], h)] < INF && (!closed@[
                    cell_idx(nbrs@[m], h)] ==> g@[cell_idx(nbrs@[m], h)] <= gci + 1),
                open.tie() == old(open).tie(),
                sum_of(g@) <= sum_of(g_snap),
                (g@ == g_snap && open@ == open_snap) || sum_of(g@) < sum_of(g_snap),
            decreases nbrs@.len() - k,
        {
            let n = nbrs[k];
            let ni = flat_idx(n, width, height);
            proof {
                assert(adj4(cur, n) && free_cell(gv, n, w, h));
                lemma_cell_idx_bound(n, w, h);
                lemma_sum_nonneg(g@);
            }
            if !closed[ni] {
                proof {
                    assert(cell_idx(n, h) != cell_idx(cur, h));
                }
                let tentative = gci + 1;
                if tentative < g[ni] {
                    let ghost g_before = g@;
                    let ghost came_before = came@;
                    came[ni] = Some(cur);
                    g[ni] = tentative;
                    let hn = self.heuristic(n, goal);
                    let f = tentative + hn as u64;
                    let ghost open_before = open@;
                    let ent = Entry { coord: n, k1: f, k2: 0 };
                    proof {
                        assert(ent.k1 == tentative + manhattan_spec(n, goal));
                    }
                    open.push(ent);
                    proof {
                        assert(came@ =~= came_before.update(ni as int, Some(cur)));
                        assert(g@ =~= g_before.update(ni as int, tentative));
                        lemma_relax_update(
                            gv,
                            w,
                            h,
                            start,
                            goal,
                            open_before,
                            open@,
                            came_before,
                            came@,
                            g_before,
                            g@,
                            closed@,
                            cur,
                            n,
                            tentative,
                            ent,
                        );
                        assert(tentative < INF);
                        assert forall|m: int|
                            0 <= m < k + 1 implies g@[cell_idx(#[trigger] nbrs@[m], h)] < INF && (
                        !closed@[cell_idx(nbrs@[m], h)] ==> g@[cell_idx(nbrs@[m], h)] <= gci
                            + 1) by {
                            if m < k {
                                assert(g_before[cell_idx(nbrs@[m], h)] < INF);
                                lemma_cell_idx_bound(nbrs@[m], w, h);
                                assert(g@[cell_idx(nbrs@[m], h)] == g_before.update(
                                    ni as int,
                                    tentative,
                                )[cell_idx(nbrs@[m], h)]);
                            } else {
                                assert(nbrs@[m] == n);
                                assert(g@[ni as int] == tentative);
                            }
                        }
                        assert forall|c: Coord, n2: Coord|
                            #![trigger closed@[cell_idx(c, h)], cell_idx(n2, h)]
                            in_bounds(c, w, h) && closed@[cell_idx(c, h)] && c != cur && adj4(
                            c,
                            n2,
                        ) && free_cell(gv, n2, w, h) implies g@[cell_idx(n2, h)] < INF by {
                            assert(g_before[cell_idx(n2, h)] < INF);
                            lemma_cell_idx_bound(n2, w, h);
                        }
                        assert(inv_expanded_except(gv, w, h, closed@, g@, cur));
                    }
                }
            }
            k = k + 1;
        }
        proof {
            assert forall|c: Coord, n2: Coord|
                #![trigger closed@[cell_idx(c, h)], cell_idx(n2, h)]
                in_bounds(c, w, h) && closed@[cell_idx(c, h)] && adj4(c, n2) && free_cell(
                gv,
                n2,
                w,
                h,
            ) implies g@[cell_idx(n2, h)] < INF && (!closed@[cell_idx(n2, h)] ==> g@[cell_idx(
                n2,
                h,
            )] <= g@[cell_idx(c, h)] + 1) by {
                if c == cur {
                    assert(nbrs@.contains(n2));
                    let m = choose|m: int| 0 <= m < nbrs@.len() && nbrs@[m] == n2;
                    assert(g@[cell_idx(nbrs@[m], h)] < INF && (!closed@[cell_idx(nbrs@[m], h)]
                        ==> g@[cell_idx(nbrs@[m], h)] <= gci + 1));
                }
            }
            assert(inv_expanded(gv, w, h, closed@, g@));
            assert(inv_tight(gv, w, h, closed@, g@));
        }
    }
}


impl Pathfinder for AStar {
    open spec fn pf_wf(&self) -> bool {
        self.wf()
    }

    open spec fn pf_dims(&self) -> (int, int) {
        (self.spec_width(), self.spec_height())
    }

    fn compute_path(&mut self, start: Coord, goal: Coord) -> (r: Option<Vec<Coord>>) {
        self.compute_path(start, goal)
    }

    fn update_obstacle(&mut self, coord: Coord, is_blocked: bool) {
        self.update_obstacle(coord, is_blocked)
    }
}

} // verus!
