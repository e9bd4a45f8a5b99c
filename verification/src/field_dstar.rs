//! Continuous-cost search over an 8-connected grid: orthogonal steps cost
//! 1.000, diagonal steps cost 1.414 (held in thousandths so every cost is
//! an integer), and the heuristic is the Euclidean distance. Every
//! `compute_path` call re-expands from scratch. The search is proved sound
//! (a returned path is a valid 8-connected route) and complete (`None`
//! only when no route exists).

use vstd::prelude::*;
use crate::pathfinder::Pathfinder;
use crate::grid::{
    Coord, GridView, adj8, back_step_ok8, free_cell, grid_wf, in_bounds, path_valid8, reachable8,
    step_ok8, unique_seq, view_of_grid,
};
use crate::costs::{
    INF, cell_idx, fin_set, flat_idx, isqrt, lemma_cell_idx_bound, lemma_cell_idx_distinct,
    lemma_cell_idx_injective, lemma_fin_set_bound, lemma_fin_set_update, lemma_sum_nonneg,
    lemma_sum_update, sum_of,
};
use crate::openlist::{Entry, OpenList, popped, popped_any};

verus! {

/// Per-axis bound on the grid, keeping squared distances inside `u64`.
pub const MAX_SIDE: usize = 0x10000;

/// Upper bound on the number of cells.
pub const MAX_CELLS8: usize = 0x100_0000;

pub open spec fn cost8(a: Coord, b: Coord) -> int {
    if crate::grid::abs_diff_spec(a.0 as int, b.0 as int) == 1 && crate::grid::abs_diff_spec(
        a.1 as int,
        b.1 as int,
    ) == 1 {
        1414
    } else {
        1000
    }
}

/// Some open-list entry is for cell `c`.
pub open spec fn in_open8(open: Seq<Entry>, c: Coord) -> bool {
    exists|k: int| 0 <= k < open.len() && (#[trigger] open[k]).coord == c
}

/// Cell `c` has been fully relaxed: no free 8-connected neighbor can be
/// improved through it.
pub open spec fn relaxed8(gv: GridView, g: Seq<u64>, c: Coord, width: int, height: int) -> bool {
    forall|n: Coord|
        adj8(c, n) && free_cell(gv, n, width, height) ==> g[#[trigger] cell_idx(n, height)] <= g[
            cell_idx(c, height)
        ] + cost8(c, n)
}

proof fn lemma_in_open8_after_remove(open: Seq<Entry>, j: int, c: Coord)
    requires
        0 <= j < open.len(),
        in_open8(open, c),
        open[j].coord != c,
    ensures
        in_open8(open.remove(j), c),
{
    let k = choose|k: int| 0 <= k < open.len() && (#[trigger] open[k]).coord == c;
    open.remove_ensures(j);
    if k < j {
        assert(open.remove(j)[k].coord == c);
    } else {
        assert(open.remove(j)[k - 1].coord == c);
    }
}

proof fn lemma_in_open8_after_push(open: Seq<Entry>, e: Entry, c: Coord)
    requires
        in_open8(open, c) || e.coord == c,
    ensures
        in_open8(open.push(e), c),
{
    if e.coord == c {
        assert(open.push(e)[open.len() as int].coord == c);
    } else {
        let k = choose|k: int| 0 <= k < open.len() && (#[trigger] open[k]).coord == c;
        assert(open.push(e)[k].coord == c);
    }
}

/// The search invariant: table shapes, the start's zero cost, well-formed
/// frontier entries, every discovered cell on the frontier or fully
/// relaxed (`pending` excepted while it is being expanded), a frontier
/// entry for the goal while the goal is discovered, decreasing parent
/// records, and the counting bound on finite costs.
spec fn inv8(
    gv: GridView,
    width: int,
    height: int,
    start: Coord,
    goal: Coord,
    open: Seq<Entry>,
    parent: Seq<Option<Coord>>,
    g: Seq<u64>,
    pending: Option<Coord>,
) -> bool {
    &&& parent.len() == width * height
    &&& g.len() == width * height
    &&& g[cell_idx(start, height)] == 0
    &&& forall|k: int|
        0 <= k < open.len() ==> in_bounds((#[trigger] open[k]).coord, width, height) && g[cell_idx(
            open[k].coord,
            height,
        )] < INF
    &&& forall|c: Coord|
        in_bounds(c, width, height) && g[#[trigger] cell_idx(c, height)] < INF ==> in_open8(
            open,
            c,
        ) || relaxed8(gv, g, c, width, height) || pending == Some(c)
    &&& (g[cell_idx(goal, height)] < INF ==> in_open8(open, goal))
    &&& forall|c: Coord|
        in_bounds(c, width, height) && (#[trigger] parent[cell_idx(c, height)]) is Some ==> {
            let p = parent[cell_idx(c, height)].unwrap();
            &&& in_bounds(p, width, height)
            &&& adj8(p, c)
            &&& free_cell(gv, c, width, height)
            &&& g[cell_idx(p, height)] < INF
            &&& g[cell_idx(c, height)] < INF
            &&& g[cell_idx(p, height)] + cost8(p, c) <= g[cell_idx(c, height)]
        }
    &&& forall|c: Coord|
        in_bounds(c, width, height) && g[cell_idx(c, height)] < INF && (#[trigger] parent[cell_idx(
            c,
            height,
        )]) is None ==> c == start
    &&& forall|i: int| 0 <= i < g.len() && #[trigger] g[i] < INF ==> g[i] <= 1415 * fin_set(g).len()
}

/// When the frontier is empty every discovered cell is fully relaxed, so
/// an undiscovered goal is unreachable: costs along any valid path stay
/// finite step by step.
proof fn lemma_path_discovered8(
    gv: GridView,
    width: int,
    height: int,
    g: Seq<u64>,
    start: Coord,
    p: Seq<Coord>,
    i: int,
)
    requires
        in_bounds(start, width, height),
        g.len() == width * height,
        g[cell_idx(start, height)] == 0,
        width * height <= MAX_CELLS8,
        forall|c: Coord|
            in_bounds(c, width, height) && g[#[trigger] cell_idx(c, height)] < INF ==> relaxed8(
                gv,
                g,
                c,
                width,
                height,
            ),
        forall|i2: int| 0 <= i2 < g.len() && #[trigger] g[i2] < INF ==> g[i2] <= 1415 * fin_set(
            g,
        ).len(),
        p.len() >= 1,
        p[0] == start,
        forall|j: int| 0 <= j < p.len() - 1 ==> #[trigger] step_ok8(gv, p, j, width, height),
        0 <= i < p.len(),
    ensures
        in_bounds(p[i], width, height),
        g[cell_idx(p[i], height)] < INF,
    decreases i,
{
    lemma_fin_set_bound(g);
    if i == 0 {
        lemma_cell_idx_bound(start, width, height);
    } else {
        lemma_path_discovered8(gv, width, height, g, start, p, i - 1);
        assert(step_ok8(gv, p, i - 1, width, height));
        let a = p[i - 1];
        let b = p[i];
        lemma_cell_idx_bound(a, width, height);
        lemma_cell_idx_bound(b, width, height);
        assert(relaxed8(gv, g, a, width, height));
        assert(g[cell_idx(b, height)] <= g[cell_idx(a, height)] + cost8(a, b));
    }
}

/// The continuous-cost strategy: an occupancy grid plus the per-call cost
/// table, parent pointers and frontier, all reset on every query.
pub struct FieldDStar {
    grid: Vec<Vec<bool>>,
    width: usize,
    height: usize,
    start: Coord,
    goal: Coord,
    g: Vec<u64>,
    parent: Vec<Option<Coord>>,
    open_list: OpenList,
}

impl FieldDStar {
    pub closed spec fn gridv(&self) -> GridView {
        view_of_grid(&self.grid)
    }

    pub closed spec fn spec_width(&self) -> int {
        self.width as int
    }

    pub closed spec fn spec_height(&self) -> int {
        self.height as int
    }

    /// The stored grid is rectangular: exported so callers can reason
    /// pointwise about the occupancy the update clauses describe.
    pub proof fn lemma_wf_shape(&self)
        requires
            self.wf(),
        ensures
            crate::grid::grid_wf(self.gridv(), self.spec_width(), self.spec_height()),
    {
    }

    pub closed spec fn wf(&self) -> bool {
        &&& grid_wf(self.gridv(), self.spec_width(), self.spec_height())
        &&& self.width <= MAX_SIDE
        &&& self.height <= MAX_SIDE
        &&& self.width * self.height <= MAX_CELLS8
    }

    /// Wrap an occupancy grid and remember the endpoints of the journey.
    pub fn new(grid: Vec<Vec<bool>>, start: Coord, goal: Coord) -> (r: FieldDStar)
        requires
            forall|i: int|
                0 <= i < grid@.len() ==> (#[trigger] grid@[i])@.len() == grid@[0]@.len(),
            grid@.len() <= MAX_SIDE,
            grid@.len() > 0 ==> grid@[0]@.len() <= MAX_SIDE,
            grid@.len() * (if grid@.len() > 0 {
                grid@[0]@.len()
            } else {
                0nat
            }) <= MAX_CELLS8,
        ensures
            r.wf(),
            r.gridv() == view_of_grid(&grid),
            r.spec_width() == grid@.len(),
            grid@.len() > 0 ==> r.spec_height() == grid@[0]@.len(),
            grid@.len() == 0 ==> r.spec_height() == 0,
    {
        let width = grid.len();
        let height = if width > 0 {
            grid[0].len()
        } else {
            0
        };
        FieldDStar {
            grid,
            width,
            height,
            start,
            goal,
            g: Vec::new(),
            parent: Vec::new(),
            open_list: OpenList::new(true),
        }
    }

    /// Whether the cell `(x, y)` is currently blocked.
    fn cell_blocked(&self, x: usize, y: usize) -> (r: bool)
        requires
            self.wf(),
            x < self.spec_width(),
            y < self.spec_height(),
        ensures
            r == self.gridv()[x as int][y as int],
    {
        proof {
            assert(self.gridv()[x as int] == self.grid@[x as int]@);
        }
        self.grid[x][y]
    }

    /// The heuristic: Euclidean distance in thousandths of a cell,
    /// truncated to an integer.
    pub fn heuristic(&self, a: Coord, b: Coord) -> (r: u64)
        requires
            a.0 <= MAX_SIDE && a.1 <= MAX_SIDE && b.0 <= MAX_SIDE && b.1 <= MAX_SIDE,
        ensures
            r <= INF,
    {
        let dx = if a.0 >= b.0 {
            (a.0 - b.0) as u64
        } else {
            (b.0 - a.0) as u64
        };
        let dy = if a.1 >= b.1 {
            (a.1 - b.1) as u64
        } else {
            (b.1 - a.1) as u64
        };
        proof {
            assert(dx * dx <= 0x1_0000_0000 && dy * dy <= 0x1_0000_0000) by (nonlinear_arith)
                requires
                    dx <= 0x10000,
                    dy <= 0x10000,
            {
            }
        }
        let d2 = dx * dx + dy * dy;
        let r = isqrt(d2 * 1_000_000);
        proof {
            assert(r <= INF) by (nonlinear_arith)
                requires
                    r * r <= d2 * 1_000_000,
                    d2 <= 0x2_0000_0000,
            {
            }
        }
        r
    }

    /// The free 8-connected neighbors of `c`, scanned row by row: exactly
    /// the cells one move from `c` may enter.
    #[verifier::spinoff_prover]
    #[verifier::rlimit(100)]
    pub fn neighbors(&self, c: Coord) -> (r: Vec<Coord>)
        requires
            self.wf(),
            in_bounds(c, self.spec_width(), self.spec_height()),
        ensures
            forall|i: int|
                0 <= i < r@.len() ==> adj8(c, #[trigger] r@[i]) && free_cell(
                    self.gridv(),
                    r@[i],
                    self.spec_width(),
                    self.spec_height(),
                ),
            forall|n: Coord|
                adj8(c, n) && free_cell(self.gridv(), n, self.spec_width(), self.spec_height())
                    ==> r@.contains(n),
            unique_seq(r@),
    {
        let (x, y) = c;
        let mut result: Vec<Coord> = Vec::new();
        if x > 0 && y > 0 && !self.cell_blocked(x - 1, y - 1) {
            result.push((x - 1, y - 1));
        }
        if y > 0 && !self.cell_blocked(x, y - 1) {
            result.push((x, y - 1));
        }
        if x + 1 < self.width && y > 0 && !self.cell_blocked(x + 1, y - 1) {
            result.push((x + 1, y - 1));
        }
        if x > 0 && !self.cell_blocked(x - 1, y) {
            result.push((x - 1, y));
        }
        if x + 1 < self.width && !self.cell_blocked(x + 1, y) {
            result.push((x + 1, y));
        }
        if x > 0 && y + 1 < self.height && !self.cell_blocked(x - 1, y + 1) {
            result.push((x - 1, y + 1));
        }
        if y + 1 < self.height && !self.cell_blocked(x, y + 1) {
            result.push((x, y + 1));
        }
        if x + 1 < self.width && y + 1 < self.height && !self.cell_blocked(x + 1, y + 1) {
            result.push((x + 1, y + 1));
        }
        proof {
            broadcast use vstd::seq_lib::lemma_seq_contains_after_push;

            assert forall|n: Coord|
                adj8(c, n) && free_cell(self.gridv(), n, self.spec_width(), self.spec_height())
                implies result@.contains(n) by {
                let ul = ((x - 1) as usize, (y - 1) as usize);
                let up = (x, (y - 1) as usize);
                let ur = ((x + 1) as usize, (y - 1) as usize);
                let le = ((x - 1) as usize, y);
                let ri = ((x + 1) as usize, y);
                let dl = ((x - 1) as usize, (y + 1) as usize);
                let dn = (x, (y + 1) as usize);
                let dr = ((x + 1) as usize, (y + 1) as usize);
                assert(n == ul || n == up || n == ur || n == le || n == ri || n == dl || n == dn
                    || n == dr);
            }
            assert(unique_seq(result@));
        }
        result
    }

    /// Cost of a move, in thousandths: the diagonal cost exactly when
    /// both coordinates differ by one.
    pub fn edge_cost(&self, a: Coord, b: Coord) -> (r: u64)
        ensures
            r == cost8(a, b),
    {
        let dx = crate::grid::abs_diff(a.0, b.0);
        let dy = crate::grid::abs_diff(a.1, b.1);
        if dx == 1 && dy == 1 {
            1414
        } else {
            1000
        }
    }

    /// Record that a single cell became blocked or free; repair is
    /// deferred entirely to the next full recompute.
    pub fn update_obstacle(&mut self, coord: Coord, is_blocked: bool)
        requires
            old(self).wf(),
        ensures
            final(self).wf(),
            final(self).spec_width() == old(self).spec_width(),
            final(self).spec_height() == old(self).spec_height(),
            in_bounds(coord, old(self).spec_width(), old(self).spec_height())
                ==> final(self).gridv() == old(self).gridv().update(
                coord.0 as int,
                old(self).gridv()[coord.0 as int].update(coord.1 as int, is_blocked),
            ),
            !in_bounds(coord, old(self).spec_width(), old(self).spec_height())
                ==> final(self).gridv() == old(self).gridv(),
    {
        let (x, y) = coord;
        if x < self.width && y < self.height {
            proof {
                assert(self.grid@.len() == self.width);
                assert(self.gridv()[x as int] == self.grid@[x as int]@);
            }
            self.grid[x][y] = is_blocked;
            proof {
                assert(self.gridv() =~= old(self).gridv().update(
                    x as int,
                    old(self).gridv()[x as int].update(y as int, is_blocked),
                ));
            }
        } else {
            proof {
                assert(self.gridv() =~= old(self).gridv());
            }
        }
    }
}

/// Popping one frontier entry keeps every other discovered cell
/// accounted for; the popped cell becomes the pending one.
#[verifier::rlimit(60)]
proof fn lemma_pop8(
    gv: GridView,
    w: int,
    h: int,
    start: Coord,
    goal: Coord,
    open_pre: Seq<Entry>,
    open_now: Seq<Entry>,
    j: int,
    e: Entry,
    parent: Seq<Option<Coord>>,
    g: Seq<u64>,
)
    requires
        in_bounds(start, w, h),
        in_bounds(goal, w, h),
        inv8(gv, w, h, start, goal, open_pre, parent, g, None),
        0 <= j < open_pre.len(),
        open_pre[j] == e,
        open_now == open_pre.remove(j),
        e.coord != goal,
    ensures
        inv8(gv, w, h, start, goal, open_now, parent, g, Some(e.coord)),
        in_bounds(e.coord, w, h),
        g[cell_idx(e.coord, h)] < INF,
{
    let u = e.coord;
    open_pre.remove_ensures(j);
    assert forall|kk: int|
        0 <= kk < open_now.len() implies in_bounds((#[trigger] open_now[kk]).coord, w, h)
        && g[cell_idx(open_now[kk].coord, h)] < INF by {
        if kk < j {
            assert(open_now[kk] == open_pre[kk]);
        } else {
            assert(open_now[kk] == open_pre[kk + 1]);
        }
    }
    assert forall|c: Coord|
        in_bounds(c, w, h) && g[#[trigger] cell_idx(c, h)] < INF implies in_open8(open_now, c)
        || relaxed8(gv, g, c, w, h) || Some(c) == Some(u) by {
        if c != u && !relaxed8(gv, g, c, w, h) {
            assert(in_open8(open_pre, c));
            lemma_in_open8_after_remove(open_pre, j, c);
        }
    }
    if g[cell_idx(goal, h)] < INF {
        lemma_in_open8_after_remove(open_pre, j, goal);
    }
}

/// Relaxing one improvable neighbor of the pending cell preserves the
/// invariant and strictly lowers the cost-table sum.
#[verifier::rlimit(60)]
proof fn lemma_relax_update8(
    gv: GridView,
    w: int,
    h: int,
    start: Coord,
    goal: Coord,
    open_before: Seq<Entry>,
    open_now: Seq<Entry>,
    parent_before: Seq<Option<Coord>>,
    parent_now: Seq<Option<Coord>>,
    g_before: Seq<u64>,
    g_now: Seq<u64>,
    u: Coord,
    n: Coord,
    tentative: u64,
    ent: Entry,
)
    requires
        in_bounds(start, w, h),
        in_bounds(goal, w, h),
        in_bounds(u, w, h),
        in_bounds(n, w, h),
        inv8(gv, w, h, start, goal, open_before, parent_before, g_before, Some(u)),
        adj8(u, n),
        free_cell(gv, n, w, h),
        g_before[cell_idx(u, h)] < INF,
        tentative == g_before[cell_idx(u, h)] + cost8(u, n),
        tentative < g_before[cell_idx(n, h)],
        tentative < INF,
        parent_now == parent_before.update(cell_idx(n, h), Some(u)),
        g_now == g_before.update(cell_idx(n, h), tentative),
        ent.coord == n,
        open_now == open_before.push(ent),
    ensures
        inv8(gv, w, h, start, goal, open_now, parent_now, g_now, Some(u)),
        g_now[cell_idx(u, h)] == g_before[cell_idx(u, h)],
        sum_of(g_now) == sum_of(g_before) - g_before[cell_idx(n, h)] + tentative,
        sum_of(g_now) < sum_of(g_before),
        forall|i: int| 0 <= i < g_before.len() && #[trigger] g_before[i] < INF ==> g_now[i] < INF,
        forall|i: int| 0 <= i < g_before.len() ==> g_now[i] <= #[trigger] g_before[i] || i
            == cell_idx(n, h),
{
    lemma_cell_idx_bound(u, w, h);
    lemma_cell_idx_bound(n, w, h);
    lemma_cell_idx_bound(start, w, h);
    lemma_cell_idx_bound(goal, w, h);
    lemma_cell_idx_distinct(u, n, w, h);
    let ni = cell_idx(n, h);
    lemma_sum_update(g_before, ni, tentative);
    lemma_fin_set_update(g_before, ni, tentative);
    lemma_fin_set_bound(g_before);
    let fin_pre = fin_set(g_before);
    let fin_post = fin_set(g_now);
    if g_before[ni] < INF {
        assert(fin_pre.insert(ni) =~= fin_pre);
        assert(fin_post.len() == fin_pre.len());
    } else {
        assert(!fin_pre.contains(ni));
        assert(fin_post.len() == fin_pre.len() + 1);
    }
    // a relaxation can never lower a cost below zero, so the updated slot
    // is not the start's
    if ni == cell_idx(start, h) {
        assert(g_before[cell_idx(start, h)] == 0);
        assert(false);
    }
    assert(g_now[cell_idx(start, h)] == 0);
    assert forall|kk: int|
        0 <= kk < open_now.len() implies in_bounds((#[trigger] open_now[kk]).coord, w, h)
        && g_now[cell_idx(open_now[kk].coord, h)] < INF by {
        if kk < open_before.len() {
            assert(open_now[kk] == open_before[kk]);
            lemma_cell_idx_bound(open_now[kk].coord, w, h);
        } else {
            assert(open_now[kk].coord == n);
        }
    }
    assert forall|c: Coord|
        in_bounds(c, w, h) && g_now[#[trigger] cell_idx(c, h)] < INF implies in_open8(
        open_now,
        c,
    ) || relaxed8(gv, g_now, c, w, h) || Some(c) == Some(u) by {
        lemma_cell_idx_bound(c, w, h);
        if cell_idx(c, h) == ni {
            lemma_cell_idx_injective(c, n, w, h);
            lemma_in_open8_after_push(open_before, ent, c);
        } else {
            assert(g_before[cell_idx(c, h)] < INF);
            if in_open8(open_before, c) {
                lemma_in_open8_after_push(open_before, ent, c);
            } else if c != u {
                assert(relaxed8(gv, g_before, c, w, h));
                assert forall|n2: Coord|
                    adj8(c, n2) && free_cell(gv, n2, w, h) implies g_now[#[trigger] cell_idx(
                    n2,
                    h,
                )] <= g_now[cell_idx(c, h)] + cost8(c, n2) by {
                    lemma_cell_idx_bound(n2, w, h);
                    assert(g_before[cell_idx(n2, h)] <= g_before[cell_idx(c, h)] + cost8(c, n2));
                }
                assert(relaxed8(gv, g_now, c, w, h));
            }
        }
    }
    if g_now[cell_idx(goal, h)] < INF {
        if cell_idx(goal, h) == ni {
            lemma_cell_idx_injective(goal, n, w, h);
            lemma_in_open8_after_push(open_before, ent, goal);
        } else {
            lemma_in_open8_after_push(open_before, ent, goal);
        }
    }
    assert forall|c: Coord|
        in_bounds(c, w, h) && (#[trigger] parent_now[cell_idx(c, h)]) is Some implies {
        let p = parent_now[cell_idx(c, h)].unwrap();
        &&& in_bounds(p, w, h)
        &&& adj8(p, c)
        &&& free_cell(gv, c, w, h)
        &&& g_now[cell_idx(p, h)] < INF
        &&& g_now[cell_idx(c, h)] < INF
        &&& g_now[cell_idx(p, h)] + cost8(p, c) <= g_now[cell_idx(c, h)]
    } by {
        lemma_cell_idx_bound(c, w, h);
        if cell_idx(c, h) == ni {
            lemma_cell_idx_injective(c, n, w, h);
            assert(parent_now[cell_idx(c, h)].unwrap() == u);
            assert(cell_idx(u, h) != ni);
        } else {
            assert(parent_now[cell_idx(c, h)] == parent_before[cell_idx(c, h)]);
            let p = parent_before[cell_idx(c, h)].unwrap();
            lemma_cell_idx_bound(p, w, h);
            assert(g_now[cell_idx(p, h)] <= g_before[cell_idx(p, h)]);
        }
    }
    assert forall|c: Coord|
        in_bounds(c, w, h) && g_now[cell_idx(c, h)] < INF && (#[trigger] parent_now[cell_idx(
        c,
        h,
    )]) is None implies c == start by {
        lemma_cell_idx_bound(c, w, h);
        if cell_idx(c, h) == ni {
            lemma_cell_idx_injective(c, n, w, h);
        } else {
            assert(g_before[cell_idx(c, h)] < INF);
        }
    }
    assert forall|i: int|
        0 <= i < g_now.len() && #[trigger] g_now[i] < INF implies g_now[i] <= 1415 * fin_set(
        g_now,
    ).len() by {
        if i == ni {
            if g_before[ni] < INF {
                assert(g_before[ni] <= 1415 * fin_pre.len());
            } else {
                assert(g_before[cell_idx(u, h)] <= 1415 * fin_pre.len());
            }
        } else {
            assert(g_now[i] == g_before[i]);
        }
    }
    assert(inv8(gv, w, h, start, goal, open_now, parent_now, g_now, Some(u)));
}

impl FieldDStar {
    /// Expand the pending cell: relax every free 8-connected neighbor it
    /// improves. Afterwards the cell is fully relaxed and no cell is
    /// pending.
    #[verifier::spinoff_prover]
    #[verifier::rlimit(100)]
    fn expand(
        &self,
        u: Coord,
        start: Coord,
        goal: Coord,
        open: &mut OpenList,
        parent: &mut Vec<Option<Coord>>,
        g: &mut Vec<u64>,
    )
        requires
            self.wf(),
            in_bounds(start, self.spec_width(), self.spec_height()),
            in_bounds(goal, self.spec_width(), self.spec_height()),
            in_bounds(u, self.spec_width(), self.spec_height()),
            inv8(
                self.gridv(),
                self.spec_width(),
                self.spec_height(),
                start,
                goal,
                old(open)@,
                old(parent)@,
                old(g)@,
                Some(u),
            ),
            old(g)@[cell_idx(u, self.spec_height())] < INF,
        ensures
            inv8(
                self.gridv(),
                self.spec_width(),
                self.spec_height(),
                start,
                goal,
                final(open)@,
                final(parent)@,
                final(g)@,
                None,
            ),
            final(open).tie() == old(open).tie(),
            sum_of(final(g)@) <= sum_of(old(g)@),
            (final(g)@ == old(g)@ && final(open)@ == old(open)@) || sum_of(final(g)@) < sum_of(
                old(g)@,
            ),
    {
        let width = self.width;
        let height = self.height;
        let cells = width * height;
        let ghost gv = self.gridv();
        let ghost w = width as int;
        let ghost h = height as int;
        let ghost g_snap = g@;
        let ghost open_snap = open@;
        let ui = flat_idx(u, width, height);
        let nbrs = self.neighbors(u);
        let gu = g[ui];
        proof {
            lemma_fin_set_bound(g@);
            assert(gu <= 1415 * cells);
        }
        let mut k: usize = 0;
        while k < nbrs.len()
            invariant
                self.wf(),
                width == self.spec_width(),
                height == self.spec_height(),
                cells == width * height,
                gv == self.gridv(),
                w == width as int,
                h == height as int,
                in_bounds(start, w, h),
                in_bounds(goal, w, h),
                in_bounds(u, w, h),
                ui == cell_idx(u, h),
                forall|i: int|
                    0 <= i < nbrs@.len() ==> adj8(u, #[trigger] nbrs@[i]) && free_cell(
                        gv,
                        nbrs@[i],
                        w,
                        h,
                    ),
                k <= nbrs@.len(),
                inv8(gv, w, h, start, goal, open@, parent@, g@, Some(u)),
                g@[cell_idx(u, h)] == gu,
                gu <= 1415 * cells,
                forall|m: int|
                    0 <= m < k ==> g@[cell_idx(#[trigger] nbrs@[m], h)] <= gu + cost8(
                        u,
                        nbrs@[m],
                    ),
                open.tie() == old(open).tie(),
                sum_of(g@) <= sum_of(g_snap),
                (g@ == g_snap && open@ == open_snap) || sum_of(g@) < sum_of(g_snap),
            decreases nbrs@.len() - k,
        {
            let n = nbrs[k];
            let ni = flat_idx(n, width, height);
            proof {
                assert(adj8(u, n) && free_cell(gv, n, w, h));
                lemma_cell_idx_bound(n, w, h);
                lemma_sum_nonneg(g@);
            }
            let ec = self.edge_cost(u, n);
            let tentative = gu + ec;
            if tentative < g[ni] {
                let ghost g_before = g@;
                let ghost parent_before = parent@;
                parent[ni] = Some(u);
                g[ni] = tentative;
                let hn = self.heuristic(n, goal);
                let f = tentative + hn;
                let ghost open_before = open@;
                let ent = Entry { coord: n, k1: f, k2: 0 };
                open.push(ent);
                proof {
                    assert(parent@ =~= parent_before.update(ni as int, Some(u)));
                    assert(g@ =~= g_before.update(ni as int, tentative));
                    lemma_relax_update8(
                        gv,
                        w,
                        h,
                        start,
                        goal,
                        open_before,
                        open@,
                        parent_before,
                        parent@,
                        g_before,
                        g@,
                        u,
                        n,
                        tentative,
                        ent,
                    );
                    assert forall|m: int|
                        0 <= m < k + 1 implies g@[cell_idx(#[trigger] nbrs@[m], h)] <= gu + cost8(
                        u,
                        nbrs@[m],
                    ) by {
                        lemma_cell_idx_bound(nbrs@[m], w, h);
                        if m < k {
                            assert(g_before[cell_idx(nbrs@[m], h)] <= gu + cost8(u, nbrs@[m]));
                            assert(g@[cell_idx(nbrs@[m], h)] <= g_before[cell_idx(nbrs@[m], h)]
                                || cell_idx(nbrs@[m], h) == ni as int);
                        } else {
                            assert(nbrs@[m] == n);
                            assert(g@[ni as int] == tentative);
                        }
                    }
                }
            }
            k = k + 1;
        }
        proof {
            assert forall|n2: Coord|
                adj8(u, n2) && free_cell(gv, n2, w, h) implies g@[#[trigger] cell_idx(n2, h)] <= g@[
                cell_idx(u, h)
            ] + cost8(u, n2) by {
                assert(nbrs@.contains(n2));
                let m = choose|m: int| 0 <= m < nbrs@.len() && nbrs@[m] == n2;
                assert(g@[cell_idx(nbrs@[m], h)] <= gu + cost8(u, nbrs@[m]));
            }
            assert(relaxed8(gv, g@, u, w, h));
            assert forall|c: Coord|
                in_bounds(c, w, h) && g@[#[trigger] cell_idx(c, h)] < INF implies in_open8(
                open@,
                c,
            ) || relaxed8(gv, g@, c, w, h) || None::<Coord> == Some(c) by {
                if Some(c) == Some(u) {
                    assert(relaxed8(gv, g@, c, w, h));
                }
            }
            assert(inv8(gv, w, h, start, goal, open@, parent@, g@, None));
        }
    }

    /// Follow parent pointers back from the goal, then reverse: every
    /// recorded parent step is a legal move with strictly smaller cost.
    #[verifier::loop_isolation(false)]
    #[verifier::spinoff_prover]
    #[verifier::rlimit(100)]
    fn rebuild_path(
        &self,
        parent: &Vec<Option<Coord>>,
        g: &Vec<u64>,
        start: Coord,
        goal: Coord,
    ) -> (r: Vec<Coord>)
        requires
            self.wf(),
            in_bounds(start, self.spec_width(), self.spec_height()),
            in_bounds(goal, self.spec_width(), self.spec_height()),
            parent@.len() == self.spec_width() * self.spec_height(),
            g@.len() == self.spec_width() * self.spec_height(),
            g@[cell_idx(goal, self.spec_height())] < INF,
            forall|c: Coord|
                in_bounds(c, self.spec_width(), self.spec_height()) && (#[trigger] parent@[
                cell_idx(c, self.spec_height())]) is Some ==> {
                    let p = parent@[cell_idx(c, self.spec_height())].unwrap();
                    &&& in_bounds(p, self.spec_width(), self.spec_height())
                    &&& adj8(p, c)
                    &&& free_cell(self.gridv(), c, self.spec_width(), self.spec_height())
                    &&& g@[cell_idx(p, self.spec_height())] < INF
                    &&& g@[cell_idx(c, self.spec_height())] < INF
                    &&& g@[cell_idx(p, self.spec_height())] + cost8(p, c) <= g@[cell_idx(
                        c,
                        self.spec_height(),
                    )]
                },
            forall|c: Coord|
                in_bounds(c, self.spec_width(), self.spec_height()) && g@[cell_idx(
                    c,
                    self.spec_height(),
                )] < INF && (#[trigger] parent@[cell_idx(c, self.spec_height())]) is None ==> c
                    == start,
        ensures
            path_valid8(self.gridv(), r@, start, goal, self.spec_width(), self.spec_height()),
            parent@[cell_idx(goal, self.spec_height())] is None ==> r@ == seq![goal],
    {
        let width = self.width;
        let height = self.height;
        let ghost gv = self.gridv();
        let mut rev: Vec<Coord> = Vec::new();
        let mut cur = goal;
        rev.push(cur);
        proof {
            assert(rev@ =~= seq![goal]);
        }
        while parent[flat_idx(cur, width, height)].is_some()
            invariant
                parent@[cell_idx(goal, height as int)] is None ==> rev@ == seq![goal] && cur
                    == goal,
                in_bounds(cur, width as int, height as int),
                g@[cell_idx(cur, height as int)] < INF,
                rev@.len() >= 1,
                rev@[0] == goal,
                rev@.last() == cur,
                forall|i: int|
                    0 <= i < rev@.len() - 1 ==> #[trigger] back_step_ok8(
                        gv,
                        rev@,
                        i,
                        width as int,
                        height as int,
                    ),
            decreases g@[cell_idx(cur, height as int)],
        {
            let ci = flat_idx(cur, width, height);
            let ghost old_rev = rev@;
            let p = parent[ci].unwrap();
            proof {
                assert(parent@[cell_idx(cur, height as int)] is Some);
            }
            rev.push(p);
            proof {
                assert forall|i: int|
                    0 <= i < rev@.len() - 1 implies #[trigger] back_step_ok8(
                    gv,
                    rev@,
                    i,
                    width as int,
                    height as int,
                ) by {
                    if i < rev@.len() - 2 {
                        assert(rev@[i] == old_rev[i]);
                        assert(rev@[i + 1] == old_rev[i + 1]);
                        assert(back_step_ok8(gv, old_rev, i, width as int, height as int));
                    } else {
                        assert(rev@[i + 1] == p && rev@[i] == cur);
                    }
                }
            }
            cur = p;
        }
        proof {
            assert(cur == start);
        }
        let mut path: Vec<Coord> = Vec::new();
        let mut i = rev.len();
        while i > 0
            invariant
                i <= rev@.len(),
                path@.len() == rev@.len() - i,
                forall|k: int|
                    0 <= k < path@.len() ==> #[trigger] path@[k] == rev@[rev@.len() - 1 - k],
            decreases i,
        {
            i = i - 1;
            let c = rev[i];
            path.push(c);
        }
        proof {
            let l = rev@.len() as int;
            assert(path@[0] == rev@[l - 1]);
            assert(path@[path@.len() - 1] == rev@[0]);
            assert forall|j: int| 0 <= j < path@.len() - 1 implies #[trigger] step_ok8(
                gv,
                path@,
                j,
                width as int,
                height as int,
            ) by {
                assert(path@[j] == rev@[l - 1 - j]);
                assert(path@[j + 1] == rev@[l - 2 - j]);
                assert(back_step_ok8(gv, rev@, l - 2 - j, width as int, height as int));
            }
            if parent@[cell_idx(goal, height as int)] is None {
                assert(path@ =~= seq![goal]);
            }
        }
        path
    }

    /// Compute a route from `start` to `goal` under the current occupancy,
    /// expanding a fresh cost field from scratch: the tables and frontier
    /// are cleared and reseeded on every call. Returns a valid 8-connected
    /// path exactly when one exists.
    #[verifier::spinoff_prover]
    #[verifier::rlimit(100)]
    pub fn compute_path(&mut self, start: Coord, goal: Coord) -> (r: Option<Vec<Coord>>)
        requires
            old(self).wf(),
            in_bounds(start, old(self).spec_width(), old(self).spec_height()),
            in_bounds(goal, old(self).spec_width(), old(self).spec_height()),
        ensures
            final(self).wf(),
            final(self).gridv() == old(self).gridv(),
            final(self).spec_width() == old(self).spec_width(),
            final(self).spec_height() == old(self).spec_height(),
            r is Some ==> path_valid8(
                old(self).gridv(),
                r.unwrap()@,
                start,
                goal,
                old(self).spec_width(),
                old(self).spec_height(),
            ),
            r is None ==> !reachable8(
                old(self).gridv(),
                start,
                goal,
                old(self).spec_width(),
                old(self).spec_height(),
            ),
            start == goal ==> r is Some && r.unwrap()@ == seq![start],
    {
        let width = self.width;
        let height = self.height;
        let cells = width * height;
        let ghost gv = self.gridv();
        let ghost w = width as int;
        let ghost h = height as int;

        self.start = start;
        self.goal = goal;

        let mut open = OpenList::new(true);
        let mut parent: Vec<Option<Coord>> = vec![None; cells];
        let mut g: Vec<u64> = vec![INF; cells];

        let si = flat_idx(start, width, height);
        g[si] = 0;
        let h0 = self.heuristic(start, goal);
        open.push(Entry { coord: start, k1: h0, k2: 0 });
        proof {
            lemma_cell_idx_bound(start, w, h);
            lemma_cell_idx_bound(goal, w, h);
            assert(open@[0].coord == start);
            assert(in_open8(open@, start));
            assert forall|c: Coord|
                in_bounds(c, w, h) && g@[#[trigger] cell_idx(c, h)] < INF implies c == start by {
                lemma_cell_idx_bound(c, w, h);
                if cell_idx(c, h) != si {
                    assert(g@[cell_idx(c, h)] == INF);
                } else {
                    lemma_cell_idx_injective(c, start, w, h);
                }
            }
            assert forall|c: Coord| in_bounds(c, w, h) implies !((#[trigger] parent@[cell_idx(
                c,
                h,
            )]) is Some) by {
                lemma_cell_idx_bound(c, w, h);
            }
            assert(inv8(gv, w, h, start, goal, open@, parent@, g@, None));
        }
        while open.len() > 0
            invariant
                self.wf(),
                width == self.spec_width(),
                height == self.spec_height(),
                cells == width * height,
                gv == self.gridv(),
                w == width as int,
                h == height as int,
                in_bounds(start, w, h),
                in_bounds(goal, w, h),
                self.gridv() == old(self).gridv(),
                self.spec_width() == old(self).spec_width(),
                self.spec_height() == old(self).spec_height(),
                open.tie() == true,
                inv8(gv, w, h, start, goal, open@, parent@, g@, None),
            decreases sum_of(g@), open@.len(),
        {
            let ghost g_snap = g@;
            let ghost open_pre = open@;
            let popped_entry = open.pop();
            let e = popped_entry.unwrap();
            let u = e.coord;
            let ghost j = choose|j: int| popped(open_pre, open@, e, j, true);
            proof {
                assert(popped_any(open_pre, open@, e, true));
                assert(open_pre[j] == e);
                assert(in_bounds(u, w, h) && g@[cell_idx(u, h)] < INF);
                lemma_cell_idx_bound(u, w, h);
            }
            if u.0 == goal.0 && u.1 == goal.1 {
                proof {
                    if start == goal {
                        if parent@[cell_idx(goal, h)] is Some {
                            let p = parent@[cell_idx(goal, h)].unwrap();
                            assert(g@[cell_idx(p, h)] + cost8(p, goal) <= g@[cell_idx(goal, h)]);
                        }
                    }
                }
                let path = self.rebuild_path(&parent, &g, start, goal);
                self.g = g;
                self.parent = parent;
                self.open_list = open;
                return Some(path);
            }
            proof {
                lemma_pop8(gv, w, h, start, goal, open_pre, open@, j, e, parent@, g@);
            }
            self.expand(u, start, goal, &mut open, &mut parent, &mut g);
            proof {
                lemma_sum_nonneg(g@);
                if g@ == g_snap {
                    assert(open@ == open_pre.remove(j));
                    assert(open@.len() < open_pre.len());
                }
            }
        }
        proof {
            assert forall|c: Coord|
                in_bounds(c, w, h) && g@[#[trigger] cell_idx(c, h)] < INF implies relaxed8(
                gv,
                g@,
                c,
                w,
                h,
            ) by {
                if !relaxed8(gv, g@, c, w, h) {
                    assert(in_open8(open@, c));
                }
            }
            assert forall|p: Seq<Coord>| !path_valid8(gv, p, start, goal, w, h) by {
                if path_valid8(gv, p, start, goal, w, h) {
                    lemma_path_discovered8(gv, w, h, g@, start, p, p.len() - 1);
                    assert(g@[cell_idx(goal, h)] < INF);
                    assert(in_open8(open@, goal));
                }
            }
            if start == goal {
                assert(path_valid8(gv, seq![start], start, goal, w, h));
            }
        }
        self.g = g;
        self.parent = parent;
        self.open_list = open;
        None
    }
}


impl Pathfinder for FieldDStar {
    open spec fn pf_wf(&self) -> bool {
        self.wf()
    }

    open spec fn pf_dims(&self) -> (int, int) {
        (self.spec_width(), self.spec_height())
    }

    fn compute_path(&mut self, start: Coord, goal: Coord) -> (r: Option<Vec<Coord>>) {
        self.compute_path(start, goal)
    }

    fn update_obstacle(&mut self, coord: Coord, is_blocked: bool) {
        self.update_obstacle(coord, is_blocked)
    }
}

} // verus!
