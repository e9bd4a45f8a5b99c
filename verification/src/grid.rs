//! The grid model: cell coordinates, bounds, 4- and 8-connectivity,
//! occupancy grids, and what it means for a sequence of cells to be a
//! valid path under a given occupancy.

use vstd::prelude::*;

verus! {

/// A grid cell, `(x, y)` with `0 <= x < width`, `0 <= y < height`.
pub type Coord = (usize, usize);

/// The mathematical view of an occupancy grid: `width` columns, each a
/// column of `height` booleans; `true` marks a blocked cell.
pub type GridView = Seq<Seq<bool>>;

pub open spec fn grid_wf(g: GridView, width: int, height: int) -> bool {
    &&& g.len() == width
    &&& forall|i: int| 0 <= i < width ==> (#[trigger] g[i]).len() == height
}

pub open spec fn view_of_grid(g: &Vec<Vec<bool>>) -> GridView {
    Seq::new(g@.len(), |i: int| g@[i]@)
}

pub open spec fn in_bounds(c: Coord, width: int, height: int) -> bool {
    c.0 < width && c.1 < height
}

/// A cell that is inside the grid and not blocked.
pub open spec fn free_cell(g: GridView, c: Coord, width: int, height: int) -> bool {
    in_bounds(c, width, height) && !g[c.0 as int][c.1 as int]
}

pub open spec fn abs_diff_spec(a: int, b: int) -> int {
    if a >= b {
        a - b
    } else {
        b - a
    }
}

/// Manhattan distance, the heuristic of the 4-connected searches.
pub open spec fn manhattan_spec(a: Coord, b: Coord) -> int {
    abs_diff_spec(a.0 as int, b.0 as int) + abs_diff_spec(a.1 as int, b.1 as int)
}

/// Chebyshev distance, used for proximity detection and 8-connectivity.
pub open spec fn cheb_spec(a: Coord, b: Coord) -> int {
    let dx = abs_diff_spec(a.0 as int, b.0 as int);
    let dy = abs_diff_spec(a.1 as int, b.1 as int);
    if dx >= dy {
        dx
    } else {
        dy
    }
}

/// One step between 4-connected (orthogonal) neighbors.
pub open spec fn adj4(a: Coord, b: Coord) -> bool {
    manhattan_spec(a, b) == 1
}

/// One step between 8-connected neighbors (diagonals allowed).
pub open spec fn adj8(a: Coord, b: Coord) -> bool {
    cheb_spec(a, b) == 1
}

/// Step `i` of path `p` is a legal orthogonal move into a free cell.
pub open spec fn step_ok4(g: GridView, p: Seq<Coord>, i: int, width: int, height: int) -> bool {
    adj4(p[i], p[i + 1]) && free_cell(g, p[i + 1], width, height)
}

/// Step `i` of path `p` is a legal 8-connected move into a free cell.
pub open spec fn step_ok8(g: GridView, p: Seq<Coord>, i: int, width: int, height: int) -> bool {
    adj8(p[i], p[i + 1]) && free_cell(g, p[i + 1], width, height)
}

/// Step `i` of a goal-to-start (reversed) chain `s` is a legal orthogonal
/// move: walking forward goes from `s[i + 1]` into the free cell `s[i]`.
pub open spec fn back_step_ok4(g: GridView, s: Seq<Coord>, i: int, width: int, height: int) -> bool {
    adj4(s[i + 1], s[i]) && free_cell(g, s[i], width, height)
}

/// The 8-connected counterpart of `back_step_ok4`.
pub open spec fn back_step_ok8(g: GridView, s: Seq<Coord>, i: int, width: int, height: int) -> bool {
    adj8(s[i + 1], s[i]) && free_cell(g, s[i], width, height)
}

/// A valid 4-connected path from `start` to `goal` under occupancy `g`:
/// begins at `start`, ends at `goal`, and every step moves to an adjacent
/// free cell. The first cell is where the traveler already stands, so it
/// is not required to be free.
pub open spec fn path_valid4(
    g: GridView,
    p: Seq<Coord>,
    start: Coord,
    goal: Coord,
    width: int,
    height: int,
) -> bool {
    &&& p.len() >= 1
    &&& p[0] == start
    &&& p[p.len() - 1] == goal
    &&& forall|i: int| 0 <= i < p.len() - 1 ==> #[trigger] step_ok4(g, p, i, width, height)
}

/// A valid 8-connected path, the continuous-cost strategy's notion.
pub open spec fn path_valid8(
    g: GridView,
    p: Seq<Coord>,
    start: Coord,
    goal: Coord,
    width: int,
    height: int,
) -> bool {
    &&& p.len() >= 1
    &&& p[0] == start
    &&& p[p.len() - 1] == goal
    &&& forall|i: int| 0 <= i < p.len() - 1 ==> #[trigger] step_ok8(g, p, i, width, height)
}

/// `goal` can be reached from `start` by orthogonal steps through free cells.
pub open spec fn reachable4(g: GridView, start: Coord, goal: Coord, width: int, height: int) -> bool {
    exists|p: Seq<Coord>| path_valid4(g, p, start, goal, width, height)
}

/// `goal` can be reached from `start` by 8-connected steps through free cells.
pub open spec fn reachable8(g: GridView, start: Coord, goal: Coord, width: int, height: int) -> bool {
    exists|p: Seq<Coord>| path_valid8(g, p, start, goal, width, height)
}

/// A returned path is itself the witness that its endpoints are connected,
/// so a strategy that hands back a valid path can never do so for an
/// unreachable query.
pub proof fn lemma_valid_path_implies_reachable4(
    g: GridView,
    p: Seq<Coord>,
    start: Coord,
    goal: Coord,
    width: int,
    height: int,
)
    requires
        path_valid4(g, p, start, goal, width, height),
    ensures
        reachable4(g, start, goal, width, height),
{
}

/// The 8-connected counterpart of `lemma_valid_path_implies_reachable4`.
pub proof fn lemma_valid_path_implies_reachable8(
    g: GridView,
    p: Seq<Coord>,
    start: Coord,
    goal: Coord,
    width: int,
    height: int,
)
    requires
        path_valid8(g, p, start, goal, width, height),
    ensures
        reachable8(g, start, goal, width, height),
{
}

/// Every orthogonal step is also an 8-connected step.
pub proof fn lemma_path4_is_path8(
    g: GridView,
    p: Seq<Coord>,
    start: Coord,
    goal: Coord,
    width: int,
    height: int,
)
    requires
        path_valid4(g, p, start, goal, width, height),
    ensures
        path_valid8(g, p, start, goal, width, height),
{
    assert forall|i: int| 0 <= i < p.len() - 1 implies #[trigger] step_ok8(
        g,
        p,
        i,
        width,
        height,
    ) by {
        assert(step_ok4(g, p, i, width, height));
    }
}

/// Absolute difference of two coordinates.
pub fn abs_diff(a: usize, b: usize) -> (r: usize)
    ensures
        r == abs_diff_spec(a as int, b as int),
{
    if a >= b {
        a - b
    } else {
        b - a
    }
}

/// Manhattan distance between two cells.
pub fn manhattan(a: Coord, b: Coord) -> (r: usize)
    requires
        manhattan_spec(a, b) <= usize::MAX,
    ensures
        r == manhattan_spec(a, b),
{
    abs_diff(a.0, b.0) + abs_diff(a.1, b.1)
}

/// Chebyshev distance between two cells.
pub fn cheb(a: Coord, b: Coord) -> (r: usize)
    ensures
        r == cheb_spec(a, b),
{
    let dx = abs_diff(a.0, b.0);
    let dy = abs_diff(a.1, b.1);
    if dx >= dy {
        dx
    } else {
        dy
    }
}


/// Whether `c` occurs in the coordinate list `v`.
pub fn contains_coord(v: &Vec<Coord>, c: Coord) -> (r: bool)
    ensures
        r == v@.contains(c),
{
    let mut i: usize = 0;
    while i < v.len()
        invariant
            i <= v@.len(),
            forall|k: int| 0 <= k < i ==> v@[k] != c,
        decreases v@.len() - i,
    {
        if v[i].0 == c.0 && v[i].1 == c.1 {
            return true;
        }
        i = i + 1;
    }
    false
}

/// An element-for-element copy of a coordinate list.
pub fn copy_coords(v: &Vec<Coord>) -> (r: Vec<Coord>)
    ensures
        r@ == v@,
{
    let mut out: Vec<Coord> = Vec::new();
    let mut i: usize = 0;
    while i < v.len()
        invariant
            i <= v@.len(),
            out@ == v@.take(i as int),
        decreases v@.len() - i,
    {
        out.push(v[i]);
        proof {
            assert(out@ =~= v@.take(i + 1));
        }
        i = i + 1;
    }
    proof {
        assert(v@.take(v@.len() as int) =~= v@);
    }
    out
}



/// The exact neighbor list a 4-connected scan produces for an in-bounds
/// cell: the free cells among up, down, left, right, in that order.
pub open spec fn neighbor_list4(g: GridView, c: Coord, width: int, height: int) -> Seq<Coord> {
    (if c.1 > 0 && free_cell(g, (c.0, (c.1 - 1) as usize), width, height) {
        seq![(c.0, (c.1 - 1) as usize)]
    } else {
        Seq::<Coord>::empty()
    }) + (if free_cell(g, (c.0, (c.1 + 1) as usize), width, height) {
        seq![(c.0, (c.1 + 1) as usize)]
    } else {
        Seq::<Coord>::empty()
    }) + (if c.0 > 0 && free_cell(g, ((c.0 - 1) as usize, c.1), width, height) {
        seq![((c.0 - 1) as usize, c.1)]
    } else {
        Seq::<Coord>::empty()
    }) + (if free_cell(g, ((c.0 + 1) as usize, c.1), width, height) {
        seq![((c.0 + 1) as usize, c.1)]
    } else {
        Seq::<Coord>::empty()
    })
}

/// A coordinate list without duplicates.
pub open spec fn unique_seq(s: Seq<Coord>) -> bool {
    forall|i: int, j: int| #![trigger s[i], s[j]] 0 <= i < j < s.len() ==> s[i] != s[j]
}

pub proof fn lemma_push_keeps_unique(s: Seq<Coord>, c: Coord)
    requires
        unique_seq(s),
        !s.contains(c),
    ensures
        unique_seq(s.push(c)),
{
    let t = s.push(c);
    assert forall|i: int, j: int| #![trigger t[i], t[j]] 0 <= i < j < t.len() implies t[i] != t[j] by {
        if j == t.len() - 1 {
            assert(t[i] == s[i]);
            if s[i] == c {
                assert(s.contains(c));
            }
        } else {
            assert(t[i] == s[i] && t[j] == s[j]);
        }
    }
}

pub proof fn lemma_remove_keeps_unique(s: Seq<Coord>, k: int)
    requires
        unique_seq(s),
        0 <= k < s.len(),
    ensures
        unique_seq(s.remove(k)),
{
    let t = s.remove(k);
    s.remove_ensures(k);
    assert forall|i: int, j: int| #![trigger t[i], t[j]] 0 <= i < j < t.len() implies t[i] != t[j] by {
        let i0 = if i < k {
            i
        } else {
            i + 1
        };
        let j0 = if j < k {
            j
        } else {
            j + 1
        };
        assert(t[i] == s[i0] && t[j] == s[j0]);
    }
}

} // verus!

