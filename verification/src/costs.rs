//! Integer cost arithmetic shared by the search strategies: an "infinite"
//! cost sentinel with saturating addition, flat indexing of grid cells into
//! per-cell tables, and the counting lemmas that bound finite costs and
//! justify the searches' termination measures.

use vstd::prelude::*;
use vstd::set_lib::{lemma_len_subset, lemma_int_range, set_int_range};
use crate::grid::{Coord, in_bounds};

verus! {

/// Sentinel for an unreachable / unknown cost. Any cost at or above this
/// value is treated as infinite.
pub const INF: u64 = 0x1000_0000_0000_0000;

pub open spec fn sadd_spec(a: int, b: int) -> int {
    if a + b >= INF {
        INF as int
    } else {
        a + b
    }
}

/// Cost addition, saturating at `INF`.
pub fn sadd(a: u64, b: u64) -> (r: u64)
    requires
        a <= INF,
        b <= INF,
    ensures
        r == sadd_spec(a as int, b as int),
        r <= INF,
{
    let s = a + b;
    if s >= INF {
        INF
    } else {
        s
    }
}

/// Index of cell `c` in a flat per-cell table laid out column by column.
pub open spec fn cell_idx(c: Coord, height: int) -> int {
    c.0 * height + c.1
}

pub proof fn lemma_cell_idx_bound(c: Coord, width: int, height: int)
    by (nonlinear_arith)
    requires
        in_bounds(c, width, height),
    ensures
        0 <= cell_idx(c, height) < width * height,
{
}

pub proof fn lemma_cell_idx_injective(a: Coord, b: Coord, width: int, height: int)
    by (nonlinear_arith)
    requires
        in_bounds(a, width, height),
        in_bounds(b, width, height),
        cell_idx(a, height) == cell_idx(b, height),
    ensures
        a == b,
{
    assert(a.0 == b.0 && a.1 == b.1);
}

/// Distinct in-bounds cells occupy distinct table slots.
pub proof fn lemma_cell_idx_distinct(a: Coord, b: Coord, width: int, height: int)
    requires
        in_bounds(a, width, height),
        in_bounds(b, width, height),
        a != b,
    ensures
        cell_idx(a, height) != cell_idx(b, height),
{
    if cell_idx(a, height) == cell_idx(b, height) {
        lemma_cell_idx_injective(a, b, width, height);
    }
}

/// Flat index of an in-bounds cell.
pub fn flat_idx(c: Coord, width: usize, height: usize) -> (r: usize)
    requires
        in_bounds(c, width as int, height as int),
        width * height <= usize::MAX,
    ensures
        r == cell_idx(c, height as int),
        r < width * height,
{
    proof {
        lemma_cell_idx_bound(c, width as int, height as int);
        assert(c.0 * height + c.1 <= usize::MAX) by (nonlinear_arith)
            requires
                c.0 < width,
                c.1 < height,
                width * height <= usize::MAX,
        {
        }
    }
    c.0 * height + c.1
}

/// The set of table slots holding a finite cost.
pub open spec fn fin_set(s: Seq<u64>) -> Set<int> {
    Set::new(|i: int| 0 <= i < s.len() && s[i] < INF)
}

pub proof fn lemma_fin_set_bound(s: Seq<u64>)
    ensures
        fin_set(s).finite(),
        fin_set(s).len() <= s.len(),
{
    lemma_int_range(0, s.len() as int);
    assert(fin_set(s).subset_of(set_int_range(0, s.len() as int)));
    lemma_len_subset(fin_set(s), set_int_range(0, s.len() as int));
}

/// Writing a finite cost into slot `i` grows the finite set by at most
/// that one slot.
pub proof fn lemma_fin_set_update(s: Seq<u64>, i: int, v: u64)
    requires
        0 <= i < s.len(),
        v < INF,
    ensures
        fin_set(s.update(i, v)) =~= fin_set(s).insert(i),
{
}

/// Sum of a cost table, the potential that the search loops decrease.
pub open spec fn sum_of(s: Seq<u64>) -> int
    decreases s.len(),
{
    if s.len() == 0 {
        0
    } else {
        sum_of(s.drop_last()) + s.last()
    }
}

pub proof fn lemma_sum_nonneg(s: Seq<u64>)
    ensures
        sum_of(s) >= 0,
    decreases s.len(),
{
    if s.len() > 0 {
        lemma_sum_nonneg(s.drop_last());
    }
}

pub proof fn lemma_sum_update(s: Seq<u64>, i: int, v: u64)
    requires
        0 <= i < s.len(),
    ensures
        sum_of(s.update(i, v)) == sum_of(s) - s[i] + v,
    decreases s.len(),
{
    if i == s.len() - 1 {
        assert(s.update(i, v).drop_last() =~= s.drop_last());
    } else {
        lemma_sum_update(s.drop_last(), i, v);
        assert(s.update(i, v).drop_last() =~= s.drop_last().update(i, v));
        assert(s.update(i, v).last() == s.last());
    }
}

/// The square of a small value, widened so it cannot overflow.
fn widening_square(x: u64) -> (r: u128)
    requires
        x <= 0x1_0000_0000,
    ensures
        r == (x as int) * (x as int),
{
    proof {
        assert((x as int) * (x as int) <= u128::MAX) by (nonlinear_arith)
            requires
                x <= 0x1_0000_0000,
        {
        }
    }
    (x as u128) * (x as u128)
}

/// Truncating integer square root.
pub fn isqrt(n: u64) -> (r: u64)
    ensures
        r * r <= n,
        n < (r + 1) * (r + 1),
{
    let mut r: u64 = 0;
    while widening_square(r + 1) <= n as u128
        invariant
            r * r <= n,
            r < 0x1_0000_0000,
        decreases n - r,
    {
        proof {
            assert(r < n && r + 1 < 0x1_0000_0000) by (nonlinear_arith)
                requires
                    (r as int + 1) * (r as int + 1) <= n,
                    n <= u64::MAX,
            {
            }
        }
        r = r + 1;
    }
    r
}

} // verus!
