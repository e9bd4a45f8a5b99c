//! The capability contract every grid search strategy offers: compute a
//! full path between two cells under the current occupancy, and accept
//! single-cell occupancy changes so incremental strategies can repair
//! instead of recomputing.

use vstd::prelude::*;
use crate::grid::{Coord, in_bounds};

verus! {

/// A grid pathfinding strategy. `compute_path` returns a route from
/// `start` to `goal` inclusive, ordered start-to-goal, or `None` when the
/// strategy finds no route; `update_obstacle` records that one cell's
/// occupancy changed. Swapping implementations never changes the
/// simulation engine's code.
pub trait Pathfinder: Sized {
    /// The strategy's internal tables are consistent with its grid.
    spec fn pf_wf(&self) -> bool;

    /// The dimensions of the strategy's grid, `(width, height)`.
    spec fn pf_dims(&self) -> (int, int);

    /// Compute a route from `start` to `goal`: when a path comes back it
    /// begins at `start` and ends at `goal`.
    fn compute_path(&mut self, start: Coord, goal: Coord) -> (r: Option<Vec<Coord>>)
        requires
            old(self).pf_wf(),
            in_bounds(start, old(self).pf_dims().0, old(self).pf_dims().1),
            in_bounds(goal, old(self).pf_dims().0, old(self).pf_dims().1),
        ensures
            final(self).pf_wf(),
            final(self).pf_dims() == old(self).pf_dims(),
            r is Some ==> r.unwrap()@.len() >= 1 && r.unwrap()@[0] == start && r.unwrap()@[r.unwrap()@.len() - 1] == goal,
    ;

    /// Record that `coord` is now blocked (`true`) or free (`false`).
    fn update_obstacle(&mut self, coord: Coord, is_blocked: bool)
        requires
            old(self).pf_wf(),
        ensures
            final(self).pf_wf(),
            final(self).pf_dims() == old(self).pf_dims(),
    ;
}

} // verus!
