//! The static obstacle map: the authoritative blocked-cell store feeding
//! every pathfinding strategy. It holds the static obstacles placed at
//! setup and the dynamic obstacles that were converted during a journey;
//! their union is the only occupancy the planners ever see.

use vstd::prelude::*;
use crate::grid::{Coord, contains_coord, copy_coords, lemma_push_keeps_unique, unique_seq};

verus! {

/// Holds of the cells that are not already in `statics`.
pub open spec fn novel_for(statics: Seq<Coord>) -> spec_fn(Coord) -> bool {
    |c: Coord| !statics.contains(c)
}

} // verus!

verus! {

/// The obstacle map: static obstacles, set before a journey, and
/// converted obstacles, which grow monotonically while it runs.
pub struct SomLayer {
    original_static_obstacles: Vec<Coord>,
    converted_dob_obstacles: Vec<Coord>,
}

impl SomLayer {
    /// The static obstacle cells.
    pub closed spec fn statics(&self) -> Seq<Coord> {
        self.original_static_obstacles@
    }

    /// The converted obstacle cells.
    pub closed spec fn converted(&self) -> Seq<Coord> {
        self.converted_dob_obstacles@
    }

    /// Each list holds a cell at most once.
    pub closed spec fn wf(&self) -> bool {
        unique_seq(self.statics()) && unique_seq(self.converted())
    }

    /// A cell is blocked when either list holds it.
    pub open spec fn occupied(&self, c: Coord) -> bool {
        self.statics().contains(c) || self.converted().contains(c)
    }

    /// An empty obstacle map.
    pub fn new() -> (r: SomLayer)
        ensures
            r.wf(),
            r.statics() == Seq::<Coord>::empty(),
            r.converted() == Seq::<Coord>::empty(),
    {
        SomLayer { original_static_obstacles: Vec::new(), converted_dob_obstacles: Vec::new() }
    }

    /// The full occupancy the planners consume: the union of the static
    /// and the converted obstacles, each blocked cell listed exactly once
    /// (statics first, then the converted cells not already static).
    pub fn get_complete_obstacle_map(&self) -> (r: Vec<Coord>)
        requires
            self.wf(),
        ensures
            r@ == self.statics() + self.converted().filter(novel_for(self.statics())),
            forall|c: Coord| #[trigger] r@.contains(c) == self.occupied(c),
            unique_seq(r@),
    {
        let mut out = copy_coords(&self.original_static_obstacles);
        let ghost statics = self.statics();
        let mut i: usize = 0;
        while i < self.converted_dob_obstacles.len()
            invariant
                self.wf(),
                statics == self.statics(),
                i <= self.converted().len(),
                out@ == statics + self.converted().take(i as int).filter(novel_for(statics)),
                unique_seq(out@),
                forall|k: int|
                    statics.len() <= k < out@.len() ==> self.converted().take(i as int).contains(
                        #[trigger] out@[k],
                    ),
            decreases self.converted().len() - i,
        {
            let c = self.converted_dob_obstacles[i];
            let ghost out_pre = out@;
            let ghost t = self.converted().take(i + 1);
            proof {
                broadcast use vstd::seq_lib::lemma_seq_contains_after_push;

                assert(t.drop_last() =~= self.converted().take(i as int));
                assert(t.last() == c);
                reveal_with_fuel(Seq::filter, 2);
            }
            if !contains_coord(&self.original_static_obstacles, c) {
                proof {
                    assert(!out@.contains(c)) by {
                        if out@.contains(c) {
                            let k = choose|k: int| 0 <= k < out@.len() && out@[k] == c;
                            if k < statics.len() {
                                assert(statics[k] == c);
                            } else {
                                assert(self.converted().take(i as int).contains(c));
                                let j = choose|j: int|
                                    0 <= j < i && self.converted().take(i as int)[j] == c;
                                assert(self.converted()[j] == c && self.converted()[i as int]
                                    == c);
                            }
                        }
                    }
                    lemma_push_keeps_unique(out@, c);
                }
                out.push(c);
                proof {
                    assert(out@ =~= statics + t.filter(novel_for(statics)));
                    assert forall|k: int|
                        statics.len() <= k < out@.len() implies t.contains(#[trigger] out@[k]) by {
                        if k < out@.len() - 1 {
                            assert(out@[k] == out_pre[k]);
                            assert(self.converted().take(i as int).contains(out_pre[k]));
                            let j = choose|j: int|
                                0 <= j < i && self.converted().take(i as int)[j] == out_pre[k];
                            assert(t[j] == out_pre[k]);
                        } else {
                            assert(out@[k] == c && t[i as int] == c);
                        }
                    }
                }
            } else {
                proof {
                    assert(out@ =~= statics + t.filter(novel_for(statics)));
                    assert forall|k: int|
                        statics.len() <= k < out@.len() implies t.contains(#[trigger] out@[k]) by {
                        assert(self.converted().take(i as int).contains(out@[k]));
                        let j = choose|j: int|
                            0 <= j < i && self.converted().take(i as int)[j] == out@[k];
                        assert(t[j] == out@[k]);
                    }
                }
            }
            i = i + 1;
        }
        proof {
            assert(self.converted().take(self.converted().len() as int) =~= self.converted());
            let fin = statics + self.converted().filter(novel_for(statics));
            self.converted().filter_lemma(novel_for(statics));
            assert forall|c: Coord| #[trigger] out@.contains(c) == self.occupied(c) by {
                if out@.contains(c) {
                    let k = choose|k: int| 0 <= k < out@.len() && out@[k] == c;
                    if k < statics.len() {
                        assert(statics[k] == c);
                    } else {
                        assert(self.converted().contains(c));
                    }
                }
                if self.statics().contains(c) {
                    let k = choose|k: int| 0 <= k < statics.len() && statics[k] == c;
                    assert(out@[k] == c);
                }
                if self.converted().contains(c) && !self.statics().contains(c) {
                    let j = choose|j: int|
                        0 <= j < self.converted().len() && self.converted()[j] == c;
                    assert(novel_for(statics)(c));
                    assert(self.converted().filter(novel_for(statics)).contains(c));
                    let m = choose|m: int|
                        0 <= m < self.converted().filter(novel_for(statics)).len()
                            && self.converted().filter(novel_for(statics))[m] == c;
                    assert(out@[statics.len() + m] == c);
                }
            }
        }
        out
    }

    /// Record a converted dynamic obstacle: a cell already present is left
    /// alone, so converting twice is a no-op.
    pub fn add_converted_dob(&mut self, coord: Coord)
        requires
            old(self).wf(),
        ensures
            final(self).wf(),
            final(self).statics() == old(self).statics(),
            old(self).converted().contains(coord) ==> final(self).converted() == old(
                self,
            ).converted(),
            !old(self).converted().contains(coord) ==> final(self).converted() == old(
                self,
            ).converted().push(coord),
            final(self).occupied(coord),
    {
        if !contains_coord(&self.converted_dob_obstacles, coord) {
            proof {
                lemma_push_keeps_unique(self.converted(), coord);
            }
            self.converted_dob_obstacles.push(coord);
            proof {
                assert(self.converted().last() == coord);
            }
        }
    }

    /// Replace the static obstacle set; duplicates in the input are kept
    /// once.
    pub fn set_initial_obstacles(&mut self, obstacles: Vec<Coord>)
        requires
            old(self).wf(),
        ensures
            final(self).wf(),
            final(self).converted() == old(self).converted(),
            forall|c: Coord| #[trigger]
                final(self).statics().contains(c) == obstacles@.contains(c),
    {
        let mut uniq: Vec<Coord> = Vec::new();
        let mut i: usize = 0;
        while i < obstacles.len()
            invariant
                i <= obstacles@.len(),
                unique_seq(uniq@),
                forall|c: Coord| #[trigger]
                    uniq@.contains(c) == obstacles@.take(i as int).contains(c),
            decreases obstacles@.len() - i,
        {
            let c = obstacles[i];
            proof {
                broadcast use vstd::seq_lib::lemma_seq_contains_after_push;

                assert(obstacles@.take(i + 1) =~= obstacles@.take(i as int).push(
                    obstacles@[i as int],
                ));
            }
            if !contains_coord(&uniq, c) {
                proof {
                    lemma_push_keeps_unique(uniq@, c);
                }
                uniq.push(c);
            }
            i = i + 1;
        }
        proof {
            assert(obstacles@.take(obstacles@.len() as int) =~= obstacles@);
        }
        self.original_static_obstacles = uniq;
    }

    /// Whether a cell is blocked by a static or a converted obstacle.
    pub fn is_cell_occupied(&self, coord: Coord) -> (r: bool)
        ensures
            r == self.occupied(coord),
    {
        contains_coord(&self.original_static_obstacles, coord) || contains_coord(
            &self.converted_dob_obstacles,
            coord,
        )
    }

    /// Drop every converted obstacle, as a restart does.
    pub fn clear_converted_dob_obstacles(&mut self)
        requires
            old(self).wf(),
        ensures
            final(self).wf(),
            final(self).statics() == old(self).statics(),
            final(self).converted() == Seq::<Coord>::empty(),
    {
        self.converted_dob_obstacles.clear();
    }
}

} // verus!
