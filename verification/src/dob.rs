//! The dynamic obstacle tracker: owns the provisional ("undiscovered")
//! obstacles that are invisible to every planner, and promotes them to
//! converted obstacles the moment the rover comes within detection range
//! (Chebyshev distance two).

use vstd::prelude::*;
use crate::grid::{
    Coord, cheb, cheb_spec, contains_coord, copy_coords, lemma_push_keeps_unique,
    lemma_remove_keeps_unique, unique_seq,
};
use crate::som::SomLayer;

verus! {

/// How close, in Chebyshev distance, the rover must be for an
/// undiscovered obstacle to be detected.
pub const DETECTION_RANGE: usize = 2;

/// Holds of the undiscovered obstacles the rover detects from `pos`.
pub open spec fn near_pred(pos: Coord) -> spec_fn(Coord) -> bool {
    |c: Coord| cheb_spec(c, pos) <= DETECTION_RANGE
}

/// Holds of the undiscovered obstacles that stay hidden from `pos`.
pub open spec fn far_pred(pos: Coord) -> spec_fn(Coord) -> bool {
    |c: Coord| cheb_spec(c, pos) > DETECTION_RANGE
}

/// The tracker: undiscovered (amber) obstacles, and the converted (blue)
/// ones it has handed to the obstacle map.
pub struct DobLayer {
    amber_dobs: Vec<Coord>,
    blue_converted_dobs: Vec<Coord>,
}

impl DobLayer {
    /// The undiscovered obstacle cells, in placement order.
    pub closed spec fn amber(&self) -> Seq<Coord> {
        self.amber_dobs@
    }

    /// The converted obstacle cells.
    pub closed spec fn blue(&self) -> Seq<Coord> {
        self.blue_converted_dobs@
    }

    /// Each list holds a cell at most once.
    pub closed spec fn wf(&self) -> bool {
        unique_seq(self.amber()) && unique_seq(self.blue())
    }

    /// An empty tracker.
    pub fn new() -> (r: DobLayer)
        ensures
            r.wf(),
            r.amber() == Seq::<Coord>::empty(),
            r.blue() == Seq::<Coord>::empty(),
    {
        DobLayer { amber_dobs: Vec::new(), blue_converted_dobs: Vec::new() }
    }

    /// Detect: every undiscovered obstacle within Chebyshev distance two
    /// of the rover is removed from the undiscovered set, recorded as
    /// converted, and returned; the rest stay untouched, in order.
    pub fn check_proximity_and_convert(&mut self, rover_position: Coord) -> (r: Vec<Coord>)
        requires
            old(self).wf(),
        ensures
            final(self).wf(),
            r@ == old(self).amber().filter(near_pred(rover_position)),
            final(self).amber() == old(self).amber().filter(far_pred(rover_position)),
            forall|c: Coord| #[trigger]
                final(self).blue().contains(c) == (old(self).blue().contains(c) || r@.contains(
                    c,
                )),
            r@.len() == 0 ==> final(self).blue() == old(self).blue(),
    {
        let mut converted_coords: Vec<Coord> = Vec::new();
        let mut remaining_amber: Vec<Coord> = Vec::new();
        let mut i: usize = 0;
        while i < self.amber_dobs.len()
            invariant
                unique_seq(self.amber()),
                unique_seq(self.blue()),
                unique_seq(remaining_amber@),
                i <= self.amber().len(),
                converted_coords@ == self.amber().take(i as int).filter(near_pred(rover_position)),
                remaining_amber@ == self.amber().take(i as int).filter(far_pred(rover_position)),
                forall|c: Coord| #[trigger]
                    remaining_amber@.contains(c) ==> self.amber().take(i as int).contains(c),
                forall|c: Coord| #[trigger]
                    self.blue().contains(c) == (old(self).blue().contains(c)
                        || converted_coords@.contains(c)),
                converted_coords@.len() == 0 ==> self.blue() == old(self).blue(),
                self.amber() == old(self).amber(),
            decreases self.amber().len() - i,
        {
            let dob_coord = self.amber_dobs[i];
            let distance = cheb(rover_position, dob_coord);
            let ghost blue_pre = self.blue();
            let ghost conv_pre = converted_coords@;
            let ghost rem_pre = remaining_amber@;
            if distance <= DETECTION_RANGE {
                if !contains_coord(&self.blue_converted_dobs, dob_coord) {
                    proof {
                        lemma_push_keeps_unique(self.blue(), dob_coord);
                    }
                    self.blue_converted_dobs.push(dob_coord);
                }
                converted_coords.push(dob_coord);
            } else {
                proof {
                    if remaining_amber@.contains(dob_coord) {
                        assert(self.amber().take(i as int).contains(dob_coord));
                        let k = choose|k: int|
                            0 <= k < i && self.amber().take(i as int)[k] == dob_coord;
                        assert(self.amber()[k] == dob_coord && self.amber()[i as int]
                            == dob_coord);
                    }
                    lemma_push_keeps_unique(remaining_amber@, dob_coord);
                }
                remaining_amber.push(dob_coord);
            }
            proof {
                broadcast use vstd::seq_lib::lemma_seq_contains_after_push;

                let t = self.amber().take(i + 1);
                assert(t.drop_last() =~= self.amber().take(i as int));
                assert(t.last() == dob_coord);
                reveal_with_fuel(Seq::filter, 2);
                assert(t.filter(near_pred(rover_position)) == (if near_pred(rover_position)(
                    dob_coord,
                ) {
                    conv_pre.push(dob_coord)
                } else {
                    conv_pre
                }));
                assert(t.filter(far_pred(rover_position)) == (if far_pred(rover_position)(
                    dob_coord,
                ) {
                    rem_pre.push(dob_coord)
                } else {
                    rem_pre
                }));
                assert forall|c: Coord| #[trigger]
                    self.blue().contains(c) == (old(self).blue().contains(c)
                        || converted_coords@.contains(c)) by {
                    if distance <= DETECTION_RANGE {
                        assert(converted_coords@ == conv_pre.push(dob_coord));
                        if c == dob_coord {
                            assert(self.blue().contains(dob_coord));
                        }
                    }
                }
                assert forall|c: Coord| #[trigger]
                    remaining_amber@.contains(c) implies self.amber().take(i + 1).contains(c) by {
                    if rem_pre.contains(c) {
                        assert(self.amber().take(i as int).contains(c));
                        let k = choose|k: int|
                            0 <= k < i && self.amber().take(i as int)[k] == c;
                        assert(self.amber().take(i + 1)[k] == c);
                    } else {
                        assert(c == dob_coord);
                        assert(self.amber().take(i + 1)[i as int] == c);
                    }
                }
            }
            i = i + 1;
        }
        proof {
            assert(self.amber().take(self.amber().len() as int) =~= self.amber());
        }
        self.amber_dobs = remaining_amber;
        converted_coords
    }

    /// Toggle an undiscovered obstacle at `coord`: rejected on a cell the
    /// obstacle map already blocks; otherwise the cell is removed if
    /// tracked and added if not.
    pub fn toggle_dob(&mut self, coord: Coord, som_layer: &SomLayer) -> (r: bool)
        requires
            old(self).wf(),
        ensures
            final(self).wf(),
            final(self).blue() == old(self).blue(),
            som_layer.occupied(coord) ==> !r && final(self).amber() == old(self).amber(),
            !som_layer.occupied(coord) ==> r,
            !som_layer.occupied(coord) && !old(self).amber().contains(coord)
                ==> final(self).amber() == old(self).amber().push(coord),
            !som_layer.occupied(coord) && old(self).amber().contains(coord)
                ==> !final(self).amber().contains(coord) && (forall|c: Coord|
                c != coord ==> final(self).amber().contains(c) == #[trigger] old(
                    self,
                ).amber().contains(c)),
    {
        if som_layer.is_cell_occupied(coord) {
            return false;
        }
        let mut i: usize = 0;
        while i < self.amber_dobs.len()
            invariant
                self.wf(),
                i <= self.amber().len(),
                self.amber() == old(self).amber(),
                self.blue() == old(self).blue(),
                !som_layer.occupied(coord),
                forall|k: int| 0 <= k < i ==> self.amber()[k] != coord,
            decreases self.amber().len() - i,
        {
            if self.amber_dobs[i].0 == coord.0 && self.amber_dobs[i].1 == coord.1 {
                let ghost pre = self.amber();
                proof {
                    lemma_remove_keeps_unique(pre, i as int);
                    assert(pre.contains(coord)) by {
                        assert(pre[i as int] == coord);
                    }
                }
                self.amber_dobs.remove(i);
                proof {
                    pre.remove_ensures(i as int);
                    assert forall|c: Coord|
                        c != coord implies self.amber().contains(c) == #[trigger] pre.contains(
                        c,
                    ) by {
                        if self.amber().contains(c) {
                            let k = choose|k: int|
                                0 <= k < self.amber().len() && self.amber()[k] == c;
                            if k < i {
                                assert(pre[k] == c);
                            } else {
                                assert(pre[k + 1] == c);
                            }
                        }
                        if pre.contains(c) {
                            let k = choose|k: int| 0 <= k < pre.len() && pre[k] == c;
                            if k < i {
                                assert(self.amber()[k] == c);
                            } else {
                                assert(pre[i as int] == coord);
                                assert(k > i);
                                assert(self.amber()[k - 1] == c);
                            }
                        }
                    }
                    assert(!self.amber().contains(coord)) by {
                        if self.amber().contains(coord) {
                            let k = choose|k: int|
                                0 <= k < self.amber().len() && self.amber()[k] == coord;
                            if k >= i {
                                assert(pre[k + 1] == coord && pre[i as int] == coord);
                            }
                        }
                    }
                }
                return true;
            }
            i = i + 1;
        }
        proof {
            assert(!self.amber().contains(coord)) by {
                if self.amber().contains(coord) {
                    let k = choose|k: int|
                        0 <= k < self.amber().len() && self.amber()[k] == coord;
                }
            }
            lemma_push_keeps_unique(self.amber(), coord);
        }
        self.amber_dobs.push(coord);
        true
    }

    /// Add an undiscovered obstacle at `coord`: rejected on a cell the
    /// obstacle map blocks or one already tracked, so placing onto an
    /// occupied cell is a no-op.
    pub fn add_dob(&mut self, coord: Coord, som_layer: &SomLayer) -> (r: bool)
        requires
            old(self).wf(),
        ensures
            final(self).wf(),
            final(self).blue() == old(self).blue(),
            r == (!som_layer.occupied(coord) && !old(self).amber().contains(coord)),
            r ==> final(self).amber() == old(self).amber().push(coord),
            !r ==> final(self).amber() == old(self).amber(),
    {
        if som_layer.is_cell_occupied(coord) || contains_coord(&self.amber_dobs, coord) {
            return false;
        }
        proof {
            lemma_push_keeps_unique(self.amber(), coord);
        }
        self.amber_dobs.push(coord);
        true
    }

    /// The undiscovered obstacles, for rendering.
    pub fn get_amber_dobs_for_display(&self) -> (r: Vec<Coord>)
        ensures
            r@ == self.amber(),
    {
        copy_coords(&self.amber_dobs)
    }

    /// The converted obstacles, for rendering.
    pub fn get_blue_dobs_for_display(&self) -> (r: Vec<Coord>)
        ensures
            r@ == self.blue(),
    {
        copy_coords(&self.blue_converted_dobs)
    }

    /// Forget everything, as a reset or restart does.
    pub fn clear_all(&mut self)
        ensures
            final(self).wf(),
            final(self).amber() == Seq::<Coord>::empty(),
            final(self).blue() == Seq::<Coord>::empty(),
    {
        self.amber_dobs.clear();
        self.blue_converted_dobs.clear();
    }
}

} // verus!
