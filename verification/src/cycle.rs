//! The tick-level orchestrator. Each tick, while the journey is active,
//! does exactly one of: finish (the rover stands on its goal), react to
//! newly detected obstacles by replanning without moving, or advance one
//! cell. Detection and movement are mutually exclusive within a tick, the
//! traveled history never shrinks, and a failed replan or move traps the
//! rover.

use vstd::prelude::*;
use crate::grid::{Coord, GridView, cheb_spec, in_bounds, reachable4, reachable8};
use crate::dob::{DobLayer, DETECTION_RANGE, far_pred, near_pred};
use crate::som::SomLayer;
use crate::trajectory::{RoverLayer, GRID_WIDTH, GRID_HEIGHT, map_view};

verus! {

/// Default start cell of a fresh simulation.
pub const DEFAULT_START_X: usize = 5;

/// See `DEFAULT_START_X`.
pub const DEFAULT_START_Y: usize = 5;

/// Default goal cell of a fresh simulation.
pub const DEFAULT_GOAL_X: usize = 45;

/// See `DEFAULT_GOAL_X`.
pub const DEFAULT_GOAL_Y: usize = 25;

/// Ticks allowed before the journey is halted defensively.
pub const SAFETY_STEP_LIMIT: u32 = 1000;

/// The journey lifecycle: waiting, running, or finished — in failure
/// (`Trapped`) or success (`Complete`). The terminal states persist until
/// an explicit reset or restart.
#[derive(Clone, Copy, PartialEq, Eq, Structural, Debug)]
pub enum Status {
    Idle,
    Active,
    Trapped,
    Complete,
}

/// What one tick did.
#[derive(Clone, Copy, PartialEq, Eq, Structural, Debug)]
pub enum TickOutcome {
    Completed,
    Replanned,
    Moved,
    Trapped,
}

/// An undiscovered obstacle sits within detection range of `pos`, so the
/// next tick from `pos` will detect rather than move.
pub open spec fn detection_pending(dob: DobLayer, pos: Coord) -> bool {
    exists|i: int|
        0 <= i < dob.amber().len() && cheb_spec(#[trigger] dob.amber()[i], pos) <= DETECTION_RANGE
}

/// The occupancy grid the obstacle map currently describes.
pub open spec fn som_view(s: SomLayer) -> GridView {
    Seq::new(
        GRID_WIDTH as nat,
        |x: int| Seq::new(GRID_HEIGHT as nat, |y: int| s.occupied((x as usize, y as usize))),
    )
}

/// Filtering with a predicate everything satisfies returns the list
/// unchanged.
proof fn lemma_filter_all(s: Seq<Coord>, pred: spec_fn(Coord) -> bool)
    requires
        forall|i: int| 0 <= i < s.len() ==> pred(#[trigger] s[i]),
    ensures
        s.filter(pred) == s,
    decreases s.len(),
{
    reveal_with_fuel(Seq::filter, 2);
    if s.len() > 0 {
        assert forall|i: int| 0 <= i < s.drop_last().len() implies pred(
            #[trigger] s.drop_last()[i],
        ) by {
            assert(s.drop_last()[i] == s[i]);
        }
        lemma_filter_all(s.drop_last(), pred);
        assert(pred(s.last()));
        assert(s.filter(pred) =~= s);
    } else {
        assert(s.filter(pred) =~= s);
    }
}

/// Filtering with a predicate nothing satisfies yields the empty list.
proof fn lemma_filter_none(s: Seq<Coord>, pred: spec_fn(Coord) -> bool)
    requires
        forall|i: int| 0 <= i < s.len() ==> !pred(#[trigger] s[i]),
    ensures
        s.filter(pred) == Seq::<Coord>::empty(),
    decreases s.len(),
{
    reveal_with_fuel(Seq::filter, 2);
    if s.len() > 0 {
        assert forall|i: int| 0 <= i < s.drop_last().len() implies !pred(
            #[trigger] s.drop_last()[i],
        ) by {
            assert(s.drop_last()[i] == s[i]);
        }
        lemma_filter_none(s.drop_last(), pred);
        assert(!pred(s.last()));
    } else {
        assert(s.filter(pred) =~= Seq::<Coord>::empty());
    }
}

/// The whole simulation: the three owned stores, the lifecycle status,
/// and the tick counter behind the defensive stop.
pub struct Simulation {
    pub som: SomLayer,
    pub rover: RoverLayer,
    pub dob: DobLayer,
    pub status: Status,
    pub steps: u32,
}

impl Simulation {
    /// All three stores are internally consistent.
    pub open spec fn wf(&self) -> bool {
        self.som.wf() && self.rover.wf() && self.dob.wf()
    }

    /// A fresh simulation on the fixed grid, idle, with the default start
    /// and goal and no obstacles anywhere.
    pub fn new() -> (r: Simulation)
        ensures
            r.wf(),
            r.status == Status::Idle,
            r.rover.current_position == ((DEFAULT_START_X, DEFAULT_START_Y)),
            r.rover.goal_position == ((DEFAULT_GOAL_X, DEFAULT_GOAL_Y)),
            r.rover.planned_path@.len() == 0,
            r.rover.traveled_path@ == seq![((DEFAULT_START_X, DEFAULT_START_Y))],
            r.rover.start_position == ((DEFAULT_START_X, DEFAULT_START_Y)),
            r.rover.algorithm@ == "A*"@,
            !r.rover.is_journey_active,
            r.som.statics().len() == 0,
            r.som.converted().len() == 0,
            r.dob.amber().len() == 0,
            r.dob.blue().len() == 0,
            r.steps == 0,
    {
        Simulation {
            som: SomLayer::new(),
            rover: RoverLayer::new(
                (DEFAULT_START_X, DEFAULT_START_Y),
                (DEFAULT_GOAL_X, DEFAULT_GOAL_Y),
            ),
            dob: DobLayer::new(),
            status: Status::Idle,
            steps: 0,
        }
    }

    /// Start the journey: requires a computed plan; fixes a
    /// desynchronized plan head once, as journey start always may.
    pub fn start_journey(&mut self) -> (r: bool)
        requires
            old(self).wf(),
        ensures
            final(self).wf(),
            old(self).rover.planned_path@.len() == 0 ==> !r && *final(self) == *old(self),
            old(self).rover.planned_path@.len() > 0 ==> {
                &&& r
                &&& final(self).status == Status::Active
                &&& final(self).rover.planned_path@ == old(self).rover.planned_path@.update(
                    0,
                    old(self).rover.current_position,
                )
                &&& final(self).steps == 0
            },
            final(self).rover.traveled_path == old(self).rover.traveled_path,
            final(self).rover.current_position == old(self).rover.current_position,
            final(self).rover.goal_position == old(self).rover.goal_position,
            final(self).rover.algorithm == old(self).rover.algorithm,
            final(self).som == old(self).som,
            final(self).dob == old(self).dob,
    {
        if self.rover.planned_path.len() == 0 {
            return false;
        }
        let p = self.rover.current_position;
        self.rover.planned_path[0] = p;
        self.status = Status::Active;
        self.steps = 0;
        true
    }

    /// Pause without penalty: the plan and history are preserved and the
    /// journey can resume.
    pub fn pause(&mut self)
        requires
            old(self).wf(),
        ensures
            final(self).wf(),
            final(self).status == Status::Idle,
            final(self).rover == old(self).rover,
            final(self).som == old(self).som,
            final(self).dob == old(self).dob,
    {
        self.status = Status::Idle;
    }

    /// The defensive stop has fired: too many ticks this journey.
    pub fn safety_stop(&self) -> (r: bool)
        ensures
            r == (self.steps > SAFETY_STEP_LIMIT),
    {
        self.steps > SAFETY_STEP_LIMIT
    }

    /// One simulation tick. In order of precedence: a rover on its goal
    /// completes the journey; otherwise any undiscovered obstacle within
    /// detection range converts, enters the obstacle map, and forces a
    /// full replan with no movement this tick (failure traps); otherwise
    /// the rover takes one step along its plan (failure traps).
    #[verifier::spinoff_prover]
    #[verifier::rlimit(100)]
    pub fn tick(&mut self) -> (r: TickOutcome)
        requires
            old(self).wf(),
            old(self).status == Status::Active,
        ensures
            final(self).wf(),
            final(self).rover.goal_position == old(self).rover.goal_position,
            final(self).som.statics() == old(self).som.statics(),
            // history is immutable: it only ever grows
            final(self).rover.traveled_path@.len() >= old(self).rover.traveled_path@.len(),
            forall|i: int|
                0 <= i < old(self).rover.traveled_path@.len()
                    ==> #[trigger] final(self).rover.traveled_path@[i] == old(self).rover.traveled_path@[i],
            // detection and movement never share a tick
            (detection_pending(old(self).dob, old(self).rover.current_position)
                && old(self).rover.current_position != old(self).rover.goal_position) ==> {
                &&& final(self).rover.current_position == old(self).rover.current_position
                &&& final(self).rover.traveled_path@ == old(self).rover.traveled_path@
            },
            r == TickOutcome::Completed <==> old(self).rover.current_position == old(self).rover.goal_position,
            r == TickOutcome::Completed ==> final(self).status == Status::Complete,
            r == TickOutcome::Trapped ==> final(self).status == Status::Trapped,
            r == TickOutcome::Replanned ==> {
                &&& final(self).status == Status::Active
                &&& final(self).rover.current_position == old(self).rover.current_position
                &&& final(self).rover.planned_path@.len() >= 2
            },
            r == TickOutcome::Moved ==> {
                &&& final(self).status == Status::Active
                &&& final(self).rover.current_position == old(self).rover.planned_path@[1]
                &&& final(self).rover.traveled_path@ == old(self).rover.traveled_path@.push(old(self).rover.planned_path@[1])
                &&& final(self).rover.planned_path@ == old(self).rover.planned_path@.subrange(1, old(self).rover.planned_path@.len() as int)
            },
            // history grows by at most one cell per tick
            final(self).rover.traveled_path@.len() <= old(self).rover.traveled_path@.len() + 1,
            // a detection tick removes exactly the detected cells from the
            // tracker and records each of them as a converted obstacle
            (detection_pending(old(self).dob, old(self).rover.current_position)
                && old(self).rover.current_position != old(self).rover.goal_position) ==> {
                &&& final(self).dob.amber() == old(self).dob.amber().filter(
                    far_pred(old(self).rover.current_position),
                )
                &&& forall|i: int|
                    0 <= i < old(self).dob.amber().len() && cheb_spec(
                        #[trigger] old(self).dob.amber()[i],
                        old(self).rover.current_position,
                    ) <= DETECTION_RANGE ==> final(self).som.converted().contains(
                        old(self).dob.amber()[i],
                    ) && final(self).dob.blue().contains(old(self).dob.amber()[i])
            },
            // a finished tick and a movement tick leave the stores alone
            r == TickOutcome::Completed ==> {
                &&& final(self).rover == old(self).rover
                &&& final(self).som == old(self).som
                &&& final(self).dob == old(self).dob
                &&& final(self).steps == old(self).steps
            },
            r == TickOutcome::Moved ==> {
                &&& final(self).som == old(self).som
                &&& final(self).dob.amber() == old(self).dob.amber()
                &&& final(self).dob.blue() == old(self).dob.blue()
            },
            // a clear tick without a usable plan traps
            (old(self).rover.current_position != old(self).rover.goal_position
                && !detection_pending(old(self).dob, old(self).rover.current_position)
                && old(self).rover.planned_path@.len() < 2) ==> r == TickOutcome::Trapped,
            // a trap on a clear tick does not advance the rover or touch
            // the stores; at most a degenerate standing step is recorded
            (!detection_pending(old(self).dob, old(self).rover.current_position) && r
                == TickOutcome::Trapped) ==> {
                &&& final(self).rover.current_position == old(self).rover.current_position
                &&& final(self).som == old(self).som
                &&& final(self).dob.amber() == old(self).dob.amber()
                &&& final(self).dob.blue() == old(self).dob.blue()
                &&& (final(self).rover.traveled_path@ == old(self).rover.traveled_path@
                    || final(self).rover.traveled_path@ == old(self).rover.traveled_path@.push(
                    old(self).rover.current_position,
                ))
            },
            // the defensive tick counter advances only on movement
            r == TickOutcome::Moved ==> final(self).steps == (if old(self).steps < u32::MAX {
                (old(self).steps + 1) as u32
            } else {
                old(self).steps
            }),
            (r == TickOutcome::Replanned || r == TickOutcome::Trapped) ==> final(self).steps
                == old(self).steps,
            // a clear tick with a sound plan always moves
            (old(self).rover.current_position != old(self).rover.goal_position
                && !detection_pending(old(self).dob, old(self).rover.current_position)
                && old(self).rover.planned_path@.len() >= 2
                && cheb_spec(old(self).rover.current_position, old(self).rover.planned_path@[1]) == 1)
                ==> r == TickOutcome::Moved,
            // a replan is owed, not a trap, when the goal stays free and
            // reachable over the extended union under the active strategy
            (detection_pending(old(self).dob, old(self).rover.current_position)
                && old(self).rover.current_position != old(self).rover.goal_position
                && old(self).rover.algorithm@ == "A*"@
                && !final(self).som.occupied(old(self).rover.goal_position)
                && reachable4(
                som_view(final(self).som),
                old(self).rover.current_position,
                old(self).rover.goal_position,
                GRID_WIDTH as int,
                GRID_HEIGHT as int,
            )) ==> r == TickOutcome::Replanned,
            (detection_pending(old(self).dob, old(self).rover.current_position)
                && old(self).rover.current_position != old(self).rover.goal_position
                && old(self).rover.algorithm@ == "Field D*"@
                && !final(self).som.occupied(old(self).rover.goal_position)
                && reachable8(
                som_view(final(self).som),
                old(self).rover.current_position,
                old(self).rover.goal_position,
                GRID_WIDTH as int,
                GRID_HEIGHT as int,
            )) ==> r == TickOutcome::Replanned,
    {
        if self.rover.has_reached_goal() {
            self.status = Status::Complete;
            return TickOutcome::Completed;
        }

        let pos = self.rover.current_position;
        let newly_converted = self.dob.check_proximity_and_convert(pos);

        proof {
            let amber = old(self).dob.amber();
            amber.filter_lemma(near_pred(pos));
            if detection_pending(old(self).dob, pos) {
                let i = choose|i: int|
                    0 <= i < amber.len() && cheb_spec(#[trigger] amber[i], pos) <= DETECTION_RANGE;
                assert(near_pred(pos)(amber[i]));
                assert(amber.filter(near_pred(pos)).contains(amber[i]));
                assert(newly_converted@.len() > 0);
            } else {
                assert forall|i: int| 0 <= i < amber.len() implies !(near_pred(pos)(
                    #[trigger] amber[i],
                )) by {
                    assert(!(cheb_spec(amber[i], pos) <= DETECTION_RANGE));
                }
                lemma_filter_none(amber, near_pred(pos));
                assert(newly_converted@.len() == 0);
            }
        }

        if newly_converted.len() > 0 {
            let ghost dob_mid = self.dob;
            let mut i: usize = 0;
            while i < newly_converted.len()
                invariant
                    i <= newly_converted@.len(),
                    self.som.wf(),
                    self.som.statics() == old(self).som.statics(),
                    self.rover == old(self).rover,
                    self.dob == dob_mid,
                    self.status == old(self).status,
                    self.steps == old(self).steps,
                    forall|k: int|
                        0 <= k < i ==> self.som.converted().contains(
                            #[trigger] newly_converted@[k],
                        ),
                decreases newly_converted@.len() - i,
            {
                let ghost conv_pre = self.som.converted();
                self.som.add_converted_dob(newly_converted[i]);
                proof {
                    broadcast use vstd::seq_lib::lemma_seq_contains_after_push;

                    assert forall|k: int| 0 <= k < i + 1 implies self.som.converted().contains(
                        #[trigger] newly_converted@[k],
                    ) by {
                        if k < i {
                            assert(conv_pre.contains(newly_converted@[k]));
                        }
                    }
                }
                i = i + 1;
            }
            proof {
                let amber = old(self).dob.amber();
                assert forall|k: int|
                    0 <= k < amber.len() && cheb_spec(#[trigger] amber[k], pos) <= DETECTION_RANGE
                    implies self.som.converted().contains(amber[k]) && self.dob.blue().contains(
                    amber[k],
                ) by {
                    amber.filter_lemma(near_pred(pos));
                    assert(near_pred(pos)(amber[k]));
                    assert(newly_converted@.contains(amber[k]));
                    let m = choose|m: int|
                        0 <= m < newly_converted@.len() && newly_converted@[m] == amber[k];
                    assert(self.som.converted().contains(newly_converted@[m]));
                }
            }

            let obstacle_map = self.som.get_complete_obstacle_map();
            let ghost som_now = self.som;
            proof {
                assert forall|x: int| 0 <= x < GRID_WIDTH as int implies map_view(obstacle_map@)[x]
                    =~= som_view(som_now)[x] by {
                    assert forall|y: int| 0 <= y < GRID_HEIGHT as int implies map_view(
                        obstacle_map@,
                    )[x][y] == som_view(som_now)[x][y] by {
                        let c = (x as usize, y as usize);
                        assert(obstacle_map@.contains(c) == som_now.occupied(c));
                    }
                }
                assert(map_view(obstacle_map@) =~= som_view(som_now));
                assert(obstacle_map@.len() > 0) by {
                    assert(newly_converted@.len() > 0);
                    let c0 = newly_converted@[0];
                    assert(self.som.converted().contains(c0));
                    assert(som_now.occupied(c0));
                    assert(obstacle_map@.contains(c0));
                }
            }
            let path_computed = self.rover.compute_path_from_som(obstacle_map);

            if !path_computed || self.rover.planned_path.len() < 2 {
                proof {
                    let goal = old(self).rover.goal_position;
                    let p0 = old(self).rover.current_position;
                    if !som_now.occupied(goal) {
                        if old(self).rover.algorithm@ == "A*"@ && reachable4(
                            som_view(som_now),
                            p0,
                            goal,
                            GRID_WIDTH as int,
                            GRID_HEIGHT as int,
                        ) {
                            assert(path_computed);
                            assert(self.rover.planned_path@[0] == p0);
                            assert(self.rover.planned_path@[self.rover.planned_path@.len() - 1]
                                == goal);
                            assert(self.rover.planned_path@.len() >= 2);
                        }
                        if old(self).rover.algorithm@ == "Field D*"@ && reachable8(
                            som_view(som_now),
                            p0,
                            goal,
                            GRID_WIDTH as int,
                            GRID_HEIGHT as int,
                        ) {
                            assert(path_computed);
                            assert(self.rover.planned_path@[0] == p0);
                            assert(self.rover.planned_path@[self.rover.planned_path@.len() - 1]
                                == goal);
                            assert(self.rover.planned_path@.len() >= 2);
                        }
                    }
                }
                self.status = Status::Trapped;
                return TickOutcome::Trapped;
            }
            return TickOutcome::Replanned;
        }

        proof {
            let amber = old(self).dob.amber();
            assert forall|i: int| 0 <= i < amber.len() implies far_pred(pos)(
                #[trigger] amber[i],
            ) by {
                if cheb_spec(amber[i], pos) <= DETECTION_RANGE {
                    amber.filter_lemma(near_pred(pos));
                    assert(near_pred(pos)(amber[i]));
                    assert(newly_converted@.contains(amber[i]));
                }
            }
            lemma_filter_all(amber, far_pred(pos));
            assert(self.dob.amber() == amber);
            assert(self.dob.blue() == old(self).dob.blue());
        }

        if self.rover.planned_path.len() < 2 {
            self.status = Status::Trapped;
            return TickOutcome::Trapped;
        }

        let old_position = self.rover.current_position;
        let movement_success = self.rover.execute_movement_step();

        if !movement_success || (self.rover.current_position.0 == old_position.0
            && self.rover.current_position.1 == old_position.1) {
            self.status = Status::Trapped;
            return TickOutcome::Trapped;
        }

        if self.steps < u32::MAX {
            self.steps = self.steps + 1;
        }
        TickOutcome::Moved
    }

    /// Full reset: everything back to the defaults, all obstacles gone.
    pub fn reset(&mut self)
        ensures
            final(self).wf(),
            final(self).status == Status::Idle,
            final(self).som.statics().len() == 0,
            final(self).som.converted().len() == 0,
            final(self).dob.amber().len() == 0,
            final(self).dob.blue().len() == 0,
            final(self).rover.current_position == ((DEFAULT_START_X, DEFAULT_START_Y)),
            final(self).rover.goal_position == ((DEFAULT_GOAL_X, DEFAULT_GOAL_Y)),
            final(self).rover.traveled_path@ == seq![((DEFAULT_START_X, DEFAULT_START_Y))],
            final(self).rover.planned_path@.len() == 0,
            final(self).steps == 0,
    {
        let fresh = Simulation::new();
        *self = fresh;
    }

    /// Restart the journey: the rover returns to its start, undiscovered
    /// obstacles and converted obstacles are cleared, but the static
    /// obstacle set is kept.
    pub fn restart(&mut self)
        requires
            old(self).wf(),
        ensures
            final(self).wf(),
            final(self).status == Status::Idle,
            final(self).som.statics() == old(self).som.statics(),
            final(self).som.converted().len() == 0,
            final(self).dob.amber().len() == 0,
            final(self).dob.blue().len() == 0,
            final(self).rover.current_position == old(self).rover.start_position,
            final(self).rover.traveled_path@ == seq![old(self).rover.start_position],
            final(self).rover.planned_path@.len() == 0,
            final(self).rover.goal_position == old(self).rover.goal_position,
            final(self).rover.algorithm == old(self).rover.algorithm,
            final(self).steps == 0,
    {
        self.status = Status::Idle;
        let start = self.rover.start_position;
        proof {
            assert(in_bounds(start, GRID_WIDTH as int, GRID_HEIGHT as int)) by {
                assert(old(self).rover.wf());
            }
        }
        self.rover.reset_to_start(start);
        self.dob.clear_all();
        self.som.clear_converted_dob_obstacles();
        self.steps = 0;
    }
}

} // verus!
