//! The simulation cycle: tick ordering, detection/movement exclusivity,
//! trapping, completion, restart and reset.

use scout_pathfinder::cycle::{Simulation, Status, TickOutcome};

fn started(sim: &mut Simulation) {
    let map = sim.som.get_complete_obstacle_map();
    assert!(sim.rover.compute_path_from_som(map));
    assert!(sim.start_journey());
}

#[test]
fn plain_journey_runs_to_completion() {
    let mut sim = Simulation::new();
    started(&mut sim);
    let mut ticks = 0;
    loop {
        let before = sim.rover.traveled_path.len();
        match sim.tick() {
            TickOutcome::Completed => break,
            TickOutcome::Moved => {
                assert_eq!(sim.rover.traveled_path.len(), before + 1);
                assert_eq!(sim.rover.planned_path[0], sim.rover.current_position);
            }
            other => panic!("unexpected outcome {:?}", other),
        }
        ticks += 1;
        assert!(ticks < 200, "journey must terminate");
    }
    assert_eq!(sim.status, Status::Complete);
    assert_eq!(sim.rover.current_position, (45, 25));
}

#[test]
fn distant_obstacle_stays_undiscovered() {
    // a single undiscovered obstacle at Chebyshev distance 3: the tick
    // moves the rover and leaves the obstacle alone
    let mut sim = Simulation::new();
    let som_view = sim.som.get_complete_obstacle_map();
    assert!(som_view.is_empty());
    // rover starts at (5,5); place at (8,6): distance 3
    assert!(sim.dob.add_dob((8, 6), &sim.som));
    started(&mut sim);
    let outcome = sim.tick();
    assert_eq!(outcome, TickOutcome::Moved);
    assert_eq!(sim.dob.get_amber_dobs_for_display(), vec![(8, 6)]);
    assert!(sim.dob.get_blue_dobs_for_display().is_empty());
}

#[test]
fn close_obstacle_converts_and_blocks_movement() {
    // once the rover stands within distance 2, the next tick converts the
    // obstacle and replans with zero movement
    let mut sim = Simulation::new();
    assert!(sim.dob.add_dob((8, 6), &sim.som));
    started(&mut sim);
    // first tick: distance 3, the rover moves (diagonal plan from (5,5))
    assert_eq!(sim.tick(), TickOutcome::Moved);
    let pos = sim.rover.current_position;
    let dx = (pos.0 as i64 - 8).abs();
    let dy = (pos.1 as i64 - 6).abs();
    assert!(dx.max(dy) <= 2, "one step toward (45,25) brings (8,6) in range");

    let traveled_before = sim.rover.traveled_path.clone();
    let outcome = sim.tick();
    assert_eq!(outcome, TickOutcome::Replanned, "detection preempts movement");
    assert_eq!(sim.rover.current_position, pos, "no movement in a detection tick");
    assert_eq!(sim.rover.traveled_path, traveled_before);
    assert!(sim.dob.get_amber_dobs_for_display().is_empty());
    assert_eq!(sim.dob.get_blue_dobs_for_display(), vec![(8, 6)]);
    assert!(sim.som.is_cell_occupied((8, 6)));
    // and the new plan avoids the converted obstacle
    assert!(!sim.rover.planned_path.contains(&(8, 6)));
}

#[test]
fn goal_reached_tick_completes() {
    let mut sim = Simulation::new();
    started(&mut sim);
    sim.rover.current_position = (45, 25);
    assert_eq!(sim.tick(), TickOutcome::Completed);
    assert_eq!(sim.status, Status::Complete);
}

#[test]
fn empty_plan_traps() {
    let mut sim = Simulation::new();
    started(&mut sim);
    sim.rover.planned_path.clear();
    assert_eq!(sim.tick(), TickOutcome::Trapped);
    assert_eq!(sim.status, Status::Trapped);
}

#[test]
fn surrounded_rover_traps_on_detection() {
    // undiscovered obstacles all around the rover: the detection tick
    // converts them, the replan cannot reach the goal, the rover traps
    let mut sim = Simulation::new();
    for c in [(4, 4), (5, 4), (6, 4), (4, 5), (6, 5), (4, 6), (5, 6), (6, 6)] {
        assert!(sim.dob.add_dob(c, &sim.som));
    }
    started(&mut sim);
    assert_eq!(sim.tick(), TickOutcome::Trapped);
    assert_eq!(sim.status, Status::Trapped);
}

#[test]
fn pause_preserves_everything() {
    let mut sim = Simulation::new();
    started(&mut sim);
    assert_eq!(sim.tick(), TickOutcome::Moved);
    let rover_snapshot = sim.rover.traveled_path.clone();
    sim.pause();
    assert_eq!(sim.status, Status::Idle);
    assert_eq!(sim.rover.traveled_path, rover_snapshot);
}

#[test]
fn restart_keeps_statics_clears_the_rest() {
    let mut sim = Simulation::new();
    sim.som.set_initial_obstacles(vec![(20, 20)]);
    assert!(sim.dob.add_dob((15, 15), &sim.som));
    started(&mut sim);
    assert_eq!(sim.tick(), TickOutcome::Moved);
    sim.restart();
    assert_eq!(sim.status, Status::Idle);
    assert!(sim.som.is_cell_occupied((20, 20)));
    assert!(sim.dob.get_amber_dobs_for_display().is_empty());
    assert_eq!(sim.rover.current_position, (5, 5));
    assert_eq!(sim.rover.traveled_path, vec![(5, 5)]);
}

#[test]
fn reset_clears_everything() {
    let mut sim = Simulation::new();
    sim.som.set_initial_obstacles(vec![(20, 20)]);
    started(&mut sim);
    sim.reset();
    assert_eq!(sim.status, Status::Idle);
    assert!(!sim.som.is_cell_occupied((20, 20)));
    assert_eq!(sim.rover.current_position, (5, 5));
}

#[test]
fn traveled_path_never_shrinks() {
    let mut sim = Simulation::new();
    assert!(sim.dob.add_dob((8, 6), &sim.som));
    started(&mut sim);
    let mut last_len = sim.rover.traveled_path.len();
    for _ in 0..50 {
        match sim.tick() {
            TickOutcome::Completed | TickOutcome::Trapped => break,
            _ => {}
        }
        assert!(sim.rover.traveled_path.len() >= last_len);
        last_len = sim.rover.traveled_path.len();
        if !sim.rover.planned_path.is_empty() {
            assert_eq!(sim.rover.planned_path[0], sim.rover.current_position);
        }
    }
}
