use nbody::bodies::solar_init;
use nbody::bodies::SolarSystem;
use nbody::bodies::Body;
use nbody::schedule::Task;
use nbody::simulation::Fault;
use nbody::simulation::Phase;
use nbody::simulation::Simulation;
use nbody::TIMESTEP;

fn store(bodies: Vec<Body<i64>>) -> SolarSystem<i64> {
    solar_init(bodies).expect("positive masses")
}

fn body(tag: i64) -> Body<i64> {
    Body {
        mass: tag,
        position: [tag + 1, tag + 2, tag + 3],
        last_position: [tag + 4, tag + 5, tag + 6],
        accel: [tag + 7, tag + 8, tag + 9],
    }
}

fn pull(target: usize, source: usize) -> Phase {
    Phase::Working(Task::Accumulate { target, source })
}

fn update(body: usize) -> Phase {
    Phase::Working(Task::Integrate { body })
}

fn record() -> Phase {
    Phase::Working(Task::Record)
}

#[test]
fn timestep_is_fifteen_minutes() {
    assert_eq!(TIMESTEP, 900);
}

#[test]
fn new_run_clears_accumulators_and_keeps_the_rest() {
    let sim = Simulation::new(store(vec![body(10), body(20)]), 3);
    assert_eq!(sim.steps(), 3);
    assert_eq!(sim.rest(), [0, 0, 0]);
    assert_eq!(sim.step(), 0);
    assert_eq!(sim.elapsed(), 0);
    assert_eq!(sim.phase(), pull(0, 1));
    assert_eq!(sim.system().len(), 2);
    assert_eq!(sim.system().body(0), Body { accel: [0, 0, 0], ..body(10) });
    assert_eq!(sim.system().body(1), Body { accel: [0, 0, 0], ..body(20) });
}

#[test]
fn run_of_no_steps_is_finished_at_once() {
    let mut sim = Simulation::new(store(vec![body(10), body(20)]), 0);
    assert_eq!(sim.phase(), Phase::Finished);
    assert_eq!(sim.elapsed(), 0);
    assert!(!sim.deposit([1, 1, 1]));
    assert!(!sim.integrate([1, 1, 1]));
    assert!(!sim.recorded());
    assert!(!sim.abort());
    assert_eq!(sim.phase(), Phase::Finished);
    assert_eq!(sim.system().body(1), Body { accel: [0, 0, 0], ..body(20) });
}

#[test]
fn two_bodies_two_steps_walkthrough() {
    let mut sim = Simulation::new(store(vec![body(10), body(20)]), 2);

    assert_eq!(sim.phase(), pull(0, 1));
    assert!(sim.deposit([1, 2, 3]));
    assert_eq!(sim.phase(), pull(1, 0));
    assert_eq!(sim.system().accel(0), [1, 2, 3]);
    assert_eq!(sim.system().position(0), [11, 12, 13]);
    assert!(sim.deposit([4, 5, 6]));
    assert_eq!(sim.phase(), update(0));
    assert_eq!(sim.system().accel(1), [4, 5, 6]);
    assert_eq!(sim.system().position(1), [21, 22, 23]);
    assert_eq!(sim.step(), 0);

    assert!(sim.integrate([100, 101, 102]));
    assert_eq!(sim.phase(), update(1));
    assert_eq!(
        sim.system().body(0),
        Body { mass: 10, position: [100, 101, 102], last_position: [11, 12, 13], accel: [0; 3] }
    );
    assert_eq!(sim.system().accel(1), [4, 5, 6]);
    assert_eq!(sim.step(), 0);
    assert_eq!(sim.elapsed(), 0);
    assert!(sim.integrate([200, 201, 202]));
    assert_eq!(sim.phase(), record());
    assert_eq!(sim.step(), 1);
    assert_eq!(sim.elapsed(), 900);
    assert_eq!(
        sim.system().body(1),
        Body { mass: 20, position: [200, 201, 202], last_position: [21, 22, 23], accel: [0; 3] }
    );

    assert!(sim.recorded());
    assert_eq!(sim.phase(), pull(0, 1));
    assert_eq!(sim.step(), 1);
    assert_eq!(sim.elapsed(), 900);
    assert!(sim.deposit([7, 7, 7]));
    assert!(sim.deposit([8, 8, 8]));
    assert!(sim.integrate([300, 301, 302]));
    assert!(sim.integrate([400, 401, 402]));
    assert_eq!(sim.phase(), record());
    assert_eq!(sim.step(), 2);
    assert_eq!(sim.elapsed(), 1800);
    assert_eq!(sim.system().last_position(0), [100, 101, 102]);
    assert_eq!(sim.system().last_position(1), [200, 201, 202]);
    assert!(sim.recorded());
    assert_eq!(sim.phase(), Phase::Finished);
    assert_eq!(sim.step(), 2);
    assert_eq!(sim.elapsed(), 1800);

    let solar = sim.into_system();
    assert_eq!(solar.position(0), [300, 301, 302]);
    assert_eq!(solar.position(1), [400, 401, 402]);
    assert_eq!(solar.accel(0), [0, 0, 0]);
}

#[test]
fn calls_out_of_turn_change_nothing() {
    let mut sim = Simulation::new(store(vec![body(10), body(20)]), 1);
    assert!(!sim.integrate([9, 9, 9]));
    assert!(!sim.recorded());
    assert_eq!(sim.phase(), pull(0, 1));
    assert_eq!(sim.system().body(0), Body { accel: [0; 3], ..body(10) });
    assert!(sim.deposit([1, 1, 1]));
    assert!(sim.deposit([2, 2, 2]));
    assert!(!sim.deposit([3, 3, 3]));
    assert!(!sim.recorded());
    assert!(!sim.abort());
    assert_eq!(sim.phase(), update(0));
    assert_eq!(sim.system().accel(0), [1, 1, 1]);
    assert_eq!(sim.system().accel(1), [2, 2, 2]);
    assert!(sim.integrate([5, 5, 5]));
    assert!(sim.integrate([6, 6, 6]));
    assert!(!sim.integrate([7, 7, 7]));
    assert!(!sim.deposit([7, 7, 7]));
    assert_eq!(sim.phase(), record());
    assert_eq!(sim.system().position(1), [6, 6, 6]);
    assert_eq!(sim.step(), 1);
}

#[test]
fn coincident_bodies_stop_the_run() {
    let mut sim = Simulation::new(store(vec![body(10), body(20), body(30)]), 5);
    assert!(sim.deposit([1, 1, 1]));
    assert_eq!(sim.phase(), pull(0, 2));
    assert!(sim.abort());
    let failed = Phase::Failed(Fault::Coincident { target: 0, source: 2 });
    assert_eq!(sim.phase(), failed);
    assert!(!sim.deposit([2, 2, 2]));
    assert!(!sim.integrate([2, 2, 2]));
    assert!(!sim.recorded());
    assert!(!sim.abort());
    assert_eq!(sim.phase(), failed);
    assert_eq!(sim.step(), 0);
    assert_eq!(sim.system().accel(0), [1, 1, 1]);
    assert_eq!(sim.system().position(0), [11, 12, 13]);
}

#[test]
fn recorder_failure_stops_the_run() {
    let mut sim = Simulation::new(store(vec![body(10)]), 5);
    assert_eq!(sim.phase(), update(0));
    assert!(sim.integrate([1, 2, 3]));
    assert_eq!(sim.phase(), record());
    assert!(sim.abort());
    assert_eq!(sim.phase(), Phase::Failed(Fault::Recorder));
    assert!(!sim.recorded());
    assert_eq!(sim.phase(), Phase::Failed(Fault::Recorder));
    assert_eq!(sim.step(), 1);
}

#[test]
fn a_position_update_cannot_be_aborted() {
    let mut sim = Simulation::new(store(vec![body(10)]), 1);
    assert_eq!(sim.phase(), update(0));
    assert!(!sim.abort());
    assert_eq!(sim.phase(), update(0));
}

#[test]
fn clock_is_step_count_times_timestep() {
    let mut sim = Simulation::new(solar_init(Vec::<Body<f64>>::new()).expect("no body"), 35064);
    let mut k: u64 = 0;
    while sim.phase() != Phase::Finished {
        k += 1;
        assert_eq!(sim.phase(), record());
        assert_eq!(sim.step(), k);
        assert_eq!(sim.elapsed(), (k as u128) * 900);
        assert_eq!(sim.elapsed() as f64, (k as f64) * 900.0);
        assert!(sim.recorded());
    }
    assert_eq!(k, 35064);
    assert_eq!(sim.elapsed(), 31_557_600);
}

#[test]
fn clock_does_not_wrap_on_the_longest_run() {
    let sim = Simulation::new(solar_init(Vec::<Body<f64>>::new()).expect("no body"), u64::MAX);
    assert_eq!(sim.phase(), record());
    assert_eq!(sim.step(), 1);
    assert_eq!(sim.steps(), u64::MAX);
    assert_eq!(sim.elapsed(), 900);
}

#[test]
fn tasks_done_fix_phase_and_clock() {
    let n = 4usize;
    let steps = 6u64;
    let len = (n * (n - 1) + n + 1) as u64;
    let mut sim = Simulation::new(store(vec![body(1), body(2), body(3), body(4)]), steps);
    let mut done: u64 = 0;
    loop {
        let phase = sim.phase();
        if phase == Phase::Finished {
            break;
        }
        assert_eq!(sim.step(), (done + 1) / len);
        assert_eq!(sim.elapsed(), ((done + 1) / len) as u128 * 900);
        let place = (done % len) as usize;
        let moved = match phase {
            Phase::Working(Task::Accumulate { target, source }) => {
                assert!(place < n * (n - 1));
                assert_eq!(target, place / (n - 1));
                let k = place % (n - 1);
                assert_eq!(source, if k < target { k } else { k + 1 });
                sim.deposit([done as i64; 3])
            }
            Phase::Working(Task::Integrate { body }) => {
                assert_eq!(body, place - n * (n - 1));
                sim.integrate([done as i64; 3])
            }
            Phase::Working(Task::Record) => {
                assert_eq!(place, n * (n - 1) + n);
                sim.recorded()
            }
            _ => false,
        };
        assert!(moved);
        done += 1;
    }
    assert_eq!(done, steps * len);
    assert_eq!(sim.step(), steps);
}

#[test]
fn empty_accumulator_of_floats_is_zero() {
    let solar = solar_init(vec![Body {
        mass: 1.0f64,
        position: [1.0, 2.0, 3.0],
        last_position: [1.0, 2.0, 3.0],
        accel: [4.0, 5.0, 6.0],
    }]);
    let sim = Simulation::new(solar.expect("positive mass"), 1);
    assert_eq!(sim.rest(), [0.0, 0.0, 0.0]);
    assert_eq!(sim.system().accel(0), [0.0, 0.0, 0.0]);
    assert_eq!(sim.system().position(0), [1.0, 2.0, 3.0]);
}

fn pull_on(sum: [i64; 3], here: [i64; 3], there: [i64; 3], mass: i64) -> Option<[i64; 3]> {
    if here == there {
        return None;
    }
    let mut out = sum;
    for axis in 0..3 {
        out[axis] += mass * (there[axis] - here[axis]);
    }
    Some(out)
}

fn move_on(position: [i64; 3], last_position: [i64; 3], accel: [i64; 3]) -> [i64; 3] {
    let mut out = [0; 3];
    for axis in 0..3 {
        out[axis] = 2 * position[axis] - last_position[axis] + 4 * accel[axis];
    }
    out
}

fn at(mass: i64, position: [i64; 3], last_position: [i64; 3]) -> Body<i64> {
    Body { mass, position, last_position, accel: [0; 3] }
}

#[test]
fn carry_out_computes_the_whole_step() {
    let a = at(2, [0, 0, 0], [0, 0, 0]);
    let b = at(3, [10, 0, 0], [9, 0, 0]);
    let c = at(5, [0, 20, 1], [0, 20, 0]);
    let mut sim = Simulation::new(store(vec![a, b, c]), 2);
    assert_eq!(sim.carry_out(pull_on, move_on), record());
    // pulls at the starting positions: on a from b and c, on b from a and c,
    // on c from a and b
    let on_a = [3 * 10, 5 * 20, 5 * 1];
    let on_b = [2 * -10 + 5 * -10, 5 * 20, 5 * 1];
    let on_c = [3 * 10, 2 * -20 + 3 * -20, 2 * -1 + 3 * -1];
    assert_eq!(
        sim.system().body(0),
        at(2, [4 * on_a[0], 4 * on_a[1], 4 * on_a[2]], [0, 0, 0])
    );
    assert_eq!(
        sim.system().body(1),
        at(3, [11 + 4 * on_b[0], 4 * on_b[1], 4 * on_b[2]], [10, 0, 0])
    );
    assert_eq!(
        sim.system().body(2),
        at(5, [4 * on_c[0], 20 + 4 * on_c[1], 2 + 4 * on_c[2]], [0, 20, 1])
    );
    assert_eq!(sim.step(), 1);
    assert_eq!(sim.elapsed(), 900);
}

#[test]
fn carry_out_waits_at_the_recording() {
    let mut sim = Simulation::new(store(vec![body(1), body(2)]), 2);
    assert_eq!(sim.carry_out(pull_on, move_on), record());
    let held = [sim.system().body(0), sim.system().body(1)];
    assert_eq!(sim.carry_out(pull_on, move_on), record());
    assert_eq!([sim.system().body(0), sim.system().body(1)], held);
    assert_eq!(sim.step(), 1);
    assert!(sim.recorded());
    assert_eq!(sim.carry_out(pull_on, move_on), record());
    assert_eq!(sim.step(), 2);
    assert!(sim.recorded());
    assert_eq!(sim.carry_out(pull_on, move_on), Phase::Finished);
    assert_eq!(sim.carry_out(pull_on, move_on), Phase::Finished);
    assert_eq!(sim.step(), 2);
}

#[test]
fn carry_out_fails_at_the_first_coincident_pair() {
    let a = at(1, [1, 1, 1], [1, 1, 1]);
    let b = at(1, [5, 5, 5], [5, 5, 5]);
    let c = at(1, [5, 5, 5], [5, 5, 5]);
    let d = at(1, [1, 1, 1], [1, 1, 1]);
    let mut sim = Simulation::new(store(vec![a, b, c, d]), 3);
    let failed = Phase::Failed(Fault::Coincident { target: 0, source: 3 });
    assert_eq!(sim.carry_out(pull_on, move_on), failed);
    // the pulls of b and c on a are in, nothing else has changed
    assert_eq!(sim.system().body(0), Body { accel: [8, 8, 8], ..a });
    assert_eq!(sim.system().body(1), b);
    assert_eq!(sim.system().body(2), c);
    assert_eq!(sim.system().body(3), d);
    assert_eq!(sim.step(), 0);
    assert_eq!(sim.carry_out(pull_on, move_on), failed);
    assert_eq!(sim.system().body(0), Body { accel: [8, 8, 8], ..a });
}

#[test]
fn carry_out_over_one_body_gathers_nothing() {
    let a = at(7, [3, 4, 5], [1, 1, 1]);
    let mut sim = Simulation::new(store(vec![a]), 1);
    assert_eq!(sim.carry_out(pull_on, move_on), record());
    assert_eq!(sim.system().body(0), at(7, [5, 7, 9], [3, 4, 5]));
}

#[test]
fn carry_out_over_no_body_only_waits() {
    let mut sim = Simulation::new(store(Vec::new()), 2);
    assert_eq!(sim.carry_out(pull_on, move_on), record());
    assert_eq!(sim.elapsed(), 900);
}

#[test]
fn busy_means_arithmetic_is_pending() {
    assert!(pull(0, 1).busy());
    assert!(update(3).busy());
    assert!(!record().busy());
    assert!(!Phase::Finished.busy());
    assert!(!Phase::Failed(Fault::Recorder).busy());
    assert!(!Phase::Failed(Fault::Coincident { target: 1, source: 0 }).busy());
}

#[test]
fn recording_means_the_recorder_is_awaited() {
    assert!(record().recording());
    assert!(!pull(0, 1).recording());
    assert!(!update(0).recording());
    assert!(!Phase::Finished.recording());
    assert!(!Phase::Failed(Fault::Recorder).recording());
}
