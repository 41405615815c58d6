use nbody::bodies::solar_init;
use nbody::bodies::Body;
use nbody::bodies::SolarSystem;
use nbody::physics::accel_factor;
use nbody::physics::advance;
use nbody::physics::body_init;
use nbody::physics::gather;
use nbody::physics::simulate;
use nbody::physics::update_planet_pos;
use nbody::physics::update_system;
use nbody::scalar::Scalar;
use nbody::schedule::Task;
use nbody::simulation::Fault;
use nbody::simulation::Phase;
use nbody::simulation::Simulation;
use nbody::vector::dist_sq;
use nbody::TIMESTEP;

const GRAV_CONST: f64 = 0.0000000000667430;

/// Double precision numbers in SI units.
#[derive(Clone, Copy, Debug, Default, PartialEq, PartialOrd)]
struct Real(f64);

impl Scalar for Real {
    fn plus(self, other: Self) -> Self {
        Real(self.0 + other.0)
    }

    fn minus(self, other: Self) -> Self {
        Real(self.0 - other.0)
    }

    fn times(self, other: Self) -> Self {
        Real(self.0 * other.0)
    }

    fn over(self, other: Self) -> Self {
        Real(self.0 / other.0)
    }

    fn root(self) -> Self {
        Real(self.0.sqrt())
    }

    fn from_count(n: u64) -> Self {
        Real(n as f64)
    }

    fn gravity() -> Self {
        Real(GRAV_CONST)
    }
}

fn v(components: [f64; 3]) -> [Real; 3] {
    [Real(components[0]), Real(components[1]), Real(components[2])]
}

fn raw(vector: [Real; 3]) -> [f64; 3] {
    [vector[0].0, vector[1].0, vector[2].0]
}

fn store(bodies: Vec<Body<Real>>) -> SolarSystem<Real> {
    solar_init(bodies).expect("positive masses")
}

fn body(mass: f64, pos: [f64; 3], vel: [f64; 3]) -> Body<Real> {
    body_init(Real(mass), v(pos), v(vel))
}

fn dt() -> f64 {
    TIMESTEP as f64
}

// The formulas once more, on bare doubles and with the library's powers
// written as calls of `powi` and `powf`.

fn plain_add(a: &[f64; 3], b: &[f64; 3], subtract: bool) -> [f64; 3] {
    let mut out = [0.0; 3];
    for i in 0..3 {
        out[i] = if subtract { a[i] - b[i] } else { a[i] + b[i] };
    }
    out
}

fn plain_scale(vector: &[f64; 3], s: f64) -> [f64; 3] {
    [s * vector[0], s * vector[1], s * vector[2]]
}

fn plain_dist_sq(a: &[f64; 3], b: &[f64; 3]) -> f64 {
    let mut sum = 0.0;
    for i in 0..3 {
        sum += f64::powi(a[i] - b[i], 2);
    }
    sum
}

fn plain_pull(here: &[f64; 3], there: &[f64; 3], mass: f64) -> [f64; 3] {
    let d2 = plain_dist_sq(here, there);
    let unit = plain_scale(&plain_add(there, here, true), 1.0 / f64::sqrt(d2));
    plain_scale(&unit, GRAV_CONST * mass / d2)
}

fn plain_step(mass: &[f64], pos: &mut Vec<[f64; 3]>, last: &mut Vec<[f64; 3]>) {
    let n = mass.len();
    let mut accel = vec![[0.0f64; 3]; n];
    for i in 0..n {
        for j in 0..n {
            if i == j {
                continue;
            }
            accel[i] = plain_add(&accel[i], &plain_pull(&pos[i], &pos[j], mass[j]), false);
        }
    }
    for i in 0..n {
        let hold = pos[i];
        pos[i] = plain_add(
            &plain_add(&plain_scale(&pos[i], 2.0), &last[i], true),
            &plain_scale(&accel[i], f64::powf(dt(), 2.0)),
            false,
        );
        last[i] = hold;
    }
}

/// Carries out one pending task by hand.
fn carry_out(sim: &mut Simulation<Real>) {
    match sim.phase() {
        Phase::Working(Task::Accumulate { target, source }) => {
            let s = sim.system();
            let sum = gather(s.accel(target), s.position(target), s.position(source), s.mass(source));
            match sum {
                Some(sum) => assert!(sim.deposit(sum)),
                None => assert!(sim.abort()),
            }
        }
        Phase::Working(Task::Integrate { body }) => {
            let s = sim.system();
            let next = advance(s.position(body), s.last_position(body), s.accel(body));
            assert!(sim.integrate(next));
        }
        Phase::Working(Task::Record) => assert!(sim.recorded()),
        Phase::Finished | Phase::Failed(_) => {}
    }
}

fn record() -> Phase {
    Phase::Working(Task::Record)
}

fn energy(sim: &Simulation<Real>) -> f64 {
    let s = sim.system();
    let mut e = 0.0;
    for i in 0..s.len() {
        let vel = plain_scale(
            &plain_add(&raw(s.position(i)), &raw(s.last_position(i)), true),
            1.0 / dt(),
        );
        e += 0.5 * s.mass(i).0 * (vel[0] * vel[0] + vel[1] * vel[1] + vel[2] * vel[2]);
    }
    for i in 0..s.len() {
        for j in (i + 1)..s.len() {
            let apart = plain_dist_sq(&raw(s.position(i)), &raw(s.position(j))).sqrt();
            e -= GRAV_CONST * s.mass(i).0 * s.mass(j).0 / apart;
        }
    }
    e
}

fn sun_earth_moon() -> Vec<Body<Real>> {
    vec![
        body(4.385e30, [0.0; 3], [0.0; 3]),
        body(5.972e24, [1.49e11, 0.0, 0.0], [0.0, 45000.0, 0.0]),
        body(7.38e22, [1.49e11 + 3.843999e8, 0.0, 0.0], [0.0, 46022.0, 0.0]),
    ]
}

fn circular_pair() -> (Vec<Body<Real>>, f64, f64) {
    let m = 1e30;
    let d = 2e11;
    let speed = (GRAV_CONST * m / (2.0 * d)).sqrt();
    let bodies = vec![
        body(m, [-d / 2.0, 0.0, 0.0], [0.0, -speed, 0.0]),
        body(m, [d / 2.0, 0.0, 0.0], [0.0, speed, 0.0]),
    ];
    (bodies, d, speed)
}

#[test]
fn body_init_steps_back_along_the_velocity() {
    let b = body(5.0, [100.0, 200.0, -300.0], [1.0, -2.0, 0.5]);
    assert_eq!(b.mass, Real(5.0));
    assert_eq!(raw(b.position), [100.0, 200.0, -300.0]);
    assert_eq!(raw(b.last_position), [100.0 - 900.0, 200.0 + 1800.0, -300.0 - 450.0]);
    assert_eq!(raw(b.accel), [0.0; 3]);
}

#[test]
fn pull_on_a_three_four_five_triangle() {
    let a = accel_factor(&v([0.0, 0.0, 0.0]), &v([3.0, 4.0, 0.0]), Real(1e12));
    assert_eq!(a.map(raw), Some([1.6018320000000001, 2.135776, 0.0]));
}

#[test]
fn pull_equals_the_plain_formula() {
    let here = [1.49e11, -2.0e7, 3.0e3];
    let there = [1.49e11 + 3.843999e8, 4.0e6, -1.0e5];
    let a = accel_factor(&v(here), &v(there), Real(7.38e22));
    assert_eq!(a.map(raw), Some(plain_pull(&here, &there, 7.38e22)));
    assert_eq!(dist_sq(&v(here), &v(there)).0, plain_dist_sq(&here, &there));
}

#[test]
fn no_pull_between_bodies_in_one_place() {
    let p = v([1.0, -2.0, 3.5]);
    assert_eq!(accel_factor(&p, &p, Real(1e20)), None);
    assert_eq!(gather(v([1.0; 3]), p, p, Real(1e20)), None);
}

#[test]
fn force_pair_is_equal_and_opposite() {
    let (mi, mj) = (5.972e24, 7.38e22);
    let pi = v([1.49e11, -2.0e7, 3.0e3]);
    let pj = v([1.49e11 + 3.843999e8, 4.0e6, -1.0e5]);
    let on_i = raw(accel_factor(&pi, &pj, Real(mj)).expect("apart"));
    let on_j = raw(accel_factor(&pj, &pi, Real(mi)).expect("apart"));
    for k in 0..3 {
        let force_i = mi * on_i[k];
        let force_j = mj * on_j[k];
        let scale = force_i.abs().max(force_j.abs());
        assert!((force_i + force_j).abs() <= 1e-12 * scale);
    }
    assert!(on_i[0] > 0.0 && on_j[0] < 0.0);
}

#[test]
fn advance_is_the_two_step_formula() {
    let next = advance(v([10.0, 20.0, 30.0]), v([9.0, 22.0, 30.0]), v([0.001, 0.0, -0.002]));
    assert_eq!(raw(next), [11.0 + 810.0, 18.0, 30.0 - 1620.0]);
}

#[test]
fn update_planet_pos_moves_one_body() {
    let mut solar = store(vec![
        Body { accel: v([0.001, 0.0, -0.002]), ..body(1.0, [10.0, 20.0, 30.0], [0.0; 3]) },
        body(2.0, [1.0, 1.0, 1.0], [0.0; 3]),
    ]);
    solar.set_accel(1, v([5.0, 5.0, 5.0]));
    update_planet_pos(&mut solar, 0);
    assert_eq!(raw(solar.position(0)), [10.0 + 810.0, 20.0, 30.0 - 1620.0]);
    assert_eq!(raw(solar.last_position(0)), [10.0, 20.0, 30.0]);
    assert_eq!(raw(solar.accel(0)), [0.0; 3]);
    assert_eq!(solar.mass(0), Real(1.0));
    assert_eq!(solar.body(1), Body { accel: v([5.0; 3]), ..body(2.0, [1.0, 1.0, 1.0], [0.0; 3]) });
}

#[test]
fn body_update_accel_and_update_pos() {
    let mut a = body(2.0, [0.0, 0.0, 0.0], [0.0; 3]);
    let b = body(1e12, [3.0, 4.0, 0.0], [0.0; 3]);
    assert!(a.update_accel(&b));
    assert_eq!(raw(a.accel), [1.6018320000000001, 2.135776, 0.0]);
    assert!(a.update_accel(&b));
    assert_eq!(raw(a.accel), [1.6018320000000001 * 2.0, 2.135776 * 2.0, 0.0]);
    let before = a;
    assert!(!a.update_accel(&before));
    assert_eq!(a, before);
    a.update_pos();
    assert_eq!(raw(a.last_position), [0.0; 3]);
    assert_eq!(raw(a.accel), [0.0; 3]);
    assert_eq!(raw(a.position), raw(advance(before.position, before.last_position, before.accel)));
    assert_eq!(a.mass, Real(2.0));
}

#[test]
fn first_step_of_sun_earth_moon() {
    let mut sim = Simulation::new(store(sun_earth_moon()), 1);
    assert_eq!(update_system(&mut sim), record());
    assert_eq!(sim.elapsed(), 900);
    assert_eq!(raw(sim.system().position(1)), [148999989349.053, 40500000.0, 0.0]);
    assert_eq!(raw(sim.system().last_position(1)), [1.49e11, 0.0, 0.0]);
    assert_eq!(raw(sim.system().position(0)), [0.01472125152488492, 0.0, 0.0]);
    assert_eq!(raw(sim.system().accel(2)), [0.0; 3]);
    assert!(sim.recorded());
    assert_eq!(sim.phase(), Phase::Finished);
}

#[test]
fn run_equals_plain_loops() {
    let bodies = sun_earth_moon();
    let mass: Vec<f64> = bodies.iter().map(|b| b.mass.0).collect();
    let mut pos: Vec<[f64; 3]> = bodies.iter().map(|b| raw(b.position)).collect();
    let mut last: Vec<[f64; 3]> = bodies.iter().map(|b| raw(b.last_position)).collect();
    let mut sim = Simulation::new(store(bodies), 2000);
    let mut k = 0u64;
    while update_system(&mut sim) == record() {
        plain_step(&mass, &mut pos, &mut last);
        k += 1;
        for i in 0..3 {
            assert_eq!(raw(sim.system().position(i)), pos[i]);
            assert_eq!(raw(sim.system().last_position(i)), last[i]);
            assert_eq!(sim.system().mass(i).0, mass[i]);
            assert_eq!(sim.system().accel(i), sim.rest());
        }
        assert_eq!(sim.elapsed() as f64, k as f64 * 900.0);
        assert!(sim.recorded());
    }
    assert_eq!(k, 2000);
    assert_eq!(sim.phase(), Phase::Finished);
}

#[test]
fn task_by_task_and_step_by_step_agree() {
    let mut by_task = Simulation::new(store(sun_earth_moon()), 300);
    let mut by_step = Simulation::new(store(sun_earth_moon()), 300);
    while update_system(&mut by_step) == record() {
        while by_task.phase() != record() {
            carry_out(&mut by_task);
        }
        for i in 0..3 {
            assert_eq!(by_task.system().body(i), by_step.system().body(i));
        }
        assert_eq!(by_task.elapsed(), by_step.elapsed());
        assert!(by_task.recorded());
        assert!(by_step.recorded());
    }
    assert_eq!(by_step.phase(), Phase::Finished);
    assert_eq!(by_task.phase(), Phase::Finished);
}

#[test]
fn update_system_picks_up_a_step_half_done() {
    let mut by_hand = Simulation::new(store(sun_earth_moon()), 1);
    let mut whole = Simulation::new(store(sun_earth_moon()), 1);
    for _ in 0..4 {
        carry_out(&mut by_hand);
    }
    assert_eq!(by_hand.phase(), Phase::Working(Task::Accumulate { target: 2, source: 0 }));
    assert_eq!(update_system(&mut by_hand), record());
    assert_eq!(update_system(&mut whole), record());
    for i in 0..3 {
        assert_eq!(by_hand.system().body(i), whole.system().body(i));
    }
}

#[test]
fn circular_orbit_keeps_its_separation() {
    let (bodies, d, speed) = circular_pair();
    let period_steps = 2.0 * std::f64::consts::PI * (d / 2.0) / speed / dt();
    let steps = (5.0 * period_steps) as u64;
    assert!(steps > 270_000);
    let mut sim = Simulation::new(store(bodies), steps);
    let mut worst: f64 = 0.0;
    while update_system(&mut sim) == record() {
        let sep = dist_sq(&sim.system().position(0), &sim.system().position(1)).0.sqrt();
        worst = worst.max((sep - d).abs() / d);
        assert!(sim.recorded());
    }
    assert_eq!(sim.phase(), Phase::Finished);
    assert_eq!(sim.step(), steps);
    assert!(worst < 1e-3, "separation drifted by {}", worst);
}

#[test]
fn energy_of_sun_earth_moon_stays_put() {
    let mut sim = Simulation::new(store(sun_earth_moon()), 35064);
    assert_eq!(update_system(&mut sim), record());
    let e0 = energy(&sim);
    let mut worst: f64 = 0.0;
    while update_system(&mut sim) == record() {
        worst = worst.max((energy(&sim) - e0).abs() / e0.abs());
        assert!(sim.recorded());
    }
    assert_eq!(sim.phase(), Phase::Finished);
    assert_eq!(sim.elapsed(), 31_557_600);
    assert!(worst < 1e-4, "energy drifted by {}", worst);
}

#[test]
fn energy_of_a_circular_pair_stays_put() {
    let (bodies, _, _) = circular_pair();
    let mut sim = Simulation::new(store(bodies), 100_000);
    assert_eq!(update_system(&mut sim), record());
    let e0 = energy(&sim);
    let mut worst: f64 = 0.0;
    while update_system(&mut sim) == record() {
        worst = worst.max((energy(&sim) - e0).abs() / e0.abs());
        assert!(sim.recorded());
    }
    assert!(worst < 1e-6, "energy drifted by {}", worst);
}

#[test]
fn equal_pair_at_rest_stays_mirrored() {
    let bodies = vec![
        body(1e24, [-1e9, 2e8, -3e7], [0.0; 3]),
        body(1e24, [1e9, -2e8, 3e7], [0.0; 3]),
    ];
    let mut sim = Simulation::new(store(bodies), 5000);
    let mut k = 0;
    while update_system(&mut sim) == record() {
        let a = raw(sim.system().position(0));
        let b = raw(sim.system().position(1));
        for axis in 0..3 {
            assert_eq!(a[axis], -b[axis]);
        }
        k += 1;
        assert!(sim.recorded());
    }
    assert_eq!(k, 5000);
    let a = raw(sim.system().position(0));
    assert!(a[0] > -1e9 && a[0] < 0.0);
}

#[test]
fn lone_body_at_rest_never_moves() {
    let start = [1.5e11, -3.0, 7.25];
    let mut sim = Simulation::new(store(vec![body(5e24, start, [0.0; 3])]), 1000);
    let mut k = 0;
    loop {
        match sim.phase() {
            Phase::Finished => break,
            Phase::Working(Task::Accumulate { .. }) | Phase::Failed(_) => {
                panic!("a lone body has no pull to gather")
            }
            Phase::Working(Task::Integrate { body }) => {
                assert_eq!(body, 0);
                assert_eq!(raw(sim.system().accel(0)), [0.0; 3]);
            }
            Phase::Working(Task::Record) => k += 1,
        }
        carry_out(&mut sim);
        assert_eq!(raw(sim.system().position(0)), start);
        assert_eq!(raw(sim.system().last_position(0)), start);
    }
    assert_eq!(k, 1000);
}

#[test]
fn coincident_bodies_fail_the_step() {
    let bodies = vec![
        body(1e24, [1.0, 2.0, 3.0], [0.0; 3]),
        body(2e24, [5.0, 5.0, 5.0], [0.0; 3]),
        body(3e24, [1.0, 2.0, 3.0], [0.0; 3]),
    ];
    let mut sim = Simulation::new(store(bodies), 10);
    assert_eq!(
        update_system(&mut sim),
        Phase::Failed(Fault::Coincident { target: 0, source: 2 })
    );
    assert_eq!(sim.step(), 0);
    for i in 0..3 {
        assert!(raw(sim.system().position(i)).iter().all(|x| x.is_finite()));
    }
    assert_eq!(raw(sim.system().position(0)), [1.0, 2.0, 3.0]);
    assert_ne!(raw(sim.system().accel(0)), [0.0; 3]);
    assert_eq!(raw(sim.system().accel(1)), [0.0; 3]);
    assert_eq!(
        update_system(&mut sim),
        Phase::Failed(Fault::Coincident { target: 0, source: 2 })
    );
}

#[test]
fn simulate_records_every_step_with_its_time() {
    let mut sim = Simulation::new(store(sun_earth_moon()), 50);
    let mut rows: Vec<(u128, [f64; 3])> = Vec::new();
    let outcome = simulate(&mut sim, |solar: &SolarSystem<Real>, time: u128| {
        assert_eq!(solar.len(), 3);
        rows.push((time, raw(solar.position(1))));
        true
    });
    assert_eq!(outcome, Phase::Finished);
    assert_eq!(sim.phase(), Phase::Finished);
    assert_eq!(rows.len(), 50);
    for (k, row) in rows.iter().enumerate() {
        assert_eq!(row.0, (k as u128 + 1) * 900);
    }
    assert_eq!(rows[0].1, [148999989349.053, 40500000.0, 0.0]);

    let mut by_step = Simulation::new(store(sun_earth_moon()), 50);
    for row in rows.iter() {
        assert_eq!(update_system(&mut by_step), record());
        assert_eq!(raw(by_step.system().position(1)), row.1);
        assert!(by_step.recorded());
    }
    for i in 0..3 {
        assert_eq!(by_step.system().body(i), sim.system().body(i));
    }
    assert_eq!(sim.elapsed(), 45_000);
}

#[test]
fn simulate_stops_when_a_recording_is_not_taken() {
    let mut sim = Simulation::new(store(sun_earth_moon()), 50);
    let mut calls = 0;
    let outcome = simulate(&mut sim, |_: &SolarSystem<Real>, _: u128| {
        calls += 1;
        calls < 7
    });
    assert_eq!(outcome, Phase::Failed(Fault::Recorder));
    assert_eq!(calls, 7);
    assert_eq!(sim.step(), 7);
    assert_eq!(sim.elapsed(), 6300);
    let outcome = simulate(&mut sim, |_: &SolarSystem<Real>, _: u128| panic!("the run is over"));
    assert_eq!(outcome, Phase::Failed(Fault::Recorder));
}

#[test]
fn simulate_stops_on_bodies_in_one_place() {
    let bodies = vec![
        body(1e24, [1.0, 2.0, 3.0], [0.0; 3]),
        body(2e24, [1.0, 2.0, 3.0], [0.0; 3]),
    ];
    let mut sim = Simulation::new(store(bodies), 10);
    let outcome = simulate(&mut sim, |_: &SolarSystem<Real>, _: u128| panic!("nothing to record"));
    assert_eq!(outcome, Phase::Failed(Fault::Coincident { target: 0, source: 1 }));
    assert_eq!(sim.step(), 0);
}

#[test]
fn simulate_of_no_steps_records_nothing() {
    let mut sim = Simulation::new(store(sun_earth_moon()), 0);
    let outcome = simulate(&mut sim, |_: &SolarSystem<Real>, _: u128| panic!("nothing to record"));
    assert_eq!(outcome, Phase::Finished);
    assert_eq!(sim.elapsed(), 0);
    assert_eq!(sim.system().body(1), sun_earth_moon()[1]);
}

#[test]
fn simulate_picks_up_a_run_under_way() {
    let mut sim = Simulation::new(store(sun_earth_moon()), 3);
    for _ in 0..5 {
        carry_out(&mut sim);
    }
    let mut times = Vec::new();
    let outcome = simulate(&mut sim, |_: &SolarSystem<Real>, time: u128| {
        times.push(time);
        true
    });
    assert_eq!(outcome, Phase::Finished);
    assert_eq!(times, vec![900, 1800, 2700]);
}

#[test]
fn clock_of_a_year_is_exact() {
    let mut sim = Simulation::new(store(vec![body(1.0, [0.0; 3], [0.0; 3])]), 35064);
    let mut last = 0u128;
    let mut calls = 0u128;
    let outcome = simulate(&mut sim, |_: &SolarSystem<Real>, time: u128| {
        calls += 1;
        assert_eq!(time, calls * 900);
        assert_eq!(time as f64, calls as f64 * 900.0);
        last = time;
        true
    });
    assert_eq!(outcome, Phase::Finished);
    assert_eq!(last, 31_557_600);
}
