//! The formulas of the simulation: the pull between two bodies and the
//! position update, and the step that is made of them.
use vstd::prelude::*;
use crate::bodies::Body;
use crate::bodies::SolarSystem;
use crate::run::computes;
use crate::run::Rule;
use crate::scalar::obeys;
use crate::scalar::Arithmetic;
use crate::scalar::Scalar;
use crate::schedule::Task;
use crate::simulation::cleared;
use crate::simulation::Fault;
use crate::simulation::Phase;
use crate::simulation::Simulation;
use crate::vector::dist_sq;
use crate::vector::norm_dist;
use crate::vector::scalar_mult;
use crate::vector::vec_add;
use crate::TIMESTEP;

verus! {

impl<T> Arithmetic<T> {
    /// The two positions are one: the square of their distance equals zero.
    pub open spec fn coincident(self, here: [T; 3], there: [T; 3]) -> bool {
        (self.equal)(self.squared_distance(here, there), self.zero)
    }

    /// The acceleration that a body at `here` receives from a body of mass
    /// `mass` at `there`: the gravitational constant times the mass, divided
    /// by the square of the distance, along the unit vector from `here` to
    /// `there`.
    pub open spec fn pull(self, here: [T; 3], there: [T; 3], mass: T) -> [T; 3] {
        let d2 = self.squared_distance(here, there);
        self.v_scaled(
            self.unit_direction(here, there, d2),
            (self.quotient)((self.product)(self.gravity, mass), d2),
        )
    }

    /// The position one step after `position`: twice the position, minus
    /// the previous one, plus the acceleration times the square of the time
    /// step.
    pub open spec fn next_position(
        self,
        position: [T; 3],
        last_position: [T; 3],
        accel: [T; 3],
    ) -> [T; 3] {
        self.v_sum(
            self.v_difference(self.v_scaled(position, (self.count)(2)), last_position),
            self.v_scaled(accel, (self.product)((self.count)(TIMESTEP), (self.count)(TIMESTEP))),
        )
    }

    /// The position one step before `position` for a body that moves with
    /// `velocity`: one time step back along the velocity.
    pub open spec fn position_before(self, position: [T; 3], velocity: [T; 3]) -> [T; 3] {
        self.v_difference(position, self.v_scaled(velocity, (self.count)(TIMESTEP)))
    }

    /// The rule that these formulas make.
    pub open spec fn physics(self) -> Rule<T> {
        Rule {
            coincide: |here: [T; 3], there: [T; 3]| self.coincident(here, there),
            gather: |sum: [T; 3], here: [T; 3], there: [T; 3], mass: T|
                self.v_sum(sum, self.pull(here, there, mass)),
            advance: |position: [T; 3], last_position: [T; 3], accel: [T; 3]|
                self.next_position(position, last_position, accel),
        }
    }
}

/// An empty accumulator is the vector of three zeros, in every arithmetic
/// that the type obeys.
pub proof fn lemma_cleared_is_zero<T: Scalar>(arith: Arithmetic<T>, v: [T; 3])
    requires
        obeys(arith),
        cleared(v),
    ensures
        v == arith.v_zero(),
{
    assert(v =~= arith.v_zero());
}

/// Makes a body from its mass, its position and its velocity. The position
/// one step ago is the one a time step back along the velocity, and nothing
/// has been gathered.
pub fn body_init<T: Scalar>(mass: T, pos: [T; 3], vel: [T; 3]) -> (body: Body<T>)
    ensures
        body.mass == mass,
        body.position == pos,
        cleared(body.accel),
        forall|arith: Arithmetic<T>| #[trigger]
            obeys(arith) ==> body.last_position == arith.position_before(pos, vel),
{
    let step = scalar_mult(&vel, T::from_count(TIMESTEP));
    let origin = T::default();
    Body {
        mass,
        position: pos,
        last_position: vec_add(&pos, &step, true),
        accel: [origin, origin, origin],
    }
}

/// The acceleration that a body at `pos1` receives from a body of mass
/// `mass2` at `pos2`; `None` when the two positions coincide, where no
/// direction and no finite pull exist.
pub fn accel_factor<T: Scalar>(pos1: &[T; 3], pos2: &[T; 3], mass2: T) -> (accel: Option<[T; 3]>)
    ensures
        forall|arith: Arithmetic<T>| #[trigger]
            obeys(arith) ==> accel == if arith.coincident(*pos1, *pos2) {
                None
            } else {
                Some(arith.pull(*pos1, *pos2, mass2))
            },
{
    let dist_sq = dist_sq(pos1, pos2);
    if dist_sq == T::default() {
        return None;
    }
    let accel_total = T::gravity().times(mass2).over(dist_sq);
    let norm_dist = norm_dist(pos1, pos2, dist_sq);
    Some(scalar_mult(&norm_dist, accel_total))
}

/// The accumulator `sum` of a body at `here` once the pull of a body of mass
/// `mass` at `there` has been added; `None` when the two positions coincide.
pub fn gather<T: Scalar>(sum: [T; 3], here: [T; 3], there: [T; 3], mass: T) -> (out: Option<
    [T; 3],
>)
    ensures
        forall|arith: Arithmetic<T>| #[trigger]
            obeys(arith) ==> out == if arith.coincident(here, there) {
                None
            } else {
                Some(arith.v_sum(sum, arith.pull(here, there, mass)))
            },
{
    match accel_factor(&here, &there, mass) {
        Some(accel) => Some(vec_add(&sum, &accel, false)),
        None => None,
    }
}

/// The position one step after `position`.
pub fn advance<T: Scalar>(position: [T; 3], last_position: [T; 3], accel: [T; 3]) -> (out: [T; 3])
    ensures
        forall|arith: Arithmetic<T>| #[trigger]
            obeys(arith) ==> out == arith.next_position(position, last_position, accel),
{
    let step = T::from_count(TIMESTEP);
    vec_add(
        &vec_add(&scalar_mult(&position, T::from_count(2)), &last_position, true),
        &scalar_mult(&accel, step.times(step)),
        false,
    )
}

impl<T: Scalar> Body<T> {
    /// Adds to the accumulator of this body the pull of `other`. Returns
    /// `false`, and changes nothing, when the two share a position.
    pub fn update_accel(&mut self, other: &Body<T>) -> (done: bool)
        ensures
            final(self).mass == old(self).mass,
            final(self).position == old(self).position,
            final(self).last_position == old(self).last_position,
            !done ==> final(self).accel == old(self).accel,
            forall|arith: Arithmetic<T>| #[trigger]
                obeys(arith) ==> done == !arith.coincident(old(self).position, other.position),
            forall|arith: Arithmetic<T>| #[trigger]
                obeys(arith) && done ==> final(self).accel == arith.v_sum(
                    old(self).accel,
                    arith.pull(old(self).position, other.position, other.mass),
                ),
    {
        match gather(self.accel, self.position, other.position, other.mass) {
            Some(sum) => {
                self.accel = sum;
                true
            },
            None => false,
        }
    }

    /// Advances this body by one step: it moves by the formula, remembers
    /// where it was, and its accumulator is emptied.
    pub fn update_pos(&mut self)
        ensures
            final(self).mass == old(self).mass,
            final(self).last_position == old(self).position,
            cleared(final(self).accel),
            forall|arith: Arithmetic<T>| #[trigger]
                obeys(arith) ==> final(self).position == arith.next_position(
                    old(self).position,
                    old(self).last_position,
                    old(self).accel,
                ),
    {
        let hold = self.position;
        let origin = T::default();
        self.position = advance(self.position, self.last_position, self.accel);
        self.last_position = hold;
        self.accel = [origin, origin, origin];
    }
}

/// Advances body `index` of a store by one step: it moves by the formula,
/// remembers where it was, and its accumulator is emptied. All other bodies
/// stay as they are.
pub fn update_planet_pos<T: Scalar>(solar: &mut SolarSystem<T>, index: usize)
    requires
        old(solar).wf(),
        index < old(solar)@.len(),
    ensures
        final(solar).wf(),
        cleared(final(solar)@[index as int].accel),
        final(solar)@ == old(solar)@.update(
            index as int,
            (Body {
                mass: old(solar)@[index as int].mass,
                position: final(solar)@[index as int].position,
                last_position: old(solar)@[index as int].position,
                accel: final(solar)@[index as int].accel,
            }),
        ),
        forall|arith: Arithmetic<T>| #[trigger]
            obeys(arith) ==> final(solar)@[index as int].position == arith.next_position(
                old(solar)@[index as int].position,
                old(solar)@[index as int].last_position,
                old(solar)@[index as int].accel,
            ),
{
    let origin = T::default();
    let moved = advance(solar.position(index), solar.last_position(index), solar.accel(index));
    solar.shift(index, moved, [origin, origin, origin]);
}

/// Carries out what is left of the pending step: gathers for every body the
/// pull of every other body, all at the positions the step began with, then
/// moves every body. Returns where the run stands after that: at the
/// recording of the step, or at a failure if two bodies share a position.
/// When no pull or position update is pending, nothing happens.
pub fn update_system<T: Scalar>(sim: &mut Simulation<T>) -> (phase: Phase)
    requires
        old(sim).wf(),
    ensures
        final(sim).wf(),
        phase == final(sim)@.phase,
        !(phase matches Phase::Working(Task::Accumulate { .. })),
        !(phase matches Phase::Working(Task::Integrate { .. })),
        phase matches Phase::Failed(fault) ==> old(sim)@.phase == phase || fault is Coincident,
        !old(sim)@.phase.spec_busy() ==> final(sim)@ == old(sim)@,
        old(sim)@.phase.spec_busy() ==> final(sim)@.step == if phase is Working {
            old(sim)@.step + 1
        } else {
            old(sim)@.step
        },
        final(sim)@.steps == old(sim)@.steps,
        final(sim)@.rest == old(sim)@.rest,
        final(sim)@.bodies.len() == old(sim)@.bodies.len(),
        forall|i: int|
            0 <= i < old(sim)@.bodies.len() ==> (#[trigger] final(sim)@.bodies[i]).mass == old(
                sim,
            )@.bodies[i].mass,
        forall|arith: Arithmetic<T>| #[trigger]
            obeys(arith) ==> final(sim)@ == old(sim)@.obey_many(
                arith.physics(),
                old(sim)@.left(),
            ),
{
    proof {
        assert forall|arith: Arithmetic<T>| #[trigger] obeys(arith) implies computes(
            gather::<T>,
            advance::<T>,
            arith.physics(),
        ) by {}
    }
    sim.carry_out(gather::<T>, advance::<T>)
}

/// The simulated time in seconds when `k` steps are complete.
pub open spec fn time_after(k: nat) -> nat {
    k * (TIMESTEP as nat)
}

/// What a recorder is handed by a run of `steps` steps over `n` bodies: a
/// well-formed store of that many bodies and the time of a completed step,
/// a whole number of time steps between one and `steps`.
pub open spec fn recordable<T: Scalar>(
    n: nat,
    steps: nat,
    solar: &SolarSystem<T>,
    time: u128,
) -> bool {
    &&& solar.wf()
    &&& solar@.len() == n
    &&& exists|k: nat| 1 <= k <= steps && time == #[trigger] time_after(k)
}

/// `record` takes whatever it is handed: no call of it returns `false`.
pub open spec fn always_takes<T: Scalar, R: FnMut(&SolarSystem<T>, u128) -> bool>(record: R) -> bool {
    forall|solar: &SolarSystem<T>, time: u128, taken: bool| #[trigger]
        call_ensures(record, (solar, time), taken) ==> taken
}

/// Runs the simulation to its end. Each step is carried out in full; then
/// the bodies and the simulated time in seconds are handed to `record`,
/// which says whether it could take them. The run stops at the first step
/// that fails: on two bodies in one place, or on a recording that was not
/// taken. Returns where the run stands then: finished, or failed.
pub fn simulate<T: Scalar, R>(sim: &mut Simulation<T>, mut record: R) -> (phase: Phase) where
    R: FnMut(&SolarSystem<T>, u128) -> bool,

    requires
        old(sim).wf(),
        forall|solar: &SolarSystem<T>, time: u128|
            recordable(old(sim)@.bodies.len(), old(sim)@.steps, solar, time) ==> call_requires(
                record,
                (solar, time),
            ),
    ensures
        final(sim).wf(),
        phase == final(sim)@.phase,
        phase is Finished || phase is Failed,
        old(sim)@.phase is Finished || old(sim)@.phase is Failed ==> final(sim)@ == old(sim)@,
        final(sim)@.steps == old(sim)@.steps,
        final(sim)@.rest == old(sim)@.rest,
        final(sim)@.bodies.len() == old(sim)@.bodies.len(),
        forall|i: int|
            0 <= i < old(sim)@.bodies.len() ==> (#[trigger] final(sim)@.bodies[i]).mass == old(
                sim,
            )@.bodies[i].mass,
        forall|arith: Arithmetic<T>| #[trigger]
            obeys(arith) && phase is Finished ==> final(sim)@ == old(sim)@.obey_many(
                arith.physics(),
                old(sim)@.ahead(),
            ),
        forall|arith: Arithmetic<T>| #[trigger]
            obeys(arith) && always_takes(record) && !(old(sim)@.phase is Failed) ==> final(sim)@
                == old(sim)@.obey_many(arith.physics(), old(sim)@.ahead()),
        phase == Phase::Failed(Fault::Recorder) ==> old(sim)@.phase == phase || !always_takes(
            record,
        ),
{
    proof {
        sim.lemma_wf_valid();
    }
    let ghost begun = sim@;
    let ghost recorder = record;
    let mut phase = update_system(sim);
    proof {
        assert forall|arith: Arithmetic<T>| #[trigger] obeys(arith) && !(sim@.phase is Failed)
            implies sim@.obey_many(arith.physics(), sim@.ahead()) == begun.obey_many(
            arith.physics(),
            begun.ahead(),
        ) by {
            begun.lemma_obey_left(arith.physics());
        }
    }
    proof {
        assert forall|arith: Arithmetic<T>| #[trigger] obeys(arith) && !(begun.phase is Failed)
            implies sim@.obey_many(arith.physics(), sim@.to_go()) == begun.obey_many(
            arith.physics(),
            begun.ahead(),
        ) by {
            begun.lemma_obey_to_go(arith.physics());
        }
    }
    while phase.recording()
        invariant
            sim.wf(),
            phase == sim@.phase,
            !phase.spec_busy(),
            record == recorder,
            phase == Phase::Failed(Fault::Recorder) ==> old(sim)@.phase == phase || !always_takes(
                recorder,
            ),
            forall|arith: Arithmetic<T>| #[trigger]
                obeys(arith) && always_takes(record) && !(old(sim)@.phase is Failed)
                    ==> sim@.obey_many(arith.physics(), sim@.to_go()) == old(sim)@.obey_many(
                    arith.physics(),
                    old(sim)@.ahead(),
                ),
            forall|solar: &SolarSystem<T>, time: u128|
                recordable(old(sim)@.bodies.len(), old(sim)@.steps, solar, time)
                    ==> call_requires(record, (solar, time)),
            old(sim)@.phase is Finished || old(sim)@.phase is Failed ==> sim@ == old(sim)@,
            sim@.steps == old(sim)@.steps,
            sim@.rest == old(sim)@.rest,
            sim@.bodies.len() == old(sim)@.bodies.len(),
            forall|i: int|
                0 <= i < old(sim)@.bodies.len() ==> (#[trigger] sim@.bodies[i]).mass == old(
                    sim,
                )@.bodies[i].mass,
            forall|arith: Arithmetic<T>| #[trigger]
                obeys(arith) && !(sim@.phase is Failed) ==> sim@.obey_many(
                    arith.physics(),
                    sim@.ahead(),
                ) == old(sim)@.obey_many(arith.physics(), old(sim)@.ahead()),
        decreases
                2 * (sim@.steps - sim@.step) + if phase.spec_recording() {
                    1int
                } else {
                    0int
                },
    {
        let ghost before = sim@;
        let time = sim.elapsed();
        let solar = sim.system();
        proof {
            sim.lemma_wf_valid();
            assert(time == time_after(sim@.step));
            assert(recordable(old(sim)@.bodies.len(), old(sim)@.steps, solar, time));
        }
        let taken = record(solar, time);
        if taken {
            sim.recorded();
        } else {
            sim.abort();
        }
        let ghost between = sim@;
        proof {
            sim.lemma_wf_valid();
        }
        phase = update_system(sim);
        proof {
            assert forall|arith: Arithmetic<T>| #[trigger]
                obeys(arith) && !(sim@.phase is Failed) implies sim@.obey_many(
                arith.physics(),
                sim@.ahead(),
            ) == old(sim)@.obey_many(arith.physics(), old(sim)@.ahead()) by {
                before.lemma_obey_recorded(arith.physics());
                between.lemma_obey_left(arith.physics());
            }
            assert(call_ensures(record, (solar, time), taken));
            assert forall|arith: Arithmetic<T>| #[trigger]
                obeys(arith) && always_takes(record) && !(old(sim)@.phase is Failed)
                implies sim@.obey_many(arith.physics(), sim@.to_go()) == old(sim)@.obey_many(
                arith.physics(),
                old(sim)@.ahead(),
            ) by {
                before.lemma_obey_recorded(arith.physics());
                between.lemma_obey_to_go(arith.physics());
            }
        }
    }
    proof {
        sim.lemma_wf_valid();
        assert forall|arith: Arithmetic<T>| #[trigger] obeys(arith) && phase is Finished implies sim@
            == old(sim)@.obey_many(arith.physics(), old(sim)@.ahead()) by {
            sim@.lemma_clock();
            assert(sim@.ahead() == 0);
            assert(sim@.obey_many(arith.physics(), 0) == sim@);
        }
        assert forall|arith: Arithmetic<T>| #[trigger]
            obeys(arith) && always_takes(record) && !(old(sim)@.phase is Failed) implies sim@
            == old(sim)@.obey_many(arith.physics(), old(sim)@.ahead()) by {
            if sim@.phase is Finished {
                sim@.lemma_clock();
            }
            assert(sim@.to_go() == 0);
            assert(sim@.obey_many(arith.physics(), 0) == sim@);
        }
    }
    phase
}

} // verus!
