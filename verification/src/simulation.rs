//! The driver: a fixed number of steps over a store that it alone may change.
//!
//! The driver decides what happens next and applies what the caller computed.
//! The caller asks for the pending work, does the arithmetic for it, and hands
//! the result back; the value can only land where the schedule says.
use vstd::prelude::*;
use crate::bodies::emptied;
use crate::bodies::positive;
use crate::bodies::Body;
use crate::bodies::SolarSystem;
use crate::schedule::lemma_cursor_task_at;
use crate::schedule::lemma_place_of_pair;
use crate::schedule::lemma_successor;
use crate::schedule::lemma_task_at_cursor;
use crate::schedule::step_len;
use crate::schedule::task_at;
use crate::schedule::Task;
use crate::TIMESTEP;
use vstd::arithmetic::div_mod::lemma_fundamental_div_mod_converse;

verus! {

/// Why a run stopped before its last step.
#[derive(Clone, Copy, Debug, PartialEq, Eq)]
pub enum Fault {
    /// Two bodies share a position, so the pull between them has no
    /// direction. The step is abandoned rather than continued on values
    /// that are not numbers.
    Coincident { target: usize, source: usize },
    /// The recorder could not take the state of a finished step.
    Recorder,
}

/// Where a run stands.
#[derive(Clone, Copy, Debug, PartialEq, Eq)]
pub enum Phase {
    /// Inside a step, waiting for the given task to be carried out.
    Working(Task),
    /// All steps are done.
    Finished,
    /// Stopped for good.
    Failed(Fault),
}

impl Phase {
    /// A pull or a position update is pending: work that needs arithmetic
    /// and no word from outside.
    pub open spec fn spec_busy(self) -> bool {
        self matches Phase::Working(Task::Accumulate { .. }) || self matches Phase::Working(
            Task::Integrate { .. },
        )
    }

    /// The recording of a step is pending.
    pub open spec fn spec_recording(self) -> bool {
        self == Phase::Working(Task::Record)
    }

    /// Whether the recording of a step is pending.
    #[verifier::when_used_as_spec(spec_recording)]
    pub fn recording(self) -> (b: bool)
        ensures
            b == self.spec_recording(),
    {
        match self {
            Phase::Working(Task::Record) => true,
            _ => false,
        }
    }

    /// Whether a pull or a position update is pending.
    #[verifier::when_used_as_spec(spec_busy)]
    pub fn busy(self) -> (b: bool)
        ensures
            b == self.spec_busy(),
    {
        match self {
            Phase::Working(Task::Accumulate { .. }) => true,
            Phase::Working(Task::Integrate { .. }) => true,
            _ => false,
        }
    }
}

/// Holds of a vector whose three components are all values that
/// `T::default()` may return. For every primitive number type that is zero.
pub open spec fn cleared<T: Default>(v: [T; 3]) -> bool {
    forall|k: int| 0 <= k < 3 ==> call_ensures(T::default, (), #[trigger] v[k])
}

/// What a simulation is, as a mathematical value.
pub struct State<T> {
    /// The bodies, in store order.
    pub bodies: Seq<Body<T>>,
    /// The value of an accumulator that has gathered nothing.
    pub rest: [T; 3],
    /// Steps the run was asked for.
    pub steps: nat,
    /// Steps whose position updates are complete.
    pub step: nat,
    pub phase: Phase,
}

impl<T: Default> State<T> {
    /// No pull has been written into the accumulator of body `i` since it was
    /// last emptied.
    pub open spec fn untouched(self, i: int) -> bool {
        match self.phase {
            Phase::Working(Task::Accumulate { target, source }) => i > target || (i == target
                && Task::Accumulate { target, source }.opens(target as nat)),
            Phase::Working(Task::Integrate { body }) => i < body || self.bodies.len() == 1,
            Phase::Working(Task::Record) => true,
            Phase::Finished => true,
            Phase::Failed(_) => false,
        }
    }

    /// The pending task names existing bodies, the step count is within the
    /// run, an empty accumulator is zero, and every untouched accumulator is
    /// empty.
    pub open spec fn valid(self) -> bool {
        &&& self.bodies.len() <= usize::MAX
        &&& self.steps <= u64::MAX
        &&& self.step <= self.steps
        &&& cleared(self.rest)
        &&& match self.phase {
            Phase::Working(t) => t.fits(self.bodies.len()) && if t is Record {
                self.step >= 1
            } else {
                self.step < self.steps
            },
            Phase::Finished => self.step == self.steps,
            Phase::Failed(_) => true,
        }
        &&& forall|i: int|
            0 <= i < self.bodies.len() && self.untouched(i) ==> (#[trigger] self.bodies[i]).accel
                == self.rest
    }

    /// Simulated time in seconds.
    pub open spec fn time(self) -> nat {
        self.step * (TIMESTEP as nat)
    }

    /// Moves on to task `t`. The clock advances when the recording comes up:
    /// by then every position of the step has been updated.
    pub open spec fn arrive(self, t: Task) -> Self {
        State {
            phase: Phase::Working(t),
            step: if t is Record {
                self.step + 1
            } else {
                self.step
            },
            ..self
        }
    }

    /// Opens the next step, or finishes when none is left.
    pub open spec fn begin(self) -> Self {
        if self.step == self.steps {
            State { phase: Phase::Finished, ..self }
        } else {
            self.arrive(task_at(self.bodies.len(), 0))
        }
    }

    /// A fresh run of `steps` steps at time zero over `bodies`, whose
    /// accumulators are emptied first.
    pub open spec fn start(bodies: Seq<Body<T>>, rest: [T; 3], steps: nat) -> Self {
        State {
            bodies: emptied(bodies, rest),
            rest,
            steps,
            step: 0,
            phase: Phase::Finished,
        }.begin()
    }

    /// The pending pull has been gathered: `sum` is the new accumulator of
    /// its target. In any other phase nothing happens.
    pub open spec fn deposit(self, sum: [T; 3]) -> Self {
        match self.phase {
            Phase::Working(Task::Accumulate { target, source }) => State {
                bodies: self.bodies.update(
                    target as int,
                    Body { accel: sum, ..self.bodies[target as int] },
                ),
                ..self
            }.arrive(Task::Accumulate { target, source }.successor(self.bodies.len())),
            _ => self,
        }
    }

    /// The pending position update has been made: the body moves to
    /// `new_position`, remembers where it was, and its accumulator is
    /// emptied. In any other phase nothing happens.
    pub open spec fn integrate(self, new_position: [T; 3]) -> Self {
        match self.phase {
            Phase::Working(Task::Integrate { body }) => State {
                bodies: self.bodies.update(
                    body as int,
                    Body {
                        mass: self.bodies[body as int].mass,
                        position: new_position,
                        last_position: self.bodies[body as int].position,
                        accel: self.rest,
                    },
                ),
                ..self
            }.arrive(Task::Integrate { body }.successor(self.bodies.len())),
            _ => self,
        }
    }

    /// The pending recording has been made. In any other phase nothing
    /// happens.
    pub open spec fn recorded(self) -> Self {
        match self.phase {
            Phase::Working(Task::Record) => self.begin(),
            _ => self,
        }
    }

    /// The pending pull or recording cannot be carried out. A position
    /// update cannot fail, and a run that is over stays as it is.
    pub open spec fn abort(self) -> Self {
        match self.phase {
            Phase::Working(Task::Accumulate { target, source }) => State {
                phase: Phase::Failed(Fault::Coincident { target, source }),
                ..self
            },
            Phase::Working(Task::Record) => State {
                phase: Phase::Failed(Fault::Recorder),
                ..self
            },
            _ => self,
        }
    }

    /// Tasks carried out since the run began, for a run that has not failed.
    pub open spec fn progress(self) -> nat {
        let len = step_len(self.bodies.len());
        match self.phase {
            Phase::Working(t) => ((if t is Record {
                self.step - 1
            } else {
                self.step as int
            }) * len + t.cursor(self.bodies.len())) as nat,
            Phase::Finished => self.steps * len,
            Phase::Failed(_) => 0,
        }
    }

    /// A fresh run is valid and has no task behind it. Its clock reads zero,
    /// unless there is no body at all: then the first step is complete the
    /// moment it opens.
    pub proof fn lemma_start(bodies: Seq<Body<T>>, rest: [T; 3], steps: nat)
        requires
            bodies.len() <= usize::MAX,
            steps <= u64::MAX,
            cleared(rest),
        ensures
            Self::start(bodies, rest, steps).valid(),
            Self::start(bodies, rest, steps).progress() == 0,
            Self::start(bodies, rest, steps).time() == if steps > 0 && bodies.len() == 0 {
                TIMESTEP as nat
            } else {
                0
            },
    {
        let len = step_len(bodies.len()) as int;
        lemma_cursor_task_at(bodies.len(), 0);
        assert(0 * len == 0);
        assert(steps == 0 ==> steps * len == 0);
    }

    /// Every transition keeps a valid state valid.
    pub proof fn lemma_valid_kept(self, sum: [T; 3], new_position: [T; 3])
        requires
            self.valid(),
        ensures
            self.deposit(sum).valid(),
            self.integrate(new_position).valid(),
            self.recorded().valid(),
            self.abort().valid(),
    {
        let n = self.bodies.len();
        lemma_cursor_task_at(n, 0);
        if let Phase::Working(t) = self.phase {
            if !(t is Record) {
                lemma_successor(n, t);
            }
        }
    }

    /// A run that is finished or has failed stays exactly as it is.
    pub proof fn lemma_over_is_over(self, sum: [T; 3], new_position: [T; 3])
        requires
            self.phase is Finished || self.phase is Failed,
        ensures
            self.deposit(sum) == self,
            self.integrate(new_position) == self,
            self.recorded() == self,
            self.abort() == self,
    {
    }

    /// The bodies of a run are the ones it began with: no transition adds or
    /// removes a body, changes a mass, or changes the length of the run.
    pub proof fn lemma_masses_fixed(self, sum: [T; 3], new_position: [T; 3], i: int)
        requires
            self.valid(),
            0 <= i < self.bodies.len(),
        ensures
            self.deposit(sum).bodies.len() == self.bodies.len(),
            self.integrate(new_position).bodies.len() == self.bodies.len(),
            self.recorded().bodies == self.bodies,
            self.abort().bodies == self.bodies,
            self.deposit(sum).bodies[i].mass == self.bodies[i].mass,
            self.integrate(new_position).bodies[i].mass == self.bodies[i].mass,
            self.deposit(sum).steps == self.steps && self.deposit(sum).rest == self.rest,
            self.integrate(new_position).steps == self.steps && self.integrate(new_position).rest
                == self.rest,
            self.recorded().steps == self.steps && self.recorded().rest == self.rest,
            self.abort().steps == self.steps && self.abort().rest == self.rest,
    {
    }

    /// Gathering a pull changes one accumulator and nothing else: every mass,
    /// position and previous position is as it was, so each pull of a step
    /// is computed from the positions the step began with.
    pub proof fn lemma_deposit_keeps_positions(self, sum: [T; 3], i: int)
        requires
            self.valid(),
            0 <= i < self.bodies.len(),
        ensures
            self.deposit(sum).bodies.len() == self.bodies.len(),
            self.deposit(sum).bodies[i].mass == self.bodies[i].mass,
            self.deposit(sum).bodies[i].position == self.bodies[i].position,
            self.deposit(sum).bodies[i].last_position == self.bodies[i].last_position,
            !(self.phase matches Phase::Working(Task::Accumulate { target, .. }) && target == i)
                ==> self.deposit(sum).bodies[i] == self.bodies[i],
    {
    }

    /// Every transition that applies carries out exactly one task: a pull
    /// that is deposited, a position update, or a recording each move the
    /// count of finished tasks up by one.
    pub proof fn lemma_one_task_each(self, sum: [T; 3], new_position: [T; 3])
        requires
            self.valid(),
        ensures
            self.phase matches Phase::Working(Task::Accumulate { .. }) ==> self.deposit(
                sum,
            ).progress() == self.progress() + 1,
            self.phase matches Phase::Working(Task::Integrate { .. }) ==> self.integrate(
                new_position,
            ).progress() == self.progress() + 1,
            self.phase == Phase::Working(Task::Record) ==> self.recorded().progress()
                == self.progress() + 1,
    {
        let n = self.bodies.len();
        let len = step_len(n) as int;
        let k = self.step as int;
        lemma_cursor_task_at(n, 0);
        if let Phase::Working(t) = self.phase {
            if t is Record {
                assert((k - 1) * len + (len - 1) + 1 == k * len) by (nonlinear_arith);
            } else {
                lemma_successor(n, t);
                assert((k + 1 - 1) * len == k * len);
            }
        }
    }

    /// The state of a run follows from the number of tasks behind it: the
    /// pending task is the one at that place of the step, and the clock shows
    /// one `TIMESTEP` for every step whose position updates are all done. So
    /// the recording of the `k`-th step comes up after `k * step_len - 1`
    /// tasks and is handed the time `k * TIMESTEP`: no drift, whatever `k`.
    pub proof fn lemma_clock(self)
        requires
            self.valid(),
            !(self.phase is Failed),
        ensures
            self.progress() <= self.steps * step_len(self.bodies.len()),
            self.phase is Finished <==> self.progress() == self.steps * step_len(
                self.bodies.len(),
            ),
            self.phase matches Phase::Working(t) ==> t == task_at(
                self.bodies.len(),
                self.progress() % step_len(self.bodies.len()),
            ),
            self.phase is Working ==> self.step == (self.progress() + 1) / step_len(
                self.bodies.len(),
            ),
            self.phase is Finished ==> self.step == self.steps,
            self.phase == Phase::Working(Task::Record) ==> self.progress() + 1 == self.step
                * step_len(self.bodies.len()),
            self.time() == self.step * TIMESTEP,
    {
        let n = self.bodies.len();
        let len = step_len(n) as int;
        let k = self.step as int;
        let total = self.steps as int;
        if let Phase::Working(t) = self.phase {
            lemma_task_at_cursor(n, t);
            let c = t.cursor(n) as int;
            if t is Record {
                assert((k - 1) * len + (len - 1) + 1 == k * len) by (nonlinear_arith);
                lemma_fundamental_div_mod_converse((k - 1) * len + c, len, k - 1, c);
                lemma_fundamental_div_mod_converse(k * len, len, k, 0);
                assert(k * len <= total * len) by (nonlinear_arith)
                    requires
                        k <= total,
                        len > 0,
                ;
            } else {
                assert(c + 1 < len) by {
                    if let Task::Accumulate { target, source } = t {
                        lemma_place_of_pair(
                            n,
                            target as nat,
                            if source < target {
                                source as nat
                            } else {
                                (source - 1) as nat
                            },
                        );
                    }
                }
                lemma_fundamental_div_mod_converse(k * len + c, len, k, c);
                lemma_fundamental_div_mod_converse(k * len + c + 1, len, k, c + 1);
                assert(k * len + len <= total * len) by (nonlinear_arith)
                    requires
                        k < total,
                        len > 0,
                ;
            }
        }
    }

    /// While pulls are being gathered every accumulator that no pull has
    /// reached yet is empty, and so is every accumulator when a step ends.
    pub proof fn lemma_accumulators(self, i: int)
        requires
            self.valid(),
            0 <= i < self.bodies.len(),
        ensures
            cleared(self.rest),
            (self.phase matches Phase::Working(t) && t.opens(i as nat)) ==> self.bodies[i].accel
                == self.rest,
            self.phase == Phase::Working(Task::Record) ==> self.bodies[i].accel == self.rest,
            (self.phase matches Phase::Working(Task::Integrate { body }) && i < body)
                ==> self.bodies[i].accel == self.rest,
    {
        if self.phase matches Phase::Working(t) && t.opens(i as nat) {
            assert(self.untouched(i));
        }
        if self.phase == Phase::Working(Task::Record) {
            assert(self.untouched(i));
        }
        if self.phase matches Phase::Working(Task::Integrate { body }) && i < body {
            assert(self.untouched(i));
        }
    }
}

/// A run in progress. It owns the store for as long as it lasts.
pub struct Simulation<T> {
    system: SolarSystem<T>,
    rest: [T; 3],
    steps: u64,
    step: u64,
    phase: Phase,
}

impl<T> View for Simulation<T> {
    type V = State<T>;

    closed spec fn view(&self) -> State<T> {
        State {
            bodies: self.system@,
            rest: self.rest,
            steps: self.steps as nat,
            step: self.step as nat,
            phase: self.phase,
        }
    }
}

impl<T: Copy + PartialOrd + Default> Simulation<T> {
    /// The store is well formed and the state is valid.
    pub closed spec fn wf(&self) -> bool {
        self.system.wf() && self@.valid()
    }

    /// What `wf` promises about the state: it is valid, and every mass is
    /// greater than zero.
    pub proof fn lemma_wf_valid(&self)
        requires
            self.wf(),
        ensures
            self@.valid(),
            forall|i: int|
                0 <= i < self@.bodies.len() ==> positive((#[trigger] self@.bodies[i]).mass),
    {
        assert forall|i: int| 0 <= i < self@.bodies.len() implies positive(
            (#[trigger] self@.bodies[i]).mass,
        ) by {
            self.system.lemma_masses_positive(i);
        }
    }

    /// Starts a run of `steps` steps over `system` at time zero. The masses
    /// and positions are taken as they are; the accumulators are emptied.
    /// Over no body at all every step is complete as soon as it opens, so
    /// such a run starts with its first recording pending.
    pub fn new(system: SolarSystem<T>, steps: u64) -> (sim: Self)
        requires
            system.wf(),
        ensures
            sim.wf(),
            cleared(sim@.rest),
            sim@ == State::start(system@, sim@.rest, steps as nat),
    {
        let zero = T::default();
        let rest = [zero, zero, zero];
        let mut system = system;
        proof {
            system.lemma_len_fits();
            State::lemma_start(system@, rest, steps as nat);
        }
        system.clear_accels(rest);
        let mut sim = Simulation { system, rest, steps, step: 0, phase: Phase::Finished };
        sim.begin();
        sim
    }

    fn arrive(&mut self, t: Task)
        requires
            old(self).step < old(self).steps || !(t is Record),
        ensures
            final(self)@ == old(self)@.arrive(t),
            final(self).system == old(self).system,
    {
        if let Task::Record = t {
            self.step = self.step + 1;
        }
        self.phase = Phase::Working(t);
    }

    fn begin(&mut self)
        requires
            old(self).step <= old(self).steps,
        ensures
            final(self)@ == old(self)@.begin(),
            final(self).system == old(self).system,
    {
        if self.step == self.steps {
            self.phase = Phase::Finished;
        } else {
            let first = Task::first(self.system.len());
            self.arrive(first);
        }
    }

    /// Where the run stands.
    pub fn phase(&self) -> (p: Phase)
        ensures
            p == self@.phase,
    {
        self.phase
    }

    /// Steps the run was asked for.
    pub fn steps(&self) -> (k: u64)
        ensures
            k == self@.steps,
    {
        self.steps
    }

    /// Steps whose position updates are complete.
    pub fn step(&self) -> (k: u64)
        ensures
            k == self@.step,
    {
        self.step
    }

    /// The value of an accumulator that has gathered nothing.
    pub fn rest(&self) -> (v: [T; 3])
        ensures
            v == self@.rest,
    {
        self.rest
    }

    /// Simulated time in seconds: one `TIMESTEP` for every completed step,
    /// exactly.
    pub fn elapsed(&self) -> (t: u128)
        ensures
            t == self@.time(),
            t == self@.step * TIMESTEP,
    {
        assert(self.step * TIMESTEP <= u64::MAX * 900) by (nonlinear_arith)
            requires
                self.step <= u64::MAX,
                TIMESTEP == 900,
        ;
        (self.step as u128) * (TIMESTEP as u128)
    }

    /// The bodies, for reading.
    pub fn system(&self) -> (s: &SolarSystem<T>)
        requires
            self.wf(),
        ensures
            s.wf(),
            s@ == self@.bodies,
    {
        &self.system
    }

    /// Ends the run and gives the store back.
    pub fn into_system(self) -> (s: SolarSystem<T>)
        requires
            self.wf(),
        ensures
            s.wf(),
            s@ == self@.bodies,
    {
        self.system
    }

    /// Stores the accumulator of the pending pull's target and moves on.
    ///
    /// `sum` is what the caller computed: the target's accumulator plus the
    /// pull of the source on it. Returns `false`, and changes nothing, unless
    /// a pull is pending.
    pub fn deposit(&mut self, sum: [T; 3]) -> (done: bool)
        requires
            old(self).wf(),
        ensures
            final(self).wf(),
            done == (old(self)@.phase matches Phase::Working(Task::Accumulate { .. })),
            final(self)@ == old(self)@.deposit(sum),
    {
        proof {
            self@.lemma_valid_kept(sum, sum);
        }
        match self.phase {
            Phase::Working(Task::Accumulate { target, source }) => {
                let n = self.system.len();
                self.system.set_accel(target, sum);
                match (Task::Accumulate { target, source }).next(n) {
                    Some(t) => self.arrive(t),
                    None => {},
                }
                true
            },
            _ => false,
        }
    }

    /// Moves the pending body to `new_position` and moves on.
    ///
    /// `new_position` is what the caller computed from the body's current
    /// position, its previous position and its accumulator. The current
    /// position becomes the previous one and the accumulator is emptied.
    /// Returns `false`, and changes nothing, unless a position update is
    /// pending.
    pub fn integrate(&mut self, new_position: [T; 3]) -> (done: bool)
        requires
            old(self).wf(),
        ensures
            final(self).wf(),
            done == (old(self)@.phase matches Phase::Working(Task::Integrate { .. })),
            final(self)@ == old(self)@.integrate(new_position),
    {
        proof {
            self@.lemma_valid_kept(new_position, new_position);
        }
        match self.phase {
            Phase::Working(Task::Integrate { body }) => {
                let n = self.system.len();
                self.system.shift(body, new_position, self.rest);
                match (Task::Integrate { body }).next(n) {
                    Some(t) => self.arrive(t),
                    None => {},
                }
                true
            },
            _ => false,
        }
    }

    /// Closes the step whose recording was pending and opens the next one,
    /// or finishes the run. Returns `false`, and changes nothing, unless a
    /// recording is pending.
    pub fn recorded(&mut self) -> (done: bool)
        requires
            old(self).wf(),
        ensures
            final(self).wf(),
            done == (old(self)@.phase == Phase::Working(Task::Record)),
            final(self)@ == old(self)@.recorded(),
    {
        proof {
            self@.lemma_valid_kept(self.rest, self.rest);
        }
        match self.phase {
            Phase::Working(Task::Record) => {
                self.begin();
                true
            },
            _ => false,
        }
    }

    /// Stops the run because the pending pull or recording cannot be carried
    /// out. Returns `false`, and changes nothing, in any other phase.
    pub fn abort(&mut self) -> (done: bool)
        requires
            old(self).wf(),
        ensures
            final(self).wf(),
            done == (old(self)@.phase matches Phase::Working(Task::Accumulate { .. })
                || old(self)@.phase == Phase::Working(Task::Record)),
            final(self)@ == old(self)@.abort(),
    {
        match self.phase {
            Phase::Working(Task::Accumulate { target, source }) => {
                self.phase = Phase::Failed(Fault::Coincident { target, source });
                true
            },
            Phase::Working(Task::Record) => {
                self.phase = Phase::Failed(Fault::Recorder);
                true
            },
            _ => false,
        }
    }
}

} // verus!
