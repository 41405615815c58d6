//! What a run computes, whatever the formulas.
//!
//! The driver never adds or multiplies: it is handed each new accumulator and
//! each new position. This module says what comes of that when they are
//! computed by a fixed rule, proves it for every rule, and offers the loop
//! that carries a whole step out with two functions of the caller.
use vstd::prelude::*;
use crate::bodies::emptied;
use crate::bodies::Body;
use crate::schedule::lemma_cursor_task_at;
use crate::schedule::lemma_place_of_pair;
use crate::schedule::lemma_successor;
use crate::schedule::lemma_task_at_cursor;
use crate::schedule::pairs;
use crate::schedule::step_len;
use crate::schedule::task_at;
use crate::schedule::Task;
use crate::simulation::cleared;
use crate::simulation::Fault;
use crate::simulation::Phase;
use crate::simulation::Simulation;
use crate::simulation::State;
use crate::TIMESTEP;
use vstd::arithmetic::div_mod::lemma_fundamental_div_mod_converse;

verus! {

/// The rule that a run is computed by, as mathematical functions.
#[verifier::reject_recursive_types(T)]
pub struct Rule<T> {
    /// `coincide(here, there)` holds when the two positions are one, so that
    /// no pull between bodies at them is defined.
    pub coincide: spec_fn([T; 3], [T; 3]) -> bool,
    /// `gather(sum, here, there, mass)` is `sum` plus the acceleration that a
    /// body at `here` receives from a body of mass `mass` at `there`.
    pub gather: spec_fn([T; 3], [T; 3], [T; 3], T) -> [T; 3],
    /// `advance(position, last_position, accel)` is the position one step
    /// after `position`.
    pub advance: spec_fn([T; 3], [T; 3], [T; 3]) -> [T; 3],
}

impl<T> Rule<T> {
    /// No two of the bodies share a position.
    pub open spec fn apart(self, bodies: Seq<Body<T>>) -> bool {
        forall|i: int, j: int|
            0 <= i < bodies.len() && 0 <= j < bodies.len() && i != j ==> !(self.coincide)(
                #[trigger] bodies[i].position,
                #[trigger] bodies[j].position,
            )
    }
}

/// The two functions compute by the rule: whatever they return is what the
/// rule says, and `gather` returns `None` exactly for positions that coincide.
pub open spec fn computes<T, F, G>(gather: F, advance: G, rule: Rule<T>) -> bool where
    F: Fn([T; 3], [T; 3], [T; 3], T) -> Option<[T; 3]>,
    G: Fn([T; 3], [T; 3], [T; 3]) -> [T; 3],
{
    &&& forall|sum: [T; 3], here: [T; 3], there: [T; 3], mass: T, out: Option<[T; 3]>| #[trigger]
        call_ensures(gather, (sum, here, there, mass), out) ==> out == if (rule.coincide)(
            here,
            there,
        ) {
            None
        } else {
            Some((rule.gather)(sum, here, there, mass))
        }
    &&& forall|position: [T; 3], last_position: [T; 3], accel: [T; 3], out: [T; 3]| #[trigger]
        call_ensures(advance, (position, last_position, accel), out) ==> out == (rule.advance)(
            position,
            last_position,
            accel,
        )
}

/// The accumulator of body `i` once the pulls of the bodies before `upto`
/// have been gathered into it, in index order, from the positions in
/// `bodies`. Body `i` itself is passed over.
pub open spec fn gathered<T>(
    rule: Rule<T>,
    bodies: Seq<Body<T>>,
    rest: [T; 3],
    i: int,
    upto: nat,
) -> [T; 3]
    decreases upto,
{
    if upto == 0 {
        rest
    } else {
        let sum = gathered(rule, bodies, rest, i, (upto - 1) as nat);
        let j = upto - 1;
        if j == i {
            sum
        } else {
            (rule.gather)(sum, bodies[i].position, bodies[j].position, bodies[j].mass)
        }
    }
}

/// One whole step. Every body gathers the pull of every other body at the
/// positions the step begins with; only then each body moves, remembers
/// where it was, and has its accumulator emptied.
pub open spec fn stepped<T>(rule: Rule<T>, bodies: Seq<Body<T>>, rest: [T; 3]) -> Seq<Body<T>> {
    Seq::new(
        bodies.len(),
        |i: int|
            Body {
                mass: bodies[i].mass,
                position: (rule.advance)(
                    bodies[i].position,
                    bodies[i].last_position,
                    gathered(rule, bodies, rest, i, bodies.len()),
                ),
                last_position: bodies[i].position,
                accel: rest,
            },
    )
}

/// The bodies of a step that began with `origin`, when task `t` is pending
/// and all tasks before it were carried out by the rule.
pub open spec fn midway<T>(rule: Rule<T>, origin: Seq<Body<T>>, rest: [T; 3], t: Task) -> Seq<
    Body<T>,
> {
    match t {
        Task::Accumulate { target, source } => Seq::new(
            origin.len(),
            |i: int|
                Body {
                    accel: gathered(
                        rule,
                        origin,
                        rest,
                        i,
                        if i < target {
                            origin.len()
                        } else if i == target {
                            source as nat
                        } else {
                            0
                        },
                    ),
                    ..origin[i]
                },
        ),
        Task::Integrate { body } => Seq::new(
            origin.len(),
            |i: int|
                if i < body {
                    stepped(rule, origin, rest)[i]
                } else {
                    Body { accel: gathered(rule, origin, rest, i, origin.len()), ..origin[i] }
                },
        ),
        Task::Record => stepped(rule, origin, rest),
    }
}

impl<T: Default> State<T> {
    /// Carries out the pending task by the rule: gathers the pending pull
    /// from the two bodies as they stand, or stops the run if they coincide;
    /// or moves the pending body from its two positions and its accumulator;
    /// or takes the recording as made.
    pub open spec fn obey(self, rule: Rule<T>) -> Self {
        match self.phase {
            Phase::Working(Task::Accumulate { target, source }) => if (rule.coincide)(
                self.bodies[target as int].position,
                self.bodies[source as int].position,
            ) {
                self.abort()
            } else {
                self.deposit(
                    (rule.gather)(
                        self.bodies[target as int].accel,
                        self.bodies[target as int].position,
                        self.bodies[source as int].position,
                        self.bodies[source as int].mass,
                    ),
                )
            },
            Phase::Working(Task::Integrate { body }) => self.integrate(
                (rule.advance)(
                    self.bodies[body as int].position,
                    self.bodies[body as int].last_position,
                    self.bodies[body as int].accel,
                ),
            ),
            Phase::Working(Task::Record) => self.recorded(),
            _ => self,
        }
    }

    /// Carries out `count` tasks in a row by the rule.
    pub open spec fn obey_many(self, rule: Rule<T>, count: nat) -> Self
        decreases count,
    {
        if count == 0 {
            self
        } else {
            self.obey(rule).obey_many(rule, (count - 1) as nat)
        }
    }

    /// Number of tasks between the pending one and the recording of its
    /// step; zero when the recording is pending or the run is over.
    pub open spec fn left(self) -> nat {
        match self.phase {
            Phase::Working(t) => (pairs(self.bodies.len()) + self.bodies.len() - t.cursor(
                self.bodies.len(),
            )) as nat,
            _ => 0,
        }
    }

    /// Number of tasks between the pending one and the end of the run, for a
    /// run that has not failed.
    pub open spec fn ahead(self) -> nat {
        (self.steps * step_len(self.bodies.len()) - self.progress()) as nat
    }

    /// A run that is over obeys no more: nothing changes.
    pub proof fn lemma_over_stays(self, rule: Rule<T>, count: nat)
        requires
            self.phase is Finished || self.phase is Failed,
        ensures
            self.obey_many(rule, count) == self,
        decreases count,
    {
        if count > 0 {
            self.lemma_over_stays(rule, (count - 1) as nat);
        }
    }

    /// Carrying out `first + second` tasks is carrying out `first` tasks
    /// and then `second` more.
    pub proof fn lemma_obey_split(self, rule: Rule<T>, first: nat, second: nat)
        ensures
            self.obey_many(rule, first + second) == self.obey_many(rule, first).obey_many(
                rule,
                second,
            ),
        decreases first,
    {
        if first > 0 {
            self.obey(rule).lemma_obey_split(rule, (first - 1) as nat, second);
            assert(self.obey_many(rule, first + second) == self.obey(rule).obey_many(
                rule,
                (first + second - 1) as nat,
            ));
        }
    }

    /// When a step opens, the bodies are what `midway` says of a step that
    /// begins with them.
    pub proof fn lemma_step_opens(self, rule: Rule<T>)
        requires
            self.valid(),
            self.phase == Phase::Working(task_at(self.bodies.len(), 0)),
        ensures
            self.bodies == midway(rule, self.bodies, self.rest, task_at(self.bodies.len(), 0)),
    {
        let n = self.bodies.len();
        let t = task_at(n, 0);
        if n >= 2 {
            lemma_place_of_pair(n, 0, 0);
            assert(t == Task::Accumulate { target: 0, source: 1 });
            assert forall|i: int| 0 <= i < n implies self.bodies[i] == midway(
                rule,
                self.bodies,
                self.rest,
                t,
            )[i] by {
                assert(self.untouched(i));
                assert(gathered(rule, self.bodies, self.rest, i, 0) == self.rest);
                assert(gathered(rule, self.bodies, self.rest, 0, 0) == self.rest);
                assert(gathered(rule, self.bodies, self.rest, 0, 1) == self.rest);
            }
        } else if n == 1 {
            assert(t == Task::Integrate { body: 0 });
            assert(self.untouched(0));
            assert(gathered(rule, self.bodies, self.rest, 0, 0) == self.rest);
            assert(gathered(rule, self.bodies, self.rest, 0, 1) == self.rest);
        }
        assert(self.bodies =~= midway(rule, self.bodies, self.rest, t));
    }

    /// One task carried out by the rule leads from what `midway` says of the
    /// pending task to what it says of the next one, unless the two bodies of
    /// a pending pull coincide.
    pub proof fn lemma_obey_once(self, rule: Rule<T>, origin: Seq<Body<T>>, t: Task)
        requires
            self.valid(),
            self.phase == Phase::Working(t),
            !(t is Record),
            origin.len() == self.bodies.len(),
            self.bodies == midway(rule, origin, self.rest, t),
            t matches Task::Accumulate { target, source } ==> !(rule.coincide)(
                origin[target as int].position,
                origin[source as int].position,
            ),
        ensures
            self.obey(rule).valid(),
            self.obey(rule) == (State {
                bodies: midway(rule, origin, self.rest, t.successor(self.bodies.len())),
                ..self
            }).arrive(t.successor(self.bodies.len())),
            t.successor(self.bodies.len()).cursor(self.bodies.len()) == t.cursor(
                self.bodies.len(),
            ) + 1,
    {
        let n = self.bodies.len();
        let next = self.obey(rule);
        let succ = t.successor(n);
        let rest = self.rest;
        lemma_successor(n, t);
        match t {
            Task::Accumulate { target, source } => {
                let sum = (rule.gather)(
                    self.bodies[target as int].accel,
                    self.bodies[target as int].position,
                    self.bodies[source as int].position,
                    self.bodies[source as int].mass,
                );
                self.lemma_valid_kept(sum, sum);
                let t_int = target as int;
                assert(sum == gathered(rule, origin, rest, t_int, (source + 1) as nat));
                if source + 1 == target {
                    assert(gathered(rule, origin, rest, t_int, (source + 2) as nat) == sum);
                }
                assert(next.bodies =~= midway(rule, origin, rest, succ));
            },
            Task::Integrate { body } => {
                let moved = (rule.advance)(
                    self.bodies[body as int].position,
                    self.bodies[body as int].last_position,
                    self.bodies[body as int].accel,
                );
                self.lemma_valid_kept(moved, moved);
                assert(next.bodies =~= midway(rule, origin, rest, succ));
            },
            Task::Record => {},
        }
    }

    /// Carrying out by the rule all tasks that are left before the recording
    /// completes the step that began with `origin`, if no two bodies
    /// coincided when it began.
    pub proof fn lemma_obey_rest(self, rule: Rule<T>, origin: Seq<Body<T>>, t: Task)
        requires
            self.valid(),
            self.phase == Phase::Working(t),
            origin.len() == self.bodies.len(),
            self.bodies == midway(rule, origin, self.rest, t),
            rule.apart(origin),
        ensures
            self.obey_many(rule, self.left()) == (State {
                bodies: stepped(rule, origin, self.rest),
                phase: Phase::Working(Task::Record),
                step: if t is Record {
                    self.step
                } else {
                    self.step + 1
                },
                ..self
            }),
            self.obey_many(rule, self.left()).valid(),
        decreases self.left(),
    {
        let n = self.bodies.len();
        lemma_task_at_cursor(n, t);
        if t is Record {
            assert(self.left() == 0);
            assert(self.obey_many(rule, 0) == self);
        } else {
            self.lemma_obey_once(rule, origin, t);
            let succ = t.successor(n);
            let next = self.obey(rule);
            next.lemma_obey_rest(rule, origin, succ);
            assert(self.obey_many(rule, self.left()) == next.obey_many(
                rule,
                (self.left() - 1) as nat,
            ));
        }
    }

    /// Carried out task by task, a step is the step of the formula: when its
    /// recording comes up, every body has moved by `advance` on the pulls of
    /// all the others, gathered in index order at the positions the step
    /// began with; it remembers its old position, its accumulator is empty,
    /// and the clock has advanced by one step. This holds whenever no two
    /// bodies coincide as the step begins.
    pub proof fn lemma_step(self, rule: Rule<T>)
        requires
            self.valid(),
            self.phase == Phase::Working(task_at(self.bodies.len(), 0)),
            rule.apart(self.bodies),
        ensures
            self.left() == pairs(self.bodies.len()) + self.bodies.len(),
            self.obey_many(rule, self.left()) == (State {
                bodies: stepped(rule, self.bodies, self.rest),
                phase: Phase::Working(Task::Record),
                step: if self.bodies.len() == 0 {
                    self.step
                } else {
                    self.step + 1
                },
                ..self
            }),
            self.obey_many(rule, self.left()).valid(),
    {
        let n = self.bodies.len();
        lemma_cursor_task_at(n, 0);
        self.lemma_step_opens(rule);
        self.lemma_obey_rest(rule, self.bodies, task_at(n, 0));
    }

    /// Carrying out by the rule the tasks that are left runs into the first
    /// pending pull between two bodies that coincide: there the run fails,
    /// with the pulls before it gathered and no body moved.
    pub proof fn lemma_obey_fails(self, rule: Rule<T>, origin: Seq<Body<T>>, t: Task, stop: Task)
        requires
            self.valid(),
            self.phase == Phase::Working(t),
            origin.len() == self.bodies.len(),
            self.bodies == midway(rule, origin, self.rest, t),
            stop.fits(self.bodies.len()),
            stop matches Task::Accumulate { target, source } && (rule.coincide)(
                origin[target as int].position,
                origin[source as int].position,
            ),
            t.cursor(self.bodies.len()) <= stop.cursor(self.bodies.len()),
            forall|r: nat|
                t.cursor(self.bodies.len()) <= r < stop.cursor(self.bodies.len()) ==> !(
                #[trigger] task_at(self.bodies.len(), r) matches Task::Accumulate {
                    target,
                    source,
                } && (rule.coincide)(
                    origin[target as int].position,
                    origin[source as int].position,
                )),
        ensures
            stop matches Task::Accumulate { target, source } && self.obey_many(rule, self.left())
                == (State {
                bodies: midway(rule, origin, self.rest, stop),
                phase: Phase::Failed(Fault::Coincident { target, source }),
                ..self
            }),
        decreases stop.cursor(self.bodies.len()) - t.cursor(self.bodies.len()),
    {
        let n = self.bodies.len();
        lemma_task_at_cursor(n, t);
        lemma_task_at_cursor(n, stop);
        let next = self.obey(rule);
        if let Task::Accumulate { target, source } = stop {
            lemma_place_of_pair(
                n,
                target as nat,
                if source < target {
                    source as nat
                } else {
                    (source - 1) as nat
                },
            );
        }
        assert(t matches Task::Accumulate { .. });
        assert(self.left() >= 1);
        assert(self.obey_many(rule, self.left()) == next.obey_many(
            rule,
            (self.left() - 1) as nat,
        ));
        if let Task::Accumulate { target, source } = t {
            assert(self.bodies[target as int].position == origin[target as int].position);
            assert(self.bodies[source as int].position == origin[source as int].position);
        }
        if t.cursor(n) == stop.cursor(n) {
            assert(t == stop);
            next.lemma_over_stays(rule, (self.left() - 1) as nat);
        } else {
            assert(task_at(n, t.cursor(n)) == t);
            self.lemma_obey_once(rule, origin, t);
            next.lemma_obey_fails(rule, origin, t.successor(n), stop);
        }
    }

    /// Two bodies in one place fail the step: carried out by the rule from
    /// its beginning, the step stops at the first pull of the schedule whose
    /// two bodies coincide.
    pub proof fn lemma_step_fails(self, rule: Rule<T>, stop: Task)
        requires
            self.valid(),
            self.phase == Phase::Working(task_at(self.bodies.len(), 0)),
            stop.fits(self.bodies.len()),
            stop matches Task::Accumulate { target, source } && (rule.coincide)(
                self.bodies[target as int].position,
                self.bodies[source as int].position,
            ),
            forall|r: nat|
                r < stop.cursor(self.bodies.len()) ==> !(#[trigger] task_at(
                    self.bodies.len(),
                    r,
                ) matches Task::Accumulate { target, source } && (rule.coincide)(
                    self.bodies[target as int].position,
                    self.bodies[source as int].position,
                )),
        ensures
            stop matches Task::Accumulate { target, source } && self.obey_many(rule, self.left())
                == (State {
                bodies: midway(rule, self.bodies, self.rest, stop),
                phase: Phase::Failed(Fault::Coincident { target, source }),
                ..self
            }),
    {
        let n = self.bodies.len();
        lemma_cursor_task_at(n, 0);
        self.lemma_step_opens(rule);
        self.lemma_obey_fails(rule, self.bodies, task_at(n, 0), stop);
    }

    /// Carrying out tasks by the rule never skips: unless the run fails on
    /// bodies that coincide, each task obeyed adds one to the count of
    /// finished tasks until the run is over, and then nothing changes any
    /// more.
    pub proof fn lemma_obey_counts(self, rule: Rule<T>, count: nat)
        requires
            self.valid(),
            !(self.phase is Failed),
        ensures
            self.obey_many(rule, count).valid(),
            self.obey_many(rule, count).bodies.len() == self.bodies.len(),
            self.obey_many(rule, count).steps == self.steps,
            self.obey_many(rule, count).rest == self.rest,
            !(self.obey_many(rule, count).phase is Failed) ==> self.obey_many(
                rule,
                count,
            ).progress() == if self.progress() + count <= self.steps * step_len(
                self.bodies.len(),
            ) {
                self.progress() + count
            } else {
                self.steps * step_len(self.bodies.len())
            },
        decreases count,
    {
        self.lemma_clock();
        if count > 0 {
            let next = self.obey(rule);
            match self.phase {
                Phase::Working(Task::Accumulate { target, source }) => {
                    let sum = (rule.gather)(
                        self.bodies[target as int].accel,
                        self.bodies[target as int].position,
                        self.bodies[source as int].position,
                        self.bodies[source as int].mass,
                    );
                    self.lemma_valid_kept(sum, sum);
                    self.lemma_one_task_each(sum, sum);
                },
                Phase::Working(Task::Integrate { body }) => {
                    let moved = (rule.advance)(
                        self.bodies[body as int].position,
                        self.bodies[body as int].last_position,
                        self.bodies[body as int].accel,
                    );
                    self.lemma_valid_kept(moved, moved);
                    self.lemma_one_task_each(moved, moved);
                },
                Phase::Working(Task::Record) => {
                    self.lemma_valid_kept(self.rest, self.rest);
                    self.lemma_one_task_each(self.rest, self.rest);
                },
                _ => {},
            }
            if next.phase is Failed {
                next.lemma_over_stays(rule, (count - 1) as nat);
            } else {
                next.lemma_obey_counts(rule, (count - 1) as nat);
            }
        }
    }

    /// Carrying out the rest of the pending step is a part of carrying out
    /// the rest of the run: if it does not fail, the tasks it leaves ahead
    /// are the ones that were ahead less the ones it did.
    pub proof fn lemma_obey_left(self, rule: Rule<T>)
        requires
            self.valid(),
            !(self.phase is Failed),
        ensures
            self.obey_many(rule, self.left()).valid(),
            !(self.obey_many(rule, self.left()).phase is Failed) ==> {
                &&& self.left() <= self.ahead()
                &&& self.obey_many(rule, self.left()).ahead() == self.ahead() - self.left()
                &&& self.obey_many(rule, self.left()).obey_many(
                    rule,
                    self.obey_many(rule, self.left()).ahead(),
                ) == self.obey_many(rule, self.ahead())
            },
    {
        let n = self.bodies.len();
        let len = step_len(n) as int;
        let total = self.steps as int;
        let k = self.step as int;
        self.lemma_clock();
        self.lemma_obey_counts(rule, self.left());
        let reached = self.obey_many(rule, self.left());
        if !(reached.phase is Failed) {
            if let Phase::Working(t) = self.phase {
                lemma_task_at_cursor(n, t);
                if t is Record {
                    assert((k - 1) * len + len <= total * len) by (nonlinear_arith)
                        requires
                            k <= total,
                            len > 0,
                    ;
                } else {
                    assert(k * len + len <= total * len) by (nonlinear_arith)
                        requires
                            k < total,
                            len > 0,
                    ;
                }
            }
            assert(self.left() <= self.ahead());
            self.lemma_obey_split(rule, self.left(), (self.ahead() - self.left()) as nat);
        }
    }

    /// Number of tasks that a run still carries out: those ahead of it, or
    /// none once it has failed.
    pub open spec fn to_go(self) -> nat {
        if self.phase is Failed {
            0
        } else {
            self.ahead()
        }
    }

    /// Carrying out the rest of the pending step is a part of carrying out
    /// the rest of the run, whether the step fails or not.
    pub proof fn lemma_obey_to_go(self, rule: Rule<T>)
        requires
            self.valid(),
            !(self.phase is Failed),
        ensures
            self.obey_many(rule, self.left()).obey_many(
                rule,
                self.obey_many(rule, self.left()).to_go(),
            ) == self.obey_many(rule, self.ahead()),
    {
        let n = self.bodies.len();
        let len = step_len(n) as int;
        let total = self.steps as int;
        let k = self.step as int;
        self.lemma_clock();
        self.lemma_obey_left(rule);
        let reached = self.obey_many(rule, self.left());
        if reached.phase is Failed {
            if let Phase::Working(t) = self.phase {
                lemma_task_at_cursor(n, t);
                if t is Record {
                    assert((k - 1) * len + len <= total * len) by (nonlinear_arith)
                        requires
                            k <= total,
                            len > 0,
                    ;
                } else {
                    assert(k * len + len <= total * len) by (nonlinear_arith)
                        requires
                            k < total,
                            len > 0,
                    ;
                }
            }
            assert(self.left() <= self.ahead());
            self.lemma_obey_split(rule, self.left(), (self.ahead() - self.left()) as nat);
            reached.lemma_over_stays(rule, (self.ahead() - self.left()) as nat);
        }
    }

    /// Taking the pending recording as made is the next task of the run.
    pub proof fn lemma_obey_recorded(self, rule: Rule<T>)
        requires
            self.valid(),
            self.phase == Phase::Working(Task::Record),
        ensures
            self.recorded().valid(),
            !(self.recorded().phase is Failed),
            self.ahead() == self.recorded().ahead() + 1,
            self.obey_many(rule, self.ahead()) == self.recorded().obey_many(
                rule,
                self.recorded().ahead(),
            ),
    {
        self.lemma_valid_kept(self.rest, self.rest);
        self.lemma_one_task_each(self.rest, self.rest);
        self.lemma_clock();
        self.recorded().lemma_clock();
        assert(self.obey(rule) == self.recorded());
    }

    /// After `k` steps the clock reads `k * TIMESTEP`, exactly: when a fresh
    /// run has carried out all tasks before the recording of its `k`-th step
    /// and has not failed, that recording is pending and the time to be
    /// recorded is `k` time steps.
    pub proof fn lemma_time_of_recording(
        bodies: Seq<Body<T>>,
        rest: [T; 3],
        steps: nat,
        rule: Rule<T>,
        k: nat,
    )
        requires
            bodies.len() <= usize::MAX,
            steps <= u64::MAX,
            cleared(rest),
            1 <= k <= steps,
        ensures
            k * step_len(bodies.len()) >= 1,
            ({
                let reached = Self::start(bodies, rest, steps).obey_many(
                    rule,
                    (k * step_len(bodies.len()) - 1) as nat,
                );
                !(reached.phase is Failed) ==> {
                    &&& reached.phase == Phase::Working(Task::Record)
                    &&& reached.step == k
                    &&& reached.time() == k * TIMESTEP
                }
            }),
    {
        let n = bodies.len();
        let len = step_len(n) as int;
        let first = Self::start(bodies, rest, steps);
        assert(emptied(bodies, rest).len() == n);
        assert(k * len >= len && k * len <= steps * len) by (nonlinear_arith)
            requires
                1 <= k <= steps,
                len >= 1,
        ;
        let count = (k * len - 1) as nat;
        Self::lemma_start(bodies, rest, steps);
        first.lemma_obey_counts(rule, count);
        let reached = first.obey_many(rule, count);
        if !(reached.phase is Failed) {
            reached.lemma_clock();
            assert(k * len - 1 == (k - 1) * len + (len - 1)) by (nonlinear_arith);
            lemma_fundamental_div_mod_converse(k * len - 1, len, k - 1, len - 1);
            lemma_fundamental_div_mod_converse(k * len, len, k as int, 0);
        }
    }
}

impl<T: Copy + PartialOrd + Default> Simulation<T> {
    /// Gathers every pull that the pending step still lacks, then moves every
    /// body, and returns where the run stands after that: at the recording
    /// of the step, or at a failure if `gather` found two bodies in one
    /// place. When no pull or position update is pending, nothing happens.
    ///
    /// `gather(sum, here, there, mass)` is called for each pending pull with
    /// the target's accumulator and position and the source's position and
    /// mass; it returns the new accumulator, or `None` if the positions
    /// coincide. `advance(position, last_position, accel)` is called for each
    /// body and returns its next position.
    pub fn carry_out<F, G>(&mut self, gather: F, advance: G) -> (phase: Phase) where
        F: Fn([T; 3], [T; 3], [T; 3], T) -> Option<[T; 3]>,
        G: Fn([T; 3], [T; 3], [T; 3]) -> [T; 3],

        requires
            old(self).wf(),
            forall|sum: [T; 3], here: [T; 3], there: [T; 3], mass: T|
                call_requires(gather, (sum, here, there, mass)),
            forall|position: [T; 3], last_position: [T; 3], accel: [T; 3]|
                call_requires(advance, (position, last_position, accel)),
        ensures
            final(self).wf(),
            phase == final(self)@.phase,
            !(phase matches Phase::Working(Task::Accumulate { .. })),
            !(phase matches Phase::Working(Task::Integrate { .. })),
            phase matches Phase::Failed(fault) ==> old(self)@.phase == phase
                || fault is Coincident,
            !old(self)@.phase.spec_busy() ==> final(self)@ == old(self)@,
            old(self)@.phase.spec_busy() ==> final(self)@.step == if phase is Working {
                old(self)@.step + 1
            } else {
                old(self)@.step
            },
            final(self)@.steps == old(self)@.steps,
            final(self)@.rest == old(self)@.rest,
            final(self)@.bodies.len() == old(self)@.bodies.len(),
            forall|i: int|
                0 <= i < old(self)@.bodies.len() ==> (#[trigger] final(self)@.bodies[i]).mass
                    == old(self)@.bodies[i].mass,
            forall|rule: Rule<T>| #[trigger]
                computes(gather, advance, rule) ==> final(self)@ == old(self)@.obey_many(
                    rule,
                    old(self)@.left(),
                ),
    {
        let mut phase = self.phase();
        proof {
            self.lemma_wf_valid();
        }
        while phase.busy()
            invariant
                self.wf(),
                phase == self@.phase,
                forall|sum: [T; 3], here: [T; 3], there: [T; 3], mass: T|
                    call_requires(gather, (sum, here, there, mass)),
                forall|position: [T; 3], last_position: [T; 3], accel: [T; 3]|
                    call_requires(advance, (position, last_position, accel)),
                phase matches Phase::Failed(fault) ==> old(self)@.phase == phase
                    || fault is Coincident,
                !old(self)@.phase.spec_busy() ==> self@ == old(self)@,
                old(self)@.phase.spec_busy() ==> self@.step == if phase == Phase::Working(
                    Task::Record,
                ) {
                    old(self)@.step + 1
                } else {
                    old(self)@.step
                },
                phase is Finished ==> !old(self)@.phase.spec_busy(),
                self@.steps == old(self)@.steps,
                self@.rest == old(self)@.rest,
                self@.bodies.len() == old(self)@.bodies.len(),
                forall|i: int|
                    0 <= i < old(self)@.bodies.len() ==> (#[trigger] self@.bodies[i]).mass == old(
                        self,
                    )@.bodies[i].mass,
                forall|rule: Rule<T>| #[trigger]
                    computes(gather, advance, rule) ==> self@.obey_many(rule, self@.left()) == old(
                        self,
                    )@.obey_many(rule, old(self)@.left()),
            decreases self@.left(),
        {
            let ghost before = self@;
            proof {
                self.lemma_wf_valid();
                if let Phase::Working(t) = before.phase {
                    lemma_task_at_cursor(before.bodies.len(), t);
                    lemma_successor(before.bodies.len(), t);
                }
            }
            match phase {
                Phase::Working(Task::Accumulate { target, source }) => {
                    let solar = self.system();
                    let out = gather(
                        solar.accel(target),
                        solar.position(target),
                        solar.position(source),
                        solar.mass(source),
                    );
                    match out {
                        Some(sum) => {
                            self.deposit(sum);
                        },
                        None => {
                            self.abort();
                        },
                    }
                    proof {
                        before.lemma_masses_fixed(before.rest, before.rest, 0);
                    }
                },
                Phase::Working(Task::Integrate { body }) => {
                    let solar = self.system();
                    let moved = advance(
                        solar.position(body),
                        solar.last_position(body),
                        solar.accel(body),
                    );
                    self.integrate(moved);
                },
                _ => {},
            }
            phase = self.phase();
            proof {
                assert forall|rule: Rule<T>| #[trigger]
                    computes(gather, advance, rule) implies self@.obey_many(rule, self@.left())
                    == old(self)@.obey_many(rule, old(self)@.left()) by {
                    assert(self@ == before.obey(rule));
                    assert(before.obey_many(rule, before.left()) == self@.obey_many(
                        rule,
                        (before.left() - 1) as nat,
                    ));
                    if self@.phase is Failed {
                        self@.lemma_over_stays(rule, (before.left() - 1) as nat);
                        self@.lemma_over_stays(rule, self@.left());
                    }
                }
            }
        }
        proof {
            assert forall|rule: Rule<T>| #[trigger]
                computes(gather, advance, rule) implies self@ == old(self)@.obey_many(
                rule,
                old(self)@.left(),
            ) by {
                if let Phase::Working(t) = self@.phase {
                    assert(t is Record);
                }
                assert(self@.left() == 0);
                assert(self@.obey_many(rule, 0) == self@);
            }
        }
        phase
    }
}

} // verus!
