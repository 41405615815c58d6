//! What stays the same along a run, and the symmetries of the formulas.
//!
//! The laws of a run hold for every rule that has the property named in the
//! law, and of every number of tasks carried out. The laws of the formulas
//! hold in every arithmetic that has the algebraic properties named in them;
//! exact arithmetic has them all, arithmetic that rounds has some of them.
use vstd::prelude::*;
use crate::scalar::Arithmetic;
use crate::TIMESTEP;
use crate::bodies::emptied;
use crate::bodies::Body;
use crate::run::gathered;
use crate::run::midway;
use crate::run::stepped;
use crate::run::Rule;
use crate::schedule::lemma_cursor_task_at;
use crate::schedule::Task;
use crate::simulation::cleared;
use crate::simulation::Phase;
use crate::simulation::State;

verus! {

/// Two bodies of one mass whose positions, now and one step ago, are each
/// other's image under `mirror`.
pub open spec fn mirrored<T>(bodies: Seq<Body<T>>, mirror: spec_fn([T; 3]) -> [T; 3]) -> bool {
    &&& bodies.len() == 2
    &&& bodies[0].mass == bodies[1].mass
    &&& bodies[1].position == mirror(bodies[0].position)
    &&& bodies[1].last_position == mirror(bodies[0].last_position)
}

impl<T> Rule<T> {
    /// The rule cannot tell a configuration from its mirror image: `mirror`
    /// undoes itself, leaves the empty accumulator alone, and commutes with
    /// both functions of the rule.
    pub open spec fn respects(self, mirror: spec_fn([T; 3]) -> [T; 3], rest: [T; 3]) -> bool {
        &&& forall|v: [T; 3]| #[trigger] mirror(mirror(v)) == v
        &&& mirror(rest) == rest
        &&& forall|sum: [T; 3], here: [T; 3], there: [T; 3], mass: T|
            (self.gather)(mirror(sum), mirror(here), mirror(there), mass) == #[trigger] mirror(
                (self.gather)(sum, here, there, mass),
            )
        &&& forall|position: [T; 3], last_position: [T; 3], accel: [T; 3]|
            (self.advance)(mirror(position), mirror(last_position), mirror(accel))
                == #[trigger] mirror((self.advance)(position, last_position, accel))
    }

    /// A whole step takes a mirrored pair to a mirrored pair.
    pub proof fn lemma_step_keeps_mirror(
        self,
        mirror: spec_fn([T; 3]) -> [T; 3],
        rest: [T; 3],
        bodies: Seq<Body<T>>,
    )
        requires
            self.respects(mirror, rest),
            mirrored(bodies, mirror),
        ensures
            mirrored(stepped(self, bodies, rest), mirror),
    {
        let a = bodies[0];
        let b = bodies[1];
        assert(mirror(mirror(a.position)) == a.position);
        assert(gathered(self, bodies, rest, 0, 0) == rest);
        assert(gathered(self, bodies, rest, 0, 1) == rest);
        let on_a = (self.gather)(rest, a.position, b.position, b.mass);
        assert(gathered(self, bodies, rest, 0, 2) == on_a);
        assert(gathered(self, bodies, rest, 1, 0) == rest);
        let on_b = (self.gather)(rest, b.position, a.position, a.mass);
        assert(gathered(self, bodies, rest, 1, 1) == on_b);
        assert(gathered(self, bodies, rest, 1, 2) == on_b);
        assert(mirror(on_a) == on_b);
        let moved_a = (self.advance)(a.position, a.last_position, on_a);
        let moved_b = (self.advance)(b.position, b.last_position, on_b);
        assert(mirror(moved_a) == moved_b);
    }
}

impl<T: Default> State<T> {
    /// A body that is alone and at rest stays where it is: as long as the
    /// rule moves a body nowhere when it has not moved before and has
    /// gathered nothing, no task ever changes the body, and no pull is ever
    /// pending.
    pub proof fn lemma_lone_body_stays(self, rule: Rule<T>, count: nat)
        requires
            self.valid(),
            !(self.phase is Failed),
            self.bodies.len() == 1,
            self.bodies[0].last_position == self.bodies[0].position,
            (rule.advance)(self.bodies[0].position, self.bodies[0].position, self.rest)
                == self.bodies[0].position,
        ensures
            self.obey_many(rule, count).bodies == self.bodies,
            self.bodies[0].accel == self.rest,
            !(self.obey_many(rule, count).phase matches Phase::Working(
                Task::Accumulate { .. },
            )),
            !(self.obey_many(rule, count).phase is Failed),
        decreases count,
    {
        assert(self.untouched(0));
        if count > 0 {
            let next = self.obey(rule);
            lemma_cursor_task_at(1, 0);
            match self.phase {
                Phase::Working(Task::Integrate { body }) => {
                    self.lemma_valid_kept(self.bodies[0].position, self.bodies[0].position);
                    assert(next.bodies =~= self.bodies);
                },
                _ => {
                    self.lemma_valid_kept(self.rest, self.rest);
                },
            }
            next.lemma_lone_body_stays(rule, (count - 1) as nat);
        }
    }

    /// The same, of a fresh run over one body at rest: whatever number of
    /// tasks has been carried out, the body is where it began.
    pub proof fn lemma_lone_body_never_moves(
        body: Body<T>,
        rest: [T; 3],
        steps: nat,
        rule: Rule<T>,
        count: nat,
    )
        requires
            steps <= u64::MAX,
            cleared(rest),
            body.last_position == body.position,
            (rule.advance)(body.position, body.position, rest) == body.position,
        ensures
            Self::start(seq![body], rest, steps).obey_many(rule, count).bodies == seq![
                Body { accel: rest, ..body },
            ],
    {
        let first = Self::start(seq![body], rest, steps);
        Self::lemma_start(seq![body], rest, steps);
        assert(first.bodies =~= seq![Body { accel: rest, ..body }]);
        first.lemma_lone_body_stays(rule, count);
    }

    /// Along a run by a rule that respects the mirror, a step that began
    /// with a mirrored pair ends with a mirrored pair, and so does every
    /// later step, for as long as the run does not fail.
    pub proof fn lemma_mirror_kept(
        self,
        rule: Rule<T>,
        mirror: spec_fn([T; 3]) -> [T; 3],
        origin: Seq<Body<T>>,
        count: nat,
    )
        requires
            self.valid(),
            !(self.phase is Failed),
            rule.respects(mirror, self.rest),
            mirrored(origin, mirror),
            self.phase matches Phase::Working(t) ==> self.bodies == midway(
                rule,
                origin,
                self.rest,
                t,
            ),
            self.phase is Finished ==> self.bodies == origin,
        ensures
            self.obey_many(rule, count).phase == Phase::Working(Task::Record) ==> mirrored(
                self.obey_many(rule, count).bodies,
                mirror,
            ),
            self.obey_many(rule, count).phase is Finished ==> mirrored(
                self.obey_many(rule, count).bodies,
                mirror,
            ),
        decreases count,
    {
        let after = stepped(rule, origin, self.rest);
        rule.lemma_step_keeps_mirror(mirror, self.rest, origin);
        if count > 0 {
            let next = self.obey(rule);
            match self.phase {
                Phase::Working(Task::Record) => {
                    self.lemma_valid_kept(self.rest, self.rest);
                    if next.phase is Working {
                        next.lemma_step_opens(rule);
                    }
                    next.lemma_mirror_kept(rule, mirror, after, (count - 1) as nat);
                },
                Phase::Working(t) => {
                    if next.phase is Failed {
                        next.lemma_over_stays(rule, (count - 1) as nat);
                    } else {
                        if let Task::Accumulate { target, source } = t {
                            assert(self.bodies[target as int].position
                                == origin[target as int].position);
                            assert(self.bodies[source as int].position
                                == origin[source as int].position);
                        }
                        self.lemma_obey_once(rule, origin, t);
                        next.lemma_mirror_kept(rule, mirror, origin, (count - 1) as nat);
                    }
                },
                _ => {
                    next.lemma_mirror_kept(rule, mirror, origin, (count - 1) as nat);
                },
            }
        }
    }

    /// Two bodies of one mass that start as each other's mirror image are
    /// each other's mirror image whenever a step is complete, for every rule
    /// that respects the mirror.
    pub proof fn lemma_mirrored_pair(
        bodies: Seq<Body<T>>,
        rest: [T; 3],
        steps: nat,
        rule: Rule<T>,
        mirror: spec_fn([T; 3]) -> [T; 3],
        count: nat,
    )
        requires
            steps <= u64::MAX,
            cleared(rest),
            rule.respects(mirror, rest),
            mirrored(bodies, mirror),
        ensures
            Self::start(bodies, rest, steps).obey_many(rule, count).phase == Phase::Working(
                Task::Record,
            ) ==> mirrored(Self::start(bodies, rest, steps).obey_many(rule, count).bodies, mirror),
            Self::start(bodies, rest, steps).obey_many(rule, count).phase is Finished ==> mirrored(
                Self::start(bodies, rest, steps).obey_many(rule, count).bodies,
                mirror,
            ),
    {
        let first = Self::start(bodies, rest, steps);
        Self::lemma_start(bodies, rest, steps);
        assert(mirrored(emptied(bodies, rest), mirror));
        if first.phase is Working {
            first.lemma_step_opens(rule);
        }
        first.lemma_mirror_kept(rule, mirror, first.bodies, count);
    }
}

/// The vector `v` with `neg` applied to each component: its image under the
/// reflection about the origin when `neg` is the change of sign.
pub open spec fn reflected<T>(neg: spec_fn(T) -> T, v: [T; 3]) -> [T; 3] {
    [neg(v[0]), neg(v[1]), neg(v[2])]
}

impl<T> Arithmetic<T> {
    /// `neg` behaves as the change of sign does: it undoes itself, leaves
    /// zero alone, turns a difference round, passes through sums,
    /// differences and products, and cancels in a square.
    pub open spec fn signed(self, neg: spec_fn(T) -> T) -> bool {
        &&& forall|x: T| #[trigger] neg(neg(x)) == x
        &&& neg(self.zero) == self.zero
        &&& forall|a: T, b: T| #[trigger] (self.difference)(b, a) == neg((self.difference)(a, b))
        &&& forall|a: T, b: T| #[trigger] (self.sum)(neg(a), neg(b)) == neg((self.sum)(a, b))
        &&& forall|a: T, b: T| #[trigger]
            (self.difference)(neg(a), neg(b)) == neg((self.difference)(a, b))
        &&& forall|s: T, a: T| #[trigger] (self.product)(s, neg(a)) == neg((self.product)(s, a))
        &&& forall|a: T| #[trigger] (self.product)(neg(a), neg(a)) == (self.product)(a, a)
    }

    /// Products may be regrouped and turned round, and a factor may be
    /// moved into the numerator of a quotient.
    pub open spec fn regroups(self) -> bool {
        &&& forall|a: T, b: T| #[trigger] (self.product)(a, b) == (self.product)(b, a)
        &&& forall|a: T, b: T, c: T| #[trigger]
            (self.product)(a, (self.product)(b, c)) == (self.product)((self.product)(a, b), c)
        &&& forall|c: T, a: T, d: T| #[trigger]
            (self.product)(c, (self.quotient)(a, d)) == (self.quotient)((self.product)(c, a), d)
    }

    /// The square of the distance is the same in both directions.
    pub proof fn lemma_distance_both_ways(self, neg: spec_fn(T) -> T, a: [T; 3], b: [T; 3])
        requires
            self.signed(neg),
        ensures
            self.squared_distance(b, a) == self.squared_distance(a, b),
            self.v_difference(b, a) == reflected(neg, self.v_difference(a, b)),
    {
        let d = self.v_difference(a, b);
        let e = self.v_difference(b, a);
        assert(e[0] == neg(d[0]) && e[1] == neg(d[1]) && e[2] == neg(d[2]));
        assert((self.product)(neg(d[0]), neg(d[0])) == (self.product)(d[0], d[0]));
        assert((self.product)(neg(d[1]), neg(d[1])) == (self.product)(d[1], d[1]));
        assert((self.product)(neg(d[2]), neg(d[2])) == (self.product)(d[2], d[2]));
        assert(e =~= reflected(neg, d));
    }

    /// Newton's third law. The pull of one body on another, times the mass
    /// of the body that is pulled, is the opposite of the pull the other way
    /// round times the other mass: the two forces of a pair cancel.
    pub proof fn lemma_third_law(
        self,
        neg: spec_fn(T) -> T,
        here: [T; 3],
        there: [T; 3],
        mass_here: T,
        mass_there: T,
    )
        requires
            self.signed(neg),
            self.regroups(),
        ensures
            self.v_scaled(self.pull(here, there, mass_there), mass_here) == reflected(
                neg,
                self.v_scaled(self.pull(there, here, mass_here), mass_there),
            ),
    {
        self.lemma_distance_both_ways(neg, here, there);
        let d2 = self.squared_distance(here, there);
        let k = (self.quotient)((self.count)(1), (self.square_root)(d2));
        let g = self.gravity;
        let q_there = (self.quotient)((self.product)(g, mass_there), d2);
        let q_here = (self.quotient)((self.product)(g, mass_here), d2);
        let toward = self.v_difference(there, here);
        let back = self.v_difference(here, there);
        self.lemma_distance_both_ways(neg, there, here);
        assert(back == reflected(neg, toward));
        // the two masses meet the same factor
        assert((self.product)(mass_here, q_there) == (self.product)(mass_there, q_here)) by {
            assert((self.product)(mass_here, q_there) == (self.quotient)(
                (self.product)(mass_here, (self.product)(g, mass_there)),
                d2,
            ));
            assert((self.product)(mass_there, q_here) == (self.quotient)(
                (self.product)(mass_there, (self.product)(g, mass_here)),
                d2,
            ));
            assert((self.product)(mass_here, (self.product)(g, mass_there)) == (self.product)(
                (self.product)(mass_here, g),
                mass_there,
            ));
            assert((self.product)(mass_here, g) == (self.product)(g, mass_here));
            assert((self.product)((self.product)(g, mass_here), mass_there) == (self.product)(
                mass_there,
                (self.product)(g, mass_here),
            ));
        }
        let on_here = self.v_scaled(self.pull(here, there, mass_there), mass_here);
        let on_there = self.v_scaled(self.pull(there, here, mass_here), mass_there);
        assert forall|c: int| 0 <= c < 3 implies on_here[c] == neg(on_there[c]) by {
            let u = (self.product)(k, toward[c]);
            assert(back[c] == neg(toward[c]));
            assert((self.product)(k, neg(toward[c])) == neg(u));
            assert(self.pull(here, there, mass_there)[c] == (self.product)(q_there, u));
            assert(self.pull(there, here, mass_here)[c] == (self.product)(q_here, neg(u)));
            assert((self.product)(q_here, neg(u)) == neg((self.product)(q_here, u)));
            let v = (self.product)(q_here, u);
            assert((self.product)(mass_there, neg(v)) == neg((self.product)(mass_there, v)));
            assert(neg(neg((self.product)(mass_there, v))) == (self.product)(mass_there, v));
            assert((self.product)(mass_here, (self.product)(q_there, u)) == (self.product)(
                (self.product)(mass_here, q_there),
                u,
            ));
            assert((self.product)(mass_there, (self.product)(q_here, u)) == (self.product)(
                (self.product)(mass_there, q_here),
                u,
            ));
        }
        assert(on_here =~= reflected(neg, on_there));
    }

    /// The formulas cannot tell a configuration from its image under the
    /// reflection about the origin.
    pub proof fn lemma_physics_respects(self, neg: spec_fn(T) -> T)
        requires
            self.signed(neg),
        ensures
            self.physics().respects(|v: [T; 3]| reflected(neg, v), self.v_zero()),
    {
        let mirror = |v: [T; 3]| reflected(neg, v);
        let rule = self.physics();
        assert forall|v: [T; 3]| #[trigger] mirror(mirror(v)) == v by {
            assert(neg(neg(v[0])) == v[0] && neg(neg(v[1])) == v[1] && neg(neg(v[2])) == v[2]);
            assert(mirror(mirror(v)) =~= v);
        }
        assert(mirror(self.v_zero()) =~= self.v_zero());
        assert forall|sum: [T; 3], here: [T; 3], there: [T; 3], mass: T|
            (rule.gather)(mirror(sum), mirror(here), mirror(there), mass) == #[trigger] mirror(
                (rule.gather)(sum, here, there, mass),
            ) by {
            self.lemma_pull_reflects(neg, here, there, mass);
            let pull = self.pull(here, there, mass);
            self.lemma_v_sum_reflects(neg, sum, pull);
        }
        assert forall|position: [T; 3], last_position: [T; 3], accel: [T; 3]|
            (rule.advance)(mirror(position), mirror(last_position), mirror(accel))
                == #[trigger] mirror((rule.advance)(position, last_position, accel)) by {
            let two = (self.count)(2);
            let h = (self.product)((self.count)(TIMESTEP), (self.count)(TIMESTEP));
            self.lemma_v_scaled_reflects(neg, position, two);
            self.lemma_v_scaled_reflects(neg, accel, h);
            self.lemma_v_difference_reflects(neg, self.v_scaled(position, two), last_position);
            self.lemma_v_sum_reflects(
                neg,
                self.v_difference(self.v_scaled(position, two), last_position),
                self.v_scaled(accel, h),
            );
        }
    }

    /// Reflection passes through the sum of two vectors.
    pub proof fn lemma_v_sum_reflects(self, neg: spec_fn(T) -> T, a: [T; 3], b: [T; 3])
        requires
            self.signed(neg),
        ensures
            self.v_sum(reflected(neg, a), reflected(neg, b)) == reflected(neg, self.v_sum(a, b)),
    {
        assert((self.sum)(neg(a[0]), neg(b[0])) == neg((self.sum)(a[0], b[0])));
        assert((self.sum)(neg(a[1]), neg(b[1])) == neg((self.sum)(a[1], b[1])));
        assert((self.sum)(neg(a[2]), neg(b[2])) == neg((self.sum)(a[2], b[2])));
        assert(self.v_sum(reflected(neg, a), reflected(neg, b)) =~= reflected(
            neg,
            self.v_sum(a, b),
        ));
    }

    /// Reflection passes through the difference of two vectors.
    pub proof fn lemma_v_difference_reflects(self, neg: spec_fn(T) -> T, a: [T; 3], b: [T; 3])
        requires
            self.signed(neg),
        ensures
            self.v_difference(reflected(neg, a), reflected(neg, b)) == reflected(
                neg,
                self.v_difference(a, b),
            ),
    {
        assert((self.difference)(neg(a[0]), neg(b[0])) == neg((self.difference)(a[0], b[0])));
        assert((self.difference)(neg(a[1]), neg(b[1])) == neg((self.difference)(a[1], b[1])));
        assert((self.difference)(neg(a[2]), neg(b[2])) == neg((self.difference)(a[2], b[2])));
        assert(self.v_difference(reflected(neg, a), reflected(neg, b)) =~= reflected(
            neg,
            self.v_difference(a, b),
        ));
    }

    /// Reflection passes through the scaling of a vector.
    pub proof fn lemma_v_scaled_reflects(self, neg: spec_fn(T) -> T, v: [T; 3], s: T)
        requires
            self.signed(neg),
        ensures
            self.v_scaled(reflected(neg, v), s) == reflected(neg, self.v_scaled(v, s)),
    {
        assert((self.product)(s, neg(v[0])) == neg((self.product)(s, v[0])));
        assert((self.product)(s, neg(v[1])) == neg((self.product)(s, v[1])));
        assert((self.product)(s, neg(v[2])) == neg((self.product)(s, v[2])));
        assert(self.v_scaled(reflected(neg, v), s) =~= reflected(neg, self.v_scaled(v, s)));
    }

    /// The pull between two reflected positions is the reflected pull.
    pub proof fn lemma_pull_reflects(self, neg: spec_fn(T) -> T, here: [T; 3], there: [T; 3], mass: T)
        requires
            self.signed(neg),
        ensures
            self.pull(reflected(neg, here), reflected(neg, there), mass) == reflected(
                neg,
                self.pull(here, there, mass),
            ),
            self.squared_distance(reflected(neg, here), reflected(neg, there))
                == self.squared_distance(here, there),
    {
        let d = self.v_difference(here, there);
        self.lemma_v_difference_reflects(neg, here, there);
        self.lemma_v_difference_reflects(neg, there, here);
        assert((self.product)(neg(d[0]), neg(d[0])) == (self.product)(d[0], d[0]));
        assert((self.product)(neg(d[1]), neg(d[1])) == (self.product)(d[1], d[1]));
        assert((self.product)(neg(d[2]), neg(d[2])) == (self.product)(d[2], d[2]));
        let d2 = self.squared_distance(here, there);
        assert(self.squared_distance(reflected(neg, here), reflected(neg, there)) == d2);
        let k = (self.quotient)((self.count)(1), (self.square_root)(d2));
        self.lemma_v_scaled_reflects(neg, self.v_difference(there, here), k);
        let q = (self.quotient)((self.product)(self.gravity, mass), d2);
        self.lemma_v_scaled_reflects(neg, self.unit_direction(here, there, d2), q);
    }

    /// A body at rest that has gathered nothing is moved nowhere by the
    /// position update, as long as, for each coordinate `x` of its position,
    /// twice `x` minus `x` is `x`, a multiple of zero is zero, and `x` plus
    /// zero is `x`.
    pub proof fn lemma_rest_stays(self, position: [T; 3])
        requires
            forall|c: int|
                0 <= c < 3 ==> (self.difference)(
                    (self.product)((self.count)(2), #[trigger] position[c]),
                    position[c],
                ) == position[c],
            (self.product)(
                (self.product)((self.count)(TIMESTEP), (self.count)(TIMESTEP)),
                self.zero,
            ) == self.zero,
            forall|c: int| 0 <= c < 3 ==> (self.sum)(#[trigger] position[c], self.zero) == position[c],
        ensures
            self.next_position(position, position, self.v_zero()) == position,
            (self.physics().advance)(position, position, self.v_zero()) == position,
    {
        let two = (self.count)(2);
        let doubled = self.v_scaled(position, two);
        let kept = self.v_difference(doubled, position);
        assert(kept[0] == position[0] && kept[1] == position[1] && kept[2] == position[2]);
        assert(kept =~= position);
        let h = (self.product)((self.count)(TIMESTEP), (self.count)(TIMESTEP));
        assert(self.v_scaled(self.v_zero(), h) =~= self.v_zero());
        assert(self.v_sum(position, self.v_zero()) =~= position);
    }
}

impl<T: Default> State<T> {
    /// Two equal masses at rest in places that are each other's reflection
    /// about the origin stay each other's reflection at the end of every
    /// step of a run by the formulas, in every arithmetic in which `neg`
    /// behaves as the change of sign does.
    pub proof fn lemma_reflected_pair(
        arith: Arithmetic<T>,
        neg: spec_fn(T) -> T,
        bodies: Seq<Body<T>>,
        steps: nat,
        count: nat,
    )
        requires
            steps <= u64::MAX,
            cleared(arith.v_zero()),
            arith.signed(neg),
            mirrored(bodies, |v: [T; 3]| reflected(neg, v)),
        ensures
            ({
                let reached = Self::start(bodies, arith.v_zero(), steps).obey_many(
                    arith.physics(),
                    count,
                );
                reached.phase == Phase::Working(Task::Record) || reached.phase is Finished
                    ==> mirrored(reached.bodies, |v: [T; 3]| reflected(neg, v))
            }),
    {
        arith.lemma_physics_respects(neg);
        Self::lemma_mirrored_pair(
            bodies,
            arith.v_zero(),
            steps,
            arith.physics(),
            |v: [T; 3]| reflected(neg, v),
            count,
        );
    }

    /// A lone body at rest never moves in a run by the formulas: no pull is
    /// gathered for it, and the position update maps its position to itself,
    /// as long as, for each coordinate `x` of that position, twice `x` minus
    /// `x` is `x`, a multiple of zero is zero, and `x` plus zero is `x`.
    pub proof fn lemma_lone_body_at_rest(
        arith: Arithmetic<T>,
        body: Body<T>,
        steps: nat,
        count: nat,
    )
        requires
            steps <= u64::MAX,
            cleared(arith.v_zero()),
            body.last_position == body.position,
            forall|c: int|
                0 <= c < 3 ==> (arith.difference)(
                    (arith.product)((arith.count)(2), #[trigger] body.position[c]),
                    body.position[c],
                ) == body.position[c],
            (arith.product)(
                (arith.product)((arith.count)(TIMESTEP), (arith.count)(TIMESTEP)),
                arith.zero,
            ) == arith.zero,
            forall|c: int|
                0 <= c < 3 ==> (arith.sum)(#[trigger] body.position[c], arith.zero)
                    == body.position[c],
        ensures
            Self::start(seq![body], arith.v_zero(), steps).obey_many(
                arith.physics(),
                count,
            ).bodies == seq![Body { accel: arith.v_zero(), ..body }],
    {
        arith.lemma_rest_stays(body.position);
        Self::lemma_lone_body_never_moves(body, arith.v_zero(), steps, arith.physics(), count);
    }
}

} // verus!
