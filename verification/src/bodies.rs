//! The body store: one record per point mass, kept as parallel arrays.
use vstd::prelude::*;

verus! {

/// A point mass: its mass, where it is, where it was one step ago, and the
/// acceleration gathered for it so far in the current step.
///
/// There is no velocity field; the pair of positions stands for it.
#[derive(Debug, PartialEq)]
pub struct Body<T> {
    pub mass: T,
    pub position: [T; 3],
    pub last_position: [T; 3],
    pub accel: [T; 3],
}

impl<T: Copy> Copy for Body<T> {

}

impl<T: Copy> Clone for Body<T> {
    fn clone(&self) -> (copy: Self)
        ensures
            copy == *self,
    {
        *self
    }
}

/// Why a store could not be built.
#[derive(Clone, Copy, Debug, PartialEq, Eq)]
pub enum InitError {
    /// The four arrays do not have one length.
    LengthMismatch,
    /// The mass of body `index` is not greater than zero; no body before it
    /// has that fault.
    NonPositiveMass { index: usize },
}

/// `mass > T::default()` can come out true: the mass is greater than zero.
pub open spec fn positive<T: PartialOrd + Default>(mass: T) -> bool {
    exists|zero: T|
        call_ensures(T::default, (), zero) && #[trigger] call_ensures(
            T::gt,
            (&mass, &zero),
            true,
        )
}

/// `mass > T::default()` can come out false: the mass is zero, below zero,
/// or not comparable with zero. For a type whose comparison has one answer
/// this is the opposite of `positive`.
pub open spec fn refused<T: PartialOrd + Default>(mass: T) -> bool {
    exists|zero: T|
        call_ensures(T::default, (), zero) && #[trigger] call_ensures(
            T::gt,
            (&mass, &zero),
            false,
        )
}

/// The bodies that four parallel arrays of one length spell out.
pub open spec fn assembled<T>(
    mass: Seq<T>,
    position: Seq<[T; 3]>,
    last_position: Seq<[T; 3]>,
    accel: Seq<[T; 3]>,
) -> Seq<Body<T>> {
    Seq::new(
        mass.len(),
        |i: int|
            Body {
                mass: mass[i],
                position: position[i],
                last_position: last_position[i],
                accel: accel[i],
            },
    )
}

/// The same bodies with every accumulator set to `rest`.
pub open spec fn emptied<T>(bodies: Seq<Body<T>>, rest: [T; 3]) -> Seq<Body<T>> {
    Seq::new(bodies.len(), |i: int| Body { accel: rest, ..bodies[i] })
}

/// All bodies of a simulation, stored field by field.
///
/// Index `i` names the same body in each of the four arrays. The view is the
/// sequence of bodies that the arrays spell out.
#[derive(Debug)]
pub struct SolarSystem<T> {
    mass: Vec<T>,
    position: Vec<[T; 3]>,
    last_position: Vec<[T; 3]>,
    accel: Vec<[T; 3]>,
}

impl<T> View for SolarSystem<T> {
    type V = Seq<Body<T>>;

    closed spec fn view(&self) -> Seq<Body<T>> {
        assembled(self.mass@, self.position@, self.last_position@, self.accel@)
    }
}

impl<T: Copy + PartialOrd + Default> SolarSystem<T> {
    /// The four arrays have one length, which fits a machine word, and every
    /// mass is greater than zero.
    pub closed spec fn wf(&self) -> bool {
        &&& self.mass@.len() <= usize::MAX
        &&& self.position@.len() == self.mass@.len()
        &&& self.last_position@.len() == self.mass@.len()
        &&& self.accel@.len() == self.mass@.len()
        &&& forall|i: int| 0 <= i < self.mass@.len() ==> positive(#[trigger] self.mass@[i])
    }

    /// Every body of a store has a mass greater than zero.
    pub proof fn lemma_masses_positive(&self, i: int)
        requires
            self.wf(),
            0 <= i < self@.len(),
        ensures
            positive(self@[i].mass),
    {
    }

    /// The number of bodies fits a machine word.
    pub proof fn lemma_len_fits(&self)
        requires
            self.wf(),
        ensures
            self@.len() <= usize::MAX,
    {
    }

    /// Number of bodies.
    pub fn len(&self) -> (n: usize)
        ensures
            n == self@.len(),
    {
        self.mass.len()
    }

    /// Mass of body `index`.
    pub fn mass(&self, index: usize) -> (m: T)
        requires
            self.wf(),
            index < self@.len(),
        ensures
            m == self@[index as int].mass,
    {
        self.mass[index]
    }

    /// Current position of body `index`.
    pub fn position(&self, index: usize) -> (p: [T; 3])
        requires
            self.wf(),
            index < self@.len(),
        ensures
            p == self@[index as int].position,
    {
        self.position[index]
    }

    /// Position of body `index` one step ago.
    pub fn last_position(&self, index: usize) -> (p: [T; 3])
        requires
            self.wf(),
            index < self@.len(),
        ensures
            p == self@[index as int].last_position,
    {
        self.last_position[index]
    }

    /// Acceleration gathered so far for body `index`.
    pub fn accel(&self, index: usize) -> (a: [T; 3])
        requires
            self.wf(),
            index < self@.len(),
        ensures
            a == self@[index as int].accel,
    {
        self.accel[index]
    }

    /// Body `index` as one record.
    pub fn body(&self, index: usize) -> (b: Body<T>)
        requires
            self.wf(),
            index < self@.len(),
        ensures
            b == self@[index as int],
    {
        Body {
            mass: self.mass[index],
            position: self.position[index],
            last_position: self.last_position[index],
            accel: self.accel[index],
        }
    }

    /// Replaces the accumulator of body `index`; nothing else changes.
    pub fn set_accel(&mut self, index: usize, accel: [T; 3])
        requires
            old(self).wf(),
            index < old(self)@.len(),
        ensures
            final(self).wf(),
            final(self)@ == old(self)@.update(
                index as int,
                (Body { accel: accel, ..old(self)@[index as int] }),
            ),
    {
        self.accel.set(index, accel);
    }

    /// Moves body `index` on: the current position becomes the previous
    /// one, `new_position` becomes the current one, and the accumulator is
    /// set to `rest`, the value an empty accumulator has. Mass and all other
    /// bodies stay as they are.
    pub fn shift(&mut self, index: usize, new_position: [T; 3], rest: [T; 3])
        requires
            old(self).wf(),
            index < old(self)@.len(),
        ensures
            final(self).wf(),
            final(self)@ == old(self)@.update(
                index as int,
                (Body {
                    mass: old(self)@[index as int].mass,
                    position: new_position,
                    last_position: old(self)@[index as int].position,
                    accel: rest,
                }),
            ),
    {
        let hold = self.position[index];
        self.position.set(index, new_position);
        self.last_position.set(index, hold);
        self.accel.set(index, rest);
    }

    /// Sets the accumulator of every body to `rest`; nothing else changes.
    pub fn clear_accels(&mut self, rest: [T; 3])
        requires
            old(self).wf(),
        ensures
            final(self).wf(),
            final(self)@ == emptied(old(self)@, rest),
    {
        let n = self.accel.len();
        let mut i: usize = 0;
        while i < n
            invariant
                i <= n,
                n == self.accel@.len(),
                self.wf(),
                self.mass@ == old(self).mass@,
                self.position@ == old(self).position@,
                self.last_position@ == old(self).last_position@,
                forall|k: int| 0 <= k < i ==> #[trigger] self.accel@[k] == rest,
            decreases n - i,
        {
            self.accel.set(i, rest);
            i += 1;
        }
    }
}

/// The index of the first mass that is not greater than zero, if there is
/// one.
fn first_non_positive<T: Copy + PartialOrd + Default>(mass: &Vec<T>) -> (found: Option<usize>)
    ensures
        (match found {
            Some(index) => {
                &&& index < mass@.len()
                &&& refused(mass@[index as int])
                &&& forall|j: int| 0 <= j < index ==> positive(#[trigger] mass@[j])
            },
            None => forall|j: int| 0 <= j < mass@.len() ==> positive(#[trigger] mass@[j]),
        }),
{
    let zero = T::default();
    let mut i: usize = 0;
    while i < mass.len()
        invariant
            i <= mass@.len(),
            call_ensures(T::default, (), zero),
            forall|j: int| 0 <= j < i ==> positive(#[trigger] mass@[j]),
        decreases mass.len() - i,
    {
        if !(mass[i] > zero) {
            return Some(i);
        }
        i += 1;
    }
    None
}

/// Builds a store from four parallel arrays: body `i` is made of the `i`-th
/// entry of each. Fails when the lengths differ, and otherwise at the first
/// mass that is not greater than zero.
pub fn from_arrays<T: Copy + PartialOrd + Default>(
    mass: Vec<T>,
    position: Vec<[T; 3]>,
    last_position: Vec<[T; 3]>,
    accel: Vec<[T; 3]>,
) -> (built: Result<SolarSystem<T>, InitError>)
    ensures
        (match built {
            Ok(solar) => {
                &&& solar.wf()
                &&& position@.len() == mass@.len()
                &&& last_position@.len() == mass@.len()
                &&& accel@.len() == mass@.len()
                &&& solar@ == assembled(mass@, position@, last_position@, accel@)
                &&& forall|i: int| 0 <= i < mass@.len() ==> positive(#[trigger] mass@[i])
            },
            Err(InitError::LengthMismatch) => !(position@.len() == mass@.len()
                && last_position@.len() == mass@.len() && accel@.len() == mass@.len()),
            Err(InitError::NonPositiveMass { index }) => {
                &&& position@.len() == mass@.len()
                &&& last_position@.len() == mass@.len()
                &&& accel@.len() == mass@.len()
                &&& index < mass@.len()
                &&& refused(mass@[index as int])
                &&& forall|j: int| 0 <= j < index ==> positive(#[trigger] mass@[j])
            },
        }),
{
    if position.len() != mass.len() || last_position.len() != mass.len() || accel.len()
        != mass.len() {
        return Err(InitError::LengthMismatch);
    }
    match first_non_positive(&mass) {
        Some(index) => Err(InitError::NonPositiveMass { index }),
        None => Ok(SolarSystem { mass, position, last_position, accel }),
    }
}

/// Lays a list of bodies out as parallel arrays, keeping their order. Fails
/// at the first body whose mass is not greater than zero.
pub fn solar_init<T: Copy + PartialOrd + Default>(system: Vec<Body<T>>) -> (built: Result<
    SolarSystem<T>,
    InitError,
>)
    ensures
        (match built {
            Ok(solar) => {
                &&& solar.wf()
                &&& solar@ == system@
                &&& forall|i: int| 0 <= i < system@.len() ==> positive((#[trigger] system@[i]).mass)
            },
            Err(InitError::LengthMismatch) => false,
            Err(InitError::NonPositiveMass { index }) => {
                &&& index < system@.len()
                &&& refused(system@[index as int].mass)
                &&& forall|j: int| 0 <= j < index ==> positive((#[trigger] system@[j]).mass)
            },
        }),
{
    let mut mass: Vec<T> = Vec::new();
    let mut position: Vec<[T; 3]> = Vec::new();
    let mut last_position: Vec<[T; 3]> = Vec::new();
    let mut accel: Vec<[T; 3]> = Vec::new();
    let mut i: usize = 0;
    while i < system.len()
        invariant
            i <= system.len(),
            mass@.len() == i,
            position@.len() == i,
            last_position@.len() == i,
            accel@.len() == i,
            forall|k: int|
                0 <= k < i ==> {
                    &&& mass@[k] == (#[trigger] system@[k]).mass
                    &&& position@[k] == system@[k].position
                    &&& last_position@[k] == system@[k].last_position
                    &&& accel@[k] == system@[k].accel
                },
        decreases system.len() - i,
    {
        let b = system[i];
        mass.push(b.mass);
        position.push(b.position);
        last_position.push(b.last_position);
        accel.push(b.accel);
        i += 1;
    }
    match first_non_positive(&mass) {
        Some(index) => Err(InitError::NonPositiveMass { index }),
        None => {
            let solar = SolarSystem { mass, position, last_position, accel };
            assert(solar@ =~= system@);
            Ok(solar)
        },
    }
}

} // verus!
