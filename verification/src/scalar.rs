//! The numbers of a simulation.
//!
//! Coordinates and masses are values of a type that offers the five
//! operations of the formulas and two constants. Nothing is assumed of these
//! operations in the code. What a function of this crate computes is stated
//! for every arithmetic that the type obeys: for every choice of
//! mathematical functions that its operations never depart from.
use vstd::prelude::*;

verus! {

/// A number type for coordinates and masses. `Default` supplies its zero,
/// `==` tells whether two numbers are equal and `>` whether a mass is
/// greater than zero.
pub trait Scalar: Copy + PartialOrd + Default {
    /// `self + other`
    fn plus(self, other: Self) -> Self;

    /// `self - other`
    fn minus(self, other: Self) -> Self;

    /// `self * other`
    fn times(self, other: Self) -> Self;

    /// `self / other`
    fn over(self, other: Self) -> Self;

    /// The square root of `self`.
    fn root(self) -> Self;

    /// The whole number `n` as a scalar.
    fn from_count(n: u64) -> Self;

    /// The gravitational constant, in the units of the simulation.
    fn gravity() -> Self;
}

/// An arithmetic on `T`, as mathematical functions and constants.
#[verifier::reject_recursive_types(T)]
pub struct Arithmetic<T> {
    pub sum: spec_fn(T, T) -> T,
    pub difference: spec_fn(T, T) -> T,
    pub product: spec_fn(T, T) -> T,
    pub quotient: spec_fn(T, T) -> T,
    pub square_root: spec_fn(T) -> T,
    pub count: spec_fn(u64) -> T,
    pub gravity: T,
    pub zero: T,
    pub equal: spec_fn(T, T) -> bool,
}

/// The operations of `T` never depart from `arith`: whatever a call returns
/// is what the function of `arith` gives for its arguments.
pub open spec fn obeys<T: Scalar>(arith: Arithmetic<T>) -> bool {
    &&& forall|a: T, b: T, r: T| #[trigger]
        call_ensures(T::plus, (a, b), r) ==> r == (arith.sum)(a, b)
    &&& forall|a: T, b: T, r: T| #[trigger]
        call_ensures(T::minus, (a, b), r) ==> r == (arith.difference)(a, b)
    &&& forall|a: T, b: T, r: T| #[trigger]
        call_ensures(T::times, (a, b), r) ==> r == (arith.product)(a, b)
    &&& forall|a: T, b: T, r: T| #[trigger]
        call_ensures(T::over, (a, b), r) ==> r == (arith.quotient)(a, b)
    &&& forall|a: T, r: T| #[trigger]
        call_ensures(T::root, (a,), r) ==> r == (arith.square_root)(a)
    &&& forall|n: u64, r: T| #[trigger]
        call_ensures(T::from_count, (n,), r) ==> r == (arith.count)(n)
    &&& forall|r: T| #[trigger] call_ensures(T::gravity, (), r) ==> r == arith.gravity
    &&& forall|r: T| #[trigger] call_ensures(T::default, (), r) ==> r == arith.zero
    &&& forall|a: T, b: T, r: bool| #[trigger]
        call_ensures(T::eq, (&a, &b), r) ==> r == (arith.equal)(a, b)
}

} // verus!
