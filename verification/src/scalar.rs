//! The element type of a matrix, and the names its arithmetic goes by in
//! contracts.
//!
//! The library never looks inside an element: it hands elements to the
//! operations of [`Scalar`] and stores what comes back. A contract can
//! therefore say which operations were applied to which entries, in which
//! order, and nothing about the numbers themselves.
//!
//! It says so in two ways. The predicates whose names begin with `yields`
//! relate the operands of one call to a value that the call may return;
//! a contract built from them holds of every element type. The functions
//! `sum`, `product` and their like name the one value that a call returns
//! where there is only one; a contract built from them is an equation, and
//! is stated of the element types that are [`deterministic`].
use vstd::prelude::*;

verus! {

/// The arithmetic that elimination asks of a matrix element.
///
/// The methods carry no contract: an implementation may round, saturate or
/// propagate a not-a-number as it sees fit. Division by zero must return a
/// value like any other call.
pub trait Scalar: Copy {
    /// The additive identity.
    fn zero() -> Self;

    /// The multiplicative identity.
    fn one() -> Self;

    /// `self + rhs`.
    fn plus(self, rhs: Self) -> Self;

    /// `self * rhs`.
    fn times(self, rhs: Self) -> Self;

    /// `self / rhs`.
    fn over(self, rhs: Self) -> Self;

    /// `-self`.
    fn negated(self) -> Self;
}

/// `T::zero()` may return `r`.
pub open spec fn yields_zero<T: Scalar>(r: T) -> bool {
    call_ensures(T::zero, (), r)
}

/// `T::one()` may return `r`.
pub open spec fn yields_one<T: Scalar>(r: T) -> bool {
    call_ensures(T::one, (), r)
}

/// `a.plus(b)` may return `r`.
pub open spec fn yields_sum<T: Scalar>(a: T, b: T, r: T) -> bool {
    call_ensures(T::plus, (a, b), r)
}

/// `a.times(b)` may return `r`.
pub open spec fn yields_product<T: Scalar>(a: T, b: T, r: T) -> bool {
    call_ensures(T::times, (a, b), r)
}

/// `a.over(b)` may return `r`.
pub open spec fn yields_quotient<T: Scalar>(a: T, b: T, r: T) -> bool {
    call_ensures(T::over, (a, b), r)
}

/// `a.negated()` may return `r`.
pub open spec fn yields_negation<T: Scalar>(a: T, r: T) -> bool {
    call_ensures(T::negated, (a,), r)
}

/// What `T::zero()` returns.
pub open spec fn zero_value<T: Scalar>() -> T {
    choose|r: T| yields_zero(r)
}

/// What `T::one()` returns.
pub open spec fn one_value<T: Scalar>() -> T {
    choose|r: T| yields_one(r)
}

/// What `a.plus(b)` returns.
pub open spec fn sum<T: Scalar>(a: T, b: T) -> T {
    choose|r: T| yields_sum(a, b, r)
}

/// What `a.times(b)` returns.
pub open spec fn product<T: Scalar>(a: T, b: T) -> T {
    choose|r: T| yields_product(a, b, r)
}

/// What `a.over(b)` returns.
pub open spec fn quotient<T: Scalar>(a: T, b: T) -> T {
    choose|r: T| yields_quotient(a, b, r)
}

/// What `a.negated()` returns.
pub open spec fn negation<T: Scalar>(a: T) -> T {
    choose|r: T| yields_negation(a, r)
}

/// Every operation of `T` is a function of its operands: equal operands give
/// equal results, on every call.
pub open spec fn deterministic<T: Scalar>() -> bool {
    &&& forall|r: T| #[trigger] yields_zero(r) ==> r == zero_value::<T>()
    &&& forall|r: T| #[trigger] yields_one(r) ==> r == one_value::<T>()
    &&& forall|a: T, b: T, r: T| #[trigger] yields_sum(a, b, r) ==> r == sum(a, b)
    &&& forall|a: T, b: T, r: T| #[trigger] yields_product(a, b, r) ==> r == product(a, b)
    &&& forall|a: T, b: T, r: T| #[trigger] yields_quotient(a, b, r) ==> r == quotient(a, b)
    &&& forall|a: T, r: T| #[trigger] yields_negation(a, r) ==> r == negation(a)
}

} // verus!
