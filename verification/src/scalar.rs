//! The numbers in which reserves, rates and profits are measured.

use vstd::prelude::*;

verus! {

/// Arithmetic on the numbers of the rate graph.
///
/// Each operation has a name for what it gives, and gives the same for the
/// same numbers: the library states its results over these names and knows
/// nothing else of the numbers. Double precision is the implementation
/// meant; one that answers differently on the same numbers breaks what the
/// library states. An implementation gives each name the operation itself:
/// `sum` is `plus`, `below` is `less`, and so on.
pub trait Scalar: Sized {
    /// The number that a text spells, or `None` where it spells none.
    spec fn parsed(text: &String) -> Option<Self>;

    /// The number `n`.
    spec fn of_u32(n: u32) -> Self;

    /// `self + rhs`.
    spec fn sum(&self, rhs: &Self) -> Self;

    /// `self - rhs`.
    spec fn difference(&self, rhs: &Self) -> Self;

    /// `self * rhs`.
    spec fn product(&self, rhs: &Self) -> Self;

    /// `self / rhs`.
    spec fn quotient(&self, rhs: &Self) -> Self;

    /// `-self`.
    spec fn negation(&self) -> Self;

    /// The natural logarithm of `self`.
    spec fn logarithm(&self) -> Self;

    /// `self < rhs`.
    spec fn below(&self, rhs: &Self) -> bool;

    /// `self` is neither infinite nor undefined.
    spec fn finite(&self) -> bool;

    /// Reads a number written as text.
    fn parse(text: &String) -> (number: Option<Self>)
        ensures
            number == Self::parsed(text),
    ;

    /// The number `n`.
    fn from_u32(n: u32) -> (number: Self)
        ensures
            number == Self::of_u32(n),
    ;

    /// `self + rhs`.
    fn plus(&self, rhs: &Self) -> (number: Self)
        ensures
            number == self.sum(rhs),
    ;

    /// `self - rhs`.
    fn minus(&self, rhs: &Self) -> (number: Self)
        ensures
            number == self.difference(rhs),
    ;

    /// `self * rhs`.
    fn times(&self, rhs: &Self) -> (number: Self)
        ensures
            number == self.product(rhs),
    ;

    /// `self / rhs`.
    fn over(&self, rhs: &Self) -> (number: Self)
        ensures
            number == self.quotient(rhs),
    ;

    /// `-self`.
    fn negated(&self) -> (number: Self)
        ensures
            number == self.negation(),
    ;

    /// The natural logarithm of `self`.
    fn ln(&self) -> (number: Self)
        ensures
            number == self.logarithm(),
    ;

    /// Whether `self < rhs`.
    fn less(&self, rhs: &Self) -> (below: bool)
        ensures
            below == self.below(rhs),
    ;

    /// Whether `self` is neither infinite nor undefined.
    fn is_finite(&self) -> (finite: bool)
        ensures
            finite == self.finite(),
    ;
}

} // verus!
