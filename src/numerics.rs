//! Numeric types used to represent probability masses.
//!
//! A mass type is a fixed-point scalar: every value has an integer magnitude
//! between zero and the magnitude of one, addition and subtraction saturate
//! at those two ends, and multiplication rescales the product back into range.

mod fpp;

use vstd::prelude::*;

pub use fpp::Fpp;

verus! {

/// `a + b`, clamped to the magnitude `u` of one.
pub open spec fn sat_add(a: int, b: int, u: int) -> int {
    if a + b > u {
        u
    } else {
        a + b
    }
}

/// `a - b`, clamped to zero.
pub open spec fn sat_sub(a: int, b: int) -> int {
    if a >= b {
        a - b
    } else {
        0
    }
}

/// The fixed-point product of magnitudes `a` and `b` when `u` stands for one.
pub open spec fn fixed_mul(a: int, b: int, u: int) -> int {
    a * b / u
}

/// The capability set that a probability-mass type provides.
///
/// `val` is the magnitude of a value and `unit` the magnitude of one; the
/// probability a value stands for is `val / unit`.
pub trait Number: Sized + Copy {
    spec fn val(&self) -> int;

    spec fn unit() -> int;

    /// Every value lies between zero and one, and one has a positive
    /// magnitude that fits in 64 bits.
    proof fn lemma_bounds(&self)
        ensures
            0 <= self.val() <= Self::unit(),
            0 < Self::unit() <= u64::MAX,
    ;

    /// The additive identity.
    fn zero() -> (r: Self)
        ensures
            r.val() == 0,
    ;

    /// The multiplicative identity.
    fn one() -> (r: Self)
        ensures
            r.val() == Self::unit(),
    ;

    fn is_zero(&self) -> (r: bool)
        ensures
            r == (self.val() == 0),
    ;

    /// The magnitude of this value.
    fn magnitude(&self) -> (r: u64)
        ensures
            r == self.val(),
    ;

    /// The magnitude of one.
    fn unit_magnitude() -> (r: u64)
        ensures
            r == Self::unit(),
    ;

    /// Saturating addition.
    fn add(&self, rhs: &Self) -> (r: Self)
        ensures
            r.val() == sat_add(self.val(), rhs.val(), Self::unit()),
    ;

    /// Saturating subtraction.
    fn sub(&self, rhs: &Self) -> (r: Self)
        ensures
            r.val() == sat_sub(self.val(), rhs.val()),
    ;

    /// Multiplication, rounded down.
    fn mul(&self, rhs: &Self) -> (r: Self)
        ensures
            r.val() == fixed_mul(self.val(), rhs.val(), Self::unit()),
    ;
}

} // verus!
