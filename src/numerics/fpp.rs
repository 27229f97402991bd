use vstd::prelude::*;

use crate::numerics::{fixed_mul, sat_add, sat_sub, Number};
use crate::LlDoiceError;

verus! {

/// A fixed-point probability: the magnitude `m` stands for `m / u64::MAX`.
#[derive(Clone, Copy, Debug, Default, PartialEq, Eq, Structural, Hash)]
pub struct Fpp(pub u64);

/// `x / d`, rounded to the nearest integer with halves rounded up.
pub open spec fn round_div(x: int, d: int) -> int {
    x / d + if 2 * (x % d) >= d {
        1int
    } else {
        0int
    }
}

/// Whether `n / d` is a probability, that is `d > 0` and `0 <= n <= d`.
pub open spec fn is_probability_ratio(n: int, d: int) -> bool {
    0 < d && 0 <= n <= d
}

impl Fpp {
    /// The magnitude of this probability.
    pub fn inner(&self) -> (r: u64)
        ensures
            r == self.0,
    {
        self.0
    }

    /// The probability `numerator / denominator`, with its magnitude rounded
    /// to the nearest integer.
    ///
    /// Fails with `InvalidProbability` unless the denominator is positive
    /// and `0 <= numerator <= denominator`; a negative denominator is
    /// refused even where the ratio itself lies in `[0, 1]`.
    pub fn from_ratio(numerator: i64, denominator: i64) -> (r: Result<Fpp, LlDoiceError>)
        ensures
            is_probability_ratio(numerator as int, denominator as int) ==> r == Ok::<Fpp, LlDoiceError>(
                Fpp(round_div(numerator * (u64::MAX as int), denominator as int) as u64),
            ),
            !is_probability_ratio(numerator as int, denominator as int) ==> r == Err::<Fpp, LlDoiceError>(
                LlDoiceError::InvalidProbability,
            ),
            r is Ok ==> round_div(numerator * (u64::MAX as int), denominator as int) <= u64::MAX,
    {
        if denominator <= 0 || numerator < 0 || numerator > denominator {
            return Err(LlDoiceError::InvalidProbability);
        }
        let n = numerator as u128;
        let d = denominator as u128;
        let mx = u64::MAX as u128;
        assert(n * mx <= d * mx) by (nonlinear_arith)
            requires
                n <= d,
        ;
        assert(d * mx < 0x8000_0000_0000_0000 * 0x1_0000_0000_0000_0000) by (nonlinear_arith)
            requires
                d < 0x8000_0000_0000_0000,
                mx < 0x1_0000_0000_0000_0000,
        ;
        let x = n * mx;
        let q = x / d;
        let rem = x % d;
        proof {
            assert(q * d + rem == x) by (nonlinear_arith)
                requires
                    q == x / d,
                    rem == x % d,
                    d > 0,
            ;
            if n < d {
                assert(n * mx <= (d - 1) * mx) by (nonlinear_arith)
                    requires
                        n <= d - 1,
                ;
                assert(q * d < d * mx);
                assert(q < mx) by (nonlinear_arith)
                    requires
                        q * d < d * mx,
                        d > 0,
                ;
            } else {
                assert(x == d * mx);
                assert(q == mx && rem == 0) by (nonlinear_arith)
                    requires
                        x == d * mx,
                        q == x / d,
                        rem == x % d,
                        d > 0,
                ;
            }
        }
        let m: u128 = if 2 * rem >= d {
            q + 1
        } else {
            q
        };
        Ok(Fpp(m as u64))
    }

    /// Division, `self * one / rhs`, saturating at one. This is approximate:
    /// the quotient is rounded down.
    pub fn div(&self, rhs: &Fpp) -> (r: Fpp)
        requires
            rhs.0 != 0,
        ensures
            r.0 == if self.0 * (u64::MAX as int) / (rhs.0 as int) > u64::MAX {
                u64::MAX as int
            } else {
                self.0 * (u64::MAX as int) / (rhs.0 as int)
            },
    {
        let a = self.0 as u128;
        let mx = u64::MAX as u128;
        assert(a * mx <= mx * mx) by (nonlinear_arith)
            requires
                a <= mx,
        ;
        let q = a * mx / (rhs.0 as u128);
        if q > mx {
            Fpp(u64::MAX)
        } else {
            Fpp(q as u64)
        }
    }

    /// The probability as an integer: one for certainty, zero otherwise.
    pub fn to_u64(&self) -> (r: u64)
        ensures
            r == if self.0 == u64::MAX {
                1u64
            } else {
                0u64
            },
    {
        if self.0 == u64::MAX {
            1
        } else {
            0
        }
    }

    /// The probability as a signed integer: one for certainty, zero
    /// otherwise.
    pub fn to_i64(&self) -> (r: i64)
        ensures
            r == if self.0 == u64::MAX {
                1i64
            } else {
                0i64
            },
    {
        if self.0 == u64::MAX {
            1
        } else {
            0
        }
    }

    /// The remainder of the magnitudes.
    pub fn rem(&self, rhs: &Fpp) -> (r: Fpp)
        requires
            rhs.0 != 0,
        ensures
            r.0 == self.0 % rhs.0,
    {
        Fpp(self.0 % rhs.0)
    }
}

impl Number for Fpp {
    open spec fn val(&self) -> int {
        self.0 as int
    }

    open spec fn unit() -> int {
        u64::MAX as int
    }

    proof fn lemma_bounds(&self) {
    }

    fn zero() -> (r: Fpp) {
        Fpp(0)
    }

    fn one() -> (r: Fpp) {
        Fpp(u64::MAX)
    }

    fn is_zero(&self) -> (r: bool) {
        self.0 == 0
    }

    fn magnitude(&self) -> (r: u64) {
        self.0
    }

    fn unit_magnitude() -> (r: u64) {
        u64::MAX
    }

    fn add(&self, rhs: &Fpp) -> (r: Fpp) {
        Fpp(self.0.saturating_add(rhs.0))
    }

    fn sub(&self, rhs: &Fpp) -> (r: Fpp) {
        Fpp(self.0.saturating_sub(rhs.0))
    }

    fn mul(&self, rhs: &Fpp) -> (r: Fpp) {
        let a = self.0 as u128;
        let b = rhs.0 as u128;
        let mx = u64::MAX as u128;
        assert(a * b <= mx * mx) by (nonlinear_arith)
            requires
                a <= mx,
                b <= mx,
        ;
        assert((a * b) as int / (mx as int) <= mx) by (nonlinear_arith)
            requires
                a * b <= mx * mx,
                mx > 0,
        ;
        Fpp((a * b / mx) as u64)
    }
}

} // verus!
