//! Exact rational values for fractional quantities: velocities and
//! controller values (fractions of full scale), pitch-bend offsets in
//! semitones, and tempo in beats per minute.

use vstd::prelude::*;

verus! {

/// An exact rational `num / den` with `den >= 1`.
#[derive(Debug, Clone, Copy, PartialEq, Eq, Structural)]
pub struct Ratio {
    pub num: i64,
    pub den: u64,
}

/// Division rounded half away from zero, for a positive divisor.
pub open spec fn spec_round_div(a: int, b: int) -> int
    recommends
        b >= 1,
{
    if a >= 0 {
        (a + b / 2) / b
    } else {
        -(((-a) + b / 2) / b)
    }
}

/// Clamps an integer into `[lo, hi]`.
pub open spec fn spec_clamp(v: int, lo: int, hi: int) -> int {
    if v < lo {
        lo
    } else if v > hi {
        hi
    } else {
        v
    }
}

/// `r` scaled by `scale` and rounded: `round(num * scale / den)`.
pub open spec fn spec_ratio_scaled(r: Ratio, scale: int) -> int {
    spec_round_div(r.num * scale, r.den as int)
}

impl Ratio {
    /// Whether the rational is well formed.
    pub open spec fn valid(&self) -> bool {
        self.den >= 1
    }

    /// The whole number `n`.
    pub fn from_int(n: i64) -> (r: Ratio)
        ensures
            r.num == n && r.den == 1,
    {
        Ratio { num: n, den: 1 }
    }

    /// `num / den` as a ratio.
    pub fn new(num: i64, den: u64) -> (r: Ratio)
        requires
            den >= 1,
        ensures
            r.num == num && r.den == den,
    {
        Ratio { num, den }
    }

    /// The ratio scaled by `scale`, rounded half away from zero, and clamped
    /// into `[lo, hi]`.
    pub fn scaled_clamped(&self, scale: u32, lo: i32, hi: i32) -> (v: i32)
        requires
            self.valid(),
            lo <= hi,
        ensures
            v == spec_clamp(spec_ratio_scaled(*self, scale as int), lo as int, hi as int),
    {
        proof {
            assert((i64::MIN as int) * (u32::MAX as int) <= (self.num as int) * (scale as int)
                <= (i64::MAX as int) * (u32::MAX as int)) by (nonlinear_arith)
                requires
                    i64::MIN as int <= self.num as int <= i64::MAX as int,
                    0 <= scale as int <= u32::MAX as int,
            ;
        }
        let a: i128 = (self.num as i128) * (scale as i128);
        let b: i128 = self.den as i128;
        let ghost target: int = spec_round_div(a as int, b as int);
        let rounded: i128 = if a >= 0 {
            proof {
                assert(0 <= (a as int + b as int / 2) / (b as int) <= a as int)
                    by (nonlinear_arith)
                    requires
                        b as int >= 1,
                        a as int >= 0,
                ;
            }
            (a + b / 2) / b
        } else {
            let neg_a: i128 = -a;
            proof {
                assert(0 <= (neg_a as int + b as int / 2) / (b as int) <= neg_a as int)
                    by (nonlinear_arith)
                    requires
                        b as int >= 1,
                        neg_a as int >= 0,
                ;
            }
            -((neg_a + b / 2) / b)
        };
        proof {
            assert(rounded as int == target);
        }
        let clamped: i128 = if rounded < lo as i128 {
            lo as i128
        } else if rounded > hi as i128 {
            hi as i128
        } else {
            rounded
        };
        clamped as i32
    }

    /// The ratio scaled by `scale / div`, rounded half away from zero, and
    /// clamped into `[lo, hi]`.
    pub fn scaled_div_clamped(&self, scale: u32, div: u32, lo: i32, hi: i32) -> (v: i32)
        requires
            self.valid(),
            div >= 1,
            lo <= hi,
        ensures
            v == spec_clamp(
                spec_round_div(self.num * scale, self.den as int * div),
                lo as int,
                hi as int,
            ),
    {
        proof {
            assert((i64::MIN as int) * (u32::MAX as int) <= (self.num as int) * (scale as int)
                <= (i64::MAX as int) * (u32::MAX as int)) by (nonlinear_arith)
                requires
                    i64::MIN as int <= self.num as int <= i64::MAX as int,
                    0 <= scale as int <= u32::MAX as int,
            ;
            assert(1 <= (self.den as int) * (div as int) <= (u64::MAX as int) * (u32::MAX as int))
                by (nonlinear_arith)
                requires
                    1 <= self.den as int <= u64::MAX as int,
                    1 <= div as int <= u32::MAX as int,
            ;
        }
        let a: i128 = (self.num as i128) * (scale as i128);
        let b: i128 = (self.den as i128) * (div as i128);
        let rounded: i128 = if a >= 0 {
            proof {
                assert(0 <= (a as int + b as int / 2) / (b as int) <= a as int)
                    by (nonlinear_arith)
                    requires
                        b as int >= 1,
                        a as int >= 0,
                ;
            }
            (a + b / 2) / b
        } else {
            let neg_a: i128 = -a;
            proof {
                assert(0 <= (neg_a as int + b as int / 2) / (b as int) <= neg_a as int)
                    by (nonlinear_arith)
                    requires
                        b as int >= 1,
                        neg_a as int >= 0,
                ;
            }
            -((neg_a + b / 2) / b)
        };
        let clamped: i128 = if rounded < lo as i128 {
            lo as i128
        } else if rounded > hi as i128 {
            hi as i128
        } else {
            rounded
        };
        clamped as i32
    }
}

} // verus!
