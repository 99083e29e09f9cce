//! Playback speeds as exact ratios of integers.
//!
//! A speed comes from the control surface as a 32-bit binary floating-point
//! number. Such a number is an integer times a power of two, so its bit pattern
//! gives a ratio without any rounding; [`Speed::from_float_bits`] takes it
//! apart with integer arithmetic alone.

use vstd::arithmetic::power2::{
    lemma2_to64, lemma2_to64_rest, lemma_pow2_pos, lemma_pow2_strictly_increases,
    lemma_pow2_unfold, pow2,
};
use vstd::prelude::*;

verus! {

/// A playback speed as the ratio `num / den`.
#[derive(Clone, Copy, Debug, PartialEq, Eq, Structural)]
pub struct Speed {
    pub num: i64,
    pub den: u64,
}

/// The sign bit of a 32-bit binary floating-point pattern.
pub open spec fn sign_field(bits: u32) -> int {
    bits as int / 0x8000_0000
}

/// The eight exponent bits of a 32-bit binary floating-point pattern.
pub open spec fn exponent_field(bits: u32) -> int {
    (bits as int / 0x80_0000) % 256
}

/// The 23 fraction bits of a 32-bit binary floating-point pattern.
pub open spec fn fraction_field(bits: u32) -> int {
    bits as int % 0x80_0000
}

/// The integer `m` of a finite pattern, whose magnitude is `m * 2^p` with `p`
/// the pattern's [`binary_power`]: the fraction bits, with the hidden bit
/// above them unless the pattern is subnormal.
pub open spec fn significand(bits: u32) -> int {
    if exponent_field(bits) == 0 {
        fraction_field(bits)
    } else {
        fraction_field(bits) + 0x80_0000
    }
}

/// The power of two `p` of a finite pattern, whose magnitude is `m * 2^p`
/// with `m` the pattern's [`significand`].
pub open spec fn binary_power(bits: u32) -> int {
    if exponent_field(bits) == 0 {
        -149
    } else {
        exponent_field(bits) - 150
    }
}

/// Whether the pattern is a number greater than zero and less than infinity.
pub open spec fn is_positive_finite(bits: u32) -> bool {
    sign_field(bits) == 0 && exponent_field(bits) != 255 && significand(bits) > 0
}

/// Whether the pattern is positive infinity.
pub open spec fn is_positive_infinity(bits: u32) -> bool {
    sign_field(bits) == 0 && exponent_field(bits) == 255 && fraction_field(bits) == 0
}

/// `2^k` for an exponent that a 64-bit word can hold.
fn power_of_two(k: u32) -> (r: u64)
    requires
        k <= 63,
    ensures
        r == pow2(k as nat),
        r <= 0x8000_0000_0000_0000,
{
    let mut r: u64 = 1;
    let mut i: u32 = 0;
    proof {
        lemma2_to64();
        lemma2_to64_rest();
    }
    while i < k
        invariant
            i <= k <= 63,
            r == pow2(i as nat),
            r <= pow2(63),
            pow2(63) == 0x8000_0000_0000_0000,
        decreases k - i,
    {
        proof {
            lemma_pow2_unfold((i + 1) as nat);
            if i + 1 < 63 {
                lemma_pow2_strictly_increases((i + 1) as nat, 63);
            }
        }
        r = r * 2;
        i += 1;
    }
    r
}

impl Speed {
    /// A speed is usable when it is a positive, well-defined ratio.
    pub open spec fn is_valid(self) -> bool {
        self.num > 0 && self.den > 0
    }

    /// Whether `self` is no faster than `other`.
    pub open spec fn le(self, other: Speed) -> bool {
        self.num * other.den <= other.num * self.den
    }

    /// Whether the speed is one or more.
    pub open spec fn at_least_one(self) -> bool {
        self.num >= self.den
    }

    /// The speed `num / den`.
    pub fn new(num: i64, den: u64) -> (speed: Speed)
        ensures
            speed.num == num,
            speed.den == den,
    {
        Speed { num, den }
    }

    /// The speed at which the output equals the input.
    pub fn unit() -> (speed: Speed)
        ensures
            speed.num == 1,
            speed.den == 1,
            speed.is_valid(),
    {
        Speed { num: 1, den: 1 }
    }

    /// The fastest speed there is. It shortens every buffer to nothing.
    pub fn fastest() -> (speed: Speed)
        ensures
            speed.num == i64::MAX,
            speed.den == 1,
            speed.is_valid(),
    {
        Speed { num: i64::MAX, den: 1 }
    }

    /// The exact ratio of a speed given as the bit pattern of a 32-bit binary
    /// floating-point number.
    ///
    /// A positive finite number `m * 2^p` becomes `m * 2^p / 1` or
    /// `m / 2^(-p)`, without rounding. One of `2^63` or more, and positive
    /// infinity, become the fastest speed. Zero, a negative number and a
    /// pattern that is not a number become the unusable speed `0 / 1`. There
    /// is no result for a positive number below `2^-40`, whose denominator no
    /// speed can hold.
    pub fn from_float_bits(bits: u32) -> (result: Option<Speed>)
        ensures
            match result {
                None => is_positive_finite(bits) && binary_power(bits) < -63,
                Some(speed) => if is_positive_finite(bits) {
                    let m = significand(bits);
                    let p = binary_power(bits);
                    if p > 39 {
                        speed == (Speed { num: i64::MAX, den: 1 })
                    } else if p >= 0 {
                        speed.num == m * pow2(p as nat) && speed.den == 1
                    } else {
                        p >= -63 && speed.num == m && speed.den == pow2((-p) as nat)
                    }
                } else if is_positive_infinity(bits) {
                    speed == (Speed { num: i64::MAX, den: 1 })
                } else {
                    speed == (Speed { num: 0, den: 1 })
                },
            },
            result matches Some(speed) ==> speed.is_valid() == (is_positive_finite(bits)
                || is_positive_infinity(bits)),
    {
        let sign: u32 = bits / 0x8000_0000;
        let exponent: u32 = (bits / 0x80_0000) % 256;
        let fraction: u32 = bits % 0x80_0000;
        if sign == 1 || (exponent == 255 && fraction != 0) || (exponent == 0 && fraction == 0) {
            return Some(Speed { num: 0, den: 1 });
        }
        if exponent == 255 {
            return Some(Speed::fastest());
        }
        let m: u64 = if exponent == 0 {
            fraction as u64
        } else {
            fraction as u64 + 0x80_0000
        };
        if exponent >= 150 {
            let p: u32 = exponent - 150;
            if p > 39 {
                Some(Speed::fastest())
            } else {
                let factor: u64 = power_of_two(p);
                proof {
                    lemma2_to64_rest();
                    lemma_pow2_pos(p as nat);
                    if p < 39 {
                        lemma_pow2_strictly_increases(p as nat, 39);
                    }
                    assert(m * factor < 0x8000_0000_0000_0000) by (nonlinear_arith)
                        requires
                            m < 0x100_0000,
                            0 < factor <= 0x80_0000_0000,
                    ;
                    assert(m * factor > 0) by (nonlinear_arith)
                        requires
                            m > 0,
                            factor > 0,
                    ;
                }
                Some(Speed { num: (m * factor) as i64, den: 1 })
            }
        } else {
            let q: u32 = if exponent == 0 {
                149
            } else {
                150 - exponent
            };
            if q > 63 {
                None
            } else {
                let den: u64 = power_of_two(q);
                proof {
                    lemma_pow2_pos(q as nat);
                }
                Some(Speed { num: m as i64, den })
            }
        }
    }

    /// Tests whether the speed is usable.
    pub fn check(&self) -> (ok: bool)
        ensures
            ok == self.is_valid(),
    {
        self.num > 0 && self.den > 0
    }
}

} // verus!
