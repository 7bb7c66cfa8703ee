//! Rounding a double to an integer type.
use vstd::prelude::*;

use crate::accuracy::lemma_product_at_least;
use crate::double::{lemma_cancel, lemma_pow2_constants, lemma_product_as_real, rounded_integer};
use crate::double::{Double, MANTISSA_END, MANTISSA_MIN};
use crate::rounding::{clamp, law_nearest_away_is_nearest, nearest_away, pow2};
use crate::rounding::{
    lemma_nearest_away_mirrors, lemma_pow2_grows, lemma_pow2_step, lemma_pow2_sum,
};

verus! {

/// The floor of a fraction is its integer quotient.
proof fn lemma_ratio_floor(n: int, d: int)
    requires
        d > 0,
    ensures
        (n as real / d as real).floor() == n / d,
{
    let (q, r) = (n / d, n % d);
    let (x, y, qr, rr) = (n as real, d as real, q as real, r as real);
    assert(n == q * d + r && 0 <= r < d) by (nonlinear_arith)
        requires
            d > 0,
            q == n / d,
            r == n % d,
    ;
    lemma_product_as_real(q, d);
    assert(qr <= x / y && x / y < qr + 1real) by (nonlinear_arith)
        requires
            y > 0real,
            x == qr * y + rr,
            0real <= rr < y,
    ;
}

/// Two to the power `k`.
pub(crate) fn power_of_two(k: u32) -> (r: u128)
    requires
        k <= 100,
    ensures
        r as real == pow2(k as int),
        0 < r <= 0x10_0000_0000_0000_0000_0000_0000,
{
    let mut r: u128 = 1;
    let mut i: u32 = 0;
    while i < k
        invariant
            i <= k <= 100,
            r as real == pow2(i as int),
            0 < r,
        decreases k - i,
    {
        proof {
            lemma_power_bound(r as int, i as int);
        }
        r = 2 * r;
        i = i + 1;
    }
    proof {
        lemma_power_bound(r as int, k as int);
    }
    r
}

pub(crate) proof fn lemma_power_bound(r: int, k: int)
    requires
        r as real == pow2(k),
        0 <= k <= 100,
    ensures
        r <= 0x10_0000_0000_0000_0000_0000_0000,
{
    lemma_pow2_grows(k, 100);
    lemma_pow2_constants();
    lemma_pow2_sum(52, 48);
    lemma_product_as_real(MANTISSA_MIN as int, 0x1_0000_0000_0000);
    assert(MANTISSA_MIN * 0x1_0000_0000_0000int == 0x10_0000_0000_0000_0000_0000_0000int);
}

proof fn lemma_half_up(y: real, z: real, p: real)
    requires
        z > 0real,
        z * p == 1real,
    ensures
        (2real * y + z) / (2real * z) == y * p + 1real / 2real,
{
    let a = y * p;
    assert(a * z == y) by (nonlinear_arith)
        requires
            z * p == 1real,
            a == y * p,
    ;
    let (b, c) = (a + 1real / 2real, 2real * z);
    assert(b * c == 2real * y + z) by (nonlinear_arith)
        requires
            a * z == y,
            c == 2real * z,
            b == a + 1real / 2real,
    ;
    lemma_cancel(b, c);
}

proof fn lemma_round_large(m: int, e: int)
    requires
        MANTISSA_MIN <= m,
        e >= 12,
    ensures
        nearest_away(m as real * pow2(e)) >= 0x1_0000_0000_0000_0000,
{
    lemma_pow2_grows(12, e);
    lemma_pow2_constants();
    lemma_product_at_least(m as real, pow2(e), 0x10_0000_0000_0000int as real, 4096real);
}

proof fn lemma_round_whole(m: int, power: int, e: int)
    requires
        0 <= m < MANTISSA_END,
        0 <= e <= 11,
        power as real == pow2(e),
    ensures
        nearest_away(m as real * pow2(e)) == m * power,
        0 <= m * power <= 0x1_0000_0000_0000_0000,
{
    lemma_pow2_step(e);
    lemma_pow2_grows(e, 11);
    lemma_pow2_constants();
    lemma_product_as_real(m, power);
    lemma_product_at_least(m as real, pow2(e), 0real, 0real);
    lemma_product_at_least(MANTISSA_END as real, 2048real, m as real, pow2(e));
}

proof fn lemma_round_tiny(m: int, e: int)
    requires
        0 <= m < MANTISSA_END,
        e < -54,
    ensures
        nearest_away(m as real * pow2(e)) == 0,
{
    lemma_pow2_step(e);
    lemma_pow2_grows(e, -55);
    lemma_pow2_constants();
    lemma_pow2_sum(53, -55);
    lemma_product_at_least(m as real, pow2(e), 0real, 0real);
    lemma_product_at_least(MANTISSA_END as real, pow2(-55), m as real, pow2(e));
}

proof fn lemma_round_fraction(m: int, d: int, e: int)
    requires
        0 <= m < MANTISSA_END,
        -54 <= e < 0,
        d as real == pow2(-e),
    ensures
        nearest_away(m as real * pow2(e)) == (2 * m + d) / (2 * d),
        0 <= (2 * m + d) / (2 * d) <= 0x1_0000_0000_0000_0000,
{
    lemma_pow2_step(e);
    lemma_pow2_grows(-e, 54);
    lemma_pow2_constants();
    lemma_pow2_step(53);
    lemma_pow2_step(-e);
    lemma_pow2_sum(-e, e);
    lemma_ratio_floor(2 * m + d, 2 * d);
    lemma_half_up(m as real, d as real, pow2(e));
    lemma_product_at_least(m as real, pow2(e), 0real, 0real);
    vstd::arithmetic::div_mod::lemma_div_nonincreasing(2 * m + d, 2 * d);
    vstd::arithmetic::div_mod::lemma_div_pos_is_pos(2 * m + d, 2 * d);
}

/// The integer nearest to `m` times two to the power `e`, halves going up, as far as it is
/// not above two to the power 64.
fn round_magnitude(m: u64, e: i32) -> (r: u128)
    requires
        (Double::Finite { negative: false, mantissa: m, exponent: e }).wf(),
    ensures
        r == clamp(nearest_away(m as real * pow2(e as int)), 0, 0x1_0000_0000_0000_0000),
{
    if e >= 12 {
        proof {
            lemma_round_large(m as int, e as int);
        }
        0x1_0000_0000_0000_0000
    } else if e >= 0 {
        let power = power_of_two(e as u32);
        proof {
            lemma_round_whole(m as int, power as int, e as int);
        }
        m as u128 * power
    } else if e < -54 {
        proof {
            lemma_round_tiny(m as int, e as int);
        }
        0
    } else {
        let d = power_of_two((-e) as u32);
        proof {
            lemma_round_fraction(m as int, d as int, e as int);
        }
        (2 * m as u128 + d) / (2 * d)
    }
}

/// A finite number is rounded to an integer of the range to which none of the range is nearer,
/// and where two are equally near to the one farther from zero. Infinity goes to the end of the
/// range, and what is not a number to zero.
pub proof fn law_integer_is_nearest(a: Double, low: int, high: int, i: int)
    requires
        low <= i <= high,
    ensures
        ({
            let (r, v) = (rounded_integer(a, low, high), a.value());
            &&& low <= r <= high
            &&& a is Finite && i as real >= v ==> r as real - v <= i as real - v && v - r as real
                <= i as real - v
            &&& a is Finite && i as real <= v ==> r as real - v <= v - i as real && v - r as real
                <= v - i as real
            &&& a is Finite && i != r && (i + r) as real == 2real * v ==> (if v >= 0real {
                r > i
            } else {
                r < i
            })
            &&& a is Infinite ==> r == if a.is_negative() {
                low
            } else {
                high
            }
            &&& a is Nan && low <= 0 <= high ==> r == 0
        }),
{
    law_nearest_away_is_nearest(a.value(), i);
}

impl Double {
    /// Rounds to an integer, halves going away from zero, and takes the nearest one that
    /// an `i32` can hold.
    pub fn round_i32(self) -> (r: i32)
        requires
            self.wf(),
        ensures
            r == rounded_integer(self, i32::MIN as int, i32::MAX as int),
    {
        match self {
            Double::Nan => 0,
            Double::Infinite { negative } => if negative {
                i32::MIN
            } else {
                i32::MAX
            },
            Double::Finite { negative, mantissa, exponent } => {
                let n: u128 = round_magnitude(mantissa, exponent);
                proof {
                    lemma_pow2_step(exponent as int);
                    lemma_product_at_least(mantissa as real, pow2(exponent as int), 0real, 0real);
                    lemma_nearest_away_mirrors(self.magnitude());
                }
                if negative {
                    if n >= 0x8000_0000 {
                        i32::MIN
                    } else {
                        -(n as i32)
                    }
                } else if n >= 0x8000_0000 {
                    i32::MAX
                } else {
                    n as i32
                }
            },
        }
    }

    /// Rounds to an integer, halves going away from zero, and takes the nearest one that
    /// a `usize` can hold.
    pub fn round_usize(self) -> (r: usize)
        requires
            self.wf(),
        ensures
            r == rounded_integer(self, 0, usize::MAX as int),
    {
        match self {
            Double::Nan => 0,
            Double::Infinite { negative } => if negative {
                0
            } else {
                usize::MAX
            },
            Double::Finite { negative, mantissa, exponent } => {
                let n: u128 = round_magnitude(mantissa, exponent);
                proof {
                    lemma_pow2_step(exponent as int);
                    lemma_product_at_least(mantissa as real, pow2(exponent as int), 0real, 0real);
                    lemma_nearest_away_mirrors(self.magnitude());
                }
                if negative {
                    0
                } else if n >= usize::MAX as u128 {
                    usize::MAX
                } else {
                    n as usize
                }
            },
        }
    }
}

} // verus!
