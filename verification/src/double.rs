//! Double-precision numbers: the binary64 format, its rounding, and the few operations
//! that frame counts, frame sizes and blend weights are computed with.
//!
//! A number crosses the boundary of the library as its bit pattern.
use vstd::prelude::*;

use crate::rounding::{binade, clamp, nearest_away, nearest_even, pow2};
use crate::rounding::{lemma_binade, lemma_pow2_grows, lemma_pow2_step, lemma_pow2_sum};

verus! {

/// The least mantissa of a normal number: two to the power 52.
pub const MANTISSA_MIN: u64 = 0x10_0000_0000_0000;

/// The first integer above every mantissa: two to the power 53.
pub const MANTISSA_END: u64 = 0x20_0000_0000_0000;

/// The least exponent: that of zero and the subnormal numbers.
pub const EXPONENT_MIN: i32 = -1074;

/// The greatest exponent.
pub const EXPONENT_MAX: i32 = 971;

/// A double-precision number. A finite one is `mantissa` times two to the power `exponent`,
/// with a sign, which zero has too.
#[derive(Clone, Copy, Debug, PartialEq, Eq, Structural)]
pub enum Double {
    Nan,
    Infinite { negative: bool },
    Finite { negative: bool, mantissa: u64, exponent: i32 },
}

impl Double {
    /// The mantissa and the exponent are the ones that the format uses for the value.
    pub open spec fn wf(self) -> bool {
        match self {
            Double::Finite { mantissa, exponent, .. } => {
                &&& mantissa < MANTISSA_END
                &&& EXPONENT_MIN <= exponent <= EXPONENT_MAX
                &&& mantissa >= MANTISSA_MIN || exponent == EXPONENT_MIN
            },
            _ => true,
        }
    }

    /// The sign bit of a number that is not NaN.
    pub open spec fn is_negative(self) -> bool {
        match self {
            Double::Nan => false,
            Double::Infinite { negative } => negative,
            Double::Finite { negative, .. } => negative,
        }
    }

    /// The distance of a finite number from zero.
    pub open spec fn magnitude(self) -> real {
        match self {
            Double::Finite { mantissa, exponent, .. } => mantissa as real * pow2(exponent as int),
            _ => 0real,
        }
    }

    /// The value of a finite number.
    pub open spec fn value(self) -> real {
        if self.is_negative() {
            -self.magnitude()
        } else {
            self.magnitude()
        }
    }
}

/// The exponent of the spacing of doubles around `x`, which is above zero.
pub open spec fn spacing(x: real) -> int {
    if binade(x) - 52 >= EXPONENT_MIN {
        binade(x) - 52
    } else {
        EXPONENT_MIN as int
    }
}

/// The double nearest to `x`, which is not below zero, with a sign put before it.
/// Of two that are equally near it is the one with the even mantissa, and what is nearer
/// to two to the power 1024 than to any double is infinite.
pub open spec fn rounded(negative: bool, x: real) -> Double {
    if x == 0real {
        Double::Finite { negative, mantissa: 0, exponent: EXPONENT_MIN }
    } else {
        let e = spacing(x);
        let m = nearest_even(x / pow2(e));
        if m < MANTISSA_END && e <= EXPONENT_MAX {
            Double::Finite { negative, mantissa: m as u64, exponent: e as i32 }
        } else if m >= MANTISSA_END && e < EXPONENT_MAX {
            Double::Finite { negative, mantissa: MANTISSA_MIN, exponent: (e + 1) as i32 }
        } else {
            Double::Infinite { negative }
        }
    }
}

/// The double that a bit pattern stands for: from the top one bit of sign, eleven of exponent
/// and fifty-two of mantissa.
pub open spec fn decoded(bits: u64) -> Double {
    let negative = bits >= 0x8000_0000_0000_0000;
    let field = bits / MANTISSA_MIN % 2048;
    let fraction = bits % MANTISSA_MIN;
    if field == 0 {
        Double::Finite { negative, mantissa: fraction, exponent: EXPONENT_MIN }
    } else if field < 2047 {
        Double::Finite {
            negative,
            mantissa: (MANTISSA_MIN + fraction) as u64,
            exponent: (field - 1075) as i32,
        }
    } else if fraction == 0 {
        Double::Infinite { negative }
    } else {
        Double::Nan
    }
}

/// The double nearest to an integer.
pub open spec fn double_of(i: int) -> Double {
    rounded(
        i < 0,
        if i < 0 {
            (-i) as real
        } else {
            i as real
        },
    )
}

/// The product of two doubles.
pub open spec fn product(a: Double, b: Double) -> Double {
    let negative = a.is_negative() != b.is_negative();
    match (a, b) {
        (Double::Nan, _) => Double::Nan,
        (_, Double::Nan) => Double::Nan,
        (Double::Finite { .. }, Double::Finite { .. }) => rounded(
            negative,
            a.magnitude() * b.magnitude(),
        ),
        (Double::Finite { mantissa, .. }, _) if mantissa == 0 => Double::Nan,
        (_, Double::Finite { mantissa, .. }) if mantissa == 0 => Double::Nan,
        _ => Double::Infinite { negative },
    }
}

/// The quotient of two doubles.
pub open spec fn quotient(a: Double, b: Double) -> Double {
    let negative = a.is_negative() != b.is_negative();
    match (a, b) {
        (Double::Nan, _) => Double::Nan,
        (_, Double::Nan) => Double::Nan,
        (Double::Infinite { .. }, Double::Infinite { .. }) => Double::Nan,
        (Double::Infinite { .. }, _) => Double::Infinite { negative },
        (_, Double::Infinite { .. }) => rounded(negative, 0real),
        _ => if b.magnitude() == 0real {
            if a.magnitude() == 0real {
                Double::Nan
            } else {
                Double::Infinite { negative }
            }
        } else {
            rounded(negative, a.magnitude() / b.magnitude())
        },
    }
}

/// The integer between `low` and `high` that `a` is rounded to, halves going away from zero.
/// What is not a number becomes zero.
pub open spec fn rounded_integer(a: Double, low: int, high: int) -> int {
    match a {
        Double::Nan => clamp(0, low, high),
        Double::Infinite { negative } => if negative {
            low
        } else {
            high
        },
        Double::Finite { .. } => clamp(nearest_away(a.value()), low, high),
    }
}

pub(crate) proof fn lemma_twice_over(n: int, d: int, e: int)
    requires
        d > 0,
    ensures
        (2 * n) as real / d as real * pow2(e - 1) == n as real / d as real * pow2(e),
{
    lemma_pow2_step(e - 1);
    let (x, y, p) = (n as real, d as real, pow2(e - 1));
    assert((2real * x) / y * p == x / y * (2real * p)) by (nonlinear_arith)
        requires
            y > 0real,
    ;
}

pub(crate) proof fn lemma_twice_under(n: int, d: int, e: int)
    requires
        d > 0,
    ensures
        n as real / (2 * d) as real * pow2(e + 1) == n as real / d as real * pow2(e),
{
    lemma_pow2_step(e);
    let (x, y, p) = (n as real, d as real, pow2(e));
    assert(x / (2real * y) * (2real * p) == x / y * p) by (nonlinear_arith)
        requires
            y > 0real,
    ;
}

pub(crate) proof fn lemma_product_as_real(a: int, b: int)
    ensures
        (a * b) as real == a as real * b as real,
{
    assert((a * b) as real == a as real * b as real) by (nonlinear_arith);
}

pub(crate) proof fn lemma_pow2_constants()
    ensures
        pow2(52) == MANTISSA_MIN as real,
        pow2(53) == MANTISSA_END as real,
        pow2(-2) == 1real / 4real,
        pow2(11) == 2048real,
        pow2(12) == 4096real,
        pow2(31) == 0x8000_0000int as real,
        pow2(48) == 0x1_0000_0000_0000int as real,
{
    reveal_with_fuel(pow2, 54);
}

/// A fraction from two to the power 52 up to two to the power 53 fixes the binade.
pub(crate) proof fn lemma_ratio_binade(n: int, d: int, e: int)
    requires
        d > 0,
        MANTISSA_MIN * d <= n < MANTISSA_END * d,
    ensures
        binade(n as real / d as real * pow2(e)) == e + 52,
        n as real / d as real * pow2(e) > 0real,
{
    let (x, y, p) = (n as real, d as real, pow2(e));
    let (low, high) = (MANTISSA_MIN as real, MANTISSA_END as real);
    lemma_pow2_step(e);
    lemma_pow2_constants();
    lemma_pow2_sum(52, e);
    lemma_pow2_sum(53, e);
    lemma_product_as_real(MANTISSA_MIN as int, d);
    lemma_product_as_real(MANTISSA_END as int, d);
    assert(low * p <= x / y * p && x / y * p < high * p) by (nonlinear_arith)
        requires
            y > 0real,
            p > 0real,
            low * y <= x < high * y,
    ;
    lemma_binade(x / y * p, e + 52);
}

/// How the fraction `n / d` rounds to an integer shows in its integer quotient and remainder.
pub(crate) proof fn lemma_ratio_nearest_even(n: int, d: int)
    requires
        d > 0,
        n >= 0,
    ensures
        nearest_even(n as real / d as real) == (if 2 * (n % d) < d || (2 * (n % d) == d && (n / d)
            % 2 == 0) {
            n / d
        } else {
            n / d + 1
        }),
{
    let (q, r) = (n / d, n % d);
    let (x, y, qr, rr) = (n as real, d as real, q as real, r as real);
    assert(n == q * d + r && 0 <= r < d) by (nonlinear_arith)
        requires
            d > 0,
            q == n / d,
            r == n % d,
    ;
    lemma_product_as_real(q, d);
    assert(x / y == qr + rr / y && 0real <= rr / y < 1real && (rr / y) * y == rr)
        by (nonlinear_arith)
        requires
            y > 0real,
            x == qr * y + rr,
            0real <= rr < y,
    ;
    assert((x / y).floor() == q);
    let f = rr / y;
    assert((2real * f < 1real <==> 2real * rr < y) && (2real * f == 1real <==> 2real * rr == y))
        by (nonlinear_arith)
        requires
            y > 0real,
            f * y == rr,
    ;
}

/// A fraction far below the least double rounds to zero.
pub(crate) proof fn lemma_vanishes(n: int, d: int, e: int)
    requires
        0 < n < 0x400_0000_0000_0000_0000_0000_0000,
        d >= 0x4000_0000_0000_0000_0000_0000_0000,
        e < EXPONENT_MIN,
    ensures
        nearest_even(n as real / d as real * pow2(e) / pow2(EXPONENT_MIN as int)) == 0,
{
    let (x, y, p, u) = (n as real, d as real, pow2(e), pow2(EXPONENT_MIN as int));
    lemma_pow2_grows(e, EXPONENT_MIN as int);
    assert(2real * x < y);
    assert(0real <= x / y * p / u && 2real * (x / y * p / u) < 1real) by (nonlinear_arith)
        requires
            0real < x,
            2real * x < y,
            0real < p <= u,
    ;
}

pub(crate) proof fn lemma_cancel(x: real, p: real)
    requires
        p > 0real,
    ensures
        x * p / p == x,
{
    assert(x * p / p == x) by (nonlinear_arith)
        requires
            p > 0real,
    ;
}

/// A doubling count that the size of what was doubled bounds.
pub(crate) proof fn lemma_doublings(k: int, n: int)
    requires
        pow2(k) <= n as real,
        n < 0x400_0000_0000_0000_0000_0000_0000,
    ensures
        k < 106,
{
    lemma_pow2_constants();
    lemma_pow2_sum(53, 53);
    lemma_product_as_real(MANTISSA_END as int, MANTISSA_END as int);
    assert(MANTISSA_END * MANTISSA_END == 0x400_0000_0000_0000_0000_0000_0000int);
    if k >= 106 {
        lemma_pow2_grows(106, k);
    }
}

pub(crate) proof fn lemma_product_ratio(m: int, n: int, e: int, f: int)
    ensures
        (m * n) as real / 1real * pow2(e + f) == (m as real * pow2(e)) * (n as real * pow2(f)),
{
    let (x, y, p, q) = (m as real, n as real, pow2(e), pow2(f));
    lemma_product_as_real(m, n);
    lemma_pow2_sum(e, f);
    assert((x * y) * (p * q) == (x * p) * (y * q)) by (nonlinear_arith);
}

pub(crate) proof fn lemma_quotient_ratio(m: int, n: int, e: int, f: int)
    requires
        n > 0,
    ensures
        m as real / n as real * pow2(e - f) == (m as real * pow2(e)) / (n as real * pow2(f)),
{
    let (x, y, p, q, u) = (m as real, n as real, pow2(e), pow2(f), pow2(e - f));
    lemma_pow2_step(f);
    lemma_pow2_sum(e - f, f);
    assert(x / y * u == (x * p) / (y * q)) by (nonlinear_arith)
        requires
            u * q == p,
            y > 0real,
            q > 0real,
    ;
}

pub(crate) proof fn lemma_magnitude_not_negative(a: Double)
    ensures
        a.magnitude() >= 0real,
{
    if let Double::Finite { mantissa, exponent, .. } = a {
        lemma_pow2_step(exponent as int);
        let (m, p) = (mantissa as real, pow2(exponent as int));
        assert(m * p >= 0real) by (nonlinear_arith)
            requires
                m >= 0real,
                p > 0real,
        ;
    }
}

/// The double nearest to `n / d` times two to the power `e`.
pub(crate) fn round_ratio(negative: bool, n: u128, d: u128, e: i32) -> (r: Double)
    requires
        0 < d < MANTISSA_END,
        n < 0x400_0000_0000_0000_0000_0000_0000,
        -3000 <= e <= 3000,
    ensures
        r == rounded(negative, n as real / d as real * pow2(e as int)),
        r.wf(),
{
    let ghost x = n as real / d as real * pow2(e as int);
    if n == 0 {
        assert(x == 0real) by (nonlinear_arith)
            requires
                x == n as real / d as real * pow2(e as int),
                n == 0,
                d > 0,
        ;
        return Double::Finite { negative, mantissa: 0, exponent: EXPONENT_MIN };
    }
    let ghost start = e;
    let mut n: u128 = n;
    let mut d: u128 = d;
    let mut e: i32 = e;
    while n < MANTISSA_MIN as u128 * d
        invariant
            0 < d < MANTISSA_END,
            0 < n < 0x400_0000_0000_0000_0000_0000_0000,
            x == n as real / d as real * pow2(e as int),
            pow2(start - e) <= n as real,
            -3000 <= start <= 3000,
            e <= start,
        decreases 2 * (MANTISSA_MIN * d) - n,
    {
        proof {
            lemma_twice_over(n as int, d as int, e as int);
            lemma_doublings(start - e, n as int);
            lemma_pow2_step(start - e);
        }
        n = 2 * n;
        e = e - 1;
    }
    proof {
        lemma_doublings(start - e, n as int);
    }
    let ghost middle = e;
    while n >= MANTISSA_END as u128 * d
        invariant
            0 < d <= n,
            MANTISSA_MIN * d <= n,
            0 < n < 0x400_0000_0000_0000_0000_0000_0000,
            x == n as real / d as real * pow2(e as int),
            pow2(e - middle) <= d as real,
            -3200 <= middle <= 3000,
            middle <= e,
        decreases n - d,
    {
        proof {
            lemma_twice_under(n as int, d as int, e as int);
            lemma_doublings(e - middle, d as int);
            lemma_pow2_step(e - middle);
        }
        d = 2 * d;
        e = e + 1;
    }
    proof {
        lemma_doublings(e - middle, d as int);
        lemma_ratio_binade(n as int, d as int, e as int);
        assert(spacing(x) == if e >= EXPONENT_MIN { e } else { EXPONENT_MIN });
    }
    let ghost normal = e >= EXPONENT_MIN;
    while e < EXPONENT_MIN && d < 0x4000_0000_0000_0000_0000_0000_0000
        invariant
            0 < d < 0x8000_0000_0000_0000_0000_0000_0000,
            0 < n < 0x400_0000_0000_0000_0000_0000_0000,
            n < MANTISSA_END * d,
            x == n as real / d as real * pow2(e as int),
            x > 0real,
            spacing(x) == if e >= EXPONENT_MIN { e } else { EXPONENT_MIN },
            normal ==> MANTISSA_MIN * d <= n && e >= EXPONENT_MIN,
            !normal ==> e <= EXPONENT_MIN,
        decreases EXPONENT_MIN - e,
    {
        proof {
            lemma_twice_under(n as int, d as int, e as int);
        }
        d = 2 * d;
        e = e + 1;
    }
    if e < EXPONENT_MIN {
        proof {
            lemma_vanishes(n as int, d as int, e as int);
        }
        return Double::Finite { negative, mantissa: 0, exponent: EXPONENT_MIN };
    }
    let q: u128 = n / d;
    let r: u128 = n % d;
    let m: u128 = if 2 * r < d || (2 * r == d && q % 2 == 0) {
        q
    } else {
        q + 1
    };
    proof {
        lemma_pow2_step(e as int);
        lemma_cancel(n as real / d as real, pow2(e as int));
        lemma_ratio_nearest_even(n as int, d as int);
        assert(q < MANTISSA_END && (normal ==> q >= MANTISSA_MIN)) by (nonlinear_arith)
            requires
                q == n / d,
                d > 0,
                n < MANTISSA_END * d,
                normal ==> MANTISSA_MIN * d <= n,
        ;
    }
    if m < MANTISSA_END as u128 {
        if e <= EXPONENT_MAX {
            Double::Finite { negative, mantissa: m as u64, exponent: e }
        } else {
            Double::Infinite { negative }
        }
    } else if e < EXPONENT_MAX {
        Double::Finite { negative, mantissa: MANTISSA_MIN, exponent: e + 1 }
    } else {
        Double::Infinite { negative }
    }
}

/// `n` rounds to `n`: an integer below two to the power 53 is a double.
pub(crate) proof fn lemma_integer_is_double(negative: bool, n: int)
    requires
        0 <= n < MANTISSA_END,
    ensures
        rounded(negative, n as real) is Finite,
        rounded(negative, n as real).is_negative() == negative,
        rounded(negative, n as real).magnitude() == n as real,
{
    let x = n as real;
    if n == 0 {
        assert(0real * pow2(EXPONENT_MIN as int) == 0real) by (nonlinear_arith);
    } else {
        lemma_pow2_constants();
        let k = lemma_integer_binade(n, 53);
        let e = k - 52;
        lemma_pow2_sum(-e, e);
        lemma_pow2_step(e);
        let scaled = lemma_pow2_is_integer(-e);
        let m = n * scaled;
        lemma_product_as_real(n, scaled);
        lemma_pow2_step(-e);
        let (p, q) = (pow2(e), pow2(-e));
        assert(x / p == x * q) by (nonlinear_arith)
            requires
                q * p == 1real,
                p > 0real,
        ;
        assert(x * q * p == x) by (nonlinear_arith)
            requires
                q * p == 1real,
        ;
        lemma_pow2_sum(k + 1, -e);
        let top = pow2(k + 1);
        assert(x * q < top * q) by (nonlinear_arith)
            requires
                x < top,
                q > 0real,
        ;
        assert(nearest_even(m as real) == m);
        assert(0 <= m) by (nonlinear_arith)
            requires
                m == n * scaled,
                n > 0,
                scaled > 0,
        ;
    }
}

/// The binade of an integer from one up to two to the power `bits`.
pub(crate) proof fn lemma_integer_binade(n: int, bits: int) -> (k: int)
    requires
        1 <= n,
        0 <= bits,
        (n as real) < pow2(bits),
    ensures
        0 <= k < bits,
        pow2(k) <= n as real,
        (n as real) < pow2(k + 1),
        binade(n as real) == k,
    decreases bits,
{
    if bits == 0 {
        0
    } else if n as real >= pow2(bits - 1) {
        lemma_binade(n as real, bits - 1);
        bits - 1
    } else {
        lemma_integer_binade(n, bits - 1)
    }
}

/// A power of two with an exponent that is not negative is an integer.
pub(crate) proof fn lemma_pow2_is_integer(k: int) -> (p: int)
    requires
        k >= 0,
    ensures
        p as real == pow2(k),
        p > 0,
    decreases k,
{
    if k == 0 {
        1
    } else {
        2 * lemma_pow2_is_integer(k - 1)
    }
}

impl Double {
    /// Reads a bit pattern.
    pub fn from_bits(bits: u64) -> (r: Double)
        ensures
            r == decoded(bits),
            r.wf(),
    {
        let negative = bits >= 0x8000_0000_0000_0000;
        let field: u64 = bits / MANTISSA_MIN % 2048;
        let fraction: u64 = bits % MANTISSA_MIN;
        if field == 0 {
            Double::Finite { negative, mantissa: fraction, exponent: EXPONENT_MIN }
        } else if field < 2047 {
            Double::Finite {
                negative,
                mantissa: MANTISSA_MIN + fraction,
                exponent: field as i32 - 1075,
            }
        } else if fraction == 0 {
            Double::Infinite { negative }
        } else {
            Double::Nan
        }
    }

    /// Writes a bit pattern; for NaN, the quiet one without a sign or payload.
    pub fn to_bits(self) -> (r: u64)
        requires
            self.wf(),
        ensures
            decoded(r) == self,
            self is Nan ==> r == 0x7ff8_0000_0000_0000,
    {
        match self {
            Double::Nan => 0x7ff8_0000_0000_0000,
            Double::Infinite { negative } => if negative {
                0xfff0_0000_0000_0000
            } else {
                0x7ff0_0000_0000_0000
            },
            Double::Finite { negative, mantissa, exponent } => {
                let sign: u64 = if negative {
                    0x8000_0000_0000_0000
                } else {
                    0
                };
                if mantissa < MANTISSA_MIN {
                    sign + mantissa
                } else {
                    let field: u64 = (exponent + 1075) as u64;
                    sign + field * MANTISSA_MIN + (mantissa - MANTISSA_MIN)
                }
            },
        }
    }

    /// The double that an integer is.
    pub fn from_i32(i: i32) -> (r: Double)
        ensures
            r == double_of(i as int),
            r.wf(),
            r is Finite,
            r.value() == i as real,
    {
        let n: u128 = if i < 0 {
            (-(i as i64)) as u128
        } else {
            i as u128
        };
        proof {
            lemma_integer_is_double(i < 0, n as int);
            assert(n as real / 1real * pow2(0) == n as real) by (nonlinear_arith)
                requires
                    pow2(0) == 1real,
            ;
        }
        round_ratio(i < 0, n, 1, 0)
    }

    /// Multiplies.
    pub fn mul(self, other: Double) -> (r: Double)
        requires
            self.wf(),
            other.wf(),
        ensures
            r == product(self, other),
            r.wf(),
    {
        match (self, other) {
            (Double::Nan, _) => Double::Nan,
            (_, Double::Nan) => Double::Nan,
            (
                Double::Finite { negative: s, mantissa: m, exponent: e },
                Double::Finite { negative: t, mantissa: n, exponent: f },
            ) => {
                assert(m * n < MANTISSA_END * MANTISSA_END) by (nonlinear_arith)
                    requires
                        m < MANTISSA_END,
                        n < MANTISSA_END,
                ;
                proof {
                    lemma_product_ratio(m as int, n as int, e as int, f as int);
                }
                round_ratio(s != t, m as u128 * n as u128, 1, e + f)
            },
            (
                Double::Finite { negative: s, mantissa, .. },
                Double::Infinite { negative: t },
            ) => if mantissa == 0 {
                Double::Nan
            } else {
                Double::Infinite { negative: s != t }
            },
            (
                Double::Infinite { negative: s },
                Double::Finite { negative: t, mantissa, .. },
            ) => if mantissa == 0 {
                Double::Nan
            } else {
                Double::Infinite { negative: s != t }
            },
            (Double::Infinite { negative: s }, Double::Infinite { negative: t }) => {
                Double::Infinite { negative: s != t }
            },
        }
    }

    /// Divides.
    pub fn div(self, other: Double) -> (r: Double)
        requires
            self.wf(),
            other.wf(),
        ensures
            r == quotient(self, other),
            r.wf(),
    {
        match (self, other) {
            (Double::Nan, _) => Double::Nan,
            (_, Double::Nan) => Double::Nan,
            (Double::Infinite { .. }, Double::Infinite { .. }) => Double::Nan,
            (Double::Infinite { negative: s }, Double::Finite { negative: t, .. }) => {
                Double::Infinite { negative: s != t }
            },
            (Double::Finite { negative: s, .. }, Double::Infinite { negative: t }) => {
                Double::Finite { negative: s != t, mantissa: 0, exponent: EXPONENT_MIN }
            },
            (
                Double::Finite { negative: s, mantissa: m, exponent: e },
                Double::Finite { negative: t, mantissa: n, exponent: f },
            ) => {
                let ghost (x, y, p, q) = (m as real, n as real, pow2(e as int), pow2(f as int));
                proof {
                    lemma_pow2_step(e as int);
                    lemma_pow2_step(f as int);
                    assert((y == 0real <==> y * q == 0real) && (x == 0real <==> x * p == 0real))
                        by (nonlinear_arith)
                        requires
                            p > 0real,
                            q > 0real,
                    ;
                }
                if n == 0 {
                    if m == 0 {
                        Double::Nan
                    } else {
                        Double::Infinite { negative: s != t }
                    }
                } else {
                    proof {
                        lemma_quotient_ratio(m as int, n as int, e as int, f as int);
                    }
                    round_ratio(s != t, m as u128, n as u128, e - f)
                }
            },
        }
    }
}

/// An integer below two to the power 53 is a double as it is.
pub proof fn law_integers_are_doubles(i: int)
    requires
        -0x20_0000_0000_0000 < i < 0x20_0000_0000_0000,
    ensures
        double_of(i) is Finite,
        double_of(i).value() == i as real,
        double_of(i).is_negative() == (i < 0),
{
    lemma_integer_is_double(
        i < 0,
        if i < 0 {
            -i
        } else {
            i
        },
    );
}

/// A bit pattern is read by its fields: a sign, an exponent and a fraction. The fraction is the
/// mantissa of the subnormal numbers, and the part of it below two to the power 52 of the
/// normal ones. The greatest exponent stands for infinity and for what is not a number.
pub proof fn law_bits_are_read_by_fields(negative: bool, field: int, fraction: int)
    requires
        0 <= field < 2048,
        0 <= fraction < 0x10_0000_0000_0000,
    ensures
        ({
            let sign = if negative {
                0x8000_0000_0000_0000int
            } else {
                0int
            };
            let d = decoded((sign + field * 0x10_0000_0000_0000 + fraction) as u64);
            let size = if field == 0 {
                fraction as real * pow2(-1074)
            } else {
                (0x10_0000_0000_0000 + fraction) as real * pow2(field - 1075)
            };
            &&& field < 2047 ==> d is Finite && d.is_negative() == negative && d.value() == (
            if negative {
                -size
            } else {
                size
            })
            &&& field == 2047 && fraction == 0 ==> d == Double::Infinite { negative }
            &&& field == 2047 && fraction > 0 ==> d is Nan
        }),
{
    let sign = if negative {
        0x8000_0000_0000_0000int
    } else {
        0int
    };
    let bits = (sign + field * 0x10_0000_0000_0000 + fraction) as u64;
    assert(bits == sign + field * 0x10_0000_0000_0000 + fraction);
    assert(bits % MANTISSA_MIN == fraction);
    assert(bits / MANTISSA_MIN % 2048 == field);
}

/// Different bit patterns stand for different doubles, except that many stand for NaN.
pub proof fn law_bits_are_unique(a: u64, b: u64)
    requires
        decoded(a) == decoded(b),
        !(decoded(a) is Nan),
    ensures
        a == b,
{
    let (p, q) = (a / MANTISSA_MIN, b / MANTISSA_MIN);
    assert(a == p * MANTISSA_MIN + a % MANTISSA_MIN);
    assert(b == q * MANTISSA_MIN + b % MANTISSA_MIN);
    assert(p == (if a >= 0x8000_0000_0000_0000 {
        2048int
    } else {
        0int
    }) + p % 2048);
    assert(q == (if b >= 0x8000_0000_0000_0000 {
        2048int
    } else {
        0int
    }) + q % 2048);
}

} // verus!
