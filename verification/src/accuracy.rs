//! How rounding to double precision moves a number: to the nearest double, and how far at most.
use vstd::prelude::*;

use crate::double::{lemma_cancel, lemma_pow2_constants, lemma_pow2_is_integer};
use crate::double::{lemma_magnitude_not_negative, lemma_product_as_real};
use crate::double::{product, quotient, rounded, spacing};
use crate::double::{Double, EXPONENT_MAX, EXPONENT_MIN, MANTISSA_END, MANTISSA_MIN};
use crate::rounding::{binade, law_nearest_even_is_nearest, nearest_away, nearest_even, pow2};
use crate::rounding::{lemma_binade, lemma_pow2_grows, lemma_pow2_step, lemma_pow2_sum};

verus! {

pub(crate) proof fn lemma_product_at_least(a: real, b: real, c: real, d: real)
    requires
        a >= c >= 0real,
        b >= d >= 0real,
    ensures
        a * b >= c * d,
{
    assert(a * b >= c * b) by (nonlinear_arith)
        requires
            a >= c,
            b >= 0real,
    ;
    assert(c * b >= c * d) by (nonlinear_arith)
        requires
            b >= d,
            c >= 0real,
    ;
}

/// A number with a power of two as its divisor, and back.
proof fn lemma_scale(x: real, k: int, e: int)
    requires
        pow2(k) <= x < pow2(k + 1),
        e == k - 52,
    ensures
        x / pow2(e) * pow2(e) == x,
        MANTISSA_MIN as real <= x / pow2(e) < MANTISSA_END as real,
{
    let p = pow2(e);
    lemma_pow2_step(e);
    lemma_pow2_constants();
    lemma_pow2_sum(52, e);
    lemma_pow2_sum(53, e);
    let (low, high) = (MANTISSA_MIN as real, MANTISSA_END as real);
    assert(x / p * p == x && low <= x / p && x / p < high) by (nonlinear_arith)
        requires
            p > 0real,
            low * p <= x < high * p,
    ;
}

/// A number in the range of the normal doubles is moved by no more than half the spacing,
/// and stays in its binade or reaches the next one.
pub proof fn lemma_rounding_error(negative: bool, x: real, k: int)
    requires
        pow2(k) <= x < pow2(k + 1),
        EXPONENT_MIN + 52 <= k < EXPONENT_MAX + 52,
    ensures
        rounded(negative, x) is Finite,
        rounded(negative, x).wf(),
        rounded(negative, x).is_negative() == negative,
        rounded(negative, x).magnitude() == nearest_even(x / pow2(k - 52)) as real * pow2(k - 52),
        x - pow2(k - 53) <= rounded(negative, x).magnitude() <= x + pow2(k - 53),
        pow2(k) <= rounded(negative, x).magnitude() <= pow2(k + 1),
{
    let e = k - 52;
    let (p, y) = (pow2(e), x / pow2(e));
    let m = nearest_even(y);
    lemma_binade(x, k);
    lemma_scale(x, k, e);
    lemma_pow2_step(k);
    lemma_pow2_step(e);
    lemma_pow2_step(e - 1);
    lemma_pow2_constants();
    lemma_pow2_sum(52, e);
    lemma_pow2_sum(53, e);
    assert(spacing(x) == e);
    assert(MANTISSA_MIN <= m <= MANTISSA_END);
    let (mr, half) = (m as real, pow2(e - 1));
    assert(2real * mr - 1real <= 2real * y <= 2real * mr + 1real);
    assert(x - half <= mr * p <= x + half) by (nonlinear_arith)
        requires
            y * p == x,
            p == 2real * half,
            half > 0real,
            2real * mr - 1real <= 2real * y <= 2real * mr + 1real,
    ;
    let (low, high) = (MANTISSA_MIN as real, MANTISSA_END as real);
    assert(low * p <= mr * p <= high * p) by (nonlinear_arith)
        requires
            p > 0real,
            low <= mr <= high,
    ;
    if m == MANTISSA_END {
        lemma_pow2_sum(52, e + 1);
    }
}

/// A number in the range of the normal doubles is moved by no more than one part in two to
/// the power 53.
pub proof fn lemma_relative_error(negative: bool, x: real, k: int)
    requires
        pow2(k) <= x < pow2(k + 1),
        EXPONENT_MIN + 52 <= k < EXPONENT_MAX + 52,
    ensures
        x - x * pow2(-53) <= rounded(negative, x).magnitude() <= x + x * pow2(-53),
{
    lemma_rounding_error(negative, x, k);
    lemma_pow2_sum(k, -53);
    lemma_pow2_step(-53);
    let (p, u) = (pow2(k), pow2(-53));
    assert(p * u <= x * u) by (nonlinear_arith)
        requires
            p <= x,
            u > 0real,
    ;
}

/// A number between two powers of two lies in some binade between them.
pub(crate) proof fn lemma_some_binade(x: real, low: int, high: int) -> (k: int)
    requires
        low <= high,
        pow2(low) <= x < pow2(high),
    ensures
        low <= k < high,
        pow2(k) <= x < pow2(k + 1),
    decreases high - low,
{
    if low == high {
        low
    } else if x < pow2(low + 1) {
        low
    } else {
        lemma_some_binade(x, low + 1, high)
    }
}

/// Rounding keeps a number between two powers of two, with the same relative error.
pub proof fn lemma_rounding_within(negative: bool, x: real, low: int, high: int)
    requires
        EXPONENT_MIN + 52 <= low <= high <= EXPONENT_MAX + 52,
        pow2(low) <= x < pow2(high),
    ensures
        rounded(negative, x) is Finite,
        rounded(negative, x).wf(),
        rounded(negative, x).is_negative() == negative,
        pow2(low) <= rounded(negative, x).magnitude() <= pow2(high),
        x - x * pow2(-53) <= rounded(negative, x).magnitude() <= x + x * pow2(-53),
{
    let k = lemma_some_binade(x, low, high);
    lemma_rounding_error(negative, x, k);
    lemma_relative_error(negative, x, k);
    lemma_pow2_grows(low, k);
    lemma_pow2_grows(k + 1, high);
}

proof fn lemma_small_powers()
    ensures
        pow2(-1) == 1real / 2real,
        pow2(-31) * 0x8000_0000int as real == 1real,
{
    reveal_with_fuel(pow2, 32);
}

proof fn lemma_pow2_outgrows(n: int)
    requires
        n >= 0,
    ensures
        pow2(n) >= (n + 1) as real,
    decreases n,
{
    if n > 0 {
        lemma_pow2_outgrows(n - 1);
        lemma_pow2_step(n - 1);
    }
}

/// Every number above zero lies between two neighbouring powers of two.
proof fn lemma_has_binade(x: real) -> (k: int)
    requires
        x > 0real,
    ensures
        pow2(k) <= x < pow2(k + 1),
        binade(x) == k,
{
    let high = x.floor() + 1;
    lemma_pow2_outgrows(high);
    let y = 1real / x;
    assert(y > 0real && x * y == 1real) by (nonlinear_arith)
        requires
            y == 1real / x,
            x > 0real,
    ;
    let low = y.floor() + 1;
    lemma_pow2_outgrows(low);
    lemma_pow2_sum(low, -low);
    let (p, q) = (pow2(low), pow2(-low));
    lemma_pow2_step(-low);
    assert(q <= x) by (nonlinear_arith)
        requires
            p * q == 1real,
            p >= y,
            x * y == 1real,
            y > 0real,
            q > 0real,
            x > 0real,
    ;
    if high < -low {
        lemma_pow2_grows(high, -low);
    }
    let k = lemma_some_binade(x, -low, high);
    lemma_binade(x, k);
    k
}

/// How `x` is scaled before it is rounded to a mantissa.
proof fn lemma_scaled_range(x: real)
    requires
        x > 0real,
    ensures
        ({
            let e = spacing(x);
            let y = x / pow2(e);
            &&& e >= EXPONENT_MIN
            &&& pow2(e) > 0real
            &&& y * pow2(e) == x
            &&& 0real < y < MANTISSA_END as real
            &&& e > EXPONENT_MIN ==> y >= MANTISSA_MIN as real
        }),
{
    let k = lemma_has_binade(x);
    let e = spacing(x);
    let p = pow2(e);
    lemma_pow2_step(e);
    let y = x / p;
    assert(y * p == x && y > 0real) by (nonlinear_arith)
        requires
            y == x / p,
            p > 0real,
            x > 0real,
    ;
    if k - 52 >= EXPONENT_MIN {
        lemma_scale(x, k, e);
    } else {
        lemma_pow2_grows(k + 1, e + 52);
        lemma_pow2_constants();
        lemma_pow2_sum(52, e);
        let top = MANTISSA_MIN as real;
        assert(y < top) by (nonlinear_arith)
            requires
                y * p == x,
                x < top * p,
                p > 0real,
        ;
    }
}

/// The magnitude that a number is rounded to is a whole number of spacings.
proof fn lemma_rounded_magnitude(negative: bool, x: real)
    requires
        x > 0real,
        rounded(negative, x) is Finite,
    ensures
        ({
            let (e, r) = (spacing(x), rounded(negative, x));
            let m = nearest_even(x / pow2(e));
            &&& r.wf()
            &&& r.is_negative() == negative
            &&& r.magnitude() == m as real * pow2(e)
            &&& m % 2 == 0 ==> r->mantissa % 2 == 0
        }),
{
    lemma_scaled_range(x);
    let e = spacing(x);
    lemma_pow2_step(e);
    let m = nearest_even(x / pow2(e));
    if m >= MANTISSA_END {
        assert(m == MANTISSA_END);
        let p = pow2(e);
        assert(MANTISSA_MIN as real * (2real * p) == (2real * MANTISSA_MIN as real) * p)
            by (nonlinear_arith);
    }
}

/// How far two numbers are from a third carries over to their multiples.
pub(crate) proof fn lemma_stretch(m: real, j: real, y: real, p: real)
    requires
        p > 0real,
        j >= y ==> m - y <= j - y && y - m <= j - y,
        j <= y ==> m - y <= y - j && y - m <= y - j,
    ensures
        j * p >= y * p ==> m * p - y * p <= j * p - y * p && y * p - m * p <= j * p - y * p,
        j * p <= y * p ==> m * p - y * p <= y * p - j * p && y * p - m * p <= y * p - j * p,
        j * p >= y * p <==> j >= y,
        j * p <= y * p <==> j <= y,
        m * p + j * p == 2real * (y * p) <==> m + j == 2real * y,
        m * p == j * p <==> m == j,
{
    assert((j * p >= y * p <==> j >= y) && (j * p <= y * p <==> j <= y)) by (nonlinear_arith)
        requires
            p > 0real,
    ;
    assert((m - y) * p == m * p - y * p && (j - y) * p == j * p - y * p) by (nonlinear_arith);
    let (a, b) = (m - y, j - y);
    assert((a <= b <==> a * p <= b * p) && (-a <= b <==> -(a * p) <= b * p) && (a <= -b <==> a * p
        <= -(b * p)) && (-a <= -b <==> -(a * p) <= -(b * p)) && (a + b == 0real <==> a * p + b * p
        == 0real) && (a == b <==> a * p == b * p)) by (nonlinear_arith)
        requires
            p > 0real,
    ;
}

/// A double with a smaller exponent than that of the spacing around `x` is below `x`, by more
/// than the least number of the binade is.
proof fn lemma_finer_double(d: Double, e: int)
    requires
        d is Finite,
        d.wf(),
        d->exponent < e,
    ensures
        d.magnitude() < MANTISSA_MIN as real * pow2(e),
{
    let (q, f) = (d->mantissa as real, d->exponent as int);
    lemma_pow2_step(f);
    lemma_pow2_grows(f + 1, e);
    let (p, u, top) = (pow2(e), pow2(f), MANTISSA_END as real);
    assert(q * u < top * u && top * u <= MANTISSA_MIN as real * p) by (nonlinear_arith)
        requires
            q < top,
            top == 2real * MANTISSA_MIN as real,
            u > 0real,
            2real * u <= p,
    ;
}

/// No double is nearer to a number than the one it is rounded to, and where two are equally
/// near the mantissa is even.
pub proof fn law_rounding_is_nearest(negative: bool, x: real, d: Double)
    requires
        x >= 0real,
        rounded(negative, x) is Finite,
        d is Finite,
        d.wf(),
    ensures
        ({
            let r = rounded(negative, x);
            let (a, b) = (r.magnitude(), d.magnitude());
            &&& r.wf()
            &&& r.is_negative() == negative
            &&& b >= x ==> a - x <= b - x && x - a <= b - x
            &&& b <= x ==> a - x <= x - b && x - a <= x - b
            &&& a != b && a + b == 2real * x ==> r->mantissa % 2 == 0
        }),
{
    lemma_magnitude_not_negative(d);
    if x == 0real {
        assert(0real * pow2(EXPONENT_MIN as int) == 0real) by (nonlinear_arith);
    } else {
        let e = spacing(x);
        let p = pow2(e);
        let y = x / p;
        let m = nearest_even(y);
        lemma_scaled_range(x);
        lemma_rounded_magnitude(negative, x);
        let f = d->exponent as int;
        if f >= e {
            let power = lemma_pow2_is_integer(f - e);
            let j = d->mantissa * power;
            lemma_pow2_sum(f - e, e);
            lemma_product_as_real(d->mantissa as int, power);
            let (q, s) = (d->mantissa as real, power as real);
            assert(q * (s * p) == (q * s) * p) by (nonlinear_arith);
            law_nearest_even_is_nearest(y, j);
            lemma_stretch(m as real, j as real, y, p);
        } else {
            lemma_finer_double(d, e);
            law_nearest_even_is_nearest(y, MANTISSA_MIN as int);
            lemma_stretch(m as real, MANTISSA_MIN as real, y, p);
        }
    }
}

/// A number is rounded to infinity exactly where it is not below the middle between the
/// greatest double and two to the power 1024.
pub proof fn law_rounding_overflows(negative: bool, x: real)
    requires
        x >= 0real,
    ensures
        rounded(negative, x) is Infinite <==> x >= (MANTISSA_END as real - 1real / 2real) * pow2(
            971,
        ),
        !(rounded(negative, x) is Nan),
        rounded(negative, x).is_negative() == negative,
{
    let big = pow2(971);
    lemma_pow2_step(971);
    let top = MANTISSA_END as real - 1real / 2real;
    if x == 0real {
        assert(top * big > 0real) by (nonlinear_arith)
            requires
                top > 0real,
                big > 0real,
        ;
    } else {
        lemma_scaled_range(x);
        let e = spacing(x);
        let y = x / pow2(e);
        let p = pow2(e);
        if e < 971 {
            lemma_pow2_grows(e, 971);
            assert(x < top * big) by (nonlinear_arith)
                requires
                    x == y * p,
                    0real < y < MANTISSA_END as real,
                    top == MANTISSA_END as real - 1real / 2real,
                    0real < p,
                    2real * p <= big,
            ;
        } else if e > 971 {
            lemma_pow2_grows(971, e);
            assert(x >= top * big) by (nonlinear_arith)
                requires
                    x == y * p,
                    y >= MANTISSA_MIN as real,
                    top <= 2real * MANTISSA_MIN as real,
                    0real < big,
                    2real * big <= p,
            ;
        } else {
            assert(x >= top * big <==> y >= top) by (nonlinear_arith)
                requires
                    x == y * big,
                    big > 0real,
            ;
        }
    }
}

/// The product of two doubles is the double nearest to the product of their values.
pub proof fn law_product_is_nearest(a: Double, b: Double, d: Double)
    requires
        a is Finite,
        b is Finite,
        d is Finite,
        d.wf(),
        product(a, b) is Finite,
    ensures
        ({
            let (t, r, v) = (a.value() * b.value(), product(a, b).value(), d.value());
            &&& v >= t ==> r - t <= v - t && t - r <= v - t
            &&& v <= t ==> r - t <= t - v && t - r <= t - v
        }),
{
    let x = a.magnitude() * b.magnitude();
    let negative = a.is_negative() != b.is_negative();
    lemma_magnitude_not_negative(a);
    lemma_magnitude_not_negative(b);
    lemma_product_at_least(a.magnitude(), b.magnitude(), 0real, 0real);
    let (p, q) = (a.magnitude(), b.magnitude());
    assert((-p) * q == -(p * q) && p * (-q) == -(p * q) && (-p) * (-q) == p * q)
        by (nonlinear_arith);
    lemma_nearest_with_sign(negative, x, d);
}

/// The quotient of two doubles is the double nearest to the quotient of their values.
pub proof fn law_quotient_is_nearest(a: Double, b: Double, d: Double)
    requires
        a is Finite,
        b is Finite,
        d is Finite,
        d.wf(),
        b.value() != 0real,
        quotient(a, b) is Finite,
    ensures
        ({
            let (t, r, v) = (a.value() / b.value(), quotient(a, b).value(), d.value());
            &&& v >= t ==> r - t <= v - t && t - r <= v - t
            &&& v <= t ==> r - t <= t - v && t - r <= t - v
        }),
{
    let x = a.magnitude() / b.magnitude();
    let negative = a.is_negative() != b.is_negative();
    lemma_magnitude_not_negative(a);
    lemma_magnitude_not_negative(b);
    let (p, q) = (a.magnitude(), b.magnitude());
    assert(x >= 0real && (-p) / q == -x && p / (-q) == -x && (-p) / (-q) == x) by (nonlinear_arith)
        requires
            x == p / q,
            p >= 0real,
            q > 0real,
    ;
    lemma_nearest_with_sign(negative, x, d);
}

pub(crate) proof fn lemma_nearest_with_sign(negative: bool, x: real, d: Double)
    requires
        x >= 0real,
        rounded(negative, x) is Finite,
        d is Finite,
        d.wf(),
    ensures
        ({
            let t = if negative {
                -x
            } else {
                x
            };
            let (r, v) = (rounded(negative, x).value(), d.value());
            &&& v >= t ==> r - t <= v - t && t - r <= v - t
            &&& v <= t ==> r - t <= t - v && t - r <= t - v
        }),
{
    let zero = Double::Finite { negative: false, mantissa: 0, exponent: EXPONENT_MIN };
    assert(zero.magnitude() == 0real) by {
        assert(0real * pow2(EXPONENT_MIN as int) == 0real) by (nonlinear_arith);
    }
    law_rounding_is_nearest(negative, x, d);
    law_rounding_is_nearest(negative, x, zero);
    lemma_magnitude_not_negative(d);
}

/// What is not a number stays so in a product, and so does infinity times zero. Any other
/// product with infinity is infinite, and so is one of finite numbers that is too great. Its
/// sign is that of equal or unequal signs.
pub proof fn law_product_of_special_numbers(a: Double, b: Double)
    requires
        a.wf(),
        b.wf(),
    ensures
        product(a, b) is Nan <==> a is Nan || b is Nan || (a is Infinite && b is Finite
            && b->mantissa == 0) || (b is Infinite && a is Finite && a->mantissa == 0),
        !(product(a, b) is Nan) ==> product(a, b).is_negative() == (a.is_negative()
            != b.is_negative()),
        a is Finite && b is Finite ==> (product(a, b) is Infinite <==> a.magnitude()
            * b.magnitude() >= (MANTISSA_END as real - 1real / 2real) * pow2(971)),
        (a is Infinite || b is Infinite) && !(product(a, b) is Nan) ==> product(a, b) is Infinite,
{
    if a is Finite && b is Finite {
        let x = a.magnitude() * b.magnitude();
        lemma_magnitude_not_negative(a);
        lemma_magnitude_not_negative(b);
        lemma_product_at_least(a.magnitude(), b.magnitude(), 0real, 0real);
        law_rounding_overflows(a.is_negative() != b.is_negative(), x);
    }
}

/// What is not a number stays so in a quotient, and so do zero by zero and infinity by infinity.
/// Any other quotient by zero is infinite, as is one of infinity, and one by infinity is zero.
/// Its sign is that of equal or unequal signs.
pub proof fn law_quotient_of_special_numbers(a: Double, b: Double)
    requires
        a.wf(),
        b.wf(),
    ensures
        quotient(a, b) is Nan <==> a is Nan || b is Nan || (a is Infinite && b is Infinite) || (
        a is Finite && b is Finite && a->mantissa == 0 && b->mantissa == 0),
        !(quotient(a, b) is Nan) ==> quotient(a, b).is_negative() == (a.is_negative()
            != b.is_negative()),
        a is Infinite && b is Finite ==> quotient(a, b) is Infinite,
        a is Finite && a->mantissa != 0 && b is Finite && b->mantissa == 0 ==> quotient(
            a,
            b,
        ) is Infinite,
        a is Finite && b is Infinite ==> quotient(a, b) is Finite && quotient(a, b)->mantissa == 0,
        a is Finite && b is Finite && b->mantissa != 0 ==> (quotient(a, b) is Infinite
            <==> a.magnitude() / b.magnitude() >= (MANTISSA_END as real - 1real / 2real) * pow2(
            971,
        )),
{
    lemma_zero_magnitude(a);
    lemma_zero_magnitude(b);
    if a is Finite && b is Finite && b->mantissa != 0 {
        let (p, q) = (a.magnitude(), b.magnitude());
        lemma_magnitude_not_negative(a);
        lemma_magnitude_not_negative(b);
        assert(p / q >= 0real) by (nonlinear_arith)
            requires
                p >= 0real,
                q > 0real,
        ;
        law_rounding_overflows(a.is_negative() != b.is_negative(), p / q);
    }
}

proof fn lemma_zero_magnitude(a: Double)
    ensures
        a is Finite ==> (a.magnitude() == 0real <==> a->mantissa == 0),
{
    if a is Finite {
        let (m, p) = (a->mantissa as real, pow2(a->exponent as int));
        lemma_pow2_step(a->exponent as int);
        assert(m * p == 0real <==> m == 0real) by (nonlinear_arith)
            requires
                p > 0real,
        ;
    }
}

/// A whole number of halves that is small enough is a double.
pub(crate) proof fn lemma_halves_are_exact(negative: bool, j: int, k: int)
    requires
        pow2(k) <= j as real / 2real < pow2(k + 1),
        -1 <= k <= 51,
    ensures
        rounded(negative, j as real / 2real).magnitude() == j as real / 2real,
{
    let x = j as real / 2real;
    let e = k - 52;
    lemma_rounding_error(negative, x, k);
    lemma_scale(x, k, e);
    let q = lemma_pow2_is_integer(-1 - e);
    lemma_pow2_sum(-1 - e, e);
    lemma_pow2_step(-1);
    lemma_pow2_step(e);
    let (p, jr, qr) = (pow2(e), j as real, q as real);
    lemma_product_as_real(j, q);
    assert((jr * qr) * p == x) by (nonlinear_arith)
        requires
            qr * p == pow2(-1),
            pow2(-1) == 1real / 2real,
            x == jr / 2real,
    ;
    lemma_cancel(jr * qr, p);
    assert(nearest_even((j * q) as real) == j * q);
}

/// What the rounded fraction `y` is next to the fraction `n / d`: nearer than any whole
/// number of halves that the fraction is not.
proof fn lemma_fraction_error(negative: bool, n: int, d: int) -> (k: int)
    requires
        0 < n < MANTISSA_MIN,
        0 < d <= 0x8000_0000,
    ensures
        -31 <= k < 52,
        pow2(k) <= (n as real / d as real) < pow2(k + 1),
        rounded(negative, n as real / d as real) is Finite,
        rounded(negative, n as real / d as real).is_negative() == negative,
        2real * n as real - 1real < (2real * rounded(negative, n as real / d as real).magnitude()
            * d as real) < 2real * n as real + 1real,
{
    let (nr, dr) = (n as real, d as real);
    let x = nr / dr;
    lemma_pow2_constants();
    lemma_small_powers();
    lemma_pow2_step(-53);
    let (tiny, huge) = (pow2(-31), pow2(52));
    assert(x * dr == nr && tiny <= x && x < huge) by (nonlinear_arith)
        requires
            x == nr / dr,
            1real <= nr < huge,
            1real <= dr <= 0x8000_0000int as real,
            tiny * 0x8000_0000int as real == 1real,
    ;
    let k = lemma_some_binade(x, -31, 52);
    lemma_rounding_error(negative, x, k);
    lemma_pow2_sum(k, -53);
    lemma_pow2_sum(53, -53);
    let (y, step) = (rounded(negative, x).magnitude(), pow2(k - 53));
    let (p, q) = (pow2(k), pow2(-53));
    assert(2real * step * dr < 1real) by (nonlinear_arith)
        requires
            step == p * q,
            p <= x,
            x * dr == nr,
            2real * nr < MANTISSA_END as real,
            MANTISSA_END as real * q == 1real,
            q > 0real,
            dr >= 1real,
    ;
    assert(2real * nr - 1real < 2real * y * dr < 2real * nr + 1real) by (nonlinear_arith)
        requires
            2real * step * dr < 1real,
            x - step <= y <= x + step,
            x * dr == nr,
            dr >= 1real,
    ;
    k
}

/// Rounding a fraction to double precision first does not change the integer that it is
/// rounded to, as long as the numerator is below two to the power 52.
pub proof fn lemma_no_double_rounding(negative: bool, n: int, d: int)
    requires
        0 <= n < MANTISSA_MIN,
        0 < d <= 0x8000_0000,
    ensures
        rounded(negative, n as real / d as real) is Finite,
        rounded(negative, n as real / d as real).is_negative() == negative,
        nearest_away(rounded(negative, n as real / d as real).magnitude()) == nearest_away(
            n as real / d as real,
        ),
{
    let (nr, dr) = (n as real, d as real);
    let x = nr / dr;
    let y = rounded(negative, x).magnitude();
    if n == 0 {
        assert(x == 0real) by (nonlinear_arith)
            requires
                x == nr / dr,
                nr == 0real,
                dr > 0real,
        ;
        assert(0real * pow2(EXPONENT_MIN as int) == 0real) by (nonlinear_arith);
    } else {
        let k = lemma_fraction_error(negative, n, d);
        lemma_pow2_step(k);
        let a = nearest_away(x);
        let ar = a as real;
        assert(2real * ar - 1real <= 2real * x < 2real * ar + 1real);
        lemma_product_as_real(2 * a + 1, d);
        lemma_product_as_real(2 * a - 1, d);
        let (up, down) = ((2 * a + 1) * d, (2 * a - 1) * d);
        assert(x * dr == nr && down as real <= 2real * nr && 2real * nr < up as real) by (nonlinear_arith)
            requires
                x == nr / dr,
                dr > 0real,
                down as real == (2real * ar - 1real) * dr,
                up as real == (2real * ar + 1real) * dr,
                2real * ar - 1real <= 2real * x < 2real * ar + 1real,
        ;
        assert(2 * n + 1 <= up);
        assert(2real * y < 2real * ar + 1real) by (nonlinear_arith)
            requires
                2real * y * dr < up as real,
                up as real == (2real * ar + 1real) * dr,
                dr > 0real,
        ;
        if 2 * n == down {
            assert(x == (2 * a - 1) as real / 2real) by (nonlinear_arith)
                requires
                    x * dr == nr,
                    2real * nr == (2real * ar - 1real) * dr,
                    dr > 0real,
                    ar == a as real,
            ;
            assert(k >= -1) by {
                if k < -1 {
                    lemma_pow2_grows(k + 1, -1);
                    lemma_small_powers();
                }
            }
            lemma_halves_are_exact(negative, 2 * a - 1, k);
        } else {
            assert(2real * y > 2real * ar - 1real) by (nonlinear_arith)
                requires
                    2real * y * dr > down as real,
                    down as real == (2real * ar - 1real) * dr,
                    dr > 0real,
            ;
        }
    }
}

} // verus!
