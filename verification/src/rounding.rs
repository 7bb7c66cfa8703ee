//! Rounding of real numbers, as a vocabulary for contracts.
use vstd::prelude::*;

verus! {

/// Two to the power `k`.
pub open spec fn pow2(k: int) -> real
    decreases (if k >= 0 { k } else { -k }),
{
    if k == 0 {
        1real
    } else if k > 0 {
        2real * pow2(k - 1)
    } else {
        pow2(k + 1) / 2real
    }
}

/// The integer nearest to `x`; of two that are equally near, the even one.
pub open spec fn nearest_even(x: real) -> int {
    let low = x.floor();
    let rest = x - low as real;
    if 2real * rest < 1real || (2real * rest == 1real && low % 2 == 0) {
        low
    } else {
        low + 1
    }
}

/// The integer nearest to `x`; of two that are equally near, the one farther from zero.
pub open spec fn nearest_away(x: real) -> int {
    if x >= 0real {
        (x + 1real / 2real).floor()
    } else {
        -((-x + 1real / 2real).floor())
    }
}

/// The integer in the range from `low` to `high` that is nearest to `i`.
pub open spec fn clamp(i: int, low: int, high: int) -> int {
    if i < low {
        low
    } else if i > high {
        high
    } else {
        i
    }
}

/// The exponent of the greatest power of two that is not above `x`.
pub open spec fn binade(x: real) -> int {
    choose|k: int| pow2(k) <= x && x < #[trigger] pow2(k + 1)
}

/// The powers of two start at one and double from each exponent to the next.
pub proof fn law_powers_of_two(k: int)
    ensures
        pow2(0) == 1real,
        pow2(k + 1) == 2real * pow2(k),
{
    lemma_pow2_step(k);
}

/// Rounding to the nearest integer: no integer is nearer, and where two are equally near it is
/// the even one.
pub proof fn law_nearest_even_is_nearest(y: real, j: int)
    ensures
        ({
            let m = nearest_even(y);
            &&& j as real >= y ==> m as real - y <= j as real - y && y - m as real <= j as real - y
            &&& j as real <= y ==> m as real - y <= y - j as real && y - m as real <= y - j as real
            &&& j != m && (j + m) as real == 2real * y ==> m % 2 == 0
        }),
{
}

/// Rounding to the nearest integer with halves going away from zero: no integer is nearer, and
/// where two are equally near it is the one farther from zero.
pub proof fn law_nearest_away_is_nearest(y: real, j: int)
    ensures
        ({
            let m = nearest_away(y);
            &&& j as real >= y ==> m as real - y <= j as real - y && y - m as real <= j as real - y
            &&& j as real <= y ==> m as real - y <= y - j as real && y - m as real <= y - j as real
            &&& j != m && (j + m) as real == 2real * y ==> (if y >= 0real {
                m > j
            } else {
                m < j
            })
        }),
{
}

pub(crate) proof fn lemma_pow2_step(k: int)
    ensures
        pow2(k) > 0real,
        pow2(k + 1) == 2real * pow2(k),
    decreases (if k >= 0 { k } else { -k }),
{
    if k > 0 {
        lemma_pow2_step(k - 1);
    } else if k < 0 {
        lemma_pow2_step(k + 1);
    }
}

pub(crate) proof fn lemma_pow2_grows(a: int, b: int)
    requires
        a <= b,
    ensures
        0real < pow2(a) <= pow2(b),
        a < b ==> 2real * pow2(a) <= pow2(b),
    decreases b - a,
{
    lemma_pow2_step(a);
    if a < b {
        lemma_pow2_grows(a + 1, b);
    }
}

pub(crate) proof fn lemma_pow2_sum(a: int, b: int)
    ensures
        pow2(a) * pow2(b) == pow2(a + b),
    decreases (if b >= 0 { b } else { -b }),
{
    if b > 0 {
        lemma_pow2_sum(a, b - 1);
        lemma_pow2_step(b - 1);
        lemma_pow2_step(a + b - 1);
        let (x, y) = (pow2(a), pow2(b - 1));
        assert(x * (2real * y) == 2real * (x * y)) by (nonlinear_arith);
    } else if b < 0 {
        lemma_pow2_sum(a, b + 1);
        lemma_pow2_step(b);
        lemma_pow2_step(a + b);
        let (x, y) = (pow2(a), pow2(b));
        assert(x * (2real * y) == 2real * (x * y)) by (nonlinear_arith);
    }
}

pub(crate) proof fn lemma_binade(x: real, k: int)
    requires
        pow2(k) <= x < pow2(k + 1),
    ensures
        binade(x) == k,
{
    let b = binade(x);
    assert(pow2(b) <= x && x < pow2(b + 1));
    if b < k {
        lemma_pow2_grows(b + 1, k);
    } else if b > k {
        lemma_pow2_grows(k + 1, b);
    }
}

pub(crate) proof fn lemma_nearest_away_mirrors(x: real)
    requires
        x >= 0real,
    ensures
        nearest_away(x) >= 0,
        nearest_away(-x) == -nearest_away(x),
{
}

} // verus!
