//! How many frames a picture is shown for, and how two pictures are mixed while one fades
//! into the other.
use vstd::prelude::*;

use crate::accuracy::{law_rounding_is_nearest, lemma_halves_are_exact, lemma_nearest_with_sign};
use crate::accuracy::{lemma_product_at_least, lemma_rounding_error, lemma_rounding_within};
use crate::accuracy::{lemma_some_binade, lemma_stretch};
use crate::double::{lemma_magnitude_not_negative, lemma_pow2_constants};
use crate::double::{product, round_ratio, rounded, rounded_integer};
use crate::double::{Double, MANTISSA_END, MANTISSA_MIN};
use crate::integral::power_of_two;
use crate::rounding::{lemma_binade, lemma_pow2_grows, lemma_pow2_step, lemma_pow2_sum};
use crate::rounding::{nearest_even, pow2};

verus! {

/// A frame count as a number of frames: one below zero means none.
pub open spec fn count(frames: i32) -> nat {
    if frames > 0 {
        frames as nat
    } else {
        0
    }
}

/// The number of frames that fill `seconds` at `fps` frames per second, to the nearest frame.
pub fn frame_count(fps: Double, seconds: Double) -> (r: i32)
    requires
        fps.wf(),
        seconds.wf(),
    ensures
        r == rounded_integer(product(fps, seconds), i32::MIN as int, i32::MAX as int),
        fps is Finite && seconds is Finite && !fps.is_negative() && !seconds.is_negative()
            && fps.value() * seconds.value() <= (i32::MAX - 1) as real ==> {
            let exact = fps.value() * seconds.value();
            &&& exact - 1real / 2real < r as real
            &&& r as real <= exact + exact * pow2(-53) + 1real / 2real
        },
{
    proof {
        if fps is Finite && seconds is Finite && !fps.is_negative() && !seconds.is_negative()
            && fps.value() * seconds.value() <= (i32::MAX - 1) as real {
            law_frame_count_is_nearest(fps, seconds);
        }
    }
    fps.mul(seconds).round_i32()
}

/// The number of frames that fill `seconds` at `fps` frames per second, to the nearest frame,
/// where a count below zero means none.
pub fn frame_count_unsigned(fps: Double, seconds: Double) -> (r: usize)
    requires
        fps.wf(),
        seconds.wf(),
    ensures
        r == rounded_integer(product(fps, seconds), 0, usize::MAX as int),
        fps is Finite && seconds is Finite && !fps.is_negative() && !seconds.is_negative()
            && fps.value() * seconds.value() <= (i32::MAX - 1) as real ==> {
            let exact = fps.value() * seconds.value();
            &&& exact - 1real / 2real < r as real
            &&& r as real <= exact + exact * pow2(-53) + 1real / 2real
        },
{
    proof {
        if fps is Finite && seconds is Finite && !fps.is_negative() && !seconds.is_negative()
            && fps.value() * seconds.value() <= (i32::MAX - 1) as real {
            law_frame_count_is_nearest(fps, seconds);
        }
    }
    fps.mul(seconds).round_usize()
}

/// A product of two doubles that is not zero is not below the square of the least double.
proof fn lemma_product_floor(a: Double, b: Double)
    requires
        a is Finite,
        b is Finite,
        a.wf(),
        b.wf(),
        a.magnitude() * b.magnitude() > 0real,
    ensures
        pow2(-2148) <= a.magnitude() * b.magnitude(),
{
    let u = pow2(-1074);
    lemma_pow2_sum(-1074, -1074);
    lemma_pow2_grows(-1074, a->exponent as int);
    lemma_pow2_grows(-1074, b->exponent as int);
    assert(a->mantissa > 0 && b->mantissa > 0) by {
        let (p, q) = (pow2(a->exponent as int), pow2(b->exponent as int));
        assert(0real * p == 0real && 0real * q == 0real);
        assert(0real * b.magnitude() == 0real && a.magnitude() * 0real == 0real)
            by (nonlinear_arith);
    }
    lemma_product_at_least(a->mantissa as real, pow2(a->exponent as int), 1real, u);
    lemma_product_at_least(b->mantissa as real, pow2(b->exponent as int), 1real, u);
    lemma_product_at_least(a.magnitude(), b.magnitude(), u, u);
}

/// A number below the normal doubles stays below them or becomes the least of them.
proof fn lemma_rounding_subnormal(x: real)
    requires
        pow2(-2148) <= x < pow2(-1022),
    ensures
        rounded(false, x) is Finite,
        !rounded(false, x).is_negative(),
        rounded(false, x).magnitude() <= pow2(-1022),
{
    let k = lemma_some_binade(x, -2148, -1022);
    lemma_binade(x, k);
    let u = pow2(-1074);
    lemma_pow2_step(-1074);
    lemma_pow2_constants();
    lemma_pow2_sum(52, -1074);
    let y = x / u;
    assert(0real <= y && y < MANTISSA_MIN as real) by (nonlinear_arith)
        requires
            y == x / u,
            u > 0real,
            0real <= x < MANTISSA_MIN as real * u,
    ;
    let m = nearest_even(y);
    assert(0 <= m <= MANTISSA_MIN);
    lemma_product_at_least(MANTISSA_MIN as real, u, m as real, u);
}

/// A time that takes a whole number of frames and a half, or more, is not rounded below that.
proof fn lemma_half_is_not_lost(x: real, frames: int)
    requires
        0 <= frames <= i32::MAX,
        x >= frames as real + 1real / 2real,
        rounded(false, x) is Finite,
    ensures
        rounded(false, x).magnitude() >= frames as real + 1real / 2real,
{
    let j = 2 * frames + 1;
    let h = j as real / 2real;
    assert(h == frames as real + 1real / 2real);
    lemma_pow2_step(-1);
    lemma_pow2_step(31);
    lemma_pow2_constants();
    assert(pow2(0) == 1real);
    let k = lemma_some_binade(h, -1, 32);
    lemma_halves_are_exact(false, j, k);
    lemma_rounding_error(false, h, k);
    law_rounding_is_nearest(false, x, rounded(false, h));
}

/// A frame count is nearest to the number of frames that the time takes, halves going up, up to
/// the rounding of the product to double precision: one part in two to the power 53. The signed
/// and the unsigned count are the same.
pub proof fn law_frame_count_is_nearest(fps: Double, seconds: Double)
    requires
        fps.wf(),
        seconds.wf(),
        fps is Finite,
        seconds is Finite,
        !fps.is_negative(),
        !seconds.is_negative(),
        fps.value() * seconds.value() <= (i32::MAX - 1) as real,
    ensures
        ({
            let frames = rounded_integer(
                product(fps, seconds),
                i32::MIN as int,
                i32::MAX as int,
            ) as real;
            let exact = fps.value() * seconds.value();
            &&& exact - 1real / 2real < frames
            &&& frames <= exact + exact * pow2(-53) + 1real / 2real
        }),
        rounded_integer(product(fps, seconds), 0, usize::MAX as int) == rounded_integer(
            product(fps, seconds),
            i32::MIN as int,
            i32::MAX as int,
        ),
{
    let x = fps.magnitude() * seconds.magnitude();
    let u = pow2(-53);
    lemma_magnitude_not_negative(fps);
    lemma_magnitude_not_negative(seconds);
    lemma_product_at_least(fps.magnitude(), seconds.magnitude(), 0real, 0real);
    lemma_pow2_constants();
    lemma_pow2_sum(53, -53);
    lemma_pow2_step(-53);
    if x == 0real {
        assert(0real * pow2(-1074) == 0real);
        assert(x * u == 0real) by (nonlinear_arith)
            requires
                x == 0real,
        ;
    } else {
        lemma_product_floor(fps, seconds);
        lemma_product_at_least(x, u, 0real, 0real);
        if x < pow2(-1022) {
            lemma_rounding_subnormal(x);
            lemma_pow2_grows(-1022, -2);
            lemma_magnitude_not_negative(rounded(false, x));
        } else {
            lemma_rounding_within(false, x, -1022, 31);
            assert(x * u <= 1real / 4real) by (nonlinear_arith)
                requires
                    0real < x <= 0x8000_0000int as real,
                    MANTISSA_END as real * u == 1real,
                    u > 0real,
            ;
            lemma_magnitude_not_negative(rounded(false, x));
        }
        let frames = rounded_integer(product(fps, seconds), i32::MIN as int, i32::MAX as int);
        if x >= frames as real + 1real / 2real {
            lemma_half_is_not_lost(x, frames);
        }
    }
}

/// The weights of the outgoing and the incoming picture in one frame of a fade.
#[derive(Clone, Copy, Debug, PartialEq, Eq, Structural)]
pub struct Weights {
    pub outgoing: Double,
    pub incoming: Double,
}

/// How far a fade of `frames` frames has come at its frame `f`, counted from zero.
pub open spec fn progress(f: int, frames: int) -> real {
    (f + 1) as real / (frames + 1) as real
}

/// The weights of frame `f` of a fade of `frames` frames: the incoming picture has the double
/// nearest to the progress of the fade, and the outgoing one what is left of one.
pub open spec fn fade_weights_at(f: int, frames: int) -> Weights {
    let incoming = rounded(false, progress(f, frames));
    Weights { outgoing: rounded(false, 1real - incoming.value()), incoming }
}

proof fn lemma_one_step(f: int, frames: int)
    requires
        0 <= f < frames <= i32::MAX,
    ensures
        pow2(-31) <= progress(f, frames) <= 1real - pow2(-31),
{
    lemma_pow2_constants();
    lemma_pow2_sum(31, -31);
    let (a, b, u) = ((f + 1) as real, (frames + 1) as real, pow2(-31));
    assert(u <= a / b && a / b <= 1real - u) by (nonlinear_arith)
        requires
            1real <= a <= b - 1real,
            b <= 0x8000_0000int as real,
            0x8000_0000int as real * u == 1real,
    ;
}

/// The range and the error of the incoming weight.
proof fn lemma_incoming(f: int, frames: int)
    requires
        0 <= f < frames <= i32::MAX,
    ensures
        ({
            let w = fade_weights_at(f, frames).incoming;
            &&& w is Finite
            &&& w.wf()
            &&& !w.is_negative()
            &&& pow2(-31) <= w.value()
            &&& w.value() < 1real
            &&& progress(f, frames) - pow2(-53) <= w.value() <= progress(f, frames) + pow2(-53)
        }),
{
    let x = progress(f, frames);
    let u = pow2(-53);
    lemma_one_step(f, frames);
    lemma_pow2_grows(-53, -31);
    assert(pow2(0) == 1real);
    lemma_rounding_within(false, x, -31, 0);
    assert(x * u <= u) by (nonlinear_arith)
        requires
            x <= 1real,
            u > 0real,
    ;
}

/// Where the exponent of a weight lies.
proof fn lemma_weight_exponent(w: Double)
    requires
        w.wf(),
        w is Finite,
        pow2(-31) <= w.magnitude() < 1real,
    ensures
        w->mantissa >= MANTISSA_MIN,
        -84 <= w->exponent <= -53,
{
    let (m, e) = (w->mantissa as real, w->exponent as int);
    lemma_pow2_constants();
    lemma_pow2_step(e);
    if e >= -52 {
        lemma_pow2_grows(-52, e);
        lemma_pow2_sum(52, -52);
        lemma_product_at_least(m, pow2(e), MANTISSA_MIN as real, pow2(-52));
    }
    if e <= -85 {
        lemma_pow2_grows(e, -85);
        lemma_pow2_sum(53, -85);
        lemma_pow2_grows(-32, -31);
        lemma_product_at_least(MANTISSA_END as real, pow2(-85), m, pow2(e));
    }
}

/// What is left of one when `w` is taken away.
fn complement(w: Double) -> (r: Double)
    requires
        w.wf(),
        w is Finite,
        !w.is_negative(),
        pow2(-31) <= w.magnitude() < 1real,
    ensures
        r == rounded(false, 1real - w.value()),
        r.wf(),
{
    proof {
        lemma_weight_exponent(w);
    }
    match w {
        Double::Finite { mantissa, exponent, .. } => {
            let one: u128 = power_of_two((-exponent) as u32);
            proof {
                let (m, p, q) = (mantissa as real, pow2(exponent as int), one as real);
                lemma_pow2_step(exponent as int);
                lemma_pow2_sum(-exponent as int, exponent as int);
                assert(m < q) by (nonlinear_arith)
                    requires
                        m * p < q * p,
                        p > 0real,
                ;
                assert((q - m) / 1real * p == 1real - m * p) by (nonlinear_arith)
                    requires
                        q * p == 1real,
                ;
            }
            round_ratio(false, one - mantissa as u128, 1, exponent)
        },
        _ => w,
    }
}

/// The weights of frame `f` of a fade of `fade_frames` frames.
pub fn fade_weights(f: i32, fade_frames: i32) -> (r: Weights)
    requires
        0 <= f < fade_frames,
    ensures
        r == fade_weights_at(f as int, fade_frames as int),
        r.outgoing.wf(),
        r.incoming.wf(),
        ({
            let n = (fade_frames + 1) as real;
            let u = n * pow2(-53);
            &&& (f + 1) as real - u <= n * r.incoming.value() <= (f + 1) as real + u
            &&& (fade_frames - f) as real - 2real * u <= n * r.outgoing.value() <= (fade_frames
                - f) as real + 2real * u
        }),
{
    proof {
        law_fade_steps_are_equal(f as int, fade_frames as int);
    }
    let n: u128 = f as u128 + 1;
    let d: u128 = fade_frames as u128 + 1;
    proof {
        lemma_incoming(f as int, fade_frames as int);
        let x = n as real / d as real;
        assert(pow2(0) == 1real);
        assert(x * 1real == x);
    }
    let incoming = round_ratio(false, n, d, 0);
    Weights { outgoing: complement(incoming), incoming }
}

/// No frame of a fade shows one picture alone: both weights are above zero and below one.
pub proof fn law_fade_shows_both(f: int, frames: int)
    requires
        0 <= f < frames <= i32::MAX,
    ensures
        ({
            let w = fade_weights_at(f, frames);
            &&& w.incoming is Finite
            &&& w.outgoing is Finite
            &&& 0real < w.incoming.value() < 1real
            &&& 0real < w.outgoing.value() < 1real
        }),
{
    lemma_outgoing(f, frames);
}

/// The range and the error of the outgoing weight.
proof fn lemma_outgoing(f: int, frames: int)
    requires
        0 <= f < frames <= i32::MAX,
    ensures
        ({
            let w = fade_weights_at(f, frames);
            &&& w.incoming is Finite
            &&& w.outgoing is Finite
            &&& !w.outgoing.is_negative()
            &&& 0real < w.incoming.value() < 1real
            &&& 0real < w.outgoing.value() < 1real
            &&& progress(f, frames) - pow2(-53) <= w.incoming.value()
            &&& w.incoming.value() <= progress(f, frames) + pow2(-53)
            &&& 1real - pow2(-53) <= w.incoming.value() + w.outgoing.value()
            &&& w.incoming.value() + w.outgoing.value() <= 1real + pow2(-53)
        }),
{
    lemma_incoming(f, frames);
    lemma_one_step(f, frames);
    let u = pow2(-53);
    let z = 1real - fade_weights_at(f, frames).incoming.value();
    lemma_pow2_grows(-53, -32);
    lemma_pow2_step(-32);
    assert(pow2(0) == 1real);
    lemma_rounding_within(false, z, -32, 0);
    assert(z * u <= u) by (nonlinear_arith)
        requires
            z <= 1real,
            u > 0real,
    ;
    lemma_pow2_grows(-53, -31);
}

/// From frame to frame of a fade the incoming picture gains weight and the outgoing one loses.
pub proof fn law_fade_advances(f: int, g: int, frames: int)
    requires
        0 <= f < g < frames <= i32::MAX,
    ensures
        ({
            let (v, w) = (fade_weights_at(f, frames), fade_weights_at(g, frames));
            &&& v.incoming.value() < w.incoming.value()
            &&& v.outgoing.value() > w.outgoing.value()
        }),
{
    lemma_outgoing(f, frames);
    lemma_outgoing(g, frames);
    lemma_pow2_constants();
    lemma_pow2_sum(31, -31);
    lemma_pow2_grows(-50, -31);
    lemma_pow2_step(-51);
    lemma_pow2_step(-52);
    lemma_pow2_step(-53);
    let (a, b, c, u) = ((f + 1) as real, (g + 1) as real, (frames + 1) as real, pow2(-31));
    assert(b / c - a / c >= u) by (nonlinear_arith)
        requires
            b >= a + 1real,
            1real <= c <= 0x8000_0000int as real,
            0x8000_0000int as real * u == 1real,
    ;
}

/// A fade of `frames` frames goes from one picture to the other in `frames + 1` equal steps: at
/// frame `f`, counted from zero, the incoming picture has `f + 1` of them and the outgoing one
/// the other `frames - f`, up to the rounding of the weights to double precision.
pub proof fn law_fade_steps_are_equal(f: int, frames: int)
    requires
        0 <= f < frames <= i32::MAX,
    ensures
        ({
            let w = fade_weights_at(f, frames);
            let n = (frames + 1) as real;
            let u = n * pow2(-53);
            &&& (f + 1) as real - u <= n * w.incoming.value() <= (f + 1) as real + u
            &&& (frames - f) as real - 2real * u <= n * w.outgoing.value() <= (frames - f) as real
                + 2real * u
        }),
{
    lemma_outgoing(f, frames);
    let (a, n, e) = ((f + 1) as real, (frames + 1) as real, pow2(-53));
    let w = fade_weights_at(f, frames);
    let (p, x, y) = (a / n, w.incoming.value(), w.outgoing.value());
    assert(n * p == a) by (nonlinear_arith)
        requires
            p == a / n,
            n > 0real,
    ;
    assert(a - n * e <= n * x && n * x <= a + n * e && n - a - 2real * (n * e) <= n * y && n * y
        <= n - a + 2real * (n * e)) by (nonlinear_arith)
        requires
            n * p == a,
            n > 0real,
            p - e <= x <= p + e,
            1real - e <= x + y <= 1real + e,
    ;
}

/// The weights of a frame are the nearest doubles: the incoming one to `f + 1` of `frames + 1`
/// parts, and the outgoing one to what the incoming one leaves of one.
pub proof fn law_fade_weights_are_nearest(f: int, frames: int, d: Double)
    requires
        0 <= f < frames <= i32::MAX,
        d is Finite,
        d.wf(),
    ensures
        ({
            let w = fade_weights_at(f, frames);
            let (a, n) = ((f + 1) as real, (frames + 1) as real);
            let (x, y, v) = (w.incoming.value(), w.outgoing.value(), d.value());
            &&& n * v >= a ==> n * x - a <= n * v - a && a - n * x <= n * v - a
            &&& n * v <= a ==> n * x - a <= a - n * v && a - n * x <= a - n * v
            &&& v >= 1real - x ==> y - (1real - x) <= v - (1real - x) && (1real - x) - y <= v - (
            1real - x)
            &&& v <= 1real - x ==> y - (1real - x) <= (1real - x) - v && (1real - x) - y <= (1real
                - x) - v
        }),
{
    lemma_outgoing(f, frames);
    lemma_one_step(f, frames);
    lemma_pow2_step(-31);
    let w = fade_weights_at(f, frames);
    let (a, n) = ((f + 1) as real, (frames + 1) as real);
    let p = a / n;
    assert(p * n == a) by (nonlinear_arith)
        requires
            p == a / n,
            n > 0real,
    ;
    lemma_nearest_with_sign(false, p, d);
    lemma_nearest_with_sign(false, 1real - w.incoming.value(), d);
    let (x, v) = (w.incoming.value(), d.value());
    lemma_stretch(x, v, p, n);
    assert(x * n == n * x && v * n == n * v) by (nonlinear_arith);
}

/// A fade reads the same with the pictures exchanged: the incoming picture has at a frame the
/// weight that the outgoing one has at the frame as far from the end, up to rounding.
pub proof fn law_fade_is_symmetric(f: int, frames: int)
    requires
        0 <= f < frames <= i32::MAX,
    ensures
        ({
            let x = fade_weights_at(f, frames).incoming.value();
            let y = fade_weights_at(frames - 1 - f, frames).outgoing.value();
            -(3real * pow2(-53)) <= x - y <= 3real * pow2(-53)
        }),
{
    let g = frames - 1 - f;
    law_fade_steps_are_equal(f, frames);
    law_fade_steps_are_equal(g, frames);
    let (n, e) = ((frames + 1) as real, pow2(-53));
    let x = fade_weights_at(f, frames).incoming.value();
    let y = fade_weights_at(g, frames).outgoing.value();
    assert(frames - g == f + 1);
    let a = (f + 1) as real;
    assert(-(3real * e) <= x - y && x - y <= 3real * e) by (nonlinear_arith)
        requires
            n > 0real,
            a - n * e <= n * x <= a + n * e,
            a - 2real * (n * e) <= n * y <= a + 2real * (n * e),
    ;
}

/// From each frame of a fade to the next the incoming picture gains the same weight, one part
/// in `frames + 1`, up to rounding: the first frame is that far from the outgoing picture alone
/// and the last one that far from the incoming picture alone.
pub proof fn law_fade_gains_evenly(f: int, g: int, frames: int)
    requires
        0 <= f <= g < frames <= i32::MAX,
    ensures
        ({
            let x = fade_weights_at(f, frames).incoming.value();
            let y = fade_weights_at(g, frames).incoming.value();
            let n = (frames + 1) as real;
            let u = 2real * (n * pow2(-53));
            (g - f) as real - u <= n * (y - x) <= (g - f) as real + u
        }),
        ({
            let first = fade_weights_at(0, frames).incoming.value();
            let last = fade_weights_at(frames - 1, frames).incoming.value();
            let n = (frames + 1) as real;
            let u = n * pow2(-53);
            &&& 1real - u <= n * first <= 1real + u
            &&& 1real - u <= n * (1real - last) <= 1real + u
        }),
{
    law_fade_steps_are_equal(f, frames);
    law_fade_steps_are_equal(g, frames);
    law_fade_steps_are_equal(0, frames);
    law_fade_steps_are_equal(frames - 1, frames);
    let n = (frames + 1) as real;
    let x = fade_weights_at(f, frames).incoming.value();
    let y = fade_weights_at(g, frames).incoming.value();
    let last = fade_weights_at(frames - 1, frames).incoming.value();
    assert(n * (y - x) == n * y - n * x && n * (1real - last) == n - n * last) by (nonlinear_arith);
}

/// The two weights of a frame add up to one, and the incoming one is the progress of the
/// fade, up to one part in two to the power 53.
pub proof fn law_fade_is_linear(f: int, frames: int)
    requires
        0 <= f < frames <= i32::MAX,
    ensures
        ({
            let w = fade_weights_at(f, frames);
            &&& progress(f, frames) - pow2(-53) <= w.incoming.value()
            &&& w.incoming.value() <= progress(f, frames) + pow2(-53)
            &&& 1real - pow2(-53) <= w.incoming.value() + w.outgoing.value()
            &&& w.incoming.value() + w.outgoing.value() <= 1real + pow2(-53)
        }),
{
    lemma_outgoing(f, frames);
}

} // verus!
