//! Frame sizes, and how a picture is brought to one.
use vstd::prelude::*;

use crate::accuracy::{lemma_no_double_rounding, lemma_product_at_least, lemma_rounding_within};
use crate::double::{double_of, lemma_integer_is_double, lemma_magnitude_not_negative};
use crate::double::{lemma_pow2_constants, lemma_product_as_real};
use crate::double::{product, quotient, rounded, rounded_integer};
use crate::double::{Double, MANTISSA_END, MANTISSA_MIN};
use crate::rounding::{lemma_nearest_away_mirrors, nearest_away, pow2};
use crate::rounding::{lemma_pow2_step, lemma_pow2_sum};

verus! {

/// A size in pixels.
#[derive(Clone, Copy, Debug, PartialEq, Eq, Structural)]
pub struct Size {
    pub width: i32,
    pub height: i32,
}

/// The greatest even integer that is not above `w`.
pub open spec fn even_floor(w: int) -> int {
    w - w % 2
}

/// The width that keeps the shape of a picture of size `w` by `h` at the height `max_h`,
/// computed in double precision and rounded to an `i32`.
pub open spec fn scaled_width(w: int, h: int, max_h: int) -> int {
    rounded_integer(
        quotient(product(double_of(w), double_of(max_h)), double_of(h)),
        i32::MIN as int,
        i32::MAX as int,
    )
}

/// The frame size for a picture of size `w` by `h`: no higher than `max_h`, of even width, and
/// scaled in proportion where the height has to shrink.
pub open spec fn frame_size(w: int, h: int, max_h: int) -> (int, int) {
    if h <= max_h {
        (even_floor(w), h)
    } else {
        (even_floor(scaled_width(w, h, max_h)), max_h)
    }
}

/// Clears the lowest bit.
fn round_down_to_even(w: i32) -> (r: i32)
    ensures
        r == even_floor(w as int),
{
    assert((w & !1i32) == w - (w & 1i32)) by (bit_vector);
    assert((w & 1i32) == w % 2i32) by (bit_vector);
    w & !1
}

/// The frame size for a video whose first picture has size `w` by `h`.
pub fn compute_size(w: i32, h: i32, max_h: i32) -> (r: Size)
    ensures
        (r.width as int, r.height as int) == frame_size(w as int, h as int, max_h as int),
        r.height == if h <= max_h {
            h
        } else {
            max_h
        },
        r.width % 2 == 0,
        h <= max_h ==> w - 1 <= r.width <= w,
        0 <= w && 0 <= max_h ==> 0 <= r.width <= w,
        0 <= w && 0 <= max_h < h && w * max_h < 0x10_0000_0000_0000 ==> 2 * r.width * h <= 2 * w
            * max_h + h && 2 * w * max_h < 2 * r.width * h + 3 * h,
{
    proof {
        if 0 <= w && 0 <= max_h {
            law_frame_is_not_wider(w, h, max_h);
            assert(w * max_h >= 0) by (nonlinear_arith)
                requires
                    0 <= w,
                    0 <= max_h,
            ;
            if max_h < h && w * max_h < 0x10_0000_0000_0000 {
                law_frame_width_is_determined(w, h, max_h);
            }
        }
    }
    if h <= max_h {
        return Size { width: round_down_to_even(w), height: h };
    }
    let new_w: i32 = Double::from_i32(w).mul(Double::from_i32(max_h)).div(
        Double::from_i32(h),
    ).round_i32();
    Size { width: round_down_to_even(new_w), height: max_h }
}

/// What is known of a picture that was read.
#[derive(Clone, Copy, Debug, PartialEq, Eq, Structural)]
pub struct Picture {
    pub size: Size,
    /// Whether the picture has no pixels.
    pub empty: bool,
}

/// How a picture gets into a frame.
#[derive(Clone, Copy, Debug, PartialEq, Eq, Structural)]
pub enum Placement {
    /// Not at all.
    Skip,
    /// As it is.
    Keep,
    /// Resized to the frame.
    Resize,
}

/// How a picture gets into a frame of size `frame`: not without pixels, and resized only where
/// its size is another one.
pub open spec fn placement_of(picture: Picture, frame: Size) -> Placement {
    if picture.empty {
        Placement::Skip
    } else if picture.size == frame {
        Placement::Keep
    } else {
        Placement::Resize
    }
}

/// Decides how a picture gets into a frame of size `frame`.
pub fn place(picture: Picture, frame: Size) -> (r: Placement)
    ensures
        r == placement_of(picture, frame),
        r == Placement::Skip <==> picture.empty,
        r == Placement::Keep <==> !picture.empty && picture.size.width == frame.width
            && picture.size.height == frame.height,
{
    if picture.empty {
        Placement::Skip
    } else if picture.size.width == frame.width && picture.size.height == frame.height {
        Placement::Keep
    } else {
        Placement::Resize
    }
}

/// The frame size of a video that begins with `first`, no higher than `max_h` where a limit is
/// given.
pub open spec fn video_size(first: Picture, max_h: Option<i32>) -> (int, int) {
    match max_h {
        Some(limit) => frame_size(
            first.size.width as int,
            first.size.height as int,
            limit as int,
        ),
        None => (first.size.width as int, first.size.height as int),
    }
}

/// The frame size of a video that begins with `first`. A first picture without pixels gives
/// none.
pub fn video_frame(first: Picture, max_h: Option<i32>) -> (r: Option<Size>)
    ensures
        r is None <==> first.empty,
        r matches Some(size) ==> (size.width as int, size.height as int) == video_size(
            first,
            max_h,
        ),
        !first.empty && max_h is None ==> r == Some(first.size),
        r matches Some(size) ==> (max_h matches Some(limit) ==> {
            &&& size.width % 2 == 0
            &&& first.size.height <= limit ==> size.height == first.size.height
                && first.size.width - 1 <= size.width <= first.size.width
            &&& first.size.height > limit ==> size.height == limit
        }),
{
    if first.empty {
        return None;
    }
    match max_h {
        Some(limit) => Some(compute_size(first.size.width, first.size.height, limit)),
        None => Some(first.size),
    }
}

/// The frame is no higher than the limit and no higher than the picture, and its width is even.
pub proof fn law_frame_height_and_parity(w: i32, h: i32, max_h: i32)
    ensures
        frame_size(w as int, h as int, max_h as int).1 == if h <= max_h {
            h
        } else {
            max_h
        },
        frame_size(w as int, h as int, max_h as int).0 % 2 == 0,
{
}

/// A picture that is not higher than the limit keeps its height, and its width but for the one
/// column that an odd width has too many.
pub proof fn law_low_picture_keeps_its_size(w: i32, h: i32, max_h: i32)
    requires
        h <= max_h,
    ensures
        frame_size(w as int, h as int, max_h as int).1 == h,
        frame_size(w as int, h as int, max_h as int).0 % 2 == 0,
        w - 1 <= frame_size(w as int, h as int, max_h as int).0 <= w,
{
}

/// Without a limit the frame is the first picture. With one it is that of the first picture
/// alone, and the limit bounds its height.
pub proof fn law_first_picture_gives_the_frame(first: Picture, limit: i32)
    ensures
        video_size(first, None) == (first.size.width as int, first.size.height as int),
        ({
            let (width, height) = video_size(first, Some(limit));
            let size = first.size;
            &&& (width, height) == frame_size(
                size.width as int,
                size.height as int,
                limit as int,
            )
            &&& width % 2 == 0
            &&& height <= limit
            &&& size.height <= limit ==> height == size.height && size.width - 1 <= width
                <= size.width
            &&& size.height > limit ==> height == limit
        }),
{
}

/// A picture is left out exactly where it has no pixels. Any other one is kept as it is where
/// it is as wide and as high as the frame, and resized where it is not.
pub proof fn law_placement_goes_by_size(picture: Picture, frame: Size)
    ensures
        placement_of(picture, frame) == Placement::Skip <==> picture.empty,
        placement_of(picture, frame) == Placement::Keep <==> !picture.empty && picture.size.width
            == frame.width && picture.size.height == frame.height,
        placement_of(picture, frame) == Placement::Resize <==> !picture.empty && (
        picture.size.width != frame.width || picture.size.height != frame.height),
{
}

/// A frame size is kept as it is when it is computed again.
pub proof fn law_frame_size_is_stable(w: i32, h: i32, max_h: i32)
    ensures
        ({
            let (fw, fh) = frame_size(w as int, h as int, max_h as int);
            frame_size(fw, fh, max_h as int) == (fw, fh)
        }),
{
}

/// The distance of `w` from zero.
spec fn distance(w: int) -> int {
    if w < 0 {
        -w
    } else {
        w
    }
}

/// The product of a width and a height limit, in double precision.
spec fn area(w: int, max_h: int) -> Double {
    rounded(w < 0, (distance(w) * max_h) as real)
}

/// What `scaled_width` computes where no operand is special.
proof fn lemma_scaled_width_steps(w: i32, h: i32, max_h: i32)
    requires
        0 <= max_h < h,
        area(w as int, max_h as int) is Finite,
        area(w as int, max_h as int).is_negative() == (w < 0),
    ensures
        scaled_width(w as int, h as int, max_h as int) == rounded_integer(
            rounded(w < 0, area(w as int, max_h as int).magnitude() / h as real),
            i32::MIN as int,
            i32::MAX as int,
        ),
{
    lemma_integer_is_double(w < 0, distance(w as int));
    lemma_integer_is_double(false, max_h as int);
    lemma_integer_is_double(false, h as int);
    lemma_product_as_real(distance(w as int), max_h as int);
}

/// The width of a scaled frame is that of exact arithmetic, rounded, as long as the picture's
/// width times the limit stays below two to the power 52.
pub proof fn law_scaled_width_is_exact(w: i32, h: i32, max_h: i32)
    requires
        0 <= max_h < h,
        -MANTISSA_MIN < w * max_h < MANTISSA_MIN,
    ensures
        scaled_width(w as int, h as int, max_h as int) == nearest_away(
            (w * max_h) as real / h as real,
        ),
{
    let d = distance(w as int);
    let n = d * max_h;
    assert(0 <= n && n == (if w < 0 {
        -(w * max_h)
    } else {
        w * max_h
    })) by (nonlinear_arith)
        requires
            0 <= max_h,
            n == d * max_h,
            d == if w < 0 {
                -w
            } else {
                w as int
            },
    ;
    lemma_integer_is_double(w < 0, n);
    lemma_scaled_width_steps(w, h, max_h);
    lemma_no_double_rounding(w < 0, n, h as int);
    let (nr, hr, dr, mr) = (n as real, h as real, d as real, max_h as real);
    lemma_product_as_real(d, max_h as int);
    assert(0real <= nr / hr <= dr && -nr / hr == -(nr / hr)) by (nonlinear_arith)
        requires
            nr == dr * mr,
            0real <= dr,
            0real <= mr < hr,
    ;
    lemma_nearest_away_mirrors(nr / hr);
    lemma_magnitude_not_negative(rounded(w < 0, nr / hr));
    lemma_nearest_away_mirrors(rounded(w < 0, nr / hr).magnitude());
}

/// A scaled frame has the shape of the picture: its width is at most three halves below and
/// at most one half above the width in proportion.
pub proof fn law_frame_keeps_shape(w: i32, h: i32, max_h: i32)
    requires
        0 <= max_h < h,
        -MANTISSA_MIN < w * max_h < MANTISSA_MIN,
    ensures
        ({
            let width = frame_size(w as int, h as int, max_h as int).0 as real;
            let proportional = (w * max_h) as real / h as real;
            proportional - 3real / 2real <= width <= proportional + 1real / 2real
        }),
{
    law_scaled_width_is_exact(w, h, max_h);
}

/// The width of a scaled frame is the even number that the width in proportion, halves going
/// away from zero, fixes: it is above the proportion by one half at most, and below it by less
/// than three halves.
pub proof fn law_frame_width_is_determined(w: i32, h: i32, max_h: i32)
    requires
        0 <= max_h < h,
        -0x10_0000_0000_0000 < w * max_h < 0x10_0000_0000_0000,
    ensures
        ({
            let width = frame_size(w as int, h as int, max_h as int).0;
            &&& width % 2 == 0
            &&& w >= 0 ==> 2 * width * h <= 2 * w * max_h + h && 2 * w * max_h < 2 * width * h + 3
                * h
            &&& w < 0 ==> 2 * width * h < 2 * w * max_h + h && 2 * w * max_h <= 2 * width * h + 3
                * h
        }),
{
    law_scaled_width_is_exact(w, h, max_h);
    let n = w * max_h;
    let (nr, hr) = (n as real, h as real);
    let x = nr / hr;
    let k = scaled_width(w as int, h as int, max_h as int);
    let kr = k as real;
    assert(n >= 0 <==> w >= 0 || max_h == 0) by (nonlinear_arith)
        requires
            n == w * max_h,
            0 <= max_h,
    ;
    assert(x * hr == nr && (x >= 0real <==> nr >= 0real)) by (nonlinear_arith)
        requires
            x == nr / hr,
            hr > 0real,
    ;
    if n >= 0 {
        assert(kr <= x + 1real / 2real && x + 1real / 2real < kr + 1real);
        assert(2real * (kr * hr) <= 2real * nr + hr && 2real * nr < 2real * (kr * hr) + hr)
            by (nonlinear_arith)
            requires
                kr <= x + 1real / 2real < kr + 1real,
                x * hr == nr,
                hr > 0real,
        ;
    } else {
        assert(-kr <= -x + 1real / 2real && -x + 1real / 2real < -kr + 1real);
        assert(2real * (kr * hr) < 2real * nr + hr && 2real * nr <= 2real * (kr * hr) + hr)
            by (nonlinear_arith)
            requires
                -kr <= -x + 1real / 2real < -kr + 1real,
                x * hr == nr,
                hr > 0real,
        ;
    }
    lemma_product_as_real(k, h as int);
    let width = frame_size(w as int, h as int, max_h as int).0;
    assert(width == k || width == k - 1);
    assert(2 * width * h == 2 * (width * h) && (k - 1) * h == k * h - h && 2 * w * max_h == 2 * n)
        by (nonlinear_arith)
        requires
            n == w * max_h,
    ;
}

/// Where the height has to shrink, the width is that of the product and the quotient in double
/// precision, rounded to an integer, and one less where that is odd.
pub proof fn law_scaled_frame_in_doubles(w: i32, h: i32, max_h: i32)
    requires
        max_h < h,
    ensures
        ({
            let (width, height) = frame_size(w as int, h as int, max_h as int);
            let scaled = rounded_integer(
                quotient(product(double_of(w as int), double_of(max_h as int)), double_of(h as int)),
                i32::MIN as int,
                i32::MAX as int,
            );
            &&& height == max_h
            &&& width % 2 == 0
            &&& scaled - 1 <= width <= scaled
        }),
{
}

/// Two rounding errors together.
proof fn lemma_two_errors(n: real, h: real, a: real, q: real, y: real, u: real)
    requires
        0real <= n <= 0x8000_0000int as real * h,
        1real <= h,
        0real < u,
        MANTISSA_END as real * u == 1real,
        n - n * u <= a <= n + n * u,
        q * h == a,
        q - q * u <= y <= q + q * u,
    ensures
        n - h / 0x10_0000int as real <= y * h <= n + h / 0x10_0000int as real,
{
    let s = n * u;
    assert(u <= 1real) by (nonlinear_arith)
        requires
            MANTISSA_END as real * u == 1real,
            u > 0real,
    ;
    assert(a - a * u <= y * h && y * h <= a + a * u) by (nonlinear_arith)
        requires
            q - q * u <= y <= q + q * u,
            q * h == a,
            h >= 1real,
    ;
    assert(0real <= s && 0x40_0000int as real * s <= h) by (nonlinear_arith)
        requires
            s == n * u,
            0real <= n <= 0x8000_0000int as real * h,
            MANTISSA_END as real * u == 1real,
            u > 0real,
    ;
    assert(a * u <= 2real * s) by (nonlinear_arith)
        requires
            a <= n + n * u,
            s == n * u,
            0real < u <= 1real,
            0real <= n,
    ;
}

/// A scaled frame has the shape of the picture, whatever the sizes: its width is at most three
/// halves below and one half above the width in proportion, and one part in a million for the
/// rounding of very large numbers.
pub proof fn law_frame_keeps_shape_at_any_size(w: i32, h: i32, max_h: i32)
    requires
        0 <= w,
        0 <= max_h < h,
    ensures
        ({
            let width = frame_size(w as int, h as int, max_h as int).0;
            let (shown, exact) = ((width * h) as real, (w * max_h) as real);
            let slack = h as real / 0x10_0000int as real;
            &&& shown <= exact + h as real / 2real + slack
            &&& exact - 3real * h as real / 2real - slack <= shown
        }),
{
    let n = w * max_h;
    let hr = h as real;
    assert(n >= 0) by (nonlinear_arith)
        requires
            0 <= w,
            0 <= max_h,
            n == w * max_h,
    ;
    let width = frame_size(w as int, h as int, max_h as int).0;
    if n < MANTISSA_MIN {
        law_frame_width_is_determined(w, h, max_h);
        assert(2 * width * h == 2 * (width * h) && 2 * w * max_h == 2 * n) by (nonlinear_arith)
            requires
                n == w * max_h,
        ;
    } else {
        lemma_large_area(w, h, max_h);
        lemma_scaled_width_steps(w, h, max_h);
        let y = rounded(false, area(w as int, max_h as int).magnitude() / hr).magnitude();
        lemma_magnitude_not_negative(
            rounded(false, area(w as int, max_h as int).magnitude() / hr),
        );
        let k = scaled_width(w as int, h as int, max_h as int);
        let kr = k as real;
        assert(y - 1real / 2real <= kr && kr <= y + 1real / 2real);
        assert(y * hr - hr / 2real <= kr * hr && kr * hr <= y * hr + hr / 2real)
            by (nonlinear_arith)
            requires
                y - 1real / 2real <= kr <= y + 1real / 2real,
                hr > 0real,
        ;
        lemma_product_as_real(k, h as int);
        assert((k - 1) * h == k * h - h) by (nonlinear_arith);
        assert(width == k || width == k - 1);
    }
}

/// Two rounding errors are too small to make up for the step from `h` down to the limit.
proof fn lemma_errors_are_small(w: real, h: real, m: real, a: real, q: real, y: real, u: real)
    requires
        0real <= w,
        0real <= m <= h - 1real,
        1real <= h <= 0x8000_0000int as real,
        0real < u,
        MANTISSA_END as real * u == 1real,
        a <= w * m + w * m * u,
        q * h == a,
        y <= q + q * u,
    ensures
        y <= w,
{
    let n = w * m;
    assert(u < 1real) by (nonlinear_arith)
        requires
            MANTISSA_END as real * u == 1real,
            u > 0real,
    ;
    assert(n >= 0real && n <= w * h - w) by (nonlinear_arith)
        requires
            n == w * m,
            0real <= m <= h - 1real,
            w >= 0real,
    ;
    assert(y * h <= a + a * u) by (nonlinear_arith)
        requires
            y <= q + q * u,
            q * h == a,
            h >= 1real,
    ;
    assert(a + a * u <= n + 3real * n * u) by (nonlinear_arith)
        requires
            a <= n + n * u,
            0real < u < 1real,
            n >= 0real,
    ;
    assert(3real * n * u <= w) by (nonlinear_arith)
        requires
            n <= w * h - w,
            n >= 0real,
            h <= 0x8000_0000int as real,
            MANTISSA_END as real * u == 1real,
            u > 0real,
            w >= 0real,
    ;
    assert(y <= w) by (nonlinear_arith)
        requires
            y * h <= w * h,
            h > 0real,
    ;
}

/// The width in proportion, computed in double precision, is not above the width of the
/// picture.
proof fn lemma_large_area(w: i32, h: i32, max_h: i32)
    requires
        0 <= w,
        0 <= max_h < h,
        w * max_h >= MANTISSA_MIN,
    ensures
        area(w as int, max_h as int) is Finite,
        area(w as int, max_h as int).is_negative() == false,
        rounded(false, area(w as int, max_h as int).magnitude() / h as real) is Finite,
        !rounded(false, area(w as int, max_h as int).magnitude() / h as real).is_negative(),
        rounded(false, area(w as int, max_h as int).magnitude() / h as real).magnitude()
            <= w as real,
        ({
            let y = rounded(false, area(w as int, max_h as int).magnitude() / h as real);
            let (exact, slack) = ((w * max_h) as real, h as real / 0x10_0000int as real);
            exact - slack <= y.magnitude() * h as real <= exact + slack
        }),
{
    let (wr, hr, mr) = (w as real, h as real, max_h as real);
    lemma_pow2_constants();
    lemma_pow2_sum(31, 31);
    lemma_pow2_step(62);
    lemma_pow2_step(63);
    lemma_product_as_real(w as int, max_h as int);
    lemma_product_at_least(pow2(31), pow2(31), wr, mr);
    lemma_rounding_within(false, wr * mr, 52, 63);
    let a = area(w as int, max_h as int).magnitude();
    let q = a / hr;
    lemma_pow2_sum(21, 31);
    lemma_pow2_step(21);
    let (low, high) = (pow2(21), pow2(63));
    assert(q * hr == a && low <= q && q <= high) by (nonlinear_arith)
        requires
            q == a / hr,
            low * 0x8000_0000int as real <= a <= high,
            1real <= hr <= 0x8000_0000int as real,
            low > 0real,
    ;
    lemma_rounding_within(false, q, 21, 64);
    lemma_pow2_sum(53, -53);
    lemma_pow2_step(-53);
    lemma_errors_are_small(wr, hr, mr, a, q, rounded(false, q).magnitude(), pow2(-53));
    assert(wr * mr <= 0x8000_0000int as real * hr) by (nonlinear_arith)
        requires
            0real <= wr <= 0x8000_0000int as real,
            0real <= mr <= hr,
    ;
    lemma_two_errors(wr * mr, hr, a, q, rounded(false, q).magnitude(), pow2(-53));
}

/// A scaled frame is not wider than the picture, whatever the sizes.
pub proof fn law_frame_is_not_wider(w: i32, h: i32, max_h: i32)
    requires
        0 <= w,
        0 <= max_h,
    ensures
        0 <= frame_size(w as int, h as int, max_h as int).0 <= w,
{
    if max_h < h {
        let x = (w * max_h) as real / h as real;
        let (wr, hr, mr) = (w as real, h as real, max_h as real);
        lemma_product_as_real(w as int, max_h as int);
        assert(w * max_h >= 0) by (nonlinear_arith)
            requires
                0 <= w,
                0 <= max_h,
        ;
        if w * max_h < MANTISSA_MIN {
            law_scaled_width_is_exact(w, h, max_h);
            assert(0real <= x <= wr) by (nonlinear_arith)
                requires
                    x == (wr * mr) / hr,
                    0real <= wr,
                    0real <= mr < hr,
            ;
        } else {
            lemma_large_area(w, h, max_h);
            lemma_scaled_width_steps(w, h, max_h);
            lemma_magnitude_not_negative(
                rounded(false, area(w as int, max_h as int).magnitude() / h as real),
            );
        }
    }
}

} // verus!
