//! Reward-strip segmentation: binarizes the strip against the detected
//! theme, infers the 3-or-4-icon layout from a signed periodic weighting of
//! per-column foreground mass, and splits the strip into per-icon part
//! images, suppressing small top-half noise.

use vstd::prelude::*;

use crate::color::Rgb;
use crate::raster::Image;
use crate::theme::Theme;

verus! {

use vstd::arithmetic::div_mod::{
    lemma_div_is_ordered, lemma_div_multiples_vanish, lemma_fundamental_div_mod, lemma_mod_bound,
};

/// The color foreground pixels take after binarization.
pub open spec fn spec_foreground() -> Rgb {
    Rgb { r: 0, g: 0, b: 0 }
}

/// The color background pixels take after binarization.
pub open spec fn spec_background() -> Rgb {
    Rgb { r: 255, g: 255, b: 255 }
}

/// The binarized foreground color.
pub fn filter_foreground() -> (c: Rgb)
    ensures
        c == spec_foreground(),
{
    Rgb { r: 0, g: 0, b: 0 }
}

/// The binarized background color.
pub fn filter_background() -> (c: Rgb)
    ensures
        c == spec_background(),
{
    Rgb { r: 255, g: 255, b: 255 }
}

/// One full turn, in millionths of a radian.
pub open spec fn spec_two_pi() -> int {
    6283185
}

/// Half a turn, in millionths of a radian.
pub open spec fn spec_pi() -> int {
    3141593
}

/// The quarter-wave cosine approximation, in millionths, for an angle in
/// millionths of a radian between zero and a quarter turn: the Taylor
/// polynomial through the sixth power.
pub open spec fn spec_cos_quarter(theta: int) -> int {
    let t2 = theta * theta / 1000000;
    let t4 = t2 * t2 / 1000000;
    let t6 = t4 * t2 / 1000000;
    1000000 - t2 / 2 + t4 / 24 - t6 / 720
}

/// The signed fixed-point cosine of `8 pi x / w`, in millionths: the layout
/// vote's weighting function, with four positive and four negative lobes
/// across the strip.
pub open spec fn spec_cos_value(x: int, w: int) -> int {
    let m = (4 * x) % w;
    if 4 * m < w {
        spec_cos_quarter(spec_two_pi() * m / w)
    } else if 2 * m < w {
        -spec_cos_quarter(spec_pi() - spec_two_pi() * m / w)
    } else if 4 * m < 3 * w {
        -spec_cos_quarter(spec_two_pi() * m / w - spec_pi())
    } else {
        spec_cos_quarter(spec_two_pi() - spec_two_pi() * m / w)
    }
}

/// The cube of the fixed-point cosine, in millionths, sign preserved.
pub open spec fn spec_cos_cubed(x: int, w: int) -> int {
    let v = spec_cos_value(x, w);
    let m = if v >= 0 {
        v
    } else {
        -v
    };
    let m3 = m * m / 1000000 * m / 1000000;
    if v >= 0 {
        m3
    } else {
        -m3
    }
}

/// The quarter-wave polynomial stays within fixed bounds for angles up to
/// slightly past a quarter turn.
proof fn lemma_cos_quarter_bound(theta: int)
    requires
        0 <= theta <= 1600000,
    ensures
        -1400000 <= spec_cos_quarter(theta) <= 1400000,
{
    let t2 = theta * theta / 1000000;
    assert(0 <= theta * theta <= 1600000 * 1600000) by (nonlinear_arith)
        requires
            0 <= theta <= 1600000,
    ;
    assert(0 <= t2 <= 2560000) by {
        lemma_div_is_ordered(0, theta * theta, 1000000);
        lemma_div_is_ordered(theta * theta, (1600000 * 1600000) as int, 1000000);
    }
    let t4 = t2 * t2 / 1000000;
    assert(0 <= t2 * t2 <= 2560000 * 2560000) by (nonlinear_arith)
        requires
            0 <= t2 <= 2560000,
    ;
    assert(0 <= t4 <= 6553600) by {
        lemma_div_is_ordered(0, t2 * t2, 1000000);
        lemma_div_is_ordered(t2 * t2, (2560000 * 2560000) as int, 1000000);
    }
    let t6 = t4 * t2 / 1000000;
    assert(0 <= t4 * t2 <= 6553600 * 2560000) by (nonlinear_arith)
        requires
            0 <= t4 <= 6553600,
            0 <= t2 <= 2560000,
    ;
    assert(0 <= t6 <= 16777216) by {
        lemma_div_is_ordered(0, t4 * t2, 1000000);
        lemma_div_is_ordered(t4 * t2, (6553600 * 2560000) as int, 1000000);
    }
    assert(0 <= t2 / 2 <= 1280000) by {
        lemma_div_is_ordered(0, t2, 2);
        lemma_div_is_ordered(t2, 2560000, 2);
    }
    assert(0 <= t4 / 24 <= 273067) by {
        lemma_div_is_ordered(0, t4, 24);
        lemma_div_is_ordered(t4, 6553600, 24);
    }
    assert(0 <= t6 / 720 <= 23302) by {
        lemma_div_is_ordered(0, t6, 720);
        lemma_div_is_ordered(t6, 16777216, 720);
    }
}

/// The polynomial's value just below a zero angle, where truncation gives
/// the same cosine as at zero.
proof fn lemma_cos_quarter_neg_one()
    ensures
        spec_cos_quarter(-1) == 1000000,
{
    let theta: int = -1;
    assert(theta * theta == 1) by (nonlinear_arith)
        requires
            theta == -1,
    ;
    let t2 = theta * theta / 1000000;
    assert(t2 == 0);
    assert(t2 * t2 == 0) by (nonlinear_arith)
        requires
            t2 == 0,
    ;
    let t4 = t2 * t2 / 1000000;
    assert(t4 == 0);
    assert(t4 * t2 == 0) by (nonlinear_arith)
        requires
            t4 == 0,
    ;
    let t6 = t4 * t2 / 1000000;
    assert(t6 == 0);
    assert(spec_cos_quarter(-1) == 1000000 - t2 / 2 + t4 / 24 - t6 / 720);
}

/// The scaled angle stays in the quarter-wave polynomial's range.
proof fn lemma_cos_angle_bounds(x: int, w: int)
    requires
        w >= 1,
        x >= 0,
    ensures
        0 <= (4 * x) % w < w,
        ({
            let m = (4 * x) % w;
            &&& (4 * m < w ==> 0 <= spec_two_pi() * m / w <= 1600000)
            &&& (4 * m >= w && 2 * m < w ==> 0 <= spec_pi() - spec_two_pi() * m / w <= 1600000)
            &&& (2 * m >= w && 4 * m < 3 * w ==> -1 <= spec_two_pi() * m / w - spec_pi()
                <= 1600000)
            &&& (4 * m >= 3 * w ==> 0 <= spec_two_pi() - spec_two_pi() * m / w <= 1600000)
        }),
{
    lemma_mod_bound(4 * x, w);
    let m = (4 * x) % w;
    let a = spec_two_pi() * m / w;
    assert(0 <= spec_two_pi() * m) by (nonlinear_arith)
        requires
            m >= 0,
    ;
    assert(a >= 0) by {
        lemma_div_is_ordered(0, spec_two_pi() * m, w);
    }
    assert(spec_two_pi() * m <= spec_two_pi() * w) by (nonlinear_arith)
        requires
            0 <= m < w,
    ;
    assert(a <= spec_two_pi()) by {
        lemma_div_is_ordered(spec_two_pi() * m, spec_two_pi() * w, w);
        lemma_div_multiples_vanish(spec_two_pi(), w);
        assert(w * spec_two_pi() == spec_two_pi() * w) by (nonlinear_arith);
    }
    if 4 * m < w {
        assert(spec_two_pi() * m * 4 < spec_two_pi() * w) by (nonlinear_arith)
            requires
                4 * m < w,
                0 <= m,
        ;
        assert(a * 4 <= spec_two_pi() + 3) by {
            lemma_fundamental_div_mod(spec_two_pi() * m, w);
            lemma_mod_bound(spec_two_pi() * m, w);
            assert(a * w <= spec_two_pi() * m) by (nonlinear_arith)
                requires
                    spec_two_pi() * m == w * a + (spec_two_pi() * m) % w,
                    (spec_two_pi() * m) % w >= 0,
            ;
            assert(a * 4 * w <= spec_two_pi() * w) by (nonlinear_arith)
                requires
                    a * w <= spec_two_pi() * m,
                    spec_two_pi() * m * 4 < spec_two_pi() * w,
                    0 <= a,
            ;
            assert(a * 4 <= spec_two_pi()) by (nonlinear_arith)
                requires
                    a * 4 * w <= spec_two_pi() * w,
                    w >= 1,
            ;
        }
        assert(a <= 1600000);
    }
    if 4 * m >= w && 2 * m < w {
        assert(spec_two_pi() * m * 2 < spec_two_pi() * w) by (nonlinear_arith)
            requires
                2 * m < w,
                0 <= m,
        ;
        assert(a * 2 <= spec_two_pi()) by {
            lemma_fundamental_div_mod(spec_two_pi() * m, w);
            lemma_mod_bound(spec_two_pi() * m, w);
            assert(a * w <= spec_two_pi() * m) by (nonlinear_arith)
                requires
                    spec_two_pi() * m == w * a + (spec_two_pi() * m) % w,
                    (spec_two_pi() * m) % w >= 0,
            ;
            assert(a * 2 * w <= spec_two_pi() * w) by (nonlinear_arith)
                requires
                    a * w <= spec_two_pi() * m,
                    spec_two_pi() * m * 2 < spec_two_pi() * w,
                    0 <= a,
            ;
            assert(a * 2 <= spec_two_pi()) by (nonlinear_arith)
                requires
                    a * 2 * w <= spec_two_pi() * w,
                    w >= 1,
            ;
        }
        assert(spec_pi() - a >= 0);
        assert(spec_two_pi() * m * 4 >= spec_two_pi() * w) by (nonlinear_arith)
            requires
                4 * m >= w,
        ;
        assert(a >= 1570796) by {
            lemma_fundamental_div_mod(spec_two_pi() * m, w);
            lemma_mod_bound(spec_two_pi() * m, w);
            assert((a + 1) * w > spec_two_pi() * m) by (nonlinear_arith)
                requires
                    spec_two_pi() * m == w * a + (spec_two_pi() * m) % w,
                    (spec_two_pi() * m) % w < w,
            ;
            assert((a + 1) * 4 > spec_two_pi()) by (nonlinear_arith)
                requires
                    (a + 1) * w > spec_two_pi() * m,
                    spec_two_pi() * m * 4 >= spec_two_pi() * w,
                    w >= 1,
            ;
        }
        assert(spec_pi() - a <= 1600000);
    }
    if 2 * m >= w && 4 * m < 3 * w {
        lemma_fundamental_div_mod(spec_two_pi() * m, w);
        lemma_mod_bound(spec_two_pi() * m, w);
        assert(a * w <= spec_two_pi() * m && (a + 1) * w > spec_two_pi() * m) by (nonlinear_arith)
            requires
                spec_two_pi() * m == w * a + (spec_two_pi() * m) % w,
                0 <= (spec_two_pi() * m) % w < w,
        ;
        assert(spec_two_pi() * m * 2 >= spec_two_pi() * w) by (nonlinear_arith)
            requires
                2 * m >= w,
                spec_two_pi() >= 0,
        ;
        assert((a + 1) * 2 > spec_two_pi()) by (nonlinear_arith)
            requires
                (a + 1) * w > spec_two_pi() * m,
                spec_two_pi() * m * 2 >= spec_two_pi() * w,
                w >= 1,
        ;
        assert(a >= spec_pi() - 1);
        assert(spec_two_pi() * m * 4 < spec_two_pi() * 3 * w) by (nonlinear_arith)
            requires
                4 * m < 3 * w,
                spec_two_pi() >= 0,
        ;
        assert(a * 4 < spec_two_pi() * 3) by (nonlinear_arith)
            requires
                a * w <= spec_two_pi() * m,
                spec_two_pi() * m * 4 < spec_two_pi() * 3 * w,
                w >= 1,
                0 <= a,
        ;
        assert(a - spec_pi() <= 1600000);
        assert(a - spec_pi() >= -1);
        if a - spec_pi() < 0 {
            assert(a == spec_pi() - 1);
        }
    }
    if 4 * m >= 3 * w {
        lemma_fundamental_div_mod(spec_two_pi() * m, w);
        lemma_mod_bound(spec_two_pi() * m, w);
        assert(a * w <= spec_two_pi() * m) by (nonlinear_arith)
            requires
                spec_two_pi() * m == w * a + (spec_two_pi() * m) % w,
                (spec_two_pi() * m) % w >= 0,
        ;
        assert(spec_two_pi() * m * 4 >= spec_two_pi() * 3 * w) by (nonlinear_arith)
            requires
                4 * m >= 3 * w,
                spec_two_pi() >= 0,
        ;
        assert((a + 1) * w > spec_two_pi() * m) by (nonlinear_arith)
            requires
                spec_two_pi() * m == w * a + (spec_two_pi() * m) % w,
                (spec_two_pi() * m) % w < w,
        ;
        assert((a + 1) * 4 > spec_two_pi() * 3) by (nonlinear_arith)
            requires
                (a + 1) * w > spec_two_pi() * m,
                spec_two_pi() * m * 4 >= spec_two_pi() * 3 * w,
                w >= 1,
        ;
        assert(spec_two_pi() - a >= 0);
        assert(spec_two_pi() - a <= 1600000);
    }
}

/// The cosine values stay within fixed bounds.
pub proof fn lemma_cos_bounds(x: int, w: int)
    requires
        w >= 1,
        x >= 0,
    ensures
        -1400000 <= spec_cos_value(x, w) <= 1400000,
        -2800000 <= spec_cos_cubed(x, w) <= 2800000,
{
    lemma_cos_angle_bounds(x, w);
    let m = (4 * x) % w;
    if 4 * m < w {
        lemma_cos_quarter_bound(spec_two_pi() * m / w);
    } else if 2 * m < w {
        if spec_pi() - spec_two_pi() * m / w >= 0 {
            lemma_cos_quarter_bound(spec_pi() - spec_two_pi() * m / w);
        }
    } else if 4 * m < 3 * w {
        if spec_two_pi() * m / w - spec_pi() >= 0 {
            lemma_cos_quarter_bound(spec_two_pi() * m / w - spec_pi());
        } else {
            assert(spec_two_pi() * m / w - spec_pi() == -1);
            lemma_cos_quarter_neg_one();
        }
    } else {
        lemma_cos_quarter_bound(spec_two_pi() - spec_two_pi() * m / w);
    }
    let v = spec_cos_value(x, w);
    let mag = if v >= 0 {
        v
    } else {
        -v
    };
    assert(0 <= mag * mag <= 1400000 * 1400000) by (nonlinear_arith)
        requires
            0 <= mag <= 1400000,
    ;
    let s1 = mag * mag / 1000000;
    assert(0 <= s1 <= 1960000) by {
        lemma_div_is_ordered(0, mag * mag, 1000000);
        lemma_div_is_ordered(mag * mag, (1400000 * 1400000) as int, 1000000);
    }
    assert(0 <= s1 * mag <= 1960000 * 1400000) by (nonlinear_arith)
        requires
            0 <= s1 <= 1960000,
            0 <= mag <= 1400000,
    ;
    assert(0 <= s1 * mag / 1000000 <= 2744000) by {
        lemma_div_is_ordered(0, s1 * mag, 1000000);
        lemma_div_is_ordered(s1 * mag, (1960000 * 1400000) as int, 1000000);
    }
}

fn cos_quarter(theta: u64) -> (r: i64)
    requires
        theta <= 1600000,
    ensures
        r == spec_cos_quarter(theta as int),
        -1400000 <= r <= 1400000,
{
    proof {
        lemma_cos_quarter_bound(theta as int);
        assert(0 <= (theta as int) * (theta as int) <= 1600000 * 1600000) by (nonlinear_arith)
            requires
                0 <= theta <= 1600000,
        ;
    }
    let t2: u64 = theta * theta / 1000000;
    proof {
        lemma_div_is_ordered(0, (theta as int) * (theta as int), 1000000);
        lemma_div_is_ordered((theta as int) * (theta as int), (1600000 * 1600000) as int, 1000000);
        assert(0 <= (t2 as int) * (t2 as int) <= 2560000 * 2560000) by (nonlinear_arith)
            requires
                0 <= t2 <= 2560000,
        ;
    }
    let t4: u64 = t2 * t2 / 1000000;
    proof {
        lemma_div_is_ordered(0, (t2 as int) * (t2 as int), 1000000);
        lemma_div_is_ordered((t2 as int) * (t2 as int), (2560000 * 2560000) as int, 1000000);
        assert(0 <= (t4 as int) * (t2 as int) <= 6553600 * 2560000) by (nonlinear_arith)
            requires
                0 <= t4 <= 6553600,
                0 <= t2 <= 2560000,
        ;
    }
    let t6: u64 = t4 * t2 / 1000000;
    proof {
        lemma_div_is_ordered(0, (t4 as int) * (t2 as int), 1000000);
        lemma_div_is_ordered((t4 as int) * (t2 as int), (6553600 * 2560000) as int, 1000000);
        lemma_div_is_ordered(0, t2 as int, 2);
        lemma_div_is_ordered(t2 as int, 2560000, 2);
        lemma_div_is_ordered(0, t4 as int, 24);
        lemma_div_is_ordered(t4 as int, 6553600, 24);
        lemma_div_is_ordered(0, t6 as int, 720);
        lemma_div_is_ordered(t6 as int, 16777216, 720);
    }
    1000000 - (t2 / 2) as i64 + (t4 / 24) as i64 - (t6 / 720) as i64
}

/// The signed fixed-point cosine of `8 pi x / w`, in millionths.
pub fn cos_value(x: u32, w: u32) -> (r: i64)
    requires
        w >= 1,
    ensures
        r == spec_cos_value(x as int, w as int),
        -1400000 <= r <= 1400000,
{
    proof {
        lemma_cos_angle_bounds(x as int, w as int);
    }
    let m: u64 = (4 * x as u64) % (w as u64);
    proof {
        assert(0 <= spec_two_pi() * (m as int) <= 6283185 * 0xffffffff) by (nonlinear_arith)
            requires
                0 <= m <= 0xffffffff,
        ;
    }
    let a: u64 = 6283185 * m / (w as u64);
    if 4 * m < w as u64 {
        cos_quarter(a)
    } else if 2 * m < w as u64 {
        proof {
            assert(spec_pi() - (a as int) >= 0);
        }
        -cos_quarter(3141593 - a)
    } else if 4 * m < 3 * (w as u64) {
        if a < 3141593 {
            proof {
                assert(a as int == spec_pi() - 1);
                assert(spec_two_pi() * (m as int) / (w as int) - spec_pi() == -1);
                assert(spec_cos_value(x as int, w as int) == -spec_cos_quarter(-1));
                lemma_cos_quarter_neg_one();
            }
            -1000000
        } else {
            -cos_quarter(a - 3141593)
        }
    } else {
        cos_quarter(6283185 - a)
    }
}

/// The signed cube of the fixed-point cosine, in millionths.
pub fn cos_cubed(x: u32, w: u32) -> (r: i64)
    requires
        w >= 1,
    ensures
        r == spec_cos_cubed(x as int, w as int),
        -2800000 <= r <= 2800000,
{
    let v = cos_value(x, w);
    proof {
        lemma_cos_bounds(x as int, w as int);
    }
    let mag: u64 = if v >= 0 {
        v as u64
    } else {
        (-v) as u64
    };
    proof {
        assert(0 <= (mag as int) * (mag as int) <= 1400000 * 1400000) by (nonlinear_arith)
            requires
                0 <= mag <= 1400000,
        ;
    }
    let s1: u64 = mag * mag / 1000000;
    proof {
        lemma_div_is_ordered(0, (mag as int) * (mag as int), 1000000);
        lemma_div_is_ordered((mag as int) * (mag as int), (1400000 * 1400000) as int, 1000000);
        assert(0 <= (s1 as int) * (mag as int) <= 1960000 * 1400000) by (nonlinear_arith)
            requires
                0 <= s1 <= 1960000,
                0 <= mag <= 1400000,
        ;
        lemma_div_is_ordered(0, (s1 as int) * (mag as int), 1000000);
        lemma_div_is_ordered((s1 as int) * (mag as int), (1960000 * 1400000) as int, 1000000);
    }
    let m3: u64 = s1 * mag / 1000000;
    if v >= 0 {
        m3 as i64
    } else {
        -(m3 as i64)
    }
}

/// Foreground pixels in column `x` among the rows below `yn`.
pub open spec fn spec_col_fg(theme: Theme, img: Image, x: int, yn: int) -> int
    decreases yn,
{
    if yn <= 0 {
        0
    } else {
        spec_col_fg(theme, img, x, yn - 1) + if theme.spec_is_foreground(
            img.spec_pixel(x, yn - 1),
        ) {
            1int
        } else {
            0int
        }
    }
}

/// Column `x`'s foreground count, capped at a third of the strip height so
/// no single column dominates the layout vote.
pub open spec fn spec_col_count(theme: Theme, img: Image, x: int) -> int {
    let c = spec_col_fg(theme, img, x, img.height as int);
    let cap = img.height as int / 3;
    if c <= cap {
        c
    } else {
        cap
    }
}

/// The accumulated weight of the columns below `xn` whose cosine is
/// negative: mass aligned with the four-icon layout.
pub open spec fn spec_even_total(theme: Theme, img: Image, xn: int) -> int
    decreases xn,
{
    if xn <= 0 {
        0
    } else {
        spec_even_total(theme, img, xn - 1) + if spec_cos_value(xn - 1, img.width as int) < 0 {
            (-spec_cos_cubed(xn - 1, img.width as int)) * spec_col_count(theme, img, xn - 1)
        } else {
            0int
        }
    }
}

/// The accumulated weight of the columns below `xn` whose cosine is
/// positive: mass aligned with the offset three-icon layout.
pub open spec fn spec_odd_total(theme: Theme, img: Image, xn: int) -> int
    decreases xn,
{
    if xn <= 0 {
        0
    } else {
        spec_odd_total(theme, img, xn - 1) + if spec_cos_value(xn - 1, img.width as int) > 0 {
            spec_cos_cubed(xn - 1, img.width as int) * spec_col_count(theme, img, xn - 1)
        } else {
            0int
        }
    }
}

/// Column counts stay between zero and the cap.
pub proof fn lemma_col_fg_bound(theme: Theme, img: Image, x: int, yn: int)
    ensures
        0 <= spec_col_fg(theme, img, x, yn),
        yn >= 0 ==> spec_col_fg(theme, img, x, yn) <= yn,
    decreases yn,
{
    if yn > 0 {
        lemma_col_fg_bound(theme, img, x, yn - 1);
    }
}

/// Each column contributes between zero and the full cube times the cap.
proof fn lemma_col_contribution_bound(theme: Theme, img: Image, x: int)
    requires
        img.width >= 1,
        0 <= x,
    ensures
        0 <= spec_col_count(theme, img, x) <= img.height as int / 3,
        spec_cos_value(x, img.width as int) < 0 ==> 0 <= (-spec_cos_cubed(
            x,
            img.width as int,
        )) * spec_col_count(theme, img, x) <= 2800000 * (img.height as int / 3),
        spec_cos_value(x, img.width as int) > 0 ==> 0 <= spec_cos_cubed(x, img.width as int)
            * spec_col_count(theme, img, x) <= 2800000 * (img.height as int / 3),
{
    lemma_col_fg_bound(theme, img, x, img.height as int);
    lemma_div_is_ordered(0, img.height as int, 3);
    lemma_cos_bounds(x, img.width as int);
    let c3 = spec_cos_cubed(x, img.width as int);
    let cc = spec_col_count(theme, img, x);
    let v = spec_cos_value(x, img.width as int);
    if v < 0 {
        assert(c3 <= 0);
        assert(0 <= (-c3) * cc <= 2800000 * (img.height as int / 3)) by (nonlinear_arith)
            requires
                0 <= -c3 <= 2800000,
                0 <= cc <= img.height as int / 3,
        ;
    }
    if v > 0 {
        assert(c3 >= 0);
        assert(0 <= c3 * cc <= 2800000 * (img.height as int / 3)) by (nonlinear_arith)
            requires
                0 <= c3 <= 2800000,
                0 <= cc <= img.height as int / 3,
        ;
    }
}

/// The totals stay between zero and the column count times the largest
/// possible contribution.
pub proof fn lemma_totals_bound(theme: Theme, img: Image, xn: int)
    requires
        img.width >= 1,
        xn >= 0,
    ensures
        0 <= spec_even_total(theme, img, xn) <= xn * (2800000 * (img.height as int / 3)),
        0 <= spec_odd_total(theme, img, xn) <= xn * (2800000 * (img.height as int / 3)),
    decreases xn,
{
    let k = 2800000 * (img.height as int / 3);
    if xn == 0 {
        assert(0int * k == 0) by (nonlinear_arith);
    } else {
        lemma_totals_bound(theme, img, xn - 1);
        lemma_col_contribution_bound(theme, img, xn - 1);
        assert((xn - 1) * k + k == xn * k) by (nonlinear_arith);
        assert(k >= 0) by {
            lemma_div_is_ordered(0, img.height as int, 3);
            assert(2800000 * (img.height as int / 3) >= 0) by (nonlinear_arith)
                requires
                    img.height as int / 3 >= 0,
            ;
        }
    }
}

impl Theme {
    /// Binarizes the strip: pixels inside either acceptance box become the
    /// foreground color, the rest the background color. Also accumulates the
    /// two layout totals: each column's capped foreground count, weighted by
    /// the cube of the signed periodic cosine, summed separately over the
    /// negative-phase and positive-phase columns.
    #[verifier::rlimit(80)]
    pub fn filter(&self, image: &Image) -> (r: (Image, (u128, u128)))
        requires
            self.wf(),
            image.wf(),
        ensures
            r.0.wf(),
            r.0.width == image.width,
            r.0.height == image.height,
            forall|x: int, y: int|
                0 <= x < image.width && 0 <= y < image.height ==> r.0.spec_pixel(x, y) == (
                if self.spec_is_foreground(image.spec_pixel(x, y)) {
                    spec_foreground()
                } else {
                    spec_background()
                }),
            r.1.0 == spec_even_total(*self, *image, image.width as int),
            r.1.1 == spec_odd_total(*self, *image, image.width as int),
    {
        let w = image.width;
        let h = image.height;
        let l = image.data.len();
        let mut out = Image::new_filled(w, h, filter_background());
        let mut even: u128 = 0;
        let mut odd: u128 = 0;
        let cap: u32 = h / 3;
        let ghost k = 2800000 * (h as int / 3);

        let mut x: u32 = 0;
        while x < w
            invariant
                0 <= x <= w,
                self.wf(),
                image.wf(),
                image.width == w,
                image.height == h,
                cap == h / 3,
                k == 2800000 * (h as int / 3),
                out.wf(),
                out.width == w,
                out.height == h,
                forall|a: int, b: int|
                    0 <= a < x && 0 <= b < h ==> out.spec_pixel(a, b) == (
                    if self.spec_is_foreground(image.spec_pixel(a, b)) {
                        spec_foreground()
                    } else {
                        spec_background()
                    }),
                even == spec_even_total(*self, *image, x as int),
                odd == spec_odd_total(*self, *image, x as int),
            decreases w - x,
        {
            let mut count: u32 = 0;
            let mut y: u32 = 0;
            while y < h
                invariant
                    0 <= y <= h,
                    x < w,
                    self.wf(),
                    image.wf(),
                    image.width == w,
                    image.height == h,
                    out.wf(),
                    out.width == w,
                    out.height == h,
                    forall|a: int, b: int|
                        0 <= a < x && 0 <= b < h ==> out.spec_pixel(a, b) == (
                        if self.spec_is_foreground(image.spec_pixel(a, b)) {
                            spec_foreground()
                        } else {
                            spec_background()
                        }),
                    forall|b: int|
                        0 <= b < y ==> out.spec_pixel(x as int, b) == (
                        if self.spec_is_foreground(image.spec_pixel(x as int, b)) {
                            spec_foreground()
                        } else {
                            spec_background()
                        }),
                    count == spec_col_fg(*self, *image, x as int, y as int),
                    count <= y,
                decreases h - y,
            {
                let px = image.pixel(x, y);
                if self.is_foreground(px) {
                    out.set_pixel(x, y, filter_foreground());
                    count += 1;
                } else {
                    out.set_pixel(x, y, filter_background());
                }
                y += 1;
            }
            let capped: u32 = if count <= cap {
                count
            } else {
                cap
            };
            proof {
                assert(capped == spec_col_count(*self, *image, x as int));
                lemma_totals_bound(*self, *image, x as int);
                lemma_col_contribution_bound(*self, *image, x as int);
                assert((x as int) * k + k == (x as int + 1) * k) by (nonlinear_arith);
                assert((x as int + 1) * k <= 0xffffffffi64 * (2800000 * 0x55555555i64))
                    by (nonlinear_arith)
                    requires
                        0 <= x as int + 1 <= 0xffffffffi64,
                        0 <= h as int / 3 <= 0x55555555i64,
                        k == 2800000 * (h as int / 3),
                ;
            }
            let cv = cos_value(x, w);
            let c3 = cos_cubed(x, w);
            if cv < 0 {
                let col_weight: u64 = ((-c3) as u64) * (capped as u64);
                proof {
                    assert((-c3 as int) * (capped as int) == (-spec_cos_cubed(
                        x as int,
                        w as int,
                    )) * spec_col_count(*self, *image, x as int));
                }
                even = even + col_weight as u128;
            } else if cv > 0 {
                let col_weight: u64 = (c3 as u64) * (capped as u64);
                odd = odd + col_weight as u128;
            }
            x += 1;
        }
        (out, (even, odd))
    }
}

/// How many boxes the strip splits into: three when the positive-phase
/// total wins, four otherwise.
pub open spec fn spec_layout_count(theme: Theme, img: Image) -> int {
    if spec_odd_total(theme, img, img.width as int) > spec_even_total(
        theme,
        img,
        img.width as int,
    ) {
        3
    } else {
        4
    }
}

/// Where the first box starts: half a box in for the three-icon layout.
pub open spec fn spec_layout_left(theme: Theme, img: Image) -> int {
    if spec_odd_total(theme, img, img.width as int) > spec_even_total(
        theme,
        img,
        img.width as int,
    ) {
        (img.width as int / 4) / 2
    } else {
        0
    }
}

/// Foreground pixels in the rectangle of `xn` columns starting at `x0`,
/// rows below `yn`.
pub open spec fn spec_box_fg(theme: Theme, img: Image, x0: int, xn: int, yn: int) -> int
    decreases xn,
{
    if xn <= 0 {
        0
    } else {
        spec_box_fg(theme, img, x0, xn - 1, yn) + spec_col_fg(theme, img, x0 + xn - 1, yn)
    }
}

/// Foreground pixels in the top half of part `p`'s box.
pub open spec fn spec_top_half_count(theme: Theme, img: Image, p: int) -> int {
    spec_box_fg(
        theme,
        img,
        spec_layout_left(theme, img) + p * (img.width as int / 4),
        img.width as int / 4,
        img.height as int / 2,
    )
}

/// The color part `p`'s pixel at `(i, j)` takes: the binarized strip pixel,
/// except that a top half holding only a small amount of foreground (noise,
/// not text) is blanked.
pub open spec fn spec_part_pixel(theme: Theme, img: Image, p: int, i: int, j: int) -> Rgb {
    let col = spec_layout_left(theme, img) + p * (img.width as int / 4) + i;
    let thc = spec_top_half_count(theme, img, p);
    if 0 < thc <= 300 && j < img.height as int / 2 {
        spec_background()
    } else if theme.spec_is_foreground(img.spec_pixel(col, j)) {
        spec_foreground()
    } else {
        spec_background()
    }
}

/// The chosen boxes fit inside the strip.
proof fn lemma_layout_fits(w: int, left: int, cnt: int)
    requires
        w >= 0,
        left == 0 && cnt == 4 || left == (w / 4) / 2 && cnt == 3,
    ensures
        left + cnt * (w / 4) <= w,
        left >= 0,
    decreases w,
{
    let bw = w / 4;
    lemma_fundamental_div_mod(w, 4);
    lemma_mod_bound(w, 4);
    lemma_div_is_ordered(0, w, 4);
    if cnt == 3 {
        lemma_fundamental_div_mod(bw, 2);
        lemma_mod_bound(bw, 2);
        lemma_div_is_ordered(0, bw, 2);
    }
}

/// Splits the binarized strip into equal-width part boxes: three boxes
/// starting half a box in when the positive-phase total wins the layout
/// vote, four from the left edge otherwise, and nothing at all when neither
/// total accumulated any weight. A box whose top half holds only a small
/// foreground count has that half blanked before it is handed to text
/// recognition.
#[verifier::rlimit(100)]
pub fn filter_and_separate_parts_from_part_box(image: &Image, theme: &Theme) -> (r: Vec<Image>)
    requires
        theme.wf(),
        image.wf(),
    ensures
        ({
            let even = spec_even_total(*theme, *image, image.width as int);
            let odd = spec_odd_total(*theme, *image, image.width as int);
            &&& (even == 0 && odd == 0 ==> r@.len() == 0)
            &&& (!(even == 0 && odd == 0) ==> {
                &&& r@.len() == spec_layout_count(*theme, *image)
                &&& forall|p: int|
                    0 <= p < r@.len() ==> (#[trigger] r@[p]).wf() && r@[p].width == image.width
                        / 4 && r@[p].height == image.height
                &&& forall|p: int, i: int, j: int|
                    0 <= p < r@.len() && 0 <= i < image.width / 4 && 0 <= j < image.height
                        ==> (#[trigger] r@[p].spec_pixel(i, j)) == spec_part_pixel(
                        *theme,
                        *image,
                        p,
                        i,
                        j,
                    )
            })
        }),
{
    let w = image.width;
    let h = image.height;
    let fT = theme.filter(image);
    let filtered = fT.0;
    let even = fT.1.0;
    let odd = fT.1.1;
    if even == 0 && odd == 0 {
        let r: Vec<Image> = Vec::new();
        return r;
    }
    let bw = w / 4;
    let curr_left: u32 = if odd > even {
        bw / 2
    } else {
        0
    };
    let cnt: u32 = if odd > even {
        3
    } else {
        4
    };
    proof {
        lemma_layout_fits(w as int, curr_left as int, cnt as int);
        assert(curr_left as int == spec_layout_left(*theme, *image));
        assert(cnt as int == spec_layout_count(*theme, *image));
    }
    let top_half = h / 2;
    let mut parts: Vec<Image> = Vec::new();
    let mut p: u32 = 0;
    while p < cnt
        invariant
            0 <= p <= cnt,
            theme.wf(),
            image.wf(),
            image.width == w,
            image.height == h,
            bw == w / 4,
            top_half == h / 2,
            curr_left as int == spec_layout_left(*theme, *image),
            cnt as int == spec_layout_count(*theme, *image),
            curr_left + cnt * bw <= w,
            filtered.wf(),
            filtered.width == w,
            filtered.height == h,
            forall|x: int, y: int|
                0 <= x < w && 0 <= y < h ==> filtered.spec_pixel(x, y) == (
                if theme.spec_is_foreground(image.spec_pixel(x, y)) {
                    spec_foreground()
                } else {
                    spec_background()
                }),
            parts@.len() == p,
            forall|q: int|
                0 <= q < p ==> (#[trigger] parts@[q]).wf() && parts@[q].width == bw
                    && parts@[q].height == h,
            forall|q: int, i: int, j: int|
                0 <= q < p && 0 <= i < bw && 0 <= j < h ==> (#[trigger] parts@[q].spec_pixel(
                    i,
                    j,
                )) == spec_part_pixel(*theme, *image, q, i, j),
        decreases cnt - p,
    {
        proof {
            assert(p * bw + bw == (p + 1) * bw) by (nonlinear_arith);
            assert((p + 1) as int * bw <= cnt as int * bw) by (nonlinear_arith)
                requires
                    p + 1 <= cnt,
                    bw >= 0,
            ;
        }
        let x0 = curr_left + p * bw;
        let cropped = filtered.crop(x0, 0, bw, h);
        let mut thc: u64 = 0;
        let mut i: u32 = 0;
        while i < bw
            invariant
                0 <= i <= bw,
                theme.wf(),
                image.wf(),
                image.width == w,
                image.height == h,
                top_half == h / 2,
                x0 + bw <= w,
                cropped.wf(),
                cropped.width == bw,
                cropped.height == h,
                forall|a: int, b: int|
                    0 <= a < bw && 0 <= b < h ==> cropped.spec_pixel(a, b) == (
                    if theme.spec_is_foreground(image.spec_pixel(x0 + a, b)) {
                        spec_foreground()
                    } else {
                        spec_background()
                    }),
                thc == spec_box_fg(*theme, *image, x0 as int, i as int, top_half as int),
                thc <= (i as u64) * (top_half as u64),
            decreases bw - i,
        {
            let mut j: u32 = 0;
            let mut col: u32 = 0;
            while j < top_half
                invariant
                    0 <= j <= top_half,
                    i < bw,
                    top_half == h / 2,
                    theme.wf(),
                    image.wf(),
                    image.width == w,
                    image.height == h,
                    x0 + bw <= w,
                    cropped.wf(),
                    cropped.width == bw,
                    cropped.height == h,
                    forall|a: int, b: int|
                        0 <= a < bw && 0 <= b < h ==> cropped.spec_pixel(a, b) == (
                        if theme.spec_is_foreground(image.spec_pixel(x0 + a, b)) {
                            spec_foreground()
                        } else {
                            spec_background()
                        }),
                    col == spec_col_fg(*theme, *image, x0 + i, j as int),
                    col <= j,
                decreases top_half - j,
            {
                proof {
                    lemma_div_is_ordered(0, h as int, 2);
                    lemma_fundamental_div_mod(h as int, 2);
                    lemma_mod_bound(h as int, 2);
                }
                let px = cropped.pixel(i, j);
                if px == filter_foreground() {
                    col += 1;
                }
                j += 1;
            }
            proof {
                assert((i as int) * (top_half as int) + top_half == (i + 1) as int * (
                top_half as int)) by (nonlinear_arith);
                assert((i + 1) as int * (top_half as int) <= 0xffffffffi64 * 0xffffffffi64)
                    by (nonlinear_arith)
                    requires
                        0 <= (i + 1) as int <= 0xffffffffi64,
                        0 <= top_half as int <= 0xffffffffi64,
                ;
            }
            thc = thc + col as u64;
            i += 1;
        }
        proof {
            assert(thc == spec_top_half_count(*theme, *image, p as int));
        }
        let mut part = cropped;
        if thc > 0 && thc <= 300 {
            let mut j: u32 = 0;
            while j < top_half
                invariant
                    0 <= j <= top_half,
                    top_half == h / 2,
                    part.wf(),
                    part.width == bw,
                    part.height == h,
                    top_half <= h,
                    forall|a: int, b: int|
                        0 <= a < bw && j <= b < h ==> part.spec_pixel(a, b) == cropped.spec_pixel(
                            a,
                            b,
                        ),
                    forall|a: int, b: int|
                        0 <= a < bw && 0 <= b < j ==> part.spec_pixel(a, b) == spec_background(),
                decreases top_half - j,
            {
                proof {
                    lemma_div_is_ordered(0, h as int, 2);
                    lemma_fundamental_div_mod(h as int, 2);
                    lemma_mod_bound(h as int, 2);
                }
                let mut a: u32 = 0;
                while a < bw
                    invariant
                        0 <= a <= bw,
                        j < top_half <= h,
                        part.wf(),
                        part.width == bw,
                        part.height == h,
                        forall|c: int, b: int|
                            0 <= c < bw && j < b < h ==> part.spec_pixel(c, b)
                                == cropped.spec_pixel(c, b),
                        forall|c: int, b: int|
                            0 <= c < bw && 0 <= b < j ==> part.spec_pixel(c, b)
                                == spec_background(),
                        forall|c: int|
                            0 <= c < a ==> part.spec_pixel(c, j as int) == spec_background(),
                        forall|c: int|
                            a <= c < bw ==> part.spec_pixel(c, j as int) == cropped.spec_pixel(
                                c,
                                j as int,
                            ),
                    decreases bw - a,
                {
                    part.set_pixel(a, j, filter_background());
                    a += 1;
                }
                j += 1;
            }
        }
        parts.push(part);
        proof {
            assert forall|q: int, ii: int, jj: int|
                0 <= q < p + 1 && 0 <= ii < bw && 0 <= jj < h implies (
            #[trigger] parts@[q].spec_pixel(ii, jj)) == spec_part_pixel(
                *theme,
                *image,
                q,
                ii,
                jj,
            ) by {
                if q == p {
                    assert(parts@[q] == part);
                }
            }
        }
        p += 1;
    }
    parts
}

/// A fully blank strip accumulates no layout weight at all, so segmentation
/// yields no parts.
pub proof fn lemma_blank_strip_has_zero_totals(theme: Theme, img: Image, xn: int)
    requires
        forall|x: int, y: int|
            0 <= x < img.width && 0 <= y < img.height ==> !theme.spec_is_foreground(
                #[trigger] img.spec_pixel(x, y),
            ),
        xn <= img.width,
    ensures
        spec_even_total(theme, img, xn) == 0,
        spec_odd_total(theme, img, xn) == 0,
    decreases xn,
{
    if xn > 0 {
        lemma_blank_strip_has_zero_totals(theme, img, xn - 1);
        lemma_blank_col_fg(theme, img, xn - 1, img.height as int);
        lemma_div_is_ordered(0, img.height as int, 3);
        let cc = spec_col_count(theme, img, xn - 1);
        assert(cc == 0);
        let c3 = spec_cos_cubed(xn - 1, img.width as int);
        assert((-c3) * cc == 0 && c3 * cc == 0) by (nonlinear_arith)
            requires
                cc == 0,
        ;
    }
}

proof fn lemma_blank_col_fg(theme: Theme, img: Image, x: int, yn: int)
    requires
        forall|a: int, b: int|
            0 <= a < img.width && 0 <= b < img.height ==> !theme.spec_is_foreground(
                #[trigger] img.spec_pixel(a, b),
            ),
        0 <= x < img.width,
        yn <= img.height,
    ensures
        spec_col_fg(theme, img, x, yn) == 0,
    decreases yn,
{
    if yn > 0 {
        lemma_blank_col_fg(theme, img, x, yn - 1);
    }
}

/// Floor division distributes sub-additively over addition.
proof fn lemma_floor_div_add(x: int, y: int, d: int)
    requires
        d > 0,
        x >= 0,
        y >= 0,
    ensures
        x / d + y / d <= (x + y) / d,
{
    lemma_fundamental_div_mod(x, d);
    lemma_fundamental_div_mod(y, d);
    lemma_mod_bound(x, d);
    lemma_mod_bound(y, d);
    assert(d * (x / d) + d * (y / d) == d * (x / d + y / d)) by (nonlinear_arith);
    lemma_div_is_ordered(d * (x / d + y / d), x + y, d);
    lemma_div_multiples_vanish(x / d + y / d, d);
}

/// A strip of at most the full width, centered, fits.
proof fn lemma_center_fits(w: int, rw: int)
    requires
        0 <= rw <= w,
    ensures
        w / 2 - rw / 2 >= 0,
        (w / 2 - rw / 2) + rw <= w,
{
    lemma_fundamental_div_mod(w, 2);
    lemma_fundamental_div_mod(rw, 2);
    lemma_mod_bound(w, 2);
    lemma_mod_bound(rw, 2);
    lemma_div_is_ordered(rw, w, 2);
}

/// The flat sample sequence of the `w` by `h` rectangle of a frame whose
/// top-left corner sits at `(x0, y0)`: what the extractor's crop hands to
/// resampling.
pub open spec fn spec_crop_data(img: Image, x0: int, y0: int, w: int, h: int) -> Seq<u8> {
    Seq::new(
        (3 * w * h) as nat,
        |k: int|
            img.data@[3 * ((y0 + (k / 3) / w) * img.width + (x0 + (k / 3) % w)) + k % 3],
    )
}

/// A well-formed crop's buffer is exactly the cropped rectangle of the
/// source buffer.
proof fn lemma_crop_matches_data(img: Image, out: Image, x0: int, y0: int)
    requires
        img.wf(),
        out.wf(),
        0 <= x0,
        0 <= y0,
        x0 + out.width <= img.width,
        y0 + out.height <= img.height,
        forall|i: int, j: int|
            0 <= i < out.width && 0 <= j < out.height ==> #[trigger] out.spec_pixel(i, j)
                == img.spec_pixel(x0 + i, y0 + j),
    ensures
        out.data@ == spec_crop_data(img, x0, y0, out.width as int, out.height as int),
{
    let w = out.width as int;
    let h = out.height as int;
    let cd = spec_crop_data(img, x0, y0, w, h);
    assert(0 <= w * h) by (nonlinear_arith)
        requires
            w >= 0,
            h >= 0,
    ;
    assert(out.data@.len() == cd.len());
    assert forall|k: int| 0 <= k < out.data@.len() implies out.data@[k] == cd[k] by {
        lemma_fundamental_div_mod(k, 3);
        lemma_mod_bound(k, 3);
        let p = k / 3;
        let c = k % 3;
        assert(0 <= p && p < w * h) by (nonlinear_arith)
            requires
                k == 3 * p + c,
                0 <= c < 3,
                0 <= k < 3 * w * h,
        ;
        assert(w >= 1 && h >= 1) by (nonlinear_arith)
            requires
                p < w * h,
                0 <= p,
                w >= 0,
                h >= 0,
        ;
        lemma_fundamental_div_mod(p, w);
        lemma_mod_bound(p, w);
        let i = p % w;
        let j = p / w;
        assert(0 <= j < h) by (nonlinear_arith)
            requires
                p == w * j + i,
                0 <= i < w,
                0 <= p < w * h,
        ;
        assert(3 * (j * w + i) + c == k) by (nonlinear_arith)
            requires
                p == w * j + i,
                k == 3 * p + c,
        ;
        assert(out.spec_pixel(i, j) == img.spec_pixel(x0 + i, y0 + j));
        if c == 0 {
            assert(out.data@[k] == out.spec_pixel(i, j).r);
        } else if c == 1 {
            assert(out.data@[k] == out.spec_pixel(i, j).g);
        } else {
            assert(out.data@[k] == out.spec_pixel(i, j).b);
        }
    }
    assert(out.data@ =~= cd);
}

/// Column counts depend only on an image's dimensions and samples.
proof fn lemma_col_fg_same_view(theme: Theme, a: Image, b: Image, x: int, yn: int)
    requires
        a.width == b.width,
        a.height == b.height,
        a.data@ == b.data@,
    ensures
        spec_col_fg(theme, a, x, yn) == spec_col_fg(theme, b, x, yn),
    decreases yn,
{
    if yn > 0 {
        lemma_col_fg_same_view(theme, a, b, x, yn - 1);
        assert(a.spec_pixel(x, yn - 1) == b.spec_pixel(x, yn - 1));
    }
}

/// The layout totals depend only on an image's dimensions and samples.
proof fn lemma_totals_same_view(theme: Theme, a: Image, b: Image, xn: int)
    requires
        a.width == b.width,
        a.height == b.height,
        a.data@ == b.data@,
    ensures
        spec_even_total(theme, a, xn) == spec_even_total(theme, b, xn),
        spec_odd_total(theme, a, xn) == spec_odd_total(theme, b, xn),
    decreases xn,
{
    if xn > 0 {
        lemma_totals_same_view(theme, a, b, xn - 1);
        lemma_col_fg_same_view(theme, a, b, xn - 1, a.height as int);
    }
}

/// Rectangle counts depend only on an image's dimensions and samples.
proof fn lemma_box_fg_same_view(theme: Theme, a: Image, b: Image, x0: int, xn: int, yn: int)
    requires
        a.width == b.width,
        a.height == b.height,
        a.data@ == b.data@,
    ensures
        spec_box_fg(theme, a, x0, xn, yn) == spec_box_fg(theme, b, x0, xn, yn),
    decreases xn,
{
    if xn > 0 {
        lemma_box_fg_same_view(theme, a, b, x0, xn - 1, yn);
        lemma_col_fg_same_view(theme, a, b, x0 + xn - 1, yn);
    }
}

/// The whole segmentation outcome depends only on an image's dimensions and
/// samples: two images holding the same strip segment identically.
pub proof fn lemma_segmentation_same_view(theme: Theme, a: Image, b: Image)
    requires
        a.width == b.width,
        a.height == b.height,
        a.data@ == b.data@,
    ensures
        spec_even_total(theme, a, a.width as int) == spec_even_total(theme, b, b.width as int),
        spec_odd_total(theme, a, a.width as int) == spec_odd_total(theme, b, b.width as int),
        spec_layout_count(theme, a) == spec_layout_count(theme, b),
        spec_layout_left(theme, a) == spec_layout_left(theme, b),
        forall|p: int| #[trigger] spec_top_half_count(theme, a, p) == spec_top_half_count(
            theme,
            b,
            p,
        ),
        forall|p: int, i: int, j: int| #[trigger] spec_part_pixel(theme, a, p, i, j)
            == spec_part_pixel(theme, b, p, i, j),
{
    lemma_totals_same_view(theme, a, b, a.width as int);
    assert forall|p: int| #[trigger] spec_top_half_count(theme, a, p) == spec_top_half_count(
        theme,
        b,
        p,
    ) by {
        lemma_box_fg_same_view(
            theme,
            a,
            b,
            spec_layout_left(theme, a) + p * (a.width as int / 4),
            a.width as int / 4,
            a.height as int / 2,
        );
    }
    assert forall|p: int, i: int, j: int| #[trigger] spec_part_pixel(theme, a, p, i, j)
        == spec_part_pixel(theme, b, p, i, j) by {
        assert(spec_top_half_count(theme, a, p) == spec_top_half_count(theme, b, p));
        let col = spec_layout_left(theme, a) + p * (a.width as int / 4) + i;
        assert(a.spec_pixel(col, j) == b.spec_pixel(col, j));
    }
}

/// The canonical strip a frame yields: the centered reward-strip crop at its
/// scaled position and size, resampled to the reference dimensions.
pub open spec fn spec_canonical_strip_data(img: Image) -> Seq<u8> {
    let h = img.height as int;
    let cw = crate::util::spec_scaled(960, h);
    let ch = crate::util::spec_scaled(48, h);
    let x0 = img.width as int / 2 - cw / 2;
    let y0 = crate::util::spec_scaled(220, h) + crate::util::spec_scaled(240, h) - ch;
    crate::raster::resized_of(spec_crop_data(img, x0, y0, cw, ch), cw, ch, 960, 48)
}

/// What the extractor guarantees of its parts, stated over any image that
/// holds exactly the frame's canonical strip: the layout totals decide
/// emptiness and the box count, and every part pixel is the strip's
/// segmented pixel.
pub open spec fn spec_parts_of_strip(theme: Theme, strip: Image, parts: Seq<Image>) -> bool {
    let even = spec_even_total(theme, strip, strip.width as int);
    let odd = spec_odd_total(theme, strip, strip.width as int);
    &&& (even == 0 && odd == 0 ==> parts.len() == 0)
    &&& (!(even == 0 && odd == 0) ==> {
        &&& parts.len() == spec_layout_count(theme, strip)
        &&& forall|p: int, i: int, j: int|
            0 <= p < parts.len() && 0 <= i < strip.width as int / 4 && 0 <= j < strip.height
                ==> (#[trigger] parts[p].spec_pixel(i, j)) == spec_part_pixel(theme, strip, p, i, j)
    })
}

/// Crops the reward strip out of the frame at its scaled position, brings it
/// to the canonical reference dimensions, and splits it into part boxes. The
/// resampled samples are pinned by name, so the parts are exactly the
/// splitter's output on the frame's canonical strip.
pub fn extract_parts(image: &Image, theme: &Theme, scale: &crate::util::Scale) -> (r: Vec<Image>)
    requires
        theme.wf(),
        image.wf(),
        image.width >= image.height,
        scale.height == image.height,
    ensures
        r@.len() == 0 || r@.len() == 3 || r@.len() == 4,
        forall|p: int|
            0 <= p < r@.len() ==> (#[trigger] r@[p]).wf() && r@[p].width == 240 && r@[p].height
                == 48,
        forall|strip: Image|
            #![trigger strip.wf()]
            strip.wf() && strip.width == 960 && strip.height == 48 && strip.data@
                == spec_canonical_strip_data(*image) ==> spec_parts_of_strip(*theme, strip, r@),
{
    let reward_y = scale.scaled(crate::util::PIXEL_REWARD_Y);
    let reward_width = scale.scaled(crate::util::PIXEL_REWARD_WIDTH);
    let reward_height = scale.scaled(crate::util::PIXEL_REWARD_HEIGHT);
    let reward_line = scale.scaled(crate::util::PIXEL_REWARD_LINE_HEIGHT);
    proof {
        let hh = image.height as int;
        assert(48 * hh <= 240 * hh && 220 * hh <= 220 * hh) by (nonlinear_arith)
            requires
                hh >= 0,
        ;
        lemma_div_is_ordered(48 * hh, 240 * hh, 1080);
        lemma_floor_div_add(220 * hh, 240 * hh, 1080);
        assert(220 * hh + 240 * hh == 460 * hh) by (nonlinear_arith);
        crate::color::lemma_mul_div_le(460, 1080, hh);
        assert(460 * hh == hh * 460) by (nonlinear_arith);
        lemma_center_fits(image.width as int, reward_width as int);
    }
    let x = image.width / 2 - reward_width / 2;
    let y = reward_y + reward_height - reward_line;
    let strip = image.crop(x, y, reward_width, reward_line);
    let canonical = crate::raster::resize_image(
        &strip,
        crate::util::PIXEL_REWARD_WIDTH,
        crate::util::PIXEL_REWARD_LINE_HEIGHT,
    );
    proof {
        lemma_crop_matches_data(*image, strip, x as int, y as int);
        assert(canonical.data@ == spec_canonical_strip_data(*image));
    }
    let parts = filter_and_separate_parts_from_part_box(&canonical, theme);
    proof {
        assert forall|strip2: Image|
            strip2.wf() && strip2.width == 960 && strip2.height == 48 && strip2.data@
                == spec_canonical_strip_data(*image) implies spec_parts_of_strip(
            *theme,
            strip2,
            parts@,
        ) by {
            lemma_segmentation_same_view(*theme, strip2, canonical);
        }
    }
    parts
}

/// The compute phase of one frame: finds the active theme, unless the caller
/// fixed one, and segments the reward strip into the part images that are
/// handed to the external text-recognition engine. Returns the parts with
/// the index of the theme used; a portrait capture or a frame with no theme
/// vote fails.
pub fn reward_image_to_parts(
    image: &Image,
    themes: &crate::theme::Themes,
    theme_override: Option<usize>,
) -> (r: Result<(Vec<Image>, usize), crate::Error>)
    requires
        image.wf(),
        themes.wf(),
        themes.0@.len() > 0,
        theme_override matches Some(i) ==> i < themes.0@.len(),
    ensures
        image.width < image.height ==> r == Err::<(Vec<Image>, usize), crate::Error>(
            crate::Error::InvalidSize(image.width, image.height),
        ),
        image.width >= image.height && theme_override is None && crate::theme::spec_detect(
            themes.0@,
            *image,
        ) is None ==> r == Err::<(Vec<Image>, usize), crate::Error>(crate::Error::UnknownTheme),
        (image.width >= image.height && (theme_override is Some || crate::theme::spec_detect(
            themes.0@,
            *image,
        ) is Some)) ==> (r matches Ok(ok) && {
            &&& ok.1 < themes.0@.len()
            &&& (theme_override matches Some(i) ==> ok.1 == i)
            &&& (theme_override is None ==> crate::theme::spec_detect(themes.0@, *image) == Some(
                ok.1 as int,
            ))
            &&& (ok.0@.len() == 0 || ok.0@.len() == 3 || ok.0@.len() == 4)
            &&& forall|p: int|
                0 <= p < ok.0@.len() ==> (#[trigger] ok.0@[p]).wf() && ok.0@[p].width == 240
                    && ok.0@[p].height == 48
            &&& forall|strip: Image|
                #![trigger strip.wf()]
                strip.wf() && strip.width == 960 && strip.height == 48 && strip.data@
                    == spec_canonical_strip_data(*image) ==> spec_parts_of_strip(
                    themes.0@[ok.1 as int],
                    strip,
                    ok.0@,
                )
        }),
{
    let scale = match crate::util::get_scale(image) {
        Ok(s) => s,
        Err(e) => {
            return Err(e);
        },
    };
    let theme_idx = match theme_override {
        Some(i) => i,
        None => match themes.detect_theme(image) {
            Some(k) => k,
            None => {
                return Err(crate::Error::UnknownTheme);
            },
        },
    };
    let parts = extract_parts(image, themes.get(theme_idx), &scale);
    Ok((parts, theme_idx))
}

/// Resolves each recognized name against the catalog, slot by slot: a slot
/// whose text cannot be resolved stays an explicit empty marker rather than
/// failing the frame.
pub fn resolve_reward_names<'a>(
    items: &'a crate::wfinfo::Items,
    names: &Vec<String>,
) -> (r: Vec<Option<&'a crate::wfinfo::Item>>)
    requires
        items.wf(),
    ensures
        r@.len() == names@.len(),
        forall|k: int|
            0 <= k < names@.len() ==> match #[trigger] r@[k] {
                Some(it) => crate::wfinfo::spec_find(
                    items@,
                    items.min_len as int,
                    items.max_len as int,
                    names@[k]@,
                ) == Some(it@),
                None => crate::wfinfo::spec_find(
                    items@,
                    items.min_len as int,
                    items.max_len as int,
                    names@[k]@,
                ) is None,
            },
{
    let n = names.len();
    let mut out: Vec<Option<&crate::wfinfo::Item>> = Vec::new();
    let mut k: usize = 0;
    while k < n
        invariant
            0 <= k <= n,
            n == names@.len(),
            items.wf(),
            out@.len() == k,
            forall|t: int|
                0 <= t < k ==> match #[trigger] out@[t] {
                    Some(it) => crate::wfinfo::spec_find(
                        items@,
                        items.min_len as int,
                        items.max_len as int,
                        names@[t]@,
                    ) == Some(it@),
                    None => crate::wfinfo::spec_find(
                        items@,
                        items.min_len as int,
                        items.max_len as int,
                        names@[t]@,
                    ) is None,
                },
        decreases n - k,
    {
        let found = items.find_item(names[k].as_str());
        out.push(found);
        k += 1;
    }
    out
}

/// The coordinate one step up, clamped at the numeric range's top.
pub open spec fn spec_sat_add1(v: u32) -> u32 {
    if v < u32::MAX {
        (v + 1) as u32
    } else {
        u32::MAX
    }
}

/// The coordinate one step down, clamped at zero.
pub open spec fn spec_sat_sub1(v: u32) -> u32 {
    if v > 0 {
        (v - 1) as u32
    } else {
        0u32
    }
}

fn sat_add1(v: u32) -> (r: u32)
    ensures
        r == spec_sat_add1(v),
{
    if v < u32::MAX {
        v + 1
    } else {
        u32::MAX
    }
}

fn sat_sub1(v: u32) -> (r: u32)
    ensures
        r == spec_sat_sub1(v),
{
    if v > 0 {
        v - 1
    } else {
        0
    }
}

/// The eight neighbors of a pixel coordinate, clamped at the numeric range's
/// ends.
pub fn get_surrounding_pixels(x: u32, y: u32) -> (r: [(u32, u32); 8])
    ensures
        r[0] == (spec_sat_add1(x), y),
        r[1] == (spec_sat_sub1(x), y),
        r[2] == (x, spec_sat_add1(y)),
        r[3] == (x, spec_sat_sub1(y)),
        r[4] == (spec_sat_add1(x), spec_sat_add1(y)),
        r[5] == (spec_sat_sub1(x), spec_sat_sub1(y)),
        r[6] == (spec_sat_add1(x), spec_sat_sub1(y)),
        r[7] == (spec_sat_sub1(x), spec_sat_add1(y)),
{
    [
        (sat_add1(x), y),
        (sat_sub1(x), y),
        (x, sat_add1(y)),
        (x, sat_sub1(y)),
        (sat_add1(x), sat_add1(y)),
        (sat_sub1(x), sat_sub1(y)),
        (sat_add1(x), sat_sub1(y)),
        (sat_sub1(x), sat_add1(y)),
    ]
}

} // verus!
