//! Fixed-point color model: RGB with 8-bit channels, HSL in milli-units
//! (hue in milli-degrees below 360000, saturation and lightness at most
//! 1000), the perceptual channel distance, and the acceptance-box test used
//! to classify pixels against a theme's reference colors.

use vstd::prelude::*;

verus! {

use vstd::arithmetic::div_mod::{lemma_div_is_ordered, lemma_div_multiples_vanish};
use vstd::arithmetic::mul::lemma_mul_inequality;

/// For nonnegative `a` at most `b`, the quotient `k * a / b` is at most `k`.
pub proof fn lemma_mul_div_le(a: int, b: int, k: int)
    requires
        0 <= a <= b,
        0 < b,
        0 <= k,
    ensures
        k * a / b <= k,
{
    lemma_mul_inequality(a, b, k);
    lemma_div_is_ordered(a * k, b * k, b);
    lemma_div_multiples_vanish(k, b);
    assert(a * k == k * a) by (nonlinear_arith);
    assert(b * k == k * b) by (nonlinear_arith);
}

/// An sRGB color with 8-bit channels.
#[derive(Debug, Clone, Copy, PartialEq, Eq, Structural)]
pub struct Rgb {
    pub r: u8,
    pub g: u8,
    pub b: u8,
}

/// A color in HSL space, held in fixed point: `hue` in milli-degrees
/// (`0..360000`), `sat` and `light` in milli-units (`0..=1000`).
#[derive(Debug, Clone, Copy, PartialEq, Eq, Structural)]
pub struct Hsl {
    pub hue: u32,
    pub sat: u32,
    pub light: u32,
}

/// Per-axis half-widths of an acceptance box around a reference color:
/// `hue` in milli-degrees, `sat` and `light` in milli-units.
#[derive(Debug, Clone, Copy, PartialEq, Eq, Structural)]
pub struct Threshold {
    pub hue: u32,
    pub sat: u32,
    pub light: u32,
}

impl Hsl {
    /// The ranges a well-formed HSL value stays within.
    pub open spec fn wf(self) -> bool {
        self.hue < 360000 && self.sat <= 1000 && self.light <= 1000
    }
}

pub open spec fn spec_max3(a: int, b: int, c: int) -> int {
    if a >= b && a >= c {
        a
    } else if b >= c {
        b
    } else {
        c
    }
}

pub open spec fn spec_min3(a: int, b: int, c: int) -> int {
    if a <= b && a <= c {
        a
    } else if b <= c {
        b
    } else {
        c
    }
}

/// Lightness of `c` in milli-units: the mean of the extreme channels,
/// rescaled from `0..=510` to `0..=1000`.
pub open spec fn spec_lightness(c: Rgb) -> int {
    (spec_max3(c.r as int, c.g as int, c.b as int) + spec_min3(
        c.r as int,
        c.g as int,
        c.b as int,
    )) * 1000 / 510
}

/// Saturation of `c` in milli-units: chroma over the headroom left by the
/// lightness, on the 8-bit channel scale.
pub open spec fn spec_saturation(c: Rgb) -> int {
    let maxc = spec_max3(c.r as int, c.g as int, c.b as int);
    let minc = spec_min3(c.r as int, c.g as int, c.b as int);
    if maxc == minc {
        0
    } else if maxc + minc <= 255 {
        (maxc - minc) * 1000 / (maxc + minc)
    } else {
        (maxc - minc) * 1000 / (510 - maxc - minc)
    }
}

/// Hue of `c` in milli-degrees, by the usual sextant formula; `0` for grays.
pub open spec fn spec_hue(c: Rgb) -> int {
    let r = c.r as int;
    let g = c.g as int;
    let b = c.b as int;
    let maxc = spec_max3(r, g, b);
    let minc = spec_min3(r, g, b);
    let delta = maxc - minc;
    if delta == 0 {
        0
    } else if maxc == r {
        if g >= b {
            60000 * (g - b) / delta
        } else if 60000 * (b - g) / delta == 0 {
            0
        } else {
            360000 - 60000 * (b - g) / delta
        }
    } else if maxc == g {
        if b >= r {
            120000 + 60000 * (b - r) / delta
        } else {
            120000 - 60000 * (r - b) / delta
        }
    } else {
        if r >= g {
            240000 + 60000 * (r - g) / delta
        } else {
            240000 - 60000 * (g - r) / delta
        }
    }
}

pub open spec fn spec_rgb_to_hsl(c: Rgb) -> Hsl {
    Hsl {
        hue: spec_hue(c) as u32,
        sat: spec_saturation(c) as u32,
        light: spec_lightness(c) as u32,
    }
}

fn max3(a: u32, b: u32, c: u32) -> (r: u32)
    ensures
        r == spec_max3(a as int, b as int, c as int),
{
    if a >= b && a >= c {
        a
    } else if b >= c {
        b
    } else {
        c
    }
}

fn min3(a: u32, b: u32, c: u32) -> (r: u32)
    ensures
        r == spec_min3(a as int, b as int, c as int),
{
    if a <= b && a <= c {
        a
    } else if b <= c {
        b
    } else {
        c
    }
}

/// Converts an RGB color to the fixed-point HSL model.
pub fn rgb_to_hsl(c: Rgb) -> (h: Hsl)
    ensures
        h == spec_rgb_to_hsl(c),
        h.wf(),
{
    let r = c.r as u32;
    let g = c.g as u32;
    let b = c.b as u32;
    let maxc = max3(r, g, b);
    let minc = min3(r, g, b);
    let delta = maxc - minc;

    proof {
        lemma_mul_div_le((maxc + minc) as int, 510, 1000);
    }
    let light = (maxc + minc) * 1000 / 510;

    let sat = if delta == 0 {
        0
    } else if maxc + minc <= 255 {
        proof {
            lemma_mul_div_le(delta as int, (maxc + minc) as int, 1000);
            assert(delta * 1000 == 1000 * delta) by (nonlinear_arith);
        }
        delta * 1000 / (maxc + minc)
    } else {
        proof {
            lemma_mul_div_le(delta as int, (510 - maxc - minc) as int, 1000);
            assert(delta * 1000 == 1000 * delta) by (nonlinear_arith);
        }
        delta * 1000 / (510 - maxc - minc)
    };

    let hue = if delta == 0 {
        0
    } else if maxc == r {
        if g >= b {
            proof {
                lemma_mul_div_le((g - b) as int, delta as int, 60000);
            }
            60000 * (g - b) / delta
        } else {
            proof {
                lemma_mul_div_le((b - g) as int, delta as int, 60000);
            }
            let q = 60000 * (b - g) / delta;
            if q == 0 {
                0
            } else {
                360000 - q
            }
        }
    } else if maxc == g {
        if b >= r {
            proof {
                lemma_mul_div_le((b - r) as int, delta as int, 60000);
            }
            120000 + 60000 * (b - r) / delta
        } else {
            proof {
                lemma_mul_div_le((r - b) as int, delta as int, 60000);
            }
            120000 - 60000 * (r - b) / delta
        }
    } else {
        if r >= g {
            proof {
                lemma_mul_div_le((r - g) as int, delta as int, 60000);
            }
            240000 + 60000 * (r - g) / delta
        } else {
            proof {
                lemma_mul_div_le((g - r) as int, delta as int, 60000);
            }
            240000 - 60000 * (g - r) / delta
        }
    };

    Hsl { hue, sat, light }
}

/// The perceptual distance the theme vote uses: the sum of absolute channel
/// differences, at most `765`.
pub open spec fn spec_color_difference(a: Rgb, b: Rgb) -> int {
    abs_diff(a.r as int, b.r as int) + abs_diff(a.g as int, b.g as int) + abs_diff(
        a.b as int,
        b.b as int,
    )
}

pub open spec fn abs_diff(a: int, b: int) -> int {
    if a >= b {
        a - b
    } else {
        b - a
    }
}

/// Sum of absolute channel differences between two colors.
pub fn color_difference(a: Rgb, b: Rgb) -> (d: u32)
    ensures
        d == spec_color_difference(a, b),
        d <= 765,
{
    let dr = if a.r >= b.r {
        a.r - b.r
    } else {
        b.r - a.r
    };
    let dg = if a.g >= b.g {
        a.g - b.g
    } else {
        b.g - a.g
    };
    let db = if a.b >= b.b {
        a.b - b.b
    } else {
        b.b - a.b
    };
    dr as u32 + dg as u32 + db as u32
}

/// Whether `base` lies in the half-open acceptance box of half-widths `t`
/// centered on `color`, axis by axis, with no hue wraparound: hues near the
/// 0/360-degree seam deliberately under-match, as the original tables were
/// tuned with that behavior.
pub open spec fn spec_in_box(base: Hsl, color: Hsl, t: Threshold) -> bool {
    &&& color.hue - t.hue <= base.hue < color.hue + t.hue
    &&& color.sat - t.sat <= base.sat < color.sat + t.sat
    &&& color.light - t.light <= base.light < color.light + t.light
}

/// The acceptance-box membership test for a base color against a pixel's
/// color and a threshold triple.
pub fn in_box(base: Hsl, color: Hsl, t: Threshold) -> (r: bool)
    requires
        base.wf(),
        color.wf(),
        t.hue <= 360000,
        t.sat <= 1000,
        t.light <= 1000,
    ensures
        r == spec_in_box(base, color, t),
{
    let bh = base.hue as i64;
    let bs = base.sat as i64;
    let bl = base.light as i64;
    let ch = color.hue as i64;
    let cs = color.sat as i64;
    let cl = color.light as i64;
    let th = t.hue as i64;
    let ts = t.sat as i64;
    let tl = t.light as i64;
    (ch - th <= bh && bh < ch + th) && (cs - ts <= bs && bs < cs + ts) && (cl - tl <= bl && bl < cl
        + tl)
}

pub open spec fn spec_hex_digit(c: char) -> int {
    if '0' <= c <= '9' {
        c as int - '0' as int
    } else if 'a' <= c <= 'f' {
        c as int - 'a' as int + 10
    } else if 'A' <= c <= 'F' {
        c as int - 'A' as int + 10
    } else {
        -1
    }
}

/// The digit block of a hex color string: the text after a leading `#`.
pub open spec fn spec_hex_digits(s: Seq<char>) -> Seq<char> {
    if s.len() == 7 && s[0] == '#' {
        s.subrange(1, 7)
    } else {
        s
    }
}

/// The color a hex string of the form `#rrggbb` or `rrggbb` denotes, if any.
pub open spec fn spec_parse_hex_color(s: Seq<char>) -> Option<Rgb> {
    let digits = spec_hex_digits(s);
    if digits.len() == 6 && (forall|i: int| 0 <= i < 6 ==> spec_hex_digit(#[trigger] digits[i]) >= 0) {
        Some(
            Rgb {
                r: (spec_hex_digit(digits[0]) * 16 + spec_hex_digit(digits[1])) as u8,
                g: (spec_hex_digit(digits[2]) * 16 + spec_hex_digit(digits[3])) as u8,
                b: (spec_hex_digit(digits[4]) * 16 + spec_hex_digit(digits[5])) as u8,
            },
        )
    } else {
        None
    }
}

fn hex_digit(c: char) -> (r: Option<u8>)
    ensures
        r is Some <==> spec_hex_digit(c) >= 0,
        r is Some ==> r->0 == spec_hex_digit(c) && r->0 < 16,
{
    if '0' <= c && c <= '9' {
        Some((c as u8) - ('0' as u8))
    } else if 'a' <= c && c <= 'f' {
        Some((c as u8) - ('a' as u8) + 10)
    } else if 'A' <= c && c <= 'F' {
        Some((c as u8) - ('A' as u8) + 10)
    } else {
        None
    }
}

/// Parses a `#rrggbb` (or bare `rrggbb`) hex color, as the theme tables are
/// written in their source data.
pub fn parse_hex_color(s: &str) -> (r: Option<Rgb>)
    ensures
        r == spec_parse_hex_color(s@),
{
    let len = s.unicode_len();
    let skip: usize = if len == 7 && s.get_char(0) == '#' {
        1
    } else {
        0
    };
    if len - skip != 6 {
        proof {
            if s@.len() == 7 && s@[0] == '#' {
                assert(skip == 1 && len == 7);
                assert(false);
            } else {
                assert(s@.len() != 6);
            }
        }
        return None;
    }
    let ghost digits: Seq<char> = spec_hex_digits(s@);
    assert(digits.len() == 6);
    let mut vals: [u8; 6] = [0, 0, 0, 0, 0, 0];
    let mut i: usize = 0;
    while i < 6
        invariant
            i <= 6,
            skip + 6 == s@.len(),
            digits == spec_hex_digits(s@),
            digits.len() == 6,
            forall|j: int| 0 <= j < 6 ==> digits[j] == s@[skip + j],
            forall|j: int|
                0 <= j < i ==> spec_hex_digit(#[trigger] digits[j]) >= 0 && vals[j] == spec_hex_digit(
                    digits[j],
                ),
        decreases 6 - i,
    {
        let c = s.get_char(skip + i);
        match hex_digit(c) {
            Some(v) => {
                vals[i] = v;
            },
            None => {
                proof {
                    assert(digits[i as int] == s@[skip + i]);
                    assert(spec_hex_digit(digits[i as int]) < 0);
                    assert(!(forall|j: int|
                        0 <= j < 6 ==> spec_hex_digit(#[trigger] digits[j]) >= 0));
                    assert(spec_parse_hex_color(s@) is None);
                }
                return None;
            },
        }
        i += 1;
    }
    Some(
        Rgb {
            r: vals[0] * 16 + vals[1],
            g: vals[2] * 16 + vals[3],
            b: vals[4] * 16 + vals[5],
        },
    )
}

} // verus!
