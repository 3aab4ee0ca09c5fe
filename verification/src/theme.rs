//! UI color themes: the named reference color pairs with their acceptance
//! thresholds, the built-in theme table, and the statistical theme vote over
//! a captured frame.

use vstd::prelude::*;

use crate::color::{
    in_box, rgb_to_hsl, spec_color_difference, spec_in_box, spec_rgb_to_hsl, color_difference,
    Rgb, Threshold,
};
use crate::raster::Image;
use crate::util::spec_scaled;

verus! {

use vstd::arithmetic::div_mod::{lemma_div_is_ordered, lemma_div_multiples_vanish};

/// One UI color scheme: a name, the primary and secondary reference colors,
/// and the acceptance-box half-widths around each.
#[derive(Debug)]
pub struct Theme {
    pub name: String,
    pub primary: Rgb,
    pub secondary: Rgb,
    pub primary_threshold: Threshold,
    pub secondary_threshold: Threshold,
}

impl Theme {
    /// Thresholds stay within the ranges the box test accepts.
    pub open spec fn wf(&self) -> bool {
        &&& self.primary_threshold.hue <= 360000
        &&& self.primary_threshold.sat <= 1000
        &&& self.primary_threshold.light <= 1000
        &&& self.secondary_threshold.hue <= 360000
        &&& self.secondary_threshold.sat <= 1000
        &&& self.secondary_threshold.light <= 1000
    }
}

/// Whether `base` falls in the acceptance box of half-widths `t` around the
/// pixel color `color`.
pub open spec fn spec_threshold_filter_custom(base: Rgb, color: Rgb, t: Threshold) -> bool {
    spec_in_box(spec_rgb_to_hsl(base), spec_rgb_to_hsl(color), t)
}

/// The acceptance-box test between a reference color and a pixel color, with
/// explicit half-widths: hue in milli-degrees, the rest in milli-units.
pub fn threshold_filter_custom(
    base: Rgb,
    color: Rgb,
    threshold_h: u32,
    threshold_s: u32,
    threshold_l: u32,
) -> (r: bool)
    requires
        threshold_h <= 360000,
        threshold_s <= 1000,
        threshold_l <= 1000,
    ensures
        r == spec_threshold_filter_custom(
            base,
            color,
            Threshold { hue: threshold_h, sat: threshold_s, light: threshold_l },
        ),
{
    let base_hsl = rgb_to_hsl(base);
    let color_hsl = rgb_to_hsl(color);
    in_box(base_hsl, color_hsl, Threshold { hue: threshold_h, sat: threshold_s, light: threshold_l })
}

impl Theme {
    /// The box test against this theme's primary color with explicit
    /// half-widths.
    pub fn threshold_filter_custom(&self, color: Rgb, threshold_h: u32, threshold_s: u32, threshold_l: u32) -> (r:
        bool)
        requires
            threshold_h <= 360000,
            threshold_s <= 1000,
            threshold_l <= 1000,
        ensures
            r == spec_threshold_filter_custom(
                self.primary,
                color,
                Threshold { hue: threshold_h, sat: threshold_s, light: threshold_l },
            ),
    {
        threshold_filter_custom(self.primary, color, threshold_h, threshold_s, threshold_l)
    }

    /// The box test against the primary color with the theme's own
    /// thresholds.
    pub fn threshold_filter(&self, color: Rgb) -> (r: bool)
        requires
            self.wf(),
        ensures
            r == spec_threshold_filter_custom(self.primary, color, self.primary_threshold),
    {
        let t = self.primary_threshold;
        threshold_filter_custom(self.primary, color, t.hue, t.sat, t.light)
    }

    /// Whether a pixel of this color counts as text foreground for this
    /// theme: it matches the primary or the secondary acceptance box.
    pub open spec fn spec_is_foreground(&self, color: Rgb) -> bool {
        spec_threshold_filter_custom(self.primary, color, self.primary_threshold)
            || spec_threshold_filter_custom(self.secondary, color, self.secondary_threshold)
    }

    /// The foreground test the segmenter binarizes with.
    pub fn is_foreground(&self, color: Rgb) -> (r: bool)
        requires
            self.wf(),
        ensures
            r == self.spec_is_foreground(color),
    {
        let pt = self.primary_threshold;
        let st = self.secondary_threshold;
        threshold_filter_custom(self.primary, color, pt.hue, pt.sat, pt.light)
            || threshold_filter_custom(self.secondary, color, st.hue, st.sat, st.light)
    }
}

impl Theme {
    /// Builds a validated theme from plain values, as the externally
    /// supplied theme records arrive: a name, two reference colors, and
    /// milli-unit thresholds. Thresholds beyond the box test's ranges are
    /// rejected.
    pub fn new(
        name: String,
        primary: Rgb,
        secondary: Rgb,
        primary_threshold: Threshold,
        secondary_threshold: Threshold,
    ) -> (r: Option<Theme>)
        ensures
            ({
                let ok = primary_threshold.hue <= 360000 && primary_threshold.sat <= 1000
                    && primary_threshold.light <= 1000 && secondary_threshold.hue <= 360000
                    && secondary_threshold.sat <= 1000 && secondary_threshold.light <= 1000;
                match r {
                    Some(t) => ok && t.wf() && t.name@ == name@ && t.primary == primary
                        && t.secondary == secondary && t.primary_threshold == primary_threshold
                        && t.secondary_threshold == secondary_threshold,
                    None => !ok,
                }
            }),
    {
        if primary_threshold.hue <= 360000 && primary_threshold.sat <= 1000
            && primary_threshold.light <= 1000 && secondary_threshold.hue <= 360000
            && secondary_threshold.sat <= 1000 && secondary_threshold.light <= 1000 {
            Some(Theme { name, primary, secondary, primary_threshold, secondary_threshold })
        } else {
            None
        }
    }
}

/// An ordered catalog of themes.
#[derive(Debug)]
pub struct Themes(pub Vec<Theme>);

impl Themes {
    /// Every theme in the catalog is well-formed.
    pub open spec fn wf(&self) -> bool {
        forall|i: int| 0 <= i < self.0@.len() ==> (#[trigger] self.0@[i]).wf()
    }

    /// How many themes the catalog holds.
    pub fn len(&self) -> (n: usize)
        ensures
            n == self.0@.len(),
    {
        self.0.len()
    }

    /// The theme at a catalog position.
    pub fn get(&self, i: usize) -> (t: &Theme)
        requires
            i < self.0@.len(),
        ensures
            t == self.0@[i as int],
    {
        &self.0[i]
    }

    /// The first theme carrying the given name, if any.
    pub fn by_name(&self, name: &str) -> (r: Option<&Theme>)
        ensures
            match r {
                Some(t) => exists|i: int|
                    0 <= i < self.0@.len() && t == self.0@[i] && t.name@ == name@ && forall|j: int|
                        0 <= j < i ==> (#[trigger] self.0@[j]).name@ != name@,
                None => forall|i: int| 0 <= i < self.0@.len() ==> (#[trigger] self.0@[i]).name@ != name@,
            },
    {
        let n = self.0.len();
        let mut i: usize = 0;
        while i < n
            invariant
                i <= n,
                n == self.0@.len(),
                forall|j: int| 0 <= j < i ==> (#[trigger] self.0@[j]).name@ != name@,
            decreases n - i,
        {
            if crate::util::str_eq(self.0[i].name.as_str(), name) {
                return Some(&self.0[i]);
            }
            i += 1;
        }
        None
    }
}

/// The index of the first theme whose primary color minimizes the channel
/// distance to `c`, over the first `n` themes.
pub open spec fn spec_closest(themes: Seq<Theme>, c: Rgb) -> int
    decreases themes.len(),
{
    if themes.len() <= 1 {
        0
    } else {
        let prev = spec_closest(themes.drop_last(), c);
        if spec_color_difference(themes.last().primary, c) < spec_color_difference(
            themes[prev].primary,
            c,
        ) {
            themes.len() - 1
        } else {
            prev
        }
    }
}

/// The first index of the minimum stays inside the sequence and no earlier
/// index beats it.
pub proof fn lemma_spec_closest_min(themes: Seq<Theme>, c: Rgb)
    requires
        themes.len() > 0,
    ensures
        0 <= spec_closest(themes, c) < themes.len(),
        forall|j: int|
            0 <= j < themes.len() ==> spec_color_difference(
                themes[spec_closest(themes, c)].primary,
                c,
            ) <= spec_color_difference((#[trigger] themes[j]).primary, c),
    decreases themes.len(),
{
    if themes.len() > 1 {
        lemma_spec_closest_min(themes.drop_last(), c);
        assert(forall|j: int|
            0 <= j < themes.len() - 1 ==> themes.drop_last()[j] == #[trigger] themes[j]);
    }
}

impl Themes {
    /// The index of the theme whose primary color is closest to `c` in
    /// summed channel distance, earliest on ties, and that distance.
    pub fn closest_from_color(&self, c: Rgb) -> (r: (usize, u32))
        requires
            self.0@.len() > 0,
        ensures
            r.0 < self.0@.len(),
            r.0 == spec_closest(self.0@, c),
            r.1 == spec_color_difference(self.0@[r.0 as int].primary, c),
            r.1 <= 765,
    {
        let n = self.0.len();
        let mut best: usize = 0;
        let mut best_d: u32 = color_difference(self.0[0].primary, c);
        let mut i: usize = 1;
        proof {
            assert(self.0@.subrange(0, 1).len() == 1);
            assert(self.0@.subrange(0, 1)[0] == self.0@[0]);
        }
        while i < n
            invariant
                1 <= i <= n,
                n == self.0@.len(),
                best == spec_closest(self.0@.subrange(0, i as int), c),
                best < i,
                best_d == spec_color_difference(self.0@[best as int].primary, c),
                best_d <= 765,
            decreases n - i,
        {
            let d = color_difference(self.0[i].primary, c);
            proof {
                let pre = self.0@.subrange(0, i as int);
                let cur = self.0@.subrange(0, i + 1);
                assert(cur.drop_last() =~= pre);
                assert(cur.last() == self.0@[i as int]);
                assert(cur[spec_closest(pre, c)] == self.0@[spec_closest(pre, c)]);
            }
            if d < best_d {
                best = i;
                best_d = d;
            }
            i += 1;
        }
        proof {
            assert(self.0@.subrange(0, n as int) =~= self.0@);
        }
        (best, best_d)
    }
}

/// Builds a one-off theme from a single sampled pixel of the capture: both
/// reference colors are the sampled color, under the default thresholds.
/// The probe point is given at the reference resolution and scaled to the
/// capture like every other length; the original's packaged probe constants
/// are not part of its sources, so the caller supplies the point.
pub fn auto_theme(name: String, image: &Image, probe_x: u32, probe_y: u32) -> (r: Result<
    Theme,
    crate::Error,
>)
    requires
        image.wf(),
        image.height >= 1,
        probe_x < 1080,
        probe_y < 1080,
    ensures
        image.width < image.height ==> r == Err::<Theme, crate::Error>(
            crate::Error::InvalidSize(image.width, image.height),
        ),
        image.width >= image.height ==> (r matches Ok(t) && {
            let c = image.spec_pixel(
                spec_scaled(probe_x as int, image.height as int),
                spec_scaled(probe_y as int, image.height as int),
            );
            &&& t.wf()
            &&& t.name@ == name@
            &&& t.primary == c
            &&& t.secondary == c
            &&& t.primary_threshold == (Threshold { hue: 50, sat: 50, light: 50 })
            &&& t.secondary_threshold == (Threshold { hue: 50, sat: 50, light: 50 })
        }),
{
    let scale = match crate::util::get_scale(image) {
        Ok(s) => s,
        Err(e) => {
            return Err(e);
        },
    };
    let x = scale.scaled(probe_x);
    let y = scale.scaled(probe_y);
    proof {
        lemma_probe_in_frame(probe_x as int, image.height as int);
        lemma_probe_in_frame(probe_y as int, image.height as int);
    }
    let color = image.pixel(x, y);
    Ok(
        Theme {
            name,
            primary: color,
            secondary: color,
            primary_threshold: Threshold { hue: 50, sat: 50, light: 50 },
            secondary_threshold: Threshold { hue: 50, sat: 50, light: 50 },
        },
    )
}

/// A probe coordinate below the reference height scales to inside the
/// capture.
proof fn lemma_probe_in_frame(p: int, h: int)
    requires
        0 <= p < 1080,
        h >= 1,
    ensures
        0 <= spec_scaled(p, h) < h,
{
    let a = p * h;
    assert(0 <= a && a < 1080 * h) by (nonlinear_arith)
        requires
            a == p * h,
            0 <= p < 1080,
            h >= 1,
    ;
    lemma_div_is_ordered(0, a, 1080);
    vstd::arithmetic::div_mod::lemma_fundamental_div_mod(a, 1080);
    vstd::arithmetic::div_mod::lemma_mod_bound(a, 1080);
    assert(1080 * (a / 1080) <= a);
    assert(1080 * (a / 1080) < 1080 * h);
    assert(a / 1080 < h) by (nonlinear_arith)
        requires
            1080 * (a / 1080) < 1080 * h,
    ;
}

/// The vote weight of one sampled pixel at channel distance `d` from its
/// closest theme: an inverse fourth power in hundred-millionths, so close
/// matches dominate and colors a hundred or more away contribute nothing.
pub open spec fn spec_vote_weight(d: int) -> int {
    100000000int / ((1 + d) * (1 + d) * ((1 + d) * (1 + d)))
}

/// A distance of at least 100 earns no vote; anything closer earns one.
pub proof fn lemma_vote_weight_range(d: int)
    requires
        0 <= d <= 765,
    ensures
        0 <= spec_vote_weight(d) <= 100000000,
        d >= 100 ==> spec_vote_weight(d) == 0,
        d < 100 ==> spec_vote_weight(d) >= 1,
{
    let e = 1 + d;
    let e4 = e * e * (e * e);
    assert(1 <= e * e <= 766 * 766) by (nonlinear_arith)
        requires
            1 <= e <= 766,
    ;
    assert(1 <= e4 <= 766 * 766 * (766 * 766)) by (nonlinear_arith)
        requires
            1 <= e * e <= 766 * 766,
            e4 == e * e * (e * e),
    ;
    assert(100000000int / e4 >= 0) by {
        lemma_div_is_ordered(0, 100000000, e4);
    }
    assert(100000000int / e4 <= 100000000) by {
        lemma_div_is_ordered(100000000, 100000000 * e4, e4);
        lemma_div_multiples_vanish(100000000, e4);
        assert(100000000 <= 100000000 * e4 && e4 * 100000000 == 100000000 * e4)
            by (nonlinear_arith)
            requires
                e4 >= 1,
        ;
    }
    if d >= 100 {
        assert(e4 > 100000000) by (nonlinear_arith)
            requires
                e >= 101,
                e4 == e * e * (e * e),
        ;
        assert(100000000int / e4 == 0) by {
            vstd::arithmetic::div_mod::lemma_basic_div(100000000, e4);
        }
    }
    if d < 100 {
        assert(e4 <= 100000000) by (nonlinear_arith)
            requires
                1 <= e <= 100,
                e4 == e * e * (e * e),
        ;
        assert(100000000int / e4 >= 1) by {
            lemma_div_is_ordered(e4, 100000000, e4);
            lemma_div_multiples_vanish(1, e4);
            assert(e4 * 1 == e4);
        }
    }
}

fn vote_weight(d: u32) -> (w: u64)
    requires
        d <= 765,
    ensures
        w == spec_vote_weight(d as int),
{
    let e: u64 = 1 + d as u64;
    proof {
        assert(1 <= (e as int) * (e as int) <= 766 * 766) by (nonlinear_arith)
            requires
                1 <= e <= 766,
        ;
    }
    let e2: u64 = e * e;
    proof {
        assert(1 <= (e2 as int) * (e2 as int) <= 586756 * 586756) by (nonlinear_arith)
            requires
                1 <= e2 <= 586756,
        ;
        lemma_vote_weight_range(d as int);
    }
    let e4: u64 = e2 * e2;
    100000000 / e4
}

/// Height, in capture pixels, above which the vote starts scanning rows:
/// half the reward text line, scaled.
pub open spec fn spec_scan_top(h: int) -> int {
    spec_scaled(24, h)
}

/// The reward strip's width in capture pixels.
pub open spec fn spec_most_width(h: int) -> int {
    spec_scaled(960, h)
}

/// The narrowest per-row sample width, a quarter of the strip.
pub open spec fn spec_min_width(h: int) -> int {
    spec_most_width(h) / 4
}

/// How many horizontally centered pixels row `y` contributes: grows
/// linearly from the minimum width at the top of the scan region to double
/// that width at the bottom.
pub open spec fn spec_sample_width(h: int, y: int) -> int {
    spec_min_width(h) + spec_min_width(h) * (y - spec_scan_top(h)) / (h - spec_scan_top(h))
}

/// The left edge of row `y`'s centered sample range.
pub open spec fn spec_sample_left(h: int, y: int) -> int {
    (spec_most_width(h) - spec_sample_width(h, y)) / 2
}

/// The vote that sample `x` of row `y` casts for theme `j`: its full weight
/// if theme `j` is the closest to the sampled pixel, nothing otherwise.
pub open spec fn spec_sample_vote(themes: Seq<Theme>, img: Image, y: int, x: int, j: int) -> int {
    let c = img.spec_pixel(x + spec_sample_left(img.height as int, y), y);
    if spec_closest(themes, c) == j {
        spec_vote_weight(spec_color_difference(themes[spec_closest(themes, c)].primary, c))
    } else {
        0
    }
}

/// Votes for theme `j` from the first `xn` samples of row `y`.
pub open spec fn spec_row_votes(themes: Seq<Theme>, img: Image, y: int, xn: int, j: int) -> int
    decreases xn,
{
    if xn <= 0 {
        0
    } else {
        spec_row_votes(themes, img, y, xn - 1, j) + spec_sample_vote(themes, img, y, xn - 1, j)
    }
}

/// Votes for theme `j` from all rows below `yn`, starting at the scan top.
pub open spec fn spec_votes_up_to(themes: Seq<Theme>, img: Image, yn: int, j: int) -> int
    decreases yn,
{
    let top = spec_scan_top(img.height as int);
    if yn <= top {
        0
    } else {
        spec_votes_up_to(themes, img, yn - 1, j) + spec_row_votes(
            themes,
            img,
            yn - 1,
            spec_sample_width(img.height as int, yn - 1),
            j,
        )
    }
}

/// The accumulated vote for theme `j` over the whole scan region.
pub open spec fn spec_total_votes(themes: Seq<Theme>, img: Image, j: int) -> int {
    spec_votes_up_to(themes, img, img.height as int, j)
}

/// The first index of the maximum of a sequence.
pub open spec fn spec_argmax(ws: Seq<int>) -> int
    decreases ws.len(),
{
    if ws.len() <= 1 {
        0
    } else {
        let prev = spec_argmax(ws.drop_last());
        if ws.last() > ws[prev] {
            ws.len() - 1
        } else {
            prev
        }
    }
}

pub proof fn lemma_spec_argmax_max(ws: Seq<int>)
    requires
        ws.len() > 0,
    ensures
        0 <= spec_argmax(ws) < ws.len(),
        forall|j: int| 0 <= j < ws.len() ==> #[trigger] ws[j] <= ws[spec_argmax(ws)],
    decreases ws.len(),
{
    if ws.len() > 1 {
        lemma_spec_argmax_max(ws.drop_last());
        assert(forall|j: int| 0 <= j < ws.len() - 1 ==> ws.drop_last()[j] == #[trigger] ws[j]);
    }
}

/// What the theme vote returns on an image: nothing when no theme got a
/// vote, else the first theme with the maximal accumulated weight.
pub open spec fn spec_detect(themes: Seq<Theme>, img: Image) -> Option<int> {
    let ws = Seq::new(themes.len(), |j: int| spec_total_votes(themes, img, j));
    if forall|j: int| 0 <= j < ws.len() ==> #[trigger] ws[j] == 0 {
        None
    } else {
        Some(spec_argmax(ws))
    }
}

impl Themes {
    /// Scans every row from the scaled minimum line height to the bottom of
    /// the frame, samples a horizontally centered, linearly growing window
    /// per row, votes each sampled pixel for its closest theme with weight
    /// inverse to the fourth power of the distance, and returns the index of
    /// the first theme with the maximal accumulated weight; nothing when no
    /// theme received a vote.
    pub fn detect_theme(&self, image: &Image) -> (r: Option<usize>)
        requires
            self.0@.len() > 0,
            image.wf(),
            image.width >= image.height,
        ensures
            match r {
                Some(k) => 0 <= k < self.0@.len() && spec_detect(self.0@, *image) == Some(k as int),
                None => spec_detect(self.0@, *image) is None,
            },
    {
        let h = image.height;
        let scale = crate::util::Scale { height: h };
        let top = scale.scaled(24);
        let mw = scale.scaled(960);
        let minw = mw / 4;
        let n = self.0.len();
        let ghost themes = self.0@;

        let mut weights: Vec<u128> = Vec::new();
        let mut t: usize = 0;
        while t < n
            invariant
                t <= n,
                weights@.len() == t,
                forall|j: int| 0 <= j < t ==> weights@[j] == 0,
            decreases n - t,
        {
            weights.push(0);
            t += 1;
        }

        let mut y = top;
        while y < h
            invariant
                self.0@ == themes,
                themes.len() == n > 0,
                image.wf(),
                image.width >= image.height,
                image.height == h,
                top == spec_scan_top(h as int),
                mw == spec_most_width(h as int),
                minw == spec_min_width(h as int),
                top <= y <= h,
                weights@.len() == n,
                forall|j: int|
                    0 <= j < n ==> #[trigger] weights@[j] as int == spec_votes_up_to(
                        themes,
                        *image,
                        y as int,
                        j,
                    ),
            decreases h - y,
        {
            proof {
                lemma_sample_width_bound(h as int, y as int);
                crate::color::lemma_mul_div_le((y - top) as int, (h - top) as int, minw as int);
                assert((minw as int) * ((y - top) as int) == ((y - top) as int) * (minw as int))
                    by (nonlinear_arith);
                assert((minw as int) * ((y - top) as int) <= 0xffffffff * 0xffffffff)
                    by (nonlinear_arith)
                    requires
                        0 <= minw as int <= 0xffffffff,
                        0 <= (y - top) as int <= 0xffffffff,
                ;
            }
            let extra: u32 = ((minw as u64) * ((y - top) as u64) / ((h - top) as u64)) as u32;
            let tw: u32 = minw + extra;
            let xoff: u32 = (mw - tw) / 2;
            proof {
                assert(tw as int == spec_sample_width(h as int, y as int));
                assert(xoff as int == spec_sample_left(h as int, y as int));
                vstd::arithmetic::div_mod::lemma_fundamental_div_mod((mw - tw) as int, 2);
                vstd::arithmetic::div_mod::lemma_mod_bound((mw - tw) as int, 2);
                assert(xoff <= mw - tw);
            }
            let mut x: u32 = 0;
            while x < tw
                invariant
                    self.0@ == themes,
                    themes.len() == n > 0,
                    image.wf(),
                    image.width >= image.height,
                    image.height == h,
                    top == spec_scan_top(h as int),
                    mw == spec_most_width(h as int),
                    minw == spec_min_width(h as int),
                    top <= y < h,
                    tw as int == spec_sample_width(h as int, y as int),
                    tw <= mw,
                    xoff as int == spec_sample_left(h as int, y as int),
                    xoff <= mw - tw,
                    x <= tw,
                    weights@.len() == n,
                    forall|j: int|
                        0 <= j < n ==> #[trigger] weights@[j] as int == spec_votes_up_to(
                            themes,
                            *image,
                            y as int,
                            j,
                        ) + spec_row_votes(themes, *image, y as int, x as int, j),
                decreases tw - x,
            {
                let c = image.pixel(x + xoff, y);
                let kd = self.closest_from_color(c);
                let k = kd.0;
                let d = kd.1;
                let w = vote_weight(d);
                proof {
                    lemma_votes_up_to_bound(themes, *image, y as int, k as int);
                    lemma_row_votes_bound(themes, *image, y as int, x as int, k as int);
                    lemma_vote_weight_range(d as int);
                    assert(((y - top) as int) * (mw as int) <= 0xffffffff * 0xffffffff)
                        by (nonlinear_arith)
                        requires
                            0 <= (y - top) as int <= 0xffffffff,
                            0 <= mw as int <= 0xffffffff,
                    ;
                }
                proof {
                    assert(weights@[k as int] as int == spec_votes_up_to(
                        themes,
                        *image,
                        y as int,
                        k as int,
                    ) + spec_row_votes(themes, *image, y as int, x as int, k as int));
                }
                let wk = weights[k];
                weights.set(k, wk + w as u128);
                proof {
                    let ghost c2 = image.spec_pixel(
                        x as int + spec_sample_left(h as int, y as int),
                        y as int,
                    );
                    assert(c2 == c);
                    assert forall|j: int| 0 <= j < n implies #[trigger] weights@[j] as int
                        == spec_votes_up_to(themes, *image, y as int, j) + spec_row_votes(
                        themes,
                        *image,
                        y as int,
                        x as int + 1,
                        j,
                    ) by {
                        assert(spec_row_votes(themes, *image, y as int, x as int + 1, j)
                            == spec_row_votes(themes, *image, y as int, x as int, j)
                            + spec_sample_vote(themes, *image, y as int, x as int, j));
                        if j == k {
                            assert(spec_sample_vote(themes, *image, y as int, x as int, j)
                                == spec_vote_weight(d as int));
                        } else {
                            assert(spec_sample_vote(themes, *image, y as int, x as int, j) == 0);
                        }
                    }
                }
                x += 1;
            }
            proof {
                assert forall|j: int| 0 <= j < n implies #[trigger] weights@[j] as int
                    == spec_votes_up_to(themes, *image, y as int + 1, j) by {
                    assert(spec_votes_up_to(themes, *image, y as int + 1, j) == spec_votes_up_to(
                        themes,
                        *image,
                        y as int,
                        j,
                    ) + spec_row_votes(
                        themes,
                        *image,
                        y as int,
                        spec_sample_width(h as int, y as int),
                        j,
                    ));
                }
            }
            y += 1;
        }

        let ghost ws = Seq::new(themes.len(), |j: int| spec_total_votes(themes, *image, j));
        proof {
            assert forall|j: int| 0 <= j < n implies #[trigger] weights@[j] as int == ws[j] by {
                assert(weights@[j] as int == spec_votes_up_to(themes, *image, h as int, j));
            }
        }

        let mut best: usize = 0;
        let mut i: usize = 1;
        proof {
            assert(ws.subrange(0, 1).len() == 1);
            assert(ws.subrange(0, 1)[0] == ws[0]);
        }
        while i < n
            invariant
                1 <= i <= n,
                best < i,
                n == ws.len(),
                weights@.len() == n,
                forall|j: int| 0 <= j < n ==> #[trigger] weights@[j] as int == ws[j],
                best == spec_argmax(ws.subrange(0, i as int)),
            decreases n - i,
        {
            proof {
                let pre = ws.subrange(0, i as int);
                let cur = ws.subrange(0, i + 1);
                lemma_spec_argmax_max(pre);
                assert(cur.drop_last() =~= pre);
                assert(cur.last() == ws[i as int]);
                assert(cur[spec_argmax(pre)] == ws[spec_argmax(pre)]);
            }
            if weights[i] > weights[best] {
                best = i;
            }
            i += 1;
        }
        proof {
            assert(ws.subrange(0, n as int) =~= ws);
            lemma_spec_argmax_max(ws);
        }
        if weights[best] == 0 {
            proof {
                assert forall|j: int| 0 <= j < ws.len() implies #[trigger] ws[j] == 0 by {
                    lemma_votes_up_to_bound(themes, *image, h as int, j);
                    assert(ws[j] <= ws[best as int]);
                }
            }
            None
        } else {
            Some(best)
        }
    }
}

fn theme_entry(
    name: &str,
    p: (u8, u8, u8),
    s: (u8, u8, u8),
    pt: (u32, u32, u32),
    st: (u32, u32, u32),
) -> (t: Theme)
    requires
        pt.0 <= 360000 && pt.1 <= 1000 && pt.2 <= 1000,
        st.0 <= 360000 && st.1 <= 1000 && st.2 <= 1000,
    ensures
        t.wf(),
        t.name@ == name@,
        t.primary == (Rgb { r: p.0, g: p.1, b: p.2 }),
        t.secondary == (Rgb { r: s.0, g: s.1, b: s.2 }),
        t.primary_threshold == (Threshold { hue: pt.0, sat: pt.1, light: pt.2 }),
        t.secondary_threshold == (Threshold { hue: st.0, sat: st.1, light: st.2 }),
{
    Theme {
        name: String::from_str(name),
        primary: Rgb { r: p.0, g: p.1, b: p.2 },
        secondary: Rgb { r: s.0, g: s.1, b: s.2 },
        primary_threshold: Threshold { hue: pt.0, sat: pt.1, light: pt.2 },
        secondary_threshold: Threshold { hue: st.0, sat: st.1, light: st.2 },
    }
}

/// Whether a table entry carries exactly the given name, colors and
/// thresholds.
pub open spec fn spec_theme_is(
    t: Theme,
    name: Seq<char>,
    p: Rgb,
    s: Rgb,
    pt: Threshold,
    st: Threshold,
) -> bool {
    &&& t.name@ == name
    &&& t.primary == p
    &&& t.secondary == s
    &&& t.primary_threshold == pt
    &&& t.secondary_threshold == st
}

/// The exact contents of the built-in theme table, entry by entry.
pub open spec fn spec_default_themes_table(r: Themes) -> bool {
    &&& r.0@.len() == 19
    &&& spec_theme_is(
        r.0@[0],
        "Baruuk"@,
        Rgb { r: 238, g: 193, b: 105 },
        Rgb { r: 236, g: 211, b: 162 },
        Threshold { hue: 4000, sat: 160, light: 50 },
        Threshold { hue: 2000, sat: 160, light: 50 },
    )
    &&& spec_theme_is(
        r.0@[1],
        "Conquera"@,
        Rgb { r: 255, g: 255, b: 255 },
        Rgb { r: 245, g: 227, b: 173 },
        Threshold { hue: 2000, sat: 50, light: 50 },
        Threshold { hue: 16000, sat: 160, light: 75 },
    )
    &&& spec_theme_is(
        r.0@[2],
        "Corpus"@,
        Rgb { r: 35, g: 201, b: 245 },
        Rgb { r: 111, g: 229, b: 253 },
        Threshold { hue: 8000, sat: 125, light: 200 },
        Threshold { hue: 16000, sat: 200, light: 50 },
    )
    &&& spec_theme_is(
        r.0@[3],
        "DarkLotus"@,
        Rgb { r: 140, g: 119, b: 147 },
        Rgb { r: 200, g: 169, b: 237 },
        Threshold { hue: 8000, sat: 50, light: 50 },
        Threshold { hue: 2000, sat: 160, light: 160 },
    )
    &&& spec_theme_is(
        r.0@[4],
        "Deadlock"@,
        Rgb { r: 255, g: 255, b: 255 },
        Rgb { r: 229, g: 212, b: 108 },
        Threshold { hue: 2000, sat: 50, light: 50 },
        Threshold { hue: 8000, sat: 175, light: 75 },
    )
    &&& spec_theme_is(
        r.0@[5],
        "Equinox"@,
        Rgb { r: 158, g: 159, b: 167 },
        Rgb { r: 232, g: 227, b: 227 },
        Threshold { hue: 8000, sat: 250, light: 100 },
        Threshold { hue: 16000, sat: 250, light: 100 },
    )
    &&& spec_theme_is(
        r.0@[6],
        "Fortuna"@,
        Rgb { r: 57, g: 105, b: 192 },
        Rgb { r: 255, g: 115, b: 230 },
        Threshold { hue: 2000, sat: 125, light: 75 },
        Threshold { hue: 8000, sat: 200, light: 100 },
    )
    &&& spec_theme_is(
        r.0@[7],
        "Grineer"@,
        Rgb { r: 255, g: 189, b: 102 },
        Rgb { r: 255, g: 224, b: 153 },
        Threshold { hue: 8000, sat: 150, light: 100 },
        Threshold { hue: 16000, sat: 200, light: 50 },
    )
    &&& spec_theme_is(
        r.0@[8],
        "HighContrast"@,
        Rgb { r: 102, g: 176, b: 255 },
        Rgb { r: 255, g: 255, b: 0 },
        Threshold { hue: 8000, sat: 100, light: 50 },
        Threshold { hue: 2000, sat: 50, light: 50 },
    )
    &&& spec_theme_is(
        r.0@[9],
        "Legacy"@,
        Rgb { r: 255, g: 255, b: 255 },
        Rgb { r: 232, g: 213, b: 93 },
        Threshold { hue: 2000, sat: 50, light: 50 },
        Threshold { hue: 4000, sat: 150, light: 150 },
    )
    &&& spec_theme_is(
        r.0@[10],
        "Lotus"@,
        Rgb { r: 36, g: 184, b: 242 },
        Rgb { r: 255, g: 241, b: 191 },
        Threshold { hue: 4000, sat: 160, light: 100 },
        Threshold { hue: 16000, sat: 150, light: 50 },
    )
    &&& spec_theme_is(
        r.0@[11],
        "LunarRenewal"@,
        Rgb { r: 255, g: 255, b: 255 },
        Rgb { r: 207, g: 176, b: 82 },
        Threshold { hue: 2000, sat: 50, light: 50 },
        Threshold { hue: 4000, sat: 175, light: 75 },
    )
    &&& spec_theme_is(
        r.0@[12],
        "Nidus"@,
        Rgb { r: 140, g: 38, b: 92 },
        Rgb { r: 245, g: 73, b: 93 },
        Threshold { hue: 4000, sat: 250, light: 75 },
        Threshold { hue: 2000, sat: 50, light: 50 },
    )
    &&& spec_theme_is(
        r.0@[13],
        "Orokin"@,
        Rgb { r: 20, g: 41, b: 29 },
        Rgb { r: 178, g: 125, b: 5 },
        Threshold { hue: 8000, sat: 350, light: 100 },
        Threshold { hue: 2000, sat: 150, light: 50 },
    )
    &&& spec_theme_is(
        r.0@[14],
        "Pom2"@,
        Rgb { r: 130, g: 224, b: 151 },
        Rgb { r: 2, g: 200, b: 44 },
        Threshold { hue: 2000, sat: 250, light: 100 },
        Threshold { hue: 2000, sat: 50, light: 50 },
    )
    &&& spec_theme_is(
        r.0@[15],
        "Stalker"@,
        Rgb { r: 153, g: 31, b: 35 },
        Rgb { r: 255, g: 61, b: 51 },
        Threshold { hue: 2000, sat: 50, light: 50 },
        Threshold { hue: 2000, sat: 50, light: 50 },
    )
    &&& spec_theme_is(
        r.0@[16],
        "Tenno"@,
        Rgb { r: 9, g: 78, b: 106 },
        Rgb { r: 6, g: 109, b: 74 },
        Threshold { hue: 2000, sat: 160, light: 160 },
        Threshold { hue: 2000, sat: 160, light: 160 },
    )
    &&& spec_theme_is(
        r.0@[17],
        "Vitruvian"@,
        Rgb { r: 190, g: 169, b: 102 },
        Rgb { r: 245, g: 227, b: 173 },
        Threshold { hue: 4000, sat: 160, light: 80 },
        Threshold { hue: 8000, sat: 280, light: 100 },
    )
    &&& spec_theme_is(
        r.0@[18],
        "ZephyrHarrier"@,
        Rgb { r: 253, g: 132, b: 2 },
        Rgb { r: 255, g: 53, b: 0 },
        Threshold { hue: 4000, sat: 50, light: 50 },
        Threshold { hue: 2000, sat: 50, light: 50 },
    )
}

/// The built-in table of the game's UI color schemes, ordered by name. Hue
/// thresholds are in milli-degrees, the rest in milli-units.
pub fn default_themes() -> (r: Themes)
    ensures
        r.wf(),
        spec_default_themes_table(r),
{
    let mut v: Vec<Theme> = Vec::new();
    v.push(theme_entry("Baruuk", (238, 193, 105), (236, 211, 162), (4000, 160, 50), (2000, 160, 50)));
    v.push(theme_entry("Conquera", (255, 255, 255), (245, 227, 173), (2000, 50, 50), (16000, 160, 75)));
    v.push(theme_entry("Corpus", (35, 201, 245), (111, 229, 253), (8000, 125, 200), (16000, 200, 50)));
    v.push(theme_entry("DarkLotus", (140, 119, 147), (200, 169, 237), (8000, 50, 50), (2000, 160, 160)));
    v.push(theme_entry("Deadlock", (255, 255, 255), (229, 212, 108), (2000, 50, 50), (8000, 175, 75)));
    v.push(theme_entry("Equinox", (158, 159, 167), (232, 227, 227), (8000, 250, 100), (16000, 250, 100)));
    v.push(theme_entry("Fortuna", (57, 105, 192), (255, 115, 230), (2000, 125, 75), (8000, 200, 100)));
    v.push(theme_entry("Grineer", (255, 189, 102), (255, 224, 153), (8000, 150, 100), (16000, 200, 50)));
    v.push(theme_entry("HighContrast", (102, 176, 255), (255, 255, 0), (8000, 100, 50), (2000, 50, 50)));
    v.push(theme_entry("Legacy", (255, 255, 255), (232, 213, 93), (2000, 50, 50), (4000, 150, 150)));
    v.push(theme_entry("Lotus", (36, 184, 242), (255, 241, 191), (4000, 160, 100), (16000, 150, 50)));
    v.push(theme_entry("LunarRenewal", (255, 255, 255), (207, 176, 82), (2000, 50, 50), (4000, 175, 75)));
    v.push(theme_entry("Nidus", (140, 38, 92), (245, 73, 93), (4000, 250, 75), (2000, 50, 50)));
    v.push(theme_entry("Orokin", (20, 41, 29), (178, 125, 5), (8000, 350, 100), (2000, 150, 50)));
    v.push(theme_entry("Pom2", (130, 224, 151), (2, 200, 44), (2000, 250, 100), (2000, 50, 50)));
    v.push(theme_entry("Stalker", (153, 31, 35), (255, 61, 51), (2000, 50, 50), (2000, 50, 50)));
    v.push(theme_entry("Tenno", (9, 78, 106), (6, 109, 74), (2000, 160, 160), (2000, 160, 160)));
    v.push(theme_entry("Vitruvian", (190, 169, 102), (245, 227, 173), (4000, 160, 80), (8000, 280, 100)));
    v.push(theme_entry("ZephyrHarrier", (253, 132, 2), (255, 53, 0), (4000, 50, 50), (2000, 50, 50)));
    Themes(v)
}

/// The built-in themes by name, in catalog order.
#[derive(Debug, Clone, Copy, PartialEq, Eq, Structural)]
pub enum DefaultThemes {
    Baruuk,
    Conquera,
    Corpus,
    DarkLotus,
    Deadlock,
    Equinox,
    Fortuna,
    Grineer,
    HighContrast,
    Legacy,
    Lotus,
    LunarRenewal,
    Nidus,
    Orokin,
    Pom2,
    Stalker,
    Tenno,
    Vitruvian,
    ZephyrHarrier,
}

impl DefaultThemes {
    /// This theme's position in the built-in table.
    pub fn index(self) -> (i: usize)
        ensures
            i < 19,
            i == self.spec_index(),
    {
        match self {
            DefaultThemes::Baruuk => 0,
            DefaultThemes::Conquera => 1,
            DefaultThemes::Corpus => 2,
            DefaultThemes::DarkLotus => 3,
            DefaultThemes::Deadlock => 4,
            DefaultThemes::Equinox => 5,
            DefaultThemes::Fortuna => 6,
            DefaultThemes::Grineer => 7,
            DefaultThemes::HighContrast => 8,
            DefaultThemes::Legacy => 9,
            DefaultThemes::Lotus => 10,
            DefaultThemes::LunarRenewal => 11,
            DefaultThemes::Nidus => 12,
            DefaultThemes::Orokin => 13,
            DefaultThemes::Pom2 => 14,
            DefaultThemes::Stalker => 15,
            DefaultThemes::Tenno => 16,
            DefaultThemes::Vitruvian => 17,
            DefaultThemes::ZephyrHarrier => 18,
        }
    }

    /// The position, as the contracts see it.
    pub open spec fn spec_index(self) -> int {
        match self {
            DefaultThemes::Baruuk => 0,
            DefaultThemes::Conquera => 1,
            DefaultThemes::Corpus => 2,
            DefaultThemes::DarkLotus => 3,
            DefaultThemes::Deadlock => 4,
            DefaultThemes::Equinox => 5,
            DefaultThemes::Fortuna => 6,
            DefaultThemes::Grineer => 7,
            DefaultThemes::HighContrast => 8,
            DefaultThemes::Legacy => 9,
            DefaultThemes::Lotus => 10,
            DefaultThemes::LunarRenewal => 11,
            DefaultThemes::Nidus => 12,
            DefaultThemes::Orokin => 13,
            DefaultThemes::Pom2 => 14,
            DefaultThemes::Stalker => 15,
            DefaultThemes::Tenno => 16,
            DefaultThemes::Vitruvian => 17,
            DefaultThemes::ZephyrHarrier => 18,
        }
    }
}

/// A sampled column stays inside the strip.
proof fn lemma_sample_in_range(h: int, y: int, x: int)
    requires
        h >= 1,
        spec_scan_top(h) <= y < h,
        0 <= x < spec_sample_width(h, y),
    ensures
        0 <= x + spec_sample_left(h, y) < spec_most_width(h),
        spec_most_width(h) <= h,
{
    lemma_sample_width_bound(h, y);
    let mw = spec_most_width(h);
    let tw = spec_sample_width(h, y);
    let left = spec_sample_left(h, y);
    lemma_div_is_ordered(0, mw - tw, 2);
    vstd::arithmetic::div_mod::lemma_fundamental_div_mod(mw - tw, 2);
    vstd::arithmetic::div_mod::lemma_mod_bound(mw - tw, 2);
    assert(left <= mw - tw);
    crate::color::lemma_mul_div_le(960, 1080, h);
    assert(960 * h == h * 960) by (nonlinear_arith);
}

/// On an image whose every pixel sits at channel distance at least 100 from
/// every theme's primary color, one row casts no votes at all.
proof fn lemma_far_row(themes: Seq<Theme>, img: Image, y: int, xn: int)
    requires
        themes.len() > 0,
        img.height >= 1,
        img.width >= img.height,
        forall|x: int, yy: int, j: int|
            #![trigger themes[j], img.spec_pixel(x, yy)]
            0 <= x < img.width && 0 <= yy < img.height && 0 <= j < themes.len()
                ==> spec_color_difference(themes[j].primary, img.spec_pixel(x, yy)) >= 100,
        spec_scan_top(img.height as int) <= y < img.height,
        0 <= xn <= spec_sample_width(img.height as int, y),
    ensures
        forall|j: int| #[trigger] spec_row_votes(themes, img, y, xn, j) == 0,
    decreases xn,
{
    if xn > 0 {
        lemma_far_row(themes, img, y, xn - 1);
        lemma_sample_in_range(img.height as int, y, xn - 1);
        let col = xn - 1 + spec_sample_left(img.height as int, y);
        let c = img.spec_pixel(col, y);
        lemma_spec_closest_min(themes, c);
        let k = spec_closest(themes, c);
        assert(spec_color_difference(themes[k].primary, c) >= 100);
        lemma_color_difference_range(themes[k].primary, c);
        lemma_vote_weight_range(spec_color_difference(themes[k].primary, c));
        assert forall|j: int| #[trigger] spec_row_votes(themes, img, y, xn, j) == 0 by {
            assert(spec_sample_vote(themes, img, y, xn - 1, j) == 0);
            assert(spec_row_votes(themes, img, y, xn, j) == spec_row_votes(
                themes,
                img,
                y,
                xn - 1,
                j,
            ) + spec_sample_vote(themes, img, y, xn - 1, j));
        }
    }
}

/// On such an image, the rows up to any point cast no votes.
proof fn lemma_far_votes(themes: Seq<Theme>, img: Image, yn: int)
    requires
        themes.len() > 0,
        img.height >= 1,
        img.width >= img.height,
        forall|x: int, yy: int, j: int|
            #![trigger themes[j], img.spec_pixel(x, yy)]
            0 <= x < img.width && 0 <= yy < img.height && 0 <= j < themes.len()
                ==> spec_color_difference(themes[j].primary, img.spec_pixel(x, yy)) >= 100,
        spec_scan_top(img.height as int) <= yn <= img.height,
    ensures
        forall|j: int| #[trigger] spec_votes_up_to(themes, img, yn, j) == 0,
    decreases yn,
{
    if yn > spec_scan_top(img.height as int) {
        lemma_far_votes(themes, img, yn - 1);
        lemma_sample_width_bound(img.height as int, yn - 1);
        lemma_far_row(themes, img, yn - 1, spec_sample_width(img.height as int, yn - 1));
        assert forall|j: int| #[trigger] spec_votes_up_to(themes, img, yn, j) == 0 by {
            assert(spec_votes_up_to(themes, img, yn, j) == spec_votes_up_to(
                themes,
                img,
                yn - 1,
                j,
            ) + spec_row_votes(
                themes,
                img,
                yn - 1,
                spec_sample_width(img.height as int, yn - 1),
                j,
            ));
        }
    }
}

/// No pixel close to any catalog theme means no winner: the vote returns
/// nothing when every pixel's channel distance to every theme's primary
/// color is at least 100, the distance beyond which a sample's weight
/// truncates to nothing.
pub proof fn lemma_far_image_detects_nothing(themes: Seq<Theme>, img: Image)
    requires
        themes.len() > 0,
        img.height >= 1,
        img.width >= img.height,
        forall|x: int, yy: int, j: int|
            #![trigger themes[j], img.spec_pixel(x, yy)]
            0 <= x < img.width && 0 <= yy < img.height && 0 <= j < themes.len()
                ==> spec_color_difference(themes[j].primary, img.spec_pixel(x, yy)) >= 100,
    ensures
        spec_detect(themes, img) is None,
{
    lemma_scan_top_below(img.height as int);
    lemma_far_votes(themes, img, img.height as int);
    let ws = Seq::new(themes.len(), |j: int| spec_total_votes(themes, img, j));
    assert(forall|j: int| 0 <= j < ws.len() ==> #[trigger] ws[j] == 0);
}

/// The scan top sits inside a nonempty image.
proof fn lemma_scan_top_below(h: int)
    requires
        h >= 1,
    ensures
        0 <= spec_scan_top(h) <= h,
{
    crate::color::lemma_mul_div_le(24, 1080, h);
    assert(24 * h == h * 24) by (nonlinear_arith);
    lemma_div_is_ordered(0, 24 * h, 1080);
    assert(24 * h >= 0) by (nonlinear_arith)
        requires
            h >= 0,
    ;
}

/// On a uniform image, a row's votes all go to the closest theme, each
/// sample carrying that one weight.
proof fn lemma_uniform_row(themes: Seq<Theme>, img: Image, c: Rgb, y: int, xn: int)
    requires
        themes.len() > 0,
        img.height >= 1,
        img.width >= img.height,
        forall|x: int, yy: int|
            0 <= x < img.width && 0 <= yy < img.height ==> #[trigger] img.spec_pixel(x, yy) == c,
        spec_scan_top(img.height as int) <= y < img.height,
        0 <= xn <= spec_sample_width(img.height as int, y),
    ensures
        forall|j: int|
            j != spec_closest(themes, c) ==> #[trigger] spec_row_votes(themes, img, y, xn, j)
                == 0,
        spec_row_votes(themes, img, y, xn, spec_closest(themes, c)) == xn * spec_vote_weight(
            spec_color_difference(themes[spec_closest(themes, c)].primary, c),
        ),
    decreases xn,
{
    let k = spec_closest(themes, c);
    let wv = spec_vote_weight(spec_color_difference(themes[k].primary, c));
    if xn == 0 {
        assert(0int * wv == 0) by (nonlinear_arith);
    } else {
        lemma_uniform_row(themes, img, c, y, xn - 1);
        lemma_sample_in_range(img.height as int, y, xn - 1);
        let col = xn - 1 + spec_sample_left(img.height as int, y);
        assert(img.spec_pixel(col, y) == c);
        assert(spec_sample_vote(themes, img, y, xn - 1, k) == wv);
        assert((xn - 1) * wv + wv == xn * wv) by (nonlinear_arith);
        assert forall|j: int|
            j != spec_closest(themes, c) implies #[trigger] spec_row_votes(
            themes,
            img,
            y,
            xn,
            j,
        ) == 0 by {
            assert(spec_sample_vote(themes, img, y, xn - 1, j) == 0);
            assert(spec_row_votes(themes, img, y, xn, j) == spec_row_votes(
                themes,
                img,
                y,
                xn - 1,
                j,
            ) + spec_sample_vote(themes, img, y, xn - 1, j));
        }
    }
}

/// On a uniform image, the accumulated votes stay with the closest theme
/// alone, and grow with every sampled row.
proof fn lemma_uniform_votes(themes: Seq<Theme>, img: Image, c: Rgb, yn: int)
    requires
        themes.len() > 0,
        img.height >= 1,
        img.width >= img.height,
        forall|x: int, yy: int|
            0 <= x < img.width && 0 <= yy < img.height ==> #[trigger] img.spec_pixel(x, yy) == c,
        spec_scan_top(img.height as int) <= yn <= img.height,
        spec_min_width(img.height as int) >= 1,
    ensures
        forall|j: int|
            j != spec_closest(themes, c) ==> #[trigger] spec_votes_up_to(themes, img, yn, j)
                == 0,
        spec_votes_up_to(themes, img, yn, spec_closest(themes, c)) >= (yn - spec_scan_top(
            img.height as int,
        )) * spec_vote_weight(
            spec_color_difference(themes[spec_closest(themes, c)].primary, c),
        ),
    decreases yn,
{
    let h = img.height as int;
    let top = spec_scan_top(h);
    let k = spec_closest(themes, c);
    let wv = spec_vote_weight(spec_color_difference(themes[k].primary, c));
    lemma_spec_closest_min(themes, c);
    lemma_color_difference_range(themes[k].primary, c);
    lemma_vote_weight_range(spec_color_difference(themes[k].primary, c));
    if yn <= top {
        assert((yn - top) * wv <= 0) by (nonlinear_arith)
            requires
                yn <= top,
                wv >= 0,
        ;
    } else {
        lemma_uniform_votes(themes, img, c, yn - 1);
        let tw = spec_sample_width(h, yn - 1);
        lemma_sample_width_bound(h, yn - 1);
        lemma_uniform_row(themes, img, c, yn - 1, tw);
        assert(tw >= spec_min_width(h)) by {
            let minw = spec_min_width(h);
            let grow = minw * (yn - 1 - top) / (h - top);
            assert(minw * (yn - 1 - top) >= 0) by (nonlinear_arith)
                requires
                    minw >= 0,
                    yn - 1 >= top,
            ;
            lemma_div_is_ordered(0, minw * (yn - 1 - top), h - top);
        }
        assert(tw * wv >= 1 * wv) by (nonlinear_arith)
            requires
                tw >= 1,
                wv >= 0,
        ;
        assert((yn - 1 - top) * wv + wv == (yn - top) * wv) by (nonlinear_arith);
        assert forall|j: int|
            j != spec_closest(themes, c) implies #[trigger] spec_votes_up_to(
            themes,
            img,
            yn,
            j,
        ) == 0 by {
            assert(spec_row_votes(themes, img, yn - 1, tw, j) == 0);
            assert(spec_votes_up_to(themes, img, yn, j) == spec_votes_up_to(
                themes,
                img,
                yn - 1,
                j,
            ) + spec_row_votes(themes, img, yn - 1, tw, j));
        }
        assert(spec_votes_up_to(themes, img, yn, k) == spec_votes_up_to(themes, img, yn - 1, k)
            + spec_row_votes(themes, img, yn - 1, tw, k));
    }
}

/// A synthetic image uniformly filled with a color close to the catalog
/// returns the first theme whose primary color is closest to that color: in
/// particular, an image filled with a theme's exact primary color returns
/// the first theme carrying that primary.
pub proof fn lemma_uniform_image_detects_closest(themes: Seq<Theme>, img: Image, c: Rgb)
    requires
        themes.len() > 0,
        img.height >= 1,
        img.width >= img.height,
        forall|x: int, yy: int|
            0 <= x < img.width && 0 <= yy < img.height ==> #[trigger] img.spec_pixel(x, yy) == c,
        spec_color_difference(themes[spec_closest(themes, c)].primary, c) < 100,
        spec_min_width(img.height as int) >= 1,
        spec_scan_top(img.height as int) < img.height,
    ensures
        spec_detect(themes, img) == Some(spec_closest(themes, c)),
{
    let h = img.height as int;
    let top = spec_scan_top(h);
    let k = spec_closest(themes, c);
    let wv = spec_vote_weight(spec_color_difference(themes[k].primary, c));
    lemma_spec_closest_min(themes, c);
    lemma_color_difference_range(themes[k].primary, c);
    lemma_vote_weight_range(spec_color_difference(themes[k].primary, c));
    lemma_scan_top_below(h);
    lemma_uniform_votes(themes, img, c, h);
    assert((h - top) * wv >= 1 * wv) by (nonlinear_arith)
        requires
            h - top >= 1,
            wv >= 0,
    ;
    let ws = Seq::new(themes.len(), |j: int| spec_total_votes(themes, img, j));
    assert(ws[k] >= wv > 0);
    lemma_spec_argmax_max(ws);
    let m = spec_argmax(ws);
    assert(ws[m] >= ws[k]);
    assert(m == k);
    assert(!(forall|j: int| 0 <= j < ws.len() ==> #[trigger] ws[j] == 0)) by {
        assert(ws[k] != 0);
    }
}

/// Channel distances stay between 0 and 765.
pub proof fn lemma_color_difference_range(a: Rgb, b: Rgb)
    ensures
        0 <= spec_color_difference(a, b) <= 765,
{
}

/// One sample's vote is between zero and the full weight.
pub proof fn lemma_sample_vote_bound(themes: Seq<Theme>, img: Image, y: int, x: int, j: int)
    requires
        themes.len() > 0,
    ensures
        0 <= spec_sample_vote(themes, img, y, x, j) <= 100000000,
{
    let c = img.spec_pixel(x + spec_sample_left(img.height as int, y), y);
    lemma_spec_closest_min(themes, c);
    lemma_color_difference_range(themes[spec_closest(themes, c)].primary, c);
    lemma_vote_weight_range(spec_color_difference(themes[spec_closest(themes, c)].primary, c));
}

/// A row's votes are between zero and its sample count times the full
/// weight.
pub proof fn lemma_row_votes_bound(themes: Seq<Theme>, img: Image, y: int, xn: int, j: int)
    requires
        themes.len() > 0,
        xn >= 0,
    ensures
        0 <= spec_row_votes(themes, img, y, xn, j) <= xn * 100000000,
    decreases xn,
{
    if xn > 0 {
        lemma_row_votes_bound(themes, img, y, xn - 1, j);
        lemma_sample_vote_bound(themes, img, y, xn - 1, j);
    }
}

/// A row never samples more than the strip's width.
pub proof fn lemma_sample_width_bound(h: int, y: int)
    requires
        spec_scan_top(h) <= y < h,
    ensures
        0 <= spec_sample_width(h, y) <= spec_most_width(h),
{
    let top = spec_scan_top(h);
    let mw = spec_most_width(h);
    let minw = spec_min_width(h);
    assert(mw >= 0) by {
        lemma_div_is_ordered(0, 960 * h, 1080);
        assert(960 * h >= 0) by (nonlinear_arith)
            requires
                h > 0,
        ;
    }
    assert(minw >= 0) by {
        lemma_div_is_ordered(0, mw, 4);
    }
    crate::color::lemma_mul_div_le(y - top, h - top, minw);
    assert(minw * (y - top) == (y - top) * minw) by (nonlinear_arith);
    assert(minw * (y - top) / (h - top) >= 0) by {
        assert(minw * (y - top) >= 0) by (nonlinear_arith)
            requires
                minw >= 0,
                y - top >= 0,
        ;
        lemma_div_is_ordered(0, minw * (y - top), h - top);
    }
    assert(2 * minw <= mw) by {
        vstd::arithmetic::div_mod::lemma_fundamental_div_mod(mw, 4);
        vstd::arithmetic::div_mod::lemma_mod_bound(mw, 4);
    }
}

/// Accumulated votes up to a row stay between zero and the scanned sample
/// count times the full weight.
pub proof fn lemma_votes_up_to_bound(themes: Seq<Theme>, img: Image, yn: int, j: int)
    requires
        themes.len() > 0,
        spec_scan_top(img.height as int) <= yn <= img.height,
    ensures
        0 <= spec_votes_up_to(themes, img, yn, j) <= (yn - spec_scan_top(img.height as int))
            * spec_most_width(img.height as int) * 100000000,
    decreases yn - spec_scan_top(img.height as int),
{
    let h = img.height as int;
    let top = spec_scan_top(h);
    let mw = spec_most_width(h);
    if yn <= top {
        assert(spec_votes_up_to(themes, img, yn, j) == 0);
        assert((yn - top) * mw * 100000000 == 0) by (nonlinear_arith)
            requires
                yn == top,
        ;
    } else {
        lemma_votes_up_to_bound(themes, img, yn - 1, j);
        let tw = spec_sample_width(h, yn - 1);
        lemma_sample_width_bound(h, yn - 1);
        lemma_row_votes_bound(themes, img, yn - 1, tw, j);
        assert(tw * 100000000 <= mw * 100000000) by (nonlinear_arith)
            requires
                tw <= mw,
        ;
        assert((yn - 1 - top) * mw * 100000000 + mw * 100000000 == (yn - top) * mw * 100000000)
            by (nonlinear_arith);
    }
}

} // verus!
