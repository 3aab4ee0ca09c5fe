//! Reference-resolution constants for the reward strip's geometry, the
//! resolution scale factor, the alternating separator splitter, and a small
//! verified string-equality helper.

use vstd::prelude::*;

use crate::raster::Image;
use crate::Error;

verus! {

/// The reference capture height every pixel constant is based on.
pub const PIXEL_BASE_RESOLUTION: u32 = 1080;

/// Width of the reward strip at the reference resolution.
pub const PIXEL_REWARD_WIDTH: u32 = 960;

/// Width of a single reward box at the reference resolution.
pub const PIXEL_SINGLE_REWARD_WIDTH: u32 = 960 / 4;

/// Height of the reward box at the reference resolution.
pub const PIXEL_REWARD_HEIGHT: u32 = 240;

/// Vertical offset of the reward box at the reference resolution.
pub const PIXEL_REWARD_Y: u32 = 220;

/// Height of the item-name text line at the reference resolution.
pub const PIXEL_REWARD_LINE_HEIGHT: u32 = 48;

/// Default top margin for the on-screen overlay at the reference resolution.
pub const PIXEL_MARGIN_TOP: u32 = 220 + 240 * 5 / 3;

/// A length at the reference resolution, scaled to a capture of the given
/// height by the ratio `height / 1080`, rounded down.
pub open spec fn spec_scaled(base: int, height: int) -> int {
    base * height / 1080
}

/// The scale factor of a capture relative to the reference resolution, held
/// as the capture's height.
#[derive(Debug, Clone, Copy, PartialEq, Eq, Structural)]
pub struct Scale {
    pub height: u32,
}

impl Scale {
    /// Scales a reference length to this capture.
    pub fn scaled(&self, base: u32) -> (r: u32)
        requires
            base <= 1080,
        ensures
            r == spec_scaled(base as int, self.height as int),
            r <= self.height,
    {
        proof {
            crate::color::lemma_mul_div_le(base as int, 1080, self.height as int);
            assert((base as int) * (self.height as int) == (self.height as int) * (base as int))
                by (nonlinear_arith);
        }
        ((base as u64) * (self.height as u64) / 1080) as u32
    }
}

/// The scale of a capture: its height against the reference height. A
/// portrait-oriented capture is rejected, as the strip geometry assumes
/// landscape.
pub fn get_scale(image: &Image) -> (r: Result<Scale, Error>)
    ensures
        image.width >= image.height ==> r == Ok::<Scale, Error>(Scale { height: image.height }),
        image.width < image.height ==> r == Err::<Scale, Error>(
            Error::InvalidSize(image.width, image.height),
        ),
{
    if image.width >= image.height {
        Ok(Scale { height: image.height })
    } else {
        Err(Error::InvalidSize(image.width, image.height))
    }
}

/// What one step of the alternating splitter yields and leaves behind: the
/// produced piece, then the remaining text, the separator-inclusion flag,
/// and the exhaustion flag. Pieces of text before each separator come out in
/// turn; every other separator itself is included; empty pieces are skipped.
pub open spec fn spec_seo_step(
    s: Seq<char>,
    pat: Seq<char>,
    keep_sep: bool,
    done: bool,
) -> (Option<Seq<char>>, (Seq<char>, bool, bool))
    decreases s.len(),
    via spec_seo_step_decreases
{
    if done || s.len() == 0 {
        (None, (s, keep_sep, done))
    } else {
        match crate::text::spec_find_from(s, pat, 0) {
            None => (Some(s), (s, keep_sep, true)),
            Some(i) => {
                let value = s.subrange(0, i);
                let rest = s.skip(i + pat.len());
                if keep_sep {
                    (Some(pat), (rest, false, done))
                } else {
                    let keep2 = crate::text::spec_starts_with(rest, pat);
                    if value.len() == 0 {
                        spec_seo_step(rest, pat, keep2, done)
                    } else {
                        (Some(value), (rest, keep2, done))
                    }
                }
            },
        }
    }
}

#[via_fn]
proof fn spec_seo_step_decreases(s: Seq<char>, pat: Seq<char>, keep_sep: bool, done: bool) {
    if !done && s.len() != 0 {
        crate::text::lemma_find_from_range(s, pat, 0);
    }
}

/// Splits a string at a separator, yielding the pieces between separators
/// and every other separator itself, skipping empty pieces.
#[derive(Debug, Clone)]
pub struct SplitEveryOtherIter<'a> {
    pub s: &'a str,
    pub pat: &'a str,
    pub keep_sep: bool,
    pub done: bool,
}

impl<'a> SplitEveryOtherIter<'a> {
    /// A fresh splitter over `s` with separator `pat`.
    pub fn new(s: &'a str, pat: &'a str) -> (r: SplitEveryOtherIter<'a>)
        ensures
            r.s@ == s@,
            r.pat@ == pat@,
            !r.keep_sep,
            !r.done,
    {
        SplitEveryOtherIter { s, pat, keep_sep: false, done: false }
    }

    /// The next piece, or nothing once the text is exhausted.
    pub fn next(&mut self) -> (r: Option<&'a str>)
        requires
            old(self).pat@.len() > 0,
        ensures
            ({
                let step = spec_seo_step(
                    old(self).s@,
                    old(self).pat@,
                    old(self).keep_sep,
                    old(self).done,
                );
                &&& (match r {
                    Some(t) => step.0 == Some(t@),
                    None => step.0 is None,
                })
                &&& final(self).s@ == step.1.0
                &&& final(self).keep_sep == step.1.1
                &&& final(self).done == step.1.2
                &&& final(self).pat@ == old(self).pat@
            }),
    {
        loop
            invariant
                self.pat@.len() > 0,
                self.pat@ == old(self).pat@,
                spec_seo_step(old(self).s@, old(self).pat@, old(self).keep_sep, old(self).done)
                    == spec_seo_step(self.s@, self.pat@, self.keep_sep, self.done),
            decreases self.s@.len() + 1,
        {
            if self.done || self.s.unicode_len() == 0 {
                return None;
            }
            let slen = self.s.unicode_len();
            let plen = self.pat.unicode_len();
            match crate::text::find_str(self.s, self.pat) {
                None => {
                    self.done = true;
                    return Some(self.s);
                },
                Some(i) => {
                    proof {
                        crate::text::lemma_find_from_range(self.s@, self.pat@, 0);
                    }
                    let value = self.s.substring_char(0, i);
                    let rest = self.s.substring_char(i + plen, slen);
                    proof {
                        assert(rest@ =~= self.s@.skip(i + self.pat@.len()));
                    }
                    if self.keep_sep {
                        self.keep_sep = false;
                        self.s = rest;
                        return Some(self.pat);
                    } else {
                        if crate::text::starts_with(rest, self.pat) {
                            self.keep_sep = true;
                        }
                        self.s = rest;
                        if value.unicode_len() != 0 {
                            return Some(value);
                        }
                    }
                },
            }
        }
    }
}

/// Character-for-character equality of two string slices.
pub fn str_eq(a: &str, b: &str) -> (r: bool)
    ensures
        r == (a@ == b@),
{
    let la = a.unicode_len();
    let lb = b.unicode_len();
    if la != lb {
        return false;
    }
    let mut i: usize = 0;
    while i < la
        invariant
            i <= la,
            la == a@.len(),
            la == b@.len(),
            forall|j: int| 0 <= j < i ==> a@[j] == b@[j],
        decreases la - i,
    {
        if a.get_char(i) != b.get_char(i) {
            return false;
        }
        i += 1;
    }
    proof {
        assert(a@ =~= b@);
    }
    true
}

} // verus!
