//! Active-window geometry: the window rectangle a capture is cropped to,
//! the methods that can supply it, and the verified parsing of a
//! user-supplied geometry command's output. Running the desktop-specific
//! commands is outside work; this module makes every decision over their
//! results.

use vstd::prelude::*;

use crate::text::{spec_trim, trim};

verus! {

/// An active-window rectangle as a compositor reports it: position, then
/// size.
#[derive(Debug, Clone, Copy)]
pub struct HyprWindow {
    pub at: [u32; 2],
    pub size: [u32; 2],
}

/// A window rectangle.
#[derive(Debug, Clone, Copy, PartialEq, Eq, Structural)]
pub struct Geometry {
    pub x: u32,
    pub y: u32,
    pub width: u32,
    pub height: u32,
}

impl Geometry {
    /// The rectangle as an array: position, then size.
    pub fn to_array(self) -> (r: [u32; 4])
        ensures
            r[0] == self.x,
            r[1] == self.y,
            r[2] == self.width,
            r[3] == self.height,
    {
        [self.x, self.y, self.width, self.height]
    }

    /// A rectangle from a reported window.
    pub fn from_window(w: HyprWindow) -> (r: Geometry)
        ensures
            r.x == w.at[0],
            r.y == w.at[1],
            r.width == w.size[0],
            r.height == w.size[1],
    {
        Geometry { x: w.at[0], y: w.at[1], width: w.size[0], height: w.size[1] }
    }
}

/// Why a geometry could not be determined.
#[derive(Debug, Clone, Copy, PartialEq, Eq, Structural)]
pub enum GeometryError {
    /// The desktop is recognized but not supported.
    Unsupported,
    /// The desktop could not be recognized.
    UnknownDesktop,
    /// The external lookup did not produce a usable result.
    LookupFailed,
    /// A geometry command's output was not four comma-separated numbers.
    InvalidOutput,
}

/// How the active window's rectangle is found.
#[derive(Debug, Clone)]
pub enum GeometryMethod {
    Hyprland,
    Sway,
    Kde,
    Gnome,
    Unknown,
    Auto,
    Static(Geometry),
    /// The command must output four comma-separated numbers: x, y, width,
    /// height.
    Command(String),
}

/// What a method resolves to, given the detected desktop's method, the
/// window the compositor reported, and the parsed output of a user command.
pub open spec fn spec_resolve_geometry(
    m: GeometryMethod,
    detected: GeometryMethod,
    window: Option<HyprWindow>,
    custom: Option<Geometry>,
) -> Result<Geometry, GeometryError> {
    match m {
        GeometryMethod::Auto => spec_resolve_base(detected, window, custom),
        _ => spec_resolve_base(m, window, custom),
    }
}

/// Resolution of a non-automatic method.
pub open spec fn spec_resolve_base(
    m: GeometryMethod,
    window: Option<HyprWindow>,
    custom: Option<Geometry>,
) -> Result<Geometry, GeometryError> {
    match m {
        GeometryMethod::Hyprland => match window {
            Some(w) => Ok(
                Geometry { x: w.at[0], y: w.at[1], width: w.size[0], height: w.size[1] },
            ),
            None => Err(GeometryError::LookupFailed),
        },
        GeometryMethod::Sway => Err(GeometryError::Unsupported),
        GeometryMethod::Kde => Err(GeometryError::Unsupported),
        GeometryMethod::Gnome => Err(GeometryError::Unsupported),
        GeometryMethod::Static(g) => Ok(g),
        GeometryMethod::Command(_) => match custom {
            Some(g) => Ok(g),
            None => Err(GeometryError::LookupFailed),
        },
        _ => Err(GeometryError::UnknownDesktop),
    }
}

impl GeometryMethod {
    /// Only methods that need no desktop support beyond a single command are
    /// usable.
    pub fn check_unsupported(&self) -> (r: Result<(), GeometryError>)
        ensures
            r is Ok <==> (*self matches GeometryMethod::Hyprland || *self
                matches GeometryMethod::Command(_) || *self matches GeometryMethod::Static(_)),
            r is Err ==> r == Err::<(), GeometryError>(GeometryError::Unsupported),
    {
        match self {
            GeometryMethod::Hyprland => Ok(()),
            GeometryMethod::Command(_) => Ok(()),
            GeometryMethod::Static(_) => Ok(()),
            _ => Err(GeometryError::Unsupported),
        }
    }

    /// Decides the active window's rectangle. The outside lookups come in as
    /// arguments: the desktop detected from the environment, the window the
    /// compositor reported, and the parsed output of a user-supplied
    /// command; the surrounding program performs those lookups.
    pub fn get_active_window_geometry(
        self,
        detected: &GeometryMethod,
        window: Option<HyprWindow>,
        custom: Option<Geometry>,
    ) -> (r: Result<Geometry, GeometryError>)
        ensures
            r == spec_resolve_geometry(self, *detected, window, custom),
    {
        let base = match self {
            GeometryMethod::Auto => detected.shallow_copy(),
            other => other,
        };
        match base {
            GeometryMethod::Hyprland => match window {
                Some(w) => Ok(Geometry::from_window(w)),
                None => Err(GeometryError::LookupFailed),
            },
            GeometryMethod::Sway => Err(GeometryError::Unsupported),
            GeometryMethod::Kde => Err(GeometryError::Unsupported),
            GeometryMethod::Gnome => Err(GeometryError::Unsupported),
            GeometryMethod::Static(g) => Ok(g),
            GeometryMethod::Command(_) => match custom {
                Some(g) => Ok(g),
                None => Err(GeometryError::LookupFailed),
            },
            _ => Err(GeometryError::UnknownDesktop),
        }
    }

    /// A structural copy of the method.
    pub fn shallow_copy(&self) -> (r: GeometryMethod)
        ensures
            r == *self,
    {
        match self {
            GeometryMethod::Hyprland => GeometryMethod::Hyprland,
            GeometryMethod::Sway => GeometryMethod::Sway,
            GeometryMethod::Kde => GeometryMethod::Kde,
            GeometryMethod::Gnome => GeometryMethod::Gnome,
            GeometryMethod::Unknown => GeometryMethod::Unknown,
            GeometryMethod::Auto => GeometryMethod::Auto,
            GeometryMethod::Static(g) => GeometryMethod::Static(*g),
            GeometryMethod::Command(c) => GeometryMethod::Command(c.clone()),
        }
    }
}

/// The decimal value a digit string denotes; digits only.
pub open spec fn spec_dec_val(s: Seq<char>) -> int
    decreases s.len(),
{
    if s.len() == 0 {
        0
    } else {
        spec_dec_val(s.drop_last()) * 10 + (s.last() as int - '0' as int)
    }
}

/// Whether every character is a decimal digit.
pub open spec fn spec_all_digits(s: Seq<char>) -> bool {
    forall|i: int| 0 <= i < s.len() ==> '0' <= #[trigger] s[i] <= '9'
}

/// Digit strings denote nonnegative values that only grow with more digits.
proof fn lemma_dec_val_grows(s: Seq<char>, i: int)
    requires
        spec_all_digits(s),
        0 <= i <= s.len(),
    ensures
        spec_dec_val(s) >= spec_dec_val(s.subrange(0, i)) >= 0,
    decreases s.len() - i,
{
    if i == s.len() {
        assert(s.subrange(0, i) =~= s);
        lemma_dec_val_nonneg(s);
    } else {
        lemma_dec_val_grows(s, i + 1);
        let pre = s.subrange(0, i);
        let ext = s.subrange(0, i + 1);
        assert(ext.drop_last() =~= pre);
        lemma_dec_val_nonneg(pre);
        assert(spec_dec_val(ext) == spec_dec_val(pre) * 10 + (s[i] as int - '0' as int));
        assert(spec_dec_val(pre) * 10 >= spec_dec_val(pre)) by (nonlinear_arith)
            requires
                spec_dec_val(pre) >= 0,
        ;
    }
}

proof fn lemma_dec_val_nonneg(s: Seq<char>)
    requires
        spec_all_digits(s),
    ensures
        spec_dec_val(s) >= 0,
    decreases s.len(),
{
    if s.len() > 0 {
        assert(spec_all_digits(s.drop_last())) by {
            assert(forall|i: int| 0 <= i < s.len() - 1 ==> s.drop_last()[i] == #[trigger] s[i]);
        }
        lemma_dec_val_nonneg(s.drop_last());
        assert(spec_dec_val(s.drop_last()) * 10 >= 0) by (nonlinear_arith)
            requires
                spec_dec_val(s.drop_last()) >= 0,
        ;
    }
}

/// Parses a nonempty decimal digit string that fits the type; anything else
/// is rejected.
pub fn parse_u32(s: &str) -> (r: Option<u32>)
    ensures
        r is Some <==> s@.len() > 0 && spec_all_digits(s@) && spec_dec_val(s@) <= u32::MAX,
        r matches Some(v) ==> v == spec_dec_val(s@),
{
    let len = s.unicode_len();
    if len == 0 {
        return None;
    }
    let mut acc: u64 = 0;
    let mut i: usize = 0;
    proof {
        assert(s@.subrange(0, 0) =~= Seq::<char>::empty());
    }
    while i < len
        invariant
            0 <= i <= len,
            len == s@.len(),
            spec_all_digits(s@.subrange(0, i as int)),
            acc == spec_dec_val(s@.subrange(0, i as int)),
            acc <= u32::MAX,
        decreases len - i,
    {
        let c = s.get_char(i);
        if !('0' <= c && c <= '9') {
            proof {
                assert(!spec_all_digits(s@));
            }
            return None;
        }
        let d: u64 = (c as u8 - '0' as u8) as u64;
        let next: u64 = acc * 10 + d;
        proof {
            let pre = s@.subrange(0, i as int);
            let ext = s@.subrange(0, i + 1);
            assert(ext.drop_last() =~= pre);
            assert(ext.last() == s@[i as int]);
            assert(spec_all_digits(ext)) by {
                assert(forall|t: int| 0 <= t < i ==> ext[t] == pre[t]);
            }
        }
        if next > 0xffffffff {
            proof {
                let ext = s@.subrange(0, i + 1);
                assert(spec_dec_val(ext) > u32::MAX);
                if spec_all_digits(s@) {
                    lemma_dec_val_grows(s@, i + 1);
                }
            }
            return None;
        }
        acc = next;
        i += 1;
    }
    proof {
        assert(s@.subrange(0, len as int) =~= s@);
    }
    Some(acc as u32)
}

/// One past the first comma at or after `i`, or the length.
pub open spec fn spec_comma_end(s: Seq<char>, i: int) -> int
    decreases s.len() - i,
{
    if i < 0 || i >= s.len() {
        s.len() as int
    } else if s[i] == ',' {
        i
    } else {
        spec_comma_end(s, i + 1)
    }
}

/// The comma-separated segments of the text from `i` on, empty segments
/// kept.
pub open spec fn spec_comma_segments(s: Seq<char>, i: int) -> Seq<Seq<char>>
    decreases s.len() - i,
    via spec_comma_segments_decreases
{
    if i < 0 || i > s.len() {
        Seq::empty()
    } else {
        let e = spec_comma_end(s, i);
        if e == s.len() {
            seq![s.subrange(i, e)]
        } else {
            seq![s.subrange(i, e)] + spec_comma_segments(s, e + 1)
        }
    }
}

#[via_fn]
proof fn spec_comma_segments_decreases(s: Seq<char>, i: int) {
    if 0 <= i <= s.len() {
        lemma_comma_end_range(s, i);
    }
}

proof fn lemma_comma_end_range(s: Seq<char>, i: int)
    requires
        0 <= i <= s.len(),
    ensures
        i <= spec_comma_end(s, i) <= s.len(),
        forall|k: int| i <= k < spec_comma_end(s, i) ==> s[k] != ',',
        spec_comma_end(s, i) < s.len() ==> s[spec_comma_end(s, i)] == ',',
    decreases s.len() - i,
{
    if i < s.len() && s[i] != ',' {
        lemma_comma_end_range(s, i + 1);
    }
}

proof fn lemma_comma_end_unique(s: Seq<char>, i: int, e: int)
    requires
        0 <= i <= e <= s.len(),
        forall|k: int| i <= k < e ==> s[k] != ',',
        e < s.len() ==> s[e] == ',',
    ensures
        spec_comma_end(s, i) == e,
    decreases e - i,
{
    if i < e {
        lemma_comma_end_unique(s, i + 1, e);
    }
}

/// Splits on commas, keeping empty segments.
pub fn split_commas(s: &str) -> (r: Vec<String>)
    ensures
        r.deep_view() == spec_comma_segments(s@, 0),
{
    let len = s.unicode_len();
    let mut out: Vec<String> = Vec::new();
    let mut i: usize = 0;
    let mut done = false;
    while !done
        invariant
            0 <= i <= len + 1,
            len == s@.len(),
            !done ==> i <= len,
            !done ==> out.deep_view() + spec_comma_segments(s@, i as int) == spec_comma_segments(
                s@,
                0,
            ),
            done ==> out.deep_view() == spec_comma_segments(s@, 0),
        decreases len + 1 - i, (if done { 0int } else { 1int }),
    {
        let mut e: usize = i;
        while e < len && s.get_char(e) != ','
            invariant
                i <= e <= len,
                len == s@.len(),
                forall|k: int| i <= k < e ==> s@[k] != ',',
            decreases len - e,
        {
            e += 1;
        }
        proof {
            lemma_comma_end_unique(s@, i as int, e as int);
        }
        let seg = s.substring_char(i, e);
        let ghost prev = out.deep_view();
        out.push(String::from_str(seg));
        proof {
            assert(out.deep_view() =~= prev.push(seg@));
        }
        if e == len {
            done = true;
            proof {
                assert(out.deep_view() =~= spec_comma_segments(s@, 0));
            }
        } else {
            proof {
                assert(out.deep_view() + spec_comma_segments(s@, e + 1) =~= spec_comma_segments(
                    s@,
                    0,
                ));
            }
            i = e + 1;
        }
    }
    out
}

/// What parsing a geometry command's output yields: exactly four
/// comma-separated decimal numbers, each trimmed, in the order x, y, width,
/// height.
pub open spec fn spec_parse_geometry_output(s: Seq<char>) -> Result<Geometry, GeometryError> {
    let segs = spec_comma_segments(spec_trim(s), 0);
    if segs.len() != 4 {
        Err(GeometryError::InvalidOutput)
    } else {
        let a = spec_trim(segs[0]);
        let b = spec_trim(segs[1]);
        let c = spec_trim(segs[2]);
        let d = spec_trim(segs[3]);
        if a.len() > 0 && spec_all_digits(a) && spec_dec_val(a) <= u32::MAX && b.len() > 0
            && spec_all_digits(b) && spec_dec_val(b) <= u32::MAX && c.len() > 0
            && spec_all_digits(c) && spec_dec_val(c) <= u32::MAX && d.len() > 0
            && spec_all_digits(d) && spec_dec_val(d) <= u32::MAX {
            Ok(
                Geometry {
                    x: spec_dec_val(a) as u32,
                    y: spec_dec_val(b) as u32,
                    width: spec_dec_val(c) as u32,
                    height: spec_dec_val(d) as u32,
                },
            )
        } else {
            Err(GeometryError::InvalidOutput)
        }
    }
}

/// Parses a geometry command's output: four comma-separated numbers, each
/// tolerant of surrounding whitespace.
pub fn parse_geometry_output(s: &str) -> (r: Result<Geometry, GeometryError>)
    ensures
        r == spec_parse_geometry_output(s@),
{
    let trimmed = trim(s);
    let segs = split_commas(trimmed);
    if segs.len() != 4 {
        return Err(GeometryError::InvalidOutput);
    }
    proof {
        assert(segs@[0]@ == segs.deep_view()[0]);
        assert(segs@[1]@ == segs.deep_view()[1]);
        assert(segs@[2]@ == segs.deep_view()[2]);
        assert(segs@[3]@ == segs.deep_view()[3]);
    }
    let a = parse_u32(trim(segs[0].as_str()));
    let b = parse_u32(trim(segs[1].as_str()));
    let c = parse_u32(trim(segs[2].as_str()));
    let d = parse_u32(trim(segs[3].as_str()));
    match (a, b, c, d) {
        (Some(x), Some(y), Some(width), Some(height)) => Ok(Geometry { x, y, width, height }),
        _ => Err(GeometryError::InvalidOutput),
    }
}

} // verus!
