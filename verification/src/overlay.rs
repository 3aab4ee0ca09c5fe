//! On-screen overlay geometry: anchors, margins, timing counters and the
//! overlay surface configuration, all scaled from reference-resolution pixel
//! values. The compositor work itself lives outside the library; these types
//! carry the decisions it renders.

use vstd::prelude::*;

use crate::util::{spec_scaled, Scale};

verus! {

/// Frame timing for an overlay animation loop, in milliseconds since the
/// overlay appeared. The clock itself lives outside the library: callers
/// hand in the elapsed time and this type tracks the deltas.
#[derive(Debug, Clone, Copy, PartialEq, Eq, Structural)]
pub struct OverlayTime {
    pub previous: u64,
    pub delta: u64,
}

impl OverlayTime {
    /// A fresh timer with nothing elapsed.
    pub fn new() -> (r: OverlayTime)
        ensures
            r.previous == 0,
            r.delta == 0,
    {
        OverlayTime { previous: 0, delta: 0 }
    }

    /// Records the time passed since the previous frame.
    pub fn update_delta(&mut self, elapsed: u64)
        requires
            elapsed >= old(self).previous,
        ensures
            final(self).delta == elapsed - old(self).previous,
            final(self).previous == old(self).previous,
    {
        self.delta = elapsed - self.previous;
    }

    /// Marks the current frame as the previous one.
    pub fn update_previous(&mut self, elapsed: u64)
        ensures
            final(self).previous == elapsed,
            final(self).delta == old(self).delta,
    {
        self.previous = elapsed;
    }
}

/// Where the overlay surface anchors to the screen; global positioning is
/// not available under every compositor, so placement is anchor-relative.
#[derive(Debug, Clone, Copy, PartialEq, Eq, Structural)]
pub enum OverlayAnchor {
    TopLeft,
    TopCenter,
    TopRight,
    CenterLeft,
    Center,
    CenterRight,
    BottomLeft,
    BottomCenter,
    BottomRight,
}

impl OverlayAnchor {
    /// Whether the anchor sits on the screen's top edge.
    pub fn is_top(&self) -> (r: bool)
        ensures
            r == (*self == OverlayAnchor::TopLeft || *self == OverlayAnchor::TopCenter || *self
                == OverlayAnchor::TopRight),
    {
        match self {
            OverlayAnchor::TopLeft | OverlayAnchor::TopCenter | OverlayAnchor::TopRight => true,
            _ => false,
        }
    }

    /// Whether the anchor sits on the screen's vertical center.
    pub fn is_center(&self) -> (r: bool)
        ensures
            r == (*self == OverlayAnchor::CenterLeft || *self == OverlayAnchor::Center || *self
                == OverlayAnchor::CenterRight),
    {
        match self {
            OverlayAnchor::CenterLeft | OverlayAnchor::Center | OverlayAnchor::CenterRight => true,
            _ => false,
        }
    }

    /// Whether the anchor sits on the screen's bottom edge.
    pub fn is_bottom(&self) -> (r: bool)
        ensures
            r == (*self == OverlayAnchor::BottomLeft || *self == OverlayAnchor::BottomCenter
                || *self == OverlayAnchor::BottomRight),
    {
        match self {
            OverlayAnchor::BottomLeft | OverlayAnchor::BottomCenter | OverlayAnchor::BottomRight =>
                true,
            _ => false,
        }
    }
}

/// Margins from the anchor, in pixels per side.
#[derive(Debug, Clone, Copy, PartialEq, Eq, Structural)]
pub struct OverlayMargin {
    pub top: i32,
    pub right: i32,
    pub bottom: i32,
    pub left: i32,
}

/// A margin value scaled by `height / 1080`, rounding toward zero as the
/// original pixel arithmetic does.
pub open spec fn spec_scaled_margin(v: int, height: int) -> int {
    if v >= 0 {
        spec_scaled(v, height)
    } else {
        -spec_scaled(-v, height)
    }
}

impl OverlayMargin {
    /// A margin with all four sides given.
    pub fn new(top: i32, right: i32, bottom: i32, left: i32) -> (r: OverlayMargin)
        ensures
            r == (OverlayMargin { top, right, bottom, left }),
    {
        OverlayMargin { top, right, bottom, left }
    }

    /// A margin with only the top side set.
    pub fn new_top(top: i32) -> (r: OverlayMargin)
        ensures
            r == (OverlayMargin { top, right: 0, bottom: 0, left: 0 }),
    {
        OverlayMargin { top, right: 0, bottom: 0, left: 0 }
    }

    /// A margin with only the right side set.
    pub fn new_right(right: i32) -> (r: OverlayMargin)
        ensures
            r == (OverlayMargin { top: 0, right, bottom: 0, left: 0 }),
    {
        OverlayMargin { top: 0, right, bottom: 0, left: 0 }
    }

    /// A margin with only the bottom side set.
    pub fn new_bottom(bottom: i32) -> (r: OverlayMargin)
        ensures
            r == (OverlayMargin { top: 0, right: 0, bottom, left: 0 }),
    {
        OverlayMargin { top: 0, right: 0, bottom, left: 0 }
    }

    /// A margin with only the left side set.
    pub fn new_left(left: i32) -> (r: OverlayMargin)
        ensures
            r == (OverlayMargin { top: 0, right: 0, bottom: 0, left }),
    {
        OverlayMargin { top: 0, right: 0, bottom: 0, left }
    }

    /// This margin with the top side replaced.
    pub fn top(self, top: i32) -> (r: OverlayMargin)
        ensures
            r == (OverlayMargin { top, ..self }),
    {
        OverlayMargin { top, ..self }
    }

    /// This margin with the right side replaced.
    pub fn right(self, right: i32) -> (r: OverlayMargin)
        ensures
            r == (OverlayMargin { right, ..self }),
    {
        OverlayMargin { right, ..self }
    }

    /// This margin with the bottom side replaced.
    pub fn bottom(self, bottom: i32) -> (r: OverlayMargin)
        ensures
            r == (OverlayMargin { bottom, ..self }),
    {
        OverlayMargin { bottom, ..self }
    }

    /// This margin with the left side replaced.
    pub fn left(self, left: i32) -> (r: OverlayMargin)
        ensures
            r == (OverlayMargin { left, ..self }),
    {
        OverlayMargin { left, ..self }
    }

    /// Scales each side from reference-resolution values to the capture's
    /// resolution.
    pub fn scale(self, scale: &Scale) -> (r: OverlayMargin)
        requires
            -1080 <= self.top <= 1080,
            -1080 <= self.right <= 1080,
            -1080 <= self.bottom <= 1080,
            -1080 <= self.left <= 1080,
            scale.height <= i32::MAX,
        ensures
            r.top == spec_scaled_margin(self.top as int, scale.height as int),
            r.right == spec_scaled_margin(self.right as int, scale.height as int),
            r.bottom == spec_scaled_margin(self.bottom as int, scale.height as int),
            r.left == spec_scaled_margin(self.left as int, scale.height as int),
    {
        OverlayMargin {
            top: scale_side(self.top, scale),
            right: scale_side(self.right, scale),
            bottom: scale_side(self.bottom, scale),
            left: scale_side(self.left, scale),
        }
    }
}

fn scale_side(v: i32, scale: &Scale) -> (r: i32)
    requires
        -1080 <= v <= 1080,
        scale.height <= i32::MAX,
    ensures
        r == spec_scaled_margin(v as int, scale.height as int),
{
    if v >= 0 {
        let s = scale.scaled(v as u32);
        s as i32
    } else {
        let s = scale.scaled((-v) as u32);
        -(s as i32)
    }
}

/// How the overlay is put on screen.
#[derive(Debug, Clone, Copy, PartialEq, Eq, Structural)]
pub enum OverlayMethod {
    Wayland,
    Image,
    X11,
    Auto,
}

/// The overlay surface's placement and size for one frame.
#[derive(Debug, Clone, Copy, PartialEq, Eq, Structural)]
pub struct OverlayConf {
    pub anchor: OverlayAnchor,
    pub margin: OverlayMargin,
    pub width: u32,
    pub height: u32,
}

impl OverlayConf {
    /// The surface configuration for a frame with the given number of
    /// resolved reward slots: one reward-box width per slot and half a
    /// reward-box height, both scaled to the capture.
    pub fn for_rewards(count: u32, scale: &Scale, anchor: OverlayAnchor, margin: OverlayMargin) -> (r:
        OverlayConf)
        requires
            count <= 4,
        ensures
            r.anchor == anchor,
            r.margin == margin,
            r.width == spec_scaled(240 * count as int, scale.height as int),
            r.height == spec_scaled(120, scale.height as int),
    {
        OverlayConf {
            anchor,
            margin,
            width: scale.scaled(240 * count),
            height: scale.scaled(120),
        }
    }
}

} // verus!
