//! Recognition pipeline for a game's reward-selection screenshots: theme
//! detection, reward-strip segmentation, and typo-tolerant item resolution
//! against a price catalog.
//!
//! Colors and vote weights are modelled in fixed-point integer arithmetic
//! (milli-units for hue/saturation/lightness) so that every step of the
//! pipeline carries a precise contract.

use vstd::prelude::*;

pub mod args;
pub mod color;
pub mod geometry;
pub mod ocr;
pub mod overlay;
pub mod raster;
pub mod text;
pub mod theme;
pub mod util;
pub mod watcher;
pub mod wfinfo;

verus! {

/// The failures the pipeline itself can produce. Errors of the external
/// collaborators (the OCR engine, the data sources) are mapped to these by
/// the surrounding program.
#[derive(Debug, Clone, PartialEq, Eq, Structural)]
pub enum Error {
    /// Theme voting produced no winner for this frame.
    UnknownTheme,
    /// An image buffer cannot be reinterpreted as flat samples.
    InvalidImageFormat,
    /// A portrait-oriented capture; the pipeline assumes landscape.
    InvalidSize(u32, u32),
}

} // verus!
