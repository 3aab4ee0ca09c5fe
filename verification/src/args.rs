//! Configuration values the command line hands the pipeline: shortcut,
//! overlay, geometry and detection settings, with the decisions that turn
//! them into concrete methods. Parsing the command line itself is outside
//! work.

use vstd::prelude::*;

use crate::geometry::{Geometry, GeometryMethod};
use crate::overlay::OverlayMethod;
use crate::theme::{DefaultThemes, Theme};

verus! {

/// How the activation shortcut is registered.
#[derive(Debug, Clone, Copy, PartialEq, Eq, Structural)]
pub enum ArgShortcutMethod {
    Portal,
    X11,
}

impl Default for ArgShortcutMethod {
    /// The desktop portal is the default shortcut mechanism.
    fn default() -> (r: Self)
        ensures
            r == ArgShortcutMethod::Portal,
    {
        ArgShortcutMethod::Portal
    }
}

/// How the overlay is put on screen.
#[derive(Debug, Clone, Copy, PartialEq, Eq, Structural)]
pub enum ArgOverlayMethod {
    Wayland,
    X11,
    Auto,
}

impl Default for ArgOverlayMethod {
    /// The session type decides by default.
    fn default() -> (r: Self)
        ensures
            r == ArgOverlayMethod::Auto,
    {
        ArgOverlayMethod::Auto
    }
}

/// The overlay method an argument value selects.
pub open spec fn spec_overlay_method_of(v: ArgOverlayMethod) -> OverlayMethod {
    match v {
        ArgOverlayMethod::Wayland => OverlayMethod::Wayland,
        ArgOverlayMethod::X11 => OverlayMethod::X11,
        ArgOverlayMethod::Auto => OverlayMethod::Auto,
    }
}

impl ArgOverlayMethod {
    /// The overlay method this argument selects.
    pub fn to_overlay_method(self) -> (r: OverlayMethod)
        ensures
            r == spec_overlay_method_of(self),
    {
        match self {
            ArgOverlayMethod::Wayland => OverlayMethod::Wayland,
            ArgOverlayMethod::X11 => OverlayMethod::X11,
            ArgOverlayMethod::Auto => OverlayMethod::Auto,
        }
    }
}

/// How the active theme is chosen: sampled from the image, taken from the
/// overlay setting, a built-in theme, or a fully custom one.
#[derive(Debug)]
pub enum ArgDetectionMethod {
    Auto,
    Overlay,
    Chosen(DefaultThemes),
    Custom(Theme),
}

/// Shortcut configuration.
#[derive(Debug, Clone)]
pub struct ArgShortcut {
    pub trigger: String,
    pub id: String,
    pub method: ArgShortcutMethod,
}

impl Default for ArgShortcut {
    /// The Home key under the default portal registration.
    fn default() -> (r: Self)
        ensures
            r.trigger@ == "Home"@,
            r.id@ == "wf_fissure_price_activate"@,
            r.method == ArgShortcutMethod::Portal,
    {
        ArgShortcut {
            trigger: String::from_str("Home"),
            id: String::from_str("wf_fissure_price_activate"),
            method: ArgShortcutMethod::Portal,
        }
    }
}

/// Geometry configuration: a method, or an override by command or by a
/// static rectangle.
#[derive(Debug, Clone)]
pub struct ArgGeometry {
    pub method: GeometryMethod,
    pub geometry_command: Option<String>,
    pub geometry: Option<Vec<u32>>,
}

impl ArgGeometry {
    /// The method the settings resolve to: a static rectangle wins over a
    /// command, which wins over the configured method.
    pub fn get_geometry_method(&self) -> (r: GeometryMethod)
        requires
            self.geometry matches Some(g) ==> g@.len() == 4,
        ensures
            self.geometry matches Some(g) ==> r == GeometryMethod::Static(
                Geometry { x: g@[0], y: g@[1], width: g@[2], height: g@[3] },
            ),
            (self.geometry is None && self.geometry_command is Some) ==> (r
                matches GeometryMethod::Command(c2) && c2@ == self.geometry_command->0@),
            self.geometry is None && self.geometry_command is None ==> r == self.method,
    {
        match (&self.geometry, &self.geometry_command) {
            (Some(g), _) => GeometryMethod::Static(
                Geometry { x: g[0], y: g[1], width: g[2], height: g[3] },
            ),
            (None, Some(c)) => GeometryMethod::Command(c.clone()),
            (None, None) => self.method.shallow_copy(),
        }
    }
}

/// Data-source and detection configuration: how the theme is chosen, and
/// where the price and equipment files sit when they are not fetched.
#[derive(Debug)]
pub struct ArgMisc {
    pub detection_method: ArgDetectionMethod,
    pub prices: Option<String>,
    pub filtered_items: Option<String>,
}

impl Default for ArgMisc {
    /// Theme detection samples the image by default, with no file overrides.
    fn default() -> (r: Self)
        ensures
            r.detection_method is Auto,
            r.prices is None,
            r.filtered_items is None,
    {
        ArgMisc { detection_method: ArgDetectionMethod::Auto, prices: None, filtered_items: None }
    }
}

/// The settings an activation shortcut is registered with.
#[derive(Debug, Clone)]
pub struct ShortcutSettings<'a> {
    pub id: &'a str,
    pub preferred_trigger: &'a str,
}

impl Default for ShortcutSettings<'_> {
    /// The default registration id and trigger key.
    fn default() -> (r: Self)
        ensures
            r.id@ == "wf_fissure_price_activate"@,
            r.preferred_trigger@ == "Home"@,
    {
        ShortcutSettings { id: "wf_fissure_price_activate", preferred_trigger: "Home" }
    }
}

} // verus!
