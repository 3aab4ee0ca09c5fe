use wf_fissure_price::args::{ArgShortcut, ArgShortcutMethod, ShortcutSettings};
use wf_fissure_price::color::{color_difference, parse_hex_color, rgb_to_hsl, Rgb};
use wf_fissure_price::geometry::{
    parse_geometry_output, Geometry, GeometryError, GeometryMethod, HyprWindow,
};
use wf_fissure_price::ocr::get_surrounding_pixels;
use wf_fissure_price::overlay::{OverlayAnchor, OverlayConf, OverlayMargin, OverlayTime};
use wf_fissure_price::text::normalize_string;
use wf_fissure_price::util::{get_scale, Scale, SplitEveryOtherIter};
use wf_fissure_price::watcher::{line_activates, line_deactivates};
use wf_fissure_price::wfinfo::Refinement;
use wf_fissure_price::raster::Image;

#[test]
fn test1() {}

#[test]
fn hex_colors_parse() {
    assert_eq!(parse_hex_color("#23c9f5"), Some(Rgb { r: 0x23, g: 0xc9, b: 0xf5 }));
    assert_eq!(parse_hex_color("ffbd66"), Some(Rgb { r: 0xff, g: 0xbd, b: 0x66 }));
    assert_eq!(parse_hex_color("#ffbd6"), None);
    assert_eq!(parse_hex_color("#ffbd6g"), None);
    assert_eq!(parse_hex_color(""), None);
}

#[test]
fn white_converts_to_full_lightness() {
    let h = rgb_to_hsl(Rgb { r: 255, g: 255, b: 255 });
    assert_eq!(h.hue, 0);
    assert_eq!(h.sat, 0);
    assert_eq!(h.light, 1000);
}

#[test]
fn red_converts_to_zero_hue() {
    let h = rgb_to_hsl(Rgb { r: 255, g: 0, b: 0 });
    assert_eq!(h.hue, 0);
    assert_eq!(h.sat, 1000);
    assert_eq!(h.light, 500);
}

#[test]
fn channel_distance_sums_components() {
    let a = Rgb { r: 10, g: 20, b: 30 };
    let b = Rgb { r: 13, g: 16, b: 35 };
    assert_eq!(color_difference(a, b), 3 + 4 + 5);
    assert_eq!(color_difference(a, a), 0);
}

#[test]
fn scale_rejects_portrait() {
    let img = Image { width: 100, height: 200, data: vec![0u8; 3 * 100 * 200] };
    assert!(get_scale(&img).is_err());
    let img2 = Image { width: 200, height: 100, data: vec![0u8; 3 * 200 * 100] };
    assert_eq!(get_scale(&img2).unwrap().height, 100);
}

#[test]
fn scaled_lengths_follow_height() {
    let s = Scale { height: 1080 };
    assert_eq!(s.scaled(960), 960);
    let s2 = Scale { height: 2160 };
    assert_eq!(s2.scaled(960), 1920);
    assert_eq!(s2.scaled(48), 96);
}

#[test]
fn normalize_keeps_only_ascii_letters() {
    assert_eq!(normalize_string("Octavia Prime 42!"), "OctaviaPrime");
    assert_eq!(normalize_string("123"), "");
}

#[test]
fn surrounding_pixels_clamp() {
    let n = get_surrounding_pixels(0, 0);
    assert_eq!(n[0], (1, 0));
    assert_eq!(n[1], (0, 0));
    assert_eq!(n[2], (0, 1));
    assert_eq!(n[3], (0, 0));
    let m = get_surrounding_pixels(5, 7);
    assert_eq!(m[4], (6, 8));
    assert_eq!(m[5], (4, 6));
    assert_eq!(m[6], (6, 6));
    assert_eq!(m[7], (4, 8));
}

#[test]
fn margins_build_and_scale() {
    let m = OverlayMargin::new_top(620);
    assert_eq!(m.top, 620);
    assert_eq!(m.right, 0);
    let m2 = m.right(10).bottom(-20).left(5);
    assert_eq!((m2.top, m2.right, m2.bottom, m2.left), (620, 10, -20, 5));
    let s = Scale { height: 2160 };
    let scaled = OverlayMargin::new(620, 0, -20, 0).scale(&s);
    assert_eq!(scaled.top, 1240);
    assert_eq!(scaled.bottom, -40);
}

#[test]
fn anchors_classify() {
    assert!(OverlayAnchor::TopCenter.is_top());
    assert!(!OverlayAnchor::TopCenter.is_bottom());
    assert!(OverlayAnchor::Center.is_center());
    assert!(OverlayAnchor::BottomLeft.is_bottom());
}

#[test]
fn overlay_time_tracks_deltas() {
    let mut t = OverlayTime::new();
    t.update_delta(100);
    assert_eq!(t.delta, 100);
    t.update_previous(100);
    t.update_delta(150);
    assert_eq!(t.delta, 50);
    assert_eq!(t.previous, 100);
}

#[test]
fn shortcut_defaults() {
    let s = ArgShortcut::default();
    assert_eq!(s.trigger, "Home");
    assert_eq!(s.id, "wf_fissure_price_activate");
    assert!(matches!(s.method, ArgShortcutMethod::Portal));
    let t = ShortcutSettings::default();
    assert_eq!(t.preferred_trigger, "Home");
}

#[test]
fn geometry_output_parses() {
    let g = parse_geometry_output(" 10, 20,300 , 400 ").unwrap();
    assert_eq!((g.x, g.y, g.width, g.height), (10, 20, 300, 400));
    assert_eq!(parse_geometry_output("1,2,3"), Err(GeometryError::InvalidOutput));
    assert_eq!(parse_geometry_output("1,2,3,x"), Err(GeometryError::InvalidOutput));
}

#[test]
fn geometry_method_resolves() {
    let s = GeometryMethod::Static(Geometry { x: 1, y: 2, width: 3, height: 4 });
    assert!(s.check_unsupported().is_ok());
    assert!(GeometryMethod::Sway.check_unsupported().is_err());
    let w = HyprWindow { at: [5, 6], size: [7, 8] };
    let g = GeometryMethod::Auto
        .get_active_window_geometry(&GeometryMethod::Hyprland, Some(w), None)
        .unwrap();
    assert_eq!((g.x, g.y, g.width, g.height), (5, 6, 7, 8));
    let e = GeometryMethod::Unknown.get_active_window_geometry(&GeometryMethod::Unknown, None, None);
    assert_eq!(e, Err(GeometryError::UnknownDesktop));
}

#[test]
fn log_lines_drive_activation() {
    assert!(line_activates("1234 Sys [Info]: Got rewards"));
    assert!(line_activates("Pause countdown done extras"));
    assert!(!line_activates("nothing to see"));
    assert!(line_deactivates("x Relic timer closed y"));
    assert!(!line_deactivates("Got rewards"));
}

#[test]
fn refinement_chances() {
    assert_eq!(Refinement::Intact.common_chance(), 2533);
    assert_eq!(Refinement::Radiant.rare_chance(), 1000);
    assert_eq!(Refinement::Flawless.uncommon_chance(), 1700);
}

#[test]
fn split_every_other_alternates() {
    let mut it = SplitEveryOtherIter::new("ctrl+shift+t", "+");
    assert_eq!(it.next(), Some("ctrl"));
    assert_eq!(it.next(), Some("shift"));
    assert_eq!(it.next(), Some("t"));
    assert_eq!(it.next(), None);

    let mut it2 = SplitEveryOtherIter::new("ctrl++t", "+");
    assert_eq!(it2.next(), Some("ctrl"));
    assert_eq!(it2.next(), Some("+"));
    assert_eq!(it2.next(), Some("t"));
    assert_eq!(it2.next(), None);
}

#[test]
fn overlay_conf_scales_with_rewards() {
    let s = Scale { height: 1080 };
    let conf = OverlayConf::for_rewards(4, &s, OverlayAnchor::TopCenter, OverlayMargin::new_top(620));
    assert_eq!(conf.width, 960);
    assert_eq!(conf.height, 120);
    let s2 = Scale { height: 2160 };
    let conf2 = OverlayConf::for_rewards(3, &s2, OverlayAnchor::TopCenter, OverlayMargin::new_top(620));
    assert_eq!(conf2.width, 1440);
    assert_eq!(conf2.height, 240);
}
