use wf_fissure_price::color::Rgb;
use wf_fissure_price::ocr::{
    filter_and_separate_parts_from_part_box, resolve_reward_names, reward_image_to_parts,
};
use wf_fissure_price::raster::Image;
use wf_fissure_price::theme::{auto_theme, default_themes, threshold_filter_custom, DefaultThemes};
use wf_fissure_price::wfinfo::{
    DucatItem, EquipmentItem, EquipmentType, FilteredItems, Items, PriceItem, Relics,
};
use wf_fissure_price::Error;

fn solid(width: u32, height: u32, c: Rgb) -> Image {
    let mut data = Vec::with_capacity((3 * width * height) as usize);
    for _ in 0..(width * height) {
        data.push(c.r);
        data.push(c.g);
        data.push(c.b);
    }
    Image { width, height, data }
}

fn paint_column(img: &mut Image, x: u32, y0: u32, y1: u32, c: Rgb) {
    for y in y0..y1 {
        img.set_pixel(x, y, c);
    }
}

const STALKER_PRIMARY: Rgb = Rgb { r: 153, g: 31, b: 35 };

#[test]
fn uniform_primary_detects_that_theme() {
    let themes = default_themes();
    // An image filled with the Corpus primary color.
    let img = solid(32, 16, Rgb { r: 35, g: 201, b: 245 });
    let detected = themes.detect_theme(&img).expect("theme wins the vote");
    assert_eq!(detected, DefaultThemes::Corpus.index());
    assert_eq!(themes.get(detected).name, "Corpus");
}

#[test]
fn far_colors_detect_nothing() {
    let themes = default_themes();
    // Pure green sits at channel distance well over 100 from every primary.
    let img = solid(64, 32, Rgb { r: 0, g: 255, b: 0 });
    assert_eq!(themes.detect_theme(&img), None);
}

#[test]
fn four_evenly_spaced_columns_yield_four_parts() {
    let themes = default_themes();
    let theme = themes.get(DefaultThemes::Stalker.index());
    let mut strip = solid(960, 48, Rgb { r: 0, g: 0, b: 0 });
    // Foreground mass at the four-icon text centers.
    for center in [120u32, 360, 600, 840] {
        for x in center - 2..center + 3 {
            paint_column(&mut strip, x, 0, 48, STALKER_PRIMARY);
        }
    }
    let parts = filter_and_separate_parts_from_part_box(&strip, theme);
    assert_eq!(parts.len(), 4);
    for p in &parts {
        assert_eq!(p.width, 240);
        assert_eq!(p.height, 48);
    }
}

#[test]
fn three_offset_columns_yield_three_parts() {
    let themes = default_themes();
    let theme = themes.get(DefaultThemes::Stalker.index());
    let mut strip = solid(960, 48, Rgb { r: 0, g: 0, b: 0 });
    // Foreground mass at the offset three-icon text centers.
    for center in [240u32, 480, 720] {
        for x in center - 2..center + 3 {
            paint_column(&mut strip, x, 0, 48, STALKER_PRIMARY);
        }
    }
    let parts = filter_and_separate_parts_from_part_box(&strip, theme);
    assert_eq!(parts.len(), 3);
}

#[test]
fn blank_strip_yields_no_parts() {
    let themes = default_themes();
    let theme = themes.get(DefaultThemes::Stalker.index());
    let strip = solid(960, 48, Rgb { r: 0, g: 0, b: 0 });
    let parts = filter_and_separate_parts_from_part_box(&strip, theme);
    assert_eq!(parts.len(), 0);
}

#[test]
fn small_top_half_noise_is_blanked() {
    let themes = default_themes();
    let theme = themes.get(DefaultThemes::Stalker.index());
    let mut strip = solid(960, 48, Rgb { r: 0, g: 0, b: 0 });
    // Heavy mass in the bottom half keeps the layout vote alive; a stray
    // speck in the top half of the first box is noise, not text.
    for center in [120u32, 360, 600, 840] {
        for x in center - 2..center + 3 {
            paint_column(&mut strip, x, 24, 48, STALKER_PRIMARY);
        }
    }
    strip.set_pixel(10, 3, STALKER_PRIMARY);
    let parts = filter_and_separate_parts_from_part_box(&strip, theme);
    assert_eq!(parts.len(), 4);
    // The speck was suppressed: the whole top half of part 0 is background.
    for x in 0..240 {
        for y in 0..24 {
            assert_eq!(parts[0].pixel(x, y), Rgb { r: 255, g: 255, b: 255 });
        }
    }
}

#[test]
fn portrait_capture_is_rejected() {
    let themes = default_themes();
    let img = solid(16, 32, STALKER_PRIMARY);
    let r = reward_image_to_parts(&img, &themes, None);
    assert_eq!(r.unwrap_err(), Error::InvalidSize(16, 32));
}

#[test]
fn unknown_theme_halts_the_frame() {
    let themes = default_themes();
    let img = solid(64, 32, Rgb { r: 0, g: 255, b: 0 });
    let r = reward_image_to_parts(&img, &themes, None);
    assert_eq!(r.unwrap_err(), Error::UnknownTheme);
}

fn price(name: &str, avg: u64) -> PriceItem {
    PriceItem { name: name.to_string(), custom_avg: avg, yesterday_vol: 0, today_vol: 0 }
}

fn one_part_record(owner: &str, part: &str, vaulted: bool) -> (String, EquipmentItem) {
    (
        owner.to_string(),
        EquipmentItem {
            item_type: EquipmentType::Warframes,
            vaulted,
            parts: vec![(part.to_string(), DucatItem { ducats: 45 })],
        },
    )
}

#[test]
fn clean_four_icon_frame_resolves_in_order() {
    let themes = default_themes();

    // A full-resolution synthetic capture in the Stalker scheme: the strip
    // region is blank except for foreground mass at the four icon centers.
    let mut img = solid(1920, 1080, STALKER_PRIMARY);
    let black = Rgb { r: 0, g: 0, b: 0 };
    for x in 480..1440u32 {
        paint_column(&mut img, x, 412, 460, black);
    }
    for center in [120u32, 360, 600, 840] {
        for x in center - 2..center + 3 {
            paint_column(&mut img, 480 + x, 412, 460, STALKER_PRIMARY);
        }
    }

    let (parts, theme_idx) = reward_image_to_parts(&img, &themes, None).expect("pipeline runs");
    assert_eq!(theme_idx, DefaultThemes::Stalker.index());
    assert_eq!(parts.len(), 4);

    // The external text recognition runs on the four parts; its output for
    // this frame is known.
    let names: Vec<String> = [
        "Akbolto Prime Link",
        "Burston Prime Stock",
        "Fang Prime Blade",
        "Octavia Prime Systems",
    ]
    .iter()
    .map(|s| s.to_string())
    .collect();

    let prices = vec![
        price("Akbolto Prime Link", 1500),
        price("Burston Prime Stock", 2500),
        price("Fang Prime Blade", 3000),
        price("Octavia Prime Systems", 42500),
    ];
    let filtered = FilteredItems {
        errors: Vec::new(),
        relics: Relics { lith: Vec::new(), neo: Vec::new(), meso: Vec::new(), axi: Vec::new() },
        eqmt: vec![
            one_part_record("Akbolto Prime", "Akbolto Prime Link", false),
            one_part_record("Burston Prime", "Burston Prime Stock", false),
            one_part_record("Fang Prime", "Fang Prime Blade", false),
            one_part_record("Octavia Prime", "Octavia Prime Systems", true),
        ],
        ignored_items: Vec::new(),
    };
    let items = Items::new(prices, filtered);

    let resolved = resolve_reward_names(&items, &names);
    assert_eq!(resolved.len(), 4);
    for (slot, expected) in resolved.iter().zip(names.iter()) {
        let item = slot.expect("every slot resolves");
        assert_eq!(&item.name, expected);
    }
    assert_eq!(resolved[3].unwrap().platinum, Some(42500));
}

#[test]
fn theme_table_is_ordered_by_name() {
    let themes = default_themes();
    assert_eq!(themes.len(), 19);
    assert_eq!(themes.get(DefaultThemes::Baruuk.index()).name, "Baruuk");
    assert_eq!(themes.get(DefaultThemes::Vitruvian.index()).name, "Vitruvian");
    assert_eq!(themes.get(DefaultThemes::ZephyrHarrier.index()).name, "ZephyrHarrier");
    assert!(themes.by_name("Corpus").is_some());
    assert!(themes.by_name("NoSuchTheme").is_none());
}

#[test]
fn binarization_maps_to_pure_black_and_white() {
    let themes = default_themes();
    let theme = themes.get(DefaultThemes::Stalker.index());
    let mut strip = solid(8, 4, Rgb { r: 0, g: 0, b: 0 });
    strip.set_pixel(2, 1, STALKER_PRIMARY);
    strip.set_pixel(5, 3, STALKER_PRIMARY);
    let (filtered, _totals) = theme.filter(&strip);
    assert_eq!(filtered.pixel(2, 1), Rgb { r: 0, g: 0, b: 0 });
    assert_eq!(filtered.pixel(5, 3), Rgb { r: 0, g: 0, b: 0 });
    assert_eq!(filtered.pixel(0, 0), Rgb { r: 255, g: 255, b: 255 });
    assert_eq!(filtered.pixel(7, 3), Rgb { r: 255, g: 255, b: 255 });
}

#[test]
fn hue_boxes_do_not_wrap_around_the_seam() {
    // Two reds about four degrees apart on the same side of the hue seam
    // match; the same separation across the 0/360 seam deliberately does
    // not, preserving the documented under-matching near zero hue.
    let just_above_zero = Rgb { r: 255, g: 9, b: 0 };
    let further_above = Rgb { r: 255, g: 18, b: 0 };
    let just_below_zero = Rgb { r: 255, g: 0, b: 9 };
    assert!(threshold_filter_custom(just_above_zero, further_above, 4000, 160, 100));
    assert!(!threshold_filter_custom(just_below_zero, just_above_zero, 4000, 160, 100));
}

#[test]
fn a_fixed_theme_skips_detection() {
    let themes = default_themes();
    // Detection would fail on this frame, but the caller fixed the theme.
    let img = solid(64, 32, Rgb { r: 0, g: 255, b: 0 });
    let idx = DefaultThemes::Stalker.index();
    let (parts, theme_idx) = reward_image_to_parts(&img, &themes, Some(idx)).expect("runs");
    assert_eq!(theme_idx, idx);
    assert_eq!(parts.len(), 0);
}

#[test]
fn auto_theme_samples_the_probe_pixel() {
    let mut img = solid(64, 32, Rgb { r: 10, g: 20, b: 30 });
    // Probe at reference (540, 540): scaled by 32 / 1080 that is pixel (16, 16).
    img.set_pixel(16, 16, STALKER_PRIMARY);
    let t = auto_theme("auto".to_string(), &img, 540, 540).expect("landscape");
    assert_eq!(t.name, "auto");
    assert_eq!(t.primary, STALKER_PRIMARY);
    assert_eq!(t.secondary, STALKER_PRIMARY);

    let portrait = solid(16, 32, STALKER_PRIMARY);
    assert_eq!(
        auto_theme("auto".to_string(), &portrait, 540, 540).unwrap_err(),
        Error::InvalidSize(16, 32)
    );
}
