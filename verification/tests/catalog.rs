use wf_fissure_price::wfinfo::{
    highest_platinum_index, longest_name_len, DucatItem, EquipmentItem, EquipmentType,
    FilteredItems, Item, Items, PriceItem, Relics,
};

fn price(name: &str, avg: u64) -> PriceItem {
    PriceItem { name: name.to_string(), custom_avg: avg, yesterday_vol: 0, today_vol: 0 }
}

fn equipment(
    eqmt: Vec<(String, EquipmentItem)>,
    ignored: Vec<(String, DucatItem)>,
) -> FilteredItems {
    FilteredItems {
        errors: Vec::new(),
        relics: Relics { lith: Vec::new(), neo: Vec::new(), meso: Vec::new(), axi: Vec::new() },
        eqmt,
        ignored_items: ignored,
    }
}

fn eq_item(vaulted: bool, parts: Vec<(&str, u64)>) -> EquipmentItem {
    EquipmentItem {
        item_type: EquipmentType::Warframes,
        vaulted,
        parts: parts
            .into_iter()
            .map(|(n, d)| (n.to_string(), DucatItem { ducats: d }))
            .collect(),
    }
}

fn octavia_catalog() -> Items {
    let prices = vec![
        price("Octavia Prime Set", 99000),
        price("Octavia Prime Systems", 42500),
        price("Fang Prime Blade", 3000),
        price("Kompressa Prime Reciever", 7000),
    ];
    let filtered = equipment(
        vec![
            (
                "Octavia Prime".to_string(),
                eq_item(true, vec![("Octavia Prime Systems", 45)]),
            ),
            ("Fang Prime".to_string(), eq_item(false, vec![("Fang Prime Blade", 15)])),
            (
                "Kompressa Prime".to_string(),
                eq_item(false, vec![("Kompressa Prime Receiver", 10)]),
            ),
        ],
        vec![("Forma Blueprint".to_string(), DucatItem { ducats: 0 })],
    );
    Items::new(prices, filtered)
}

#[test]
fn merge_joins_prices_by_prefix() {
    let items = octavia_catalog();
    let found = items.find_item("Octavia Prime Systems").expect("present");
    assert_eq!(found.name, "Octavia Prime Systems");
    assert_eq!(found.platinum, Some(42500));
    assert_eq!(found.ducats, Some(45));
    assert!(found.vaulted);
    assert!(!found.ignored);
}

#[test]
fn set_records_are_excluded_from_matching() {
    let prices = vec![price("Octavia Prime Set", 99000)];
    let filtered = equipment(
        vec![(
            "Octavia Prime".to_string(),
            eq_item(false, vec![("Octavia Prime Systems", 45)]),
        )],
        Vec::new(),
    );
    let items = Items::new(prices, filtered);
    let found = items.find_item("Octavia Prime Systems").expect("present");
    assert_eq!(found.platinum, None);
}

#[test]
fn source_typo_is_corrected_before_matching() {
    let items = octavia_catalog();
    let found = items.find_item("Kompressa Prime Receiver").expect("present");
    assert_eq!(found.platinum, Some(7000));
}

#[test]
fn ignored_names_carry_no_price() {
    let items = octavia_catalog();
    let found = items.find_item("Forma Blueprint").expect("present");
    assert!(found.ignored);
    assert_eq!(found.platinum, None);
    assert_eq!(found.ducats, None);
}

#[test]
fn empty_price_data_yields_empty_catalog() {
    let filtered = equipment(
        vec![("X".to_string(), eq_item(false, vec![("X Y", 1)]))],
        Vec::new(),
    );
    let items = Items::new(Vec::new(), filtered);
    assert_eq!(items.min_len, 0);
    assert_eq!(items.max_len, 0);
    assert!(items.find_item("X Y").is_none());
}

#[test]
fn exact_names_resolve() {
    let items = octavia_catalog();
    for name in [
        "Octavia Prime Systems",
        "Fang Prime Blade",
        "Kompressa Prime Receiver",
        "Forma Blueprint",
    ] {
        let found = items.find_item(name).expect("exact name resolves");
        assert_eq!(found.name, name);
    }
}

#[test]
fn out_of_bounds_lengths_are_rejected() {
    let items = octavia_catalog();
    // min is "Forma Blueprint" (15), max is "Kompressa Prime Receiver" (24)
    assert_eq!(items.min_len, 15);
    assert_eq!(items.max_len, 24);
    assert!(items.find_item("Forma Blueprin").is_none());
    assert!(items.find_item("Kompressa Prime Receiverr").is_none());
}

#[test]
fn surrounding_whitespace_is_trimmed() {
    let items = octavia_catalog();
    let found = items.find_item("  Fang Prime Blade \n").expect("present");
    assert_eq!(found.name, "Fang Prime Blade");
}

#[test]
fn long_tokens_tolerate_one_substitution() {
    let items = octavia_catalog();
    // One substitution in the 7-character token "Systems": 1 <= 7 / 3.
    let found = items.find_item("Octavia Prime Sastems").expect("tolerated");
    assert_eq!(found.name, "Octavia Prime Systems");
    // One substitution in the 7-character token "Octavia".
    let found2 = items.find_item("Octavla Prime Systems").expect("tolerated");
    assert_eq!(found2.name, "Octavia Prime Systems");
}

#[test]
fn short_tokens_tolerate_no_substitution() {
    // A 2-character token rejects a single substitution (1 > 2 / 3), while a
    // 3-character token in the same position tolerates it, so the filter
    // settles on the longer-token entry.
    let prices = vec![price("Ax Prime", 1000), price("Axe Prime", 2000)];
    let filtered = equipment(
        vec![
            ("A".to_string(), eq_item(false, vec![("Ax Prime", 1)])),
            ("B".to_string(), eq_item(false, vec![("Axe Prime", 2)])),
        ],
        Vec::new(),
    );
    let items = Items::new(prices, filtered);
    let found = items.find_item("Axq Prime").expect("present");
    assert_eq!(found.name, "Axe Prime");
}

#[test]
fn unresolvable_text_falls_back_to_the_first_candidate() {
    let items = octavia_catalog();
    // Within length bounds but nowhere near any entry: every per-token
    // filter rejects everything, each pass gracefully skips, and the
    // untouched candidate set yields its first entry — the ignored name,
    // which the build placed first — as the deterministic tie-break.
    let r = items.find_item("qqqqqqqq wwwwwwww").expect("fallback");
    assert_eq!(r.name, "Forma Blueprint");
}

#[test]
fn item_tokens_split_on_whitespace() {
    let item = Item::new("Octavia Prime Systems".to_string(), None, None, false, false);
    assert_eq!(item.tokens, vec!["Octavia", "Prime", "Systems"]);
}

#[test]
fn reward_summary_helpers() {
    let a = Item::new("Short".to_string(), Some(5500), None, false, false);
    let b = Item::new("A Much Longer Name".to_string(), Some(12000), None, false, false);
    let c = Item::new("Mid".to_string(), None, None, false, false);
    let rewards = vec![a, b, c];
    assert_eq!(longest_name_len(&rewards), 18);
    assert_eq!(highest_platinum_index(&rewards), 1);
}
