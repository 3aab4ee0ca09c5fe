//! The item catalog and the typo-tolerant matcher: market price records and
//! equipment metadata are merged into a tokenized catalog, and recognized
//! text is resolved against it by cascading per-token edit-distance
//! filtering.

use vstd::prelude::*;

use crate::text::{
    ends_with, replace, spec_ends_with, spec_replace, spec_starts_with, spec_tokens, spec_trim,
    starts_with, tokenize, trim,
};

verus! {

/// One market price record: the average price is in thousandths of a
/// platinum, so contracts stay in integers.
#[derive(Debug, Clone)]
pub struct PriceItem {
    pub name: String,
    pub custom_avg: u64,
    pub yesterday_vol: u64,
    pub today_vol: u64,
}

/// Ducat value metadata for one part.
#[derive(Debug, Clone, Copy, PartialEq, Eq, Structural)]
pub struct DucatItem {
    pub ducats: u64,
}

/// The equipment categories the metadata source distinguishes.
#[derive(Debug, Clone, Copy, PartialEq, Eq, Structural)]
pub enum EquipmentType {
    Warframes,
    Primary,
    Secondary,
    Melee,
    Sentinels,
    Archwing,
    ArchGun,
    Skins,
}

/// One equipment record: its category, vault status, and named parts.
#[derive(Debug)]
pub struct EquipmentItem {
    pub item_type: EquipmentType,
    pub vaulted: bool,
    pub parts: Vec<(String, DucatItem)>,
}

/// Relic refinement grades.
#[derive(Debug, Clone, Copy, PartialEq, Eq, Structural)]
pub enum Refinement {
    Intact,
    Exceptional,
    Flawless,
    Radiant,
}

impl Refinement {
    /// Chance of a common reward slot, in ten-thousandths.
    pub fn common_chance(&self) -> (r: u32)
        ensures
            r == match self {
                Refinement::Intact => 2533u32,
                Refinement::Exceptional => 2333u32,
                Refinement::Flawless => 2000u32,
                Refinement::Radiant => 1667u32,
            },
    {
        match self {
            Refinement::Intact => 2533,
            Refinement::Exceptional => 2333,
            Refinement::Flawless => 2000,
            Refinement::Radiant => 1667,
        }
    }

    /// Chance of an uncommon reward slot, in ten-thousandths.
    pub fn uncommon_chance(&self) -> (r: u32)
        ensures
            r == match self {
                Refinement::Intact => 1100u32,
                Refinement::Exceptional => 1300u32,
                Refinement::Flawless => 1700u32,
                Refinement::Radiant => 2000u32,
            },
    {
        match self {
            Refinement::Intact => 1100,
            Refinement::Exceptional => 1300,
            Refinement::Flawless => 1700,
            Refinement::Radiant => 2000,
        }
    }

    /// Chance of a rare reward slot, in ten-thousandths.
    pub fn rare_chance(&self) -> (r: u32)
        ensures
            r == match self {
                Refinement::Intact => 200u32,
                Refinement::Exceptional => 400u32,
                Refinement::Flawless => 600u32,
                Refinement::Radiant => 1000u32,
            },
    {
        match self {
            Refinement::Intact => 200,
            Refinement::Exceptional => 400,
            Refinement::Flawless => 600,
            Refinement::Radiant => 1000,
        }
    }
}

/// One relic: its vault status and reward slots by rarity.
#[derive(Debug)]
pub struct Relic {
    pub vaulted: bool,
    pub rare1: Option<String>,
    pub uncommon1: Option<String>,
    pub uncommon2: Option<String>,
    pub common1: Option<String>,
    pub common2: Option<String>,
    pub common3: Option<String>,
}

/// Relics by era, each a named list.
#[derive(Debug)]
pub struct Relics {
    pub lith: Vec<(String, Relic)>,
    pub neo: Vec<(String, Relic)>,
    pub meso: Vec<(String, Relic)>,
    pub axi: Vec<(String, Relic)>,
}

/// The equipment metadata source: errors, relics, equipment with parts, and
/// names to carry without a price.
#[derive(Debug)]
pub struct FilteredItems {
    pub errors: Vec<String>,
    pub relics: Relics,
    pub eqmt: Vec<(String, EquipmentItem)>,
    pub ignored_items: Vec<(String, DucatItem)>,
}

/// Whether an association list's keys are pairwise distinct, as the
/// JSON-object sources guarantee by construction.
pub open spec fn spec_unique_keys<T>(s: Seq<(String, T)>) -> bool {
    forall|i: int, j: int|
        #![trigger s[i], s[j]]
        0 <= i < j < s.len() ==> s[i].0@ != s[j].0@
}

impl EquipmentItem {
    /// Part names are pairwise distinct.
    pub open spec fn wf(&self) -> bool {
        spec_unique_keys(self.parts@)
    }
}

impl Relics {
    /// Relic names are pairwise distinct within each era.
    pub open spec fn wf(&self) -> bool {
        &&& spec_unique_keys(self.lith@)
        &&& spec_unique_keys(self.neo@)
        &&& spec_unique_keys(self.meso@)
        &&& spec_unique_keys(self.axi@)
    }
}

impl FilteredItems {
    /// Keys are pairwise distinct throughout, as the original map-shaped
    /// sources could not hold duplicates.
    pub open spec fn wf(&self) -> bool {
        &&& spec_unique_keys(self.eqmt@)
        &&& spec_unique_keys(self.ignored_items@)
        &&& self.relics.wf()
        &&& forall|k: int| 0 <= k < self.eqmt@.len() ==> (#[trigger] self.eqmt@[k]).1.wf()
    }
}

/// A catalog entry as the contracts see it.
pub ghost struct ItemModel {
    pub name: Seq<char>,
    pub tokens: Seq<Seq<char>>,
    pub platinum: Option<u64>,
    pub ducats: Option<u64>,
    pub ignored: bool,
    pub vaulted: bool,
}

/// A resolved catalog entry: a known item name, its whitespace tokens, and
/// its market metadata. The platinum price is in thousandths.
#[derive(Debug)]
pub struct Item {
    pub tokens: Vec<String>,
    pub name: String,
    pub platinum: Option<u64>,
    pub ducats: Option<u64>,
    pub ignored: bool,
    pub vaulted: bool,
}

impl View for Item {
    type V = ItemModel;

    open spec fn view(&self) -> ItemModel {
        ItemModel {
            name: self.name@,
            tokens: self.tokens.deep_view(),
            platinum: self.platinum,
            ducats: self.ducats,
            ignored: self.ignored,
            vaulted: self.vaulted,
        }
    }
}

impl ItemModel {
    /// An entry's tokens are exactly its name's whitespace tokens.
    pub open spec fn wf(self) -> bool {
        self.tokens == spec_tokens(self.name)
    }
}

impl Item {
    /// Builds an entry, splitting the name into its tokens.
    pub fn new(name: String, platinum: Option<u64>, ducats: Option<u64>, ignored: bool, vaulted: bool) -> (r:
        Item)
        ensures
            r@ == (ItemModel {
                name: name@,
                tokens: spec_tokens(name@),
                platinum,
                ducats,
                ignored,
                vaulted,
            }),
            r@.wf(),
    {
        let tokens = tokenize(name.as_str());
        Item { tokens, name, platinum, ducats, ignored, vaulted }
    }
}

/// The Levenshtein edit distance between two character sequences: the least
/// number of single-character insertions, deletions and substitutions that
/// turns one into the other.
pub open spec fn spec_levenshtein(a: Seq<char>, b: Seq<char>) -> int
    decreases a.len() + b.len(),
{
    if a.len() == 0 {
        b.len() as int
    } else if b.len() == 0 {
        a.len() as int
    } else {
        let del = spec_levenshtein(a.drop_last(), b) + 1;
        let ins = spec_levenshtein(a, b.drop_last()) + 1;
        let sub = spec_levenshtein(a.drop_last(), b.drop_last()) + if a.last() == b.last() {
            0int
        } else {
            1int
        };
        if del <= ins && del <= sub {
            del
        } else if ins <= sub {
            ins
        } else {
            sub
        }
    }
}

/// The distance is never negative.
pub proof fn lemma_levenshtein_nonneg(a: Seq<char>, b: Seq<char>)
    ensures
        spec_levenshtein(a, b) >= 0,
    decreases a.len() + b.len(),
{
    if a.len() > 0 && b.len() > 0 {
        lemma_levenshtein_nonneg(a.drop_last(), b);
        lemma_levenshtein_nonneg(a, b.drop_last());
        lemma_levenshtein_nonneg(a.drop_last(), b.drop_last());
    }
}

/// A sequence is at distance zero from itself.
pub proof fn lemma_levenshtein_self(a: Seq<char>)
    ensures
        spec_levenshtein(a, a) == 0,
    decreases a.len(),
{
    if a.len() > 0 {
        lemma_levenshtein_self(a.drop_last());
        lemma_levenshtein_nonneg(a.drop_last(), a);
        lemma_levenshtein_nonneg(a, a.drop_last());
    }
}

/// Distance zero holds only between equal sequences.
pub proof fn lemma_levenshtein_zero(a: Seq<char>, b: Seq<char>)
    requires
        spec_levenshtein(a, b) == 0,
    ensures
        a == b,
    decreases a.len() + b.len(),
{
    if a.len() == 0 {
        assert(a =~= b);
    } else if b.len() == 0 {
        assert(a =~= b);
    } else {
        lemma_levenshtein_nonneg(a.drop_last(), b);
        lemma_levenshtein_nonneg(a, b.drop_last());
        lemma_levenshtein_nonneg(a.drop_last(), b.drop_last());
        lemma_levenshtein_zero(a.drop_last(), b.drop_last());
        assert(a.last() == b.last());
        assert(a =~= a.drop_last().push(a.last()));
        assert(b =~= b.drop_last().push(b.last()));
    }
}

/// Relies on `levenshtein::levenshtein`, which computes the Levenshtein edit
/// distance between the two strings' character sequences by the classic
/// single-row dynamic program.
#[verifier::external_body]
pub fn levenshtein_distance(a: &str, b: &str) -> (r: usize)
    ensures
        r == spec_levenshtein(a@, b@),
{
    levenshtein::levenshtein(a, b)
}

/// Whether a price record matches a part name: the record is not an
/// aggregate "Set" entry, and its name, with the known source typo
/// corrected, starts with the part name.
pub open spec fn spec_price_match(p: PriceItem, part: Seq<char>) -> bool {
    &&& !spec_ends_with(p.name@, "Set"@)
    &&& spec_starts_with(spec_replace(p.name@, "Reciever"@, "Receiver"@), part)
}

/// The average price of the first matching record, if any.
pub open spec fn spec_price_of(prices: Seq<PriceItem>, part: Seq<char>) -> Option<u64>
    decreases prices.len(),
{
    if prices.len() == 0 {
        None
    } else if spec_price_match(prices[0], part) {
        Some(prices[0].custom_avg)
    } else {
        spec_price_of(prices.drop_first(), part)
    }
}

fn price_lookup(prices: &Vec<PriceItem>, part: &str) -> (r: Option<u64>)
    ensures
        r == spec_price_of(prices@, part@),
{
    let n = prices.len();
    let mut i: usize = 0;
    proof {
        assert(prices@.skip(0) =~= prices@);
    }
    while i < n
        invariant
            0 <= i <= n,
            n == prices@.len(),
            spec_price_of(prices@, part@) == spec_price_of(prices@.skip(i as int), part@),
        decreases n - i,
    {
        let ghost rest = prices@.skip(i as int);
        let p = &prices[i];
        proof {
            reveal_strlit("Reciever");
            assert("Reciever"@.len() == 8);
        }
        let fixed = replace(p.name.as_str(), "Reciever", "Receiver");
        if !ends_with(p.name.as_str(), "Set") && starts_with(fixed.as_str(), part) {
            proof {
                assert(rest[0] == prices@[i as int]);
                assert(spec_price_match(rest[0], part@));
            }
            return Some(p.custom_avg);
        }
        proof {
            assert(rest[0] == prices@[i as int]);
            assert(!spec_price_match(rest[0], part@));
            assert(rest.drop_first() =~= prices@.skip(i + 1));
        }
        i += 1;
    }
    proof {
        assert(prices@.skip(n as int) =~= Seq::<PriceItem>::empty());
    }
    None
}

/// The catalog entries the ignored-name list contributes: names carried
/// without a price.
pub open spec fn spec_ignored_models(ignored: Seq<(String, DucatItem)>) -> Seq<ItemModel> {
    Seq::new(
        ignored.len(),
        |i: int|
            ItemModel {
                name: ignored[i].0@,
                tokens: spec_tokens(ignored[i].0@),
                platinum: None,
                ducats: None,
                ignored: true,
                vaulted: false,
            },
    )
}

/// The catalog entry one equipment part contributes.
pub open spec fn spec_part_model(
    prices: Seq<PriceItem>,
    vaulted: bool,
    part: (String, DucatItem),
) -> ItemModel {
    ItemModel {
        name: part.0@,
        tokens: spec_tokens(part.0@),
        platinum: spec_price_of(prices, part.0@),
        ducats: Some(part.1.ducats),
        ignored: false,
        vaulted,
    }
}

/// The entries one equipment record's parts contribute, in order.
pub open spec fn spec_parts_models(
    prices: Seq<PriceItem>,
    vaulted: bool,
    parts: Seq<(String, DucatItem)>,
) -> Seq<ItemModel> {
    Seq::new(parts.len(), |i: int| spec_part_model(prices, vaulted, parts[i]))
}

/// The entries all equipment records contribute, record by record.
pub open spec fn spec_eqmt_models(
    prices: Seq<PriceItem>,
    eqmt: Seq<(String, EquipmentItem)>,
) -> Seq<ItemModel>
    decreases eqmt.len(),
{
    if eqmt.len() == 0 {
        Seq::empty()
    } else {
        spec_eqmt_models(prices, eqmt.drop_last()) + spec_parts_models(
            prices,
            eqmt.last().1.vaulted,
            eqmt.last().1.parts@,
        )
    }
}

/// The whole catalog: nothing when there is no price data at all, else the
/// ignored names followed by every equipment part, joined with its price.
pub open spec fn spec_build_models(
    prices: Seq<PriceItem>,
    ignored: Seq<(String, DucatItem)>,
    eqmt: Seq<(String, EquipmentItem)>,
) -> Seq<ItemModel> {
    if prices.len() == 0 {
        Seq::empty()
    } else {
        spec_ignored_models(ignored) + spec_eqmt_models(prices, eqmt)
    }
}

/// The least name length in the catalog; zero when it is empty.
pub open spec fn spec_min_name_len(models: Seq<ItemModel>) -> int
    decreases models.len(),
{
    if models.len() == 0 {
        0
    } else if models.len() == 1 {
        models[0].name.len() as int
    } else {
        let rest = spec_min_name_len(models.drop_last());
        if models.last().name.len() < rest {
            models.last().name.len() as int
        } else {
            rest
        }
    }
}

/// The greatest name length in the catalog; zero when it is empty.
pub open spec fn spec_max_name_len(models: Seq<ItemModel>) -> int
    decreases models.len(),
{
    if models.len() == 0 {
        0
    } else if models.len() == 1 {
        models[0].name.len() as int
    } else {
        let rest = spec_max_name_len(models.drop_last());
        if models.last().name.len() > rest {
            models.last().name.len() as int
        } else {
            rest
        }
    }
}

/// Every name length sits between the two bounds.
pub proof fn lemma_name_len_bounds(models: Seq<ItemModel>)
    ensures
        forall|k: int|
            0 <= k < models.len() ==> spec_min_name_len(models) <= (
            #[trigger] models[k]).name.len() <= spec_max_name_len(models),
    decreases models.len(),
{
    if models.len() > 1 {
        lemma_name_len_bounds(models.drop_last());
        assert(forall|k: int|
            0 <= k < models.len() - 1 ==> models.drop_last()[k] == #[trigger] models[k]);
    }
}

/// The tokenized, length-indexed item catalog.
#[derive(Debug)]
pub struct Items {
    pub items: Vec<Item>,
    pub min_len: usize,
    pub max_len: usize,
}

impl View for Items {
    type V = Seq<ItemModel>;

    open spec fn view(&self) -> Seq<ItemModel> {
        Seq::new(self.items@.len(), |i: int| self.items@[i]@)
    }
}

impl Items {
    /// Entries carry their own tokens, and the length bounds cover every
    /// name.
    pub open spec fn wf(&self) -> bool {
        &&& forall|k: int| 0 <= k < self@.len() ==> (#[trigger] self@[k]).wf()
        &&& forall|k: int|
            0 <= k < self@.len() ==> self.min_len <= (#[trigger] self@[k]).name.len()
                <= self.max_len
        &&& self.min_len == spec_min_name_len(self@)
        &&& self.max_len == spec_max_name_len(self@)
    }

    /// Builds the catalog by merging price records into equipment parts: the
    /// ignored names first without prices, then every part of every
    /// equipment record with the price of the first matching record, and the
    /// name-length bounds over everything. No price data at all yields an
    /// empty catalog.
    #[verifier::rlimit(60)]
    pub fn new(price_items: Vec<PriceItem>, filtered_items: FilteredItems) -> (r: Items)
        requires
            filtered_items.wf(),
        ensures
            r@ == spec_build_models(
                price_items@,
                filtered_items.ignored_items@,
                filtered_items.eqmt@,
            ),
            r.wf(),
    {
        if price_items.len() == 0 {
            let r = Items { items: Vec::new(), min_len: 0, max_len: 0 };
            proof {
                assert(r@ =~= spec_build_models(
                    price_items@,
                    filtered_items.ignored_items@,
                    filtered_items.eqmt@,
                ));
            }
            return r;
        }
        let ghost ignored_models = spec_ignored_models(filtered_items.ignored_items@);
        let mut items: Vec<Item> = Vec::new();

        let n_ign = filtered_items.ignored_items.len();
        let mut i: usize = 0;
        while i < n_ign
            invariant
                0 <= i <= n_ign,
                n_ign == filtered_items.ignored_items@.len(),
                ignored_models == spec_ignored_models(filtered_items.ignored_items@),
                items@.len() == i,
                forall|k: int|
                    0 <= k < i ==> (#[trigger] items@[k])@ == ignored_models[k],
            decreases n_ign - i,
        {
            let name = filtered_items.ignored_items[i].0.clone();
            items.push(Item::new(name, None, None, true, false));
            proof {
                assert(items@[i as int]@ == ignored_models[i as int]);
            }
            i += 1;
        }

        let ghost prices = price_items@;
        let n_eq = filtered_items.eqmt.len();
        let mut e: usize = 0;
        while e < n_eq
            invariant
                0 <= e <= n_eq,
                n_eq == filtered_items.eqmt@.len(),
                n_ign == filtered_items.ignored_items@.len(),
                ignored_models == spec_ignored_models(filtered_items.ignored_items@),
                prices == price_items@,
                Seq::new(items@.len(), |k: int| items@[k]@) =~= ignored_models
                    + spec_eqmt_models(prices, filtered_items.eqmt@.subrange(0, e as int)),
            decreases n_eq - e,
        {
            let ghost before = Seq::new(items@.len(), |k: int| items@[k]@);
            let vaulted = filtered_items.eqmt[e].1.vaulted;
            let n_parts = filtered_items.eqmt[e].1.parts.len();
            let ghost parts = filtered_items.eqmt@[e as int].1.parts@;
            let mut p: usize = 0;
            while p < n_parts
                invariant
                    0 <= p <= n_parts,
                    e < n_eq == filtered_items.eqmt@.len(),
                    n_parts == parts.len(),
                    parts == filtered_items.eqmt@[e as int].1.parts@,
                    vaulted == filtered_items.eqmt@[e as int].1.vaulted,
                    prices == price_items@,
                    Seq::new(items@.len(), |k: int| items@[k]@) =~= before + spec_parts_models(
                        prices,
                        vaulted,
                        parts,
                    ).subrange(0, p as int),
                decreases n_parts - p,
            {
                let ghost prev_view = Seq::new(items@.len(), |k: int| items@[k]@);
                let pname = filtered_items.eqmt[e].1.parts[p].0.clone();
                let ducats = filtered_items.eqmt[e].1.parts[p].1.ducats;
                let platinum = price_lookup(&price_items, pname.as_str());
                items.push(Item::new(pname, platinum, Some(ducats), false, vaulted));
                proof {
                    assert(Seq::new(items@.len(), |k: int| items@[k]@) =~= prev_view.push(
                        items@[items@.len() - 1]@,
                    ));
                    assert(items@[items@.len() - 1]@ == spec_part_model(
                        prices,
                        vaulted,
                        parts[p as int],
                    ));
                    assert(spec_parts_models(prices, vaulted, parts).subrange(0, p + 1)
                        =~= spec_parts_models(prices, vaulted, parts).subrange(
                        0,
                        p as int,
                    ).push(spec_part_model(prices, vaulted, parts[p as int])));
                }
                p += 1;
            }
            proof {
                assert(spec_parts_models(prices, vaulted, parts).subrange(0, n_parts as int)
                    =~= spec_parts_models(prices, vaulted, parts));
                let pre = filtered_items.eqmt@.subrange(0, e as int);
                let cur = filtered_items.eqmt@.subrange(0, e + 1);
                assert(cur.drop_last() =~= pre);
                assert(cur.last() == filtered_items.eqmt@[e as int]);
                assert(Seq::new(items@.len(), |k: int| items@[k]@) =~= ignored_models
                    + spec_eqmt_models(prices, cur));
            }
            e += 1;
        }
        proof {
            assert(filtered_items.eqmt@.subrange(0, n_eq as int) =~= filtered_items.eqmt@);
        }

        let ghost models = spec_build_models(
            price_items@,
            filtered_items.ignored_items@,
            filtered_items.eqmt@,
        );
        proof {
            assert(Seq::new(items@.len(), |k: int| items@[k]@) =~= models);
        }

        let n = items.len();
        let mut min_len: usize = 0;
        let mut max_len: usize = 0;
        if n > 0 {
            min_len = items[0].name.as_str().unicode_len();
            max_len = min_len;
            proof {
                assert(models.subrange(0, 1).len() == 1);
                assert(models.subrange(0, 1)[0] == models[0]);
            }
            let mut k: usize = 1;
            while k < n
                invariant
                    1 <= k <= n,
                    n == items@.len(),
                    models == Seq::new(items@.len(), |t: int| items@[t]@),
                    min_len == spec_min_name_len(models.subrange(0, k as int)),
                    max_len == spec_max_name_len(models.subrange(0, k as int)),
                decreases n - k,
            {
                let l = items[k].name.as_str().unicode_len();
                proof {
                    let pre = models.subrange(0, k as int);
                    let cur = models.subrange(0, k + 1);
                    assert(cur.drop_last() =~= pre);
                    assert(cur.last() == models[k as int]);
                    assert(cur.len() >= 2);
                }
                if l < min_len {
                    min_len = l;
                }
                if l > max_len {
                    max_len = l;
                }
                k += 1;
            }
            proof {
                assert(models.subrange(0, n as int) =~= models);
            }
        }
        let r = Items { items, min_len, max_len };
        proof {
            assert(r@ =~= models);
            lemma_name_len_bounds(models);
            assert forall|k: int| 0 <= k < r@.len() implies (#[trigger] r@[k]).wf() by {
                lemma_build_models_wf(
                    price_items@,
                    filtered_items.ignored_items@,
                    filtered_items.eqmt@,
                );
            }
        }
        r
    }
}

/// Whether a candidate passes the distance filter for the query token `tok`
/// at token position `i`: it has a token there, and the edit distance stays
/// within a third of that token's own length.
pub open spec fn spec_eligible(c: ItemModel, tok: Seq<char>, i: int) -> bool {
    &&& i < c.tokens.len()
    &&& c.tokens[i].len() as int / 3 >= spec_levenshtein(c.tokens[i], tok)
}

/// The first candidate achieving the least edit distance among those that
/// pass the filter, with that distance; nothing when none passes.
pub open spec fn spec_best(cands: Seq<ItemModel>, tok: Seq<char>, i: int) -> Option<(int, int)>
    decreases cands.len(),
{
    if cands.len() == 0 {
        None
    } else {
        let prev = spec_best(cands.drop_last(), tok, i);
        let l = cands.last();
        if spec_eligible(l, tok, i) {
            let ls = spec_levenshtein(l.tokens[i], tok);
            match prev {
                None => Some((cands.len() - 1, ls)),
                Some(b) => if ls < b.1 {
                    Some((cands.len() - 1, ls))
                } else {
                    Some(b)
                },
            }
        } else {
            prev
        }
    }
}

/// The candidates whose token at position `i` is exactly `bt`, in order.
pub open spec fn spec_keep(cands: Seq<ItemModel>, bt: Seq<char>, i: int) -> Seq<ItemModel>
    decreases cands.len(),
{
    if cands.len() == 0 {
        Seq::empty()
    } else {
        let rest = spec_keep(cands.drop_last(), bt, i);
        if i < cands.last().tokens.len() && cands.last().tokens[i] == bt {
            rest.push(cands.last())
        } else {
            rest
        }
    }
}

/// One narrowing pass: when some candidate passes the distance filter, the
/// set shrinks to those sharing the winning candidate's exact token at this
/// position; when none passes, the set is left unchanged.
pub open spec fn spec_narrow(cands: Seq<ItemModel>, tok: Seq<char>, i: int) -> Seq<ItemModel> {
    match spec_best(cands, tok, i) {
        None => cands,
        Some(b) => spec_keep(cands, cands[b.0].tokens[i], i),
    }
}

/// The candidate set after the narrowing passes for the query tokens from
/// position `i` on.
pub open spec fn spec_cascade(cands: Seq<ItemModel>, toks: Seq<Seq<char>>, i: int) -> Seq<
    ItemModel,
>
    decreases toks.len() - i,
{
    if i < 0 || i >= toks.len() {
        cands
    } else {
        spec_cascade(spec_narrow(cands, toks[i], i), toks, i + 1)
    }
}

/// What resolving a recognized name returns: nothing when the trimmed
/// length falls outside the catalog's bounds or the cascade empties the
/// candidate set, else the first remaining candidate.
pub open spec fn spec_find(
    items: Seq<ItemModel>,
    min_len: int,
    max_len: int,
    name: Seq<char>,
) -> Option<ItemModel> {
    let t = spec_trim(name);
    if !(min_len <= t.len() <= max_len) {
        None
    } else {
        let fin = spec_cascade(items, spec_tokens(t), 0);
        if fin.len() == 0 {
            None
        } else {
            Some(fin[0])
        }
    }
}

impl Items {
    /// Resolves a recognized, possibly corrupted item name: rejects inputs
    /// whose trimmed length falls outside the catalog's name-length bounds,
    /// then narrows the candidate set token by token, tolerating an edit
    /// distance of up to a third of each candidate token's length, and
    /// returns the first candidate left.
    #[verifier::rlimit(60)]
    pub fn find_item(&self, item_name: &str) -> (r: Option<&Item>)
        requires
            self.wf(),
        ensures
            match r {
                Some(it) => spec_find(
                    self@,
                    self.min_len as int,
                    self.max_len as int,
                    item_name@,
                ) == Some(it@),
                None => spec_find(self@, self.min_len as int, self.max_len as int, item_name@)
                    is None,
            },
    {
        let trimmed = trim(item_name);
        let tlen = trimmed.unicode_len();
        if tlen < self.min_len || tlen > self.max_len {
            return None;
        }
        let toks = tokenize(trimmed);
        let ghost toksv = toks.deep_view();
        let n_toks = toks.len();
        let n_items = self.items.len();

        let mut cands: Vec<usize> = Vec::new();
        let mut t: usize = 0;
        while t < n_items
            invariant
                0 <= t <= n_items,
                n_items == self.items@.len(),
                cands@.len() == t,
                forall|k: int| 0 <= k < t ==> (#[trigger] cands@[k]) == k,
            decreases n_items - t,
        {
            cands.push(t);
            t += 1;
        }
        proof {
            assert(Seq::new(cands@.len(), |k: int| self@[cands@[k] as int]) =~= self@);
        }

        let mut i: usize = 0;
        while i < n_toks
            invariant
                0 <= i <= n_toks,
                n_toks == toksv.len(),
                toksv == toks.deep_view(),
                n_items == self.items@.len(),
                self@.len() == n_items,
                forall|k: int| 0 <= k < cands@.len() ==> (#[trigger] cands@[k]) < n_items,
                spec_cascade(self@, toksv, 0) == spec_cascade(
                    Seq::new(cands@.len(), |k: int| self@[cands@[k] as int]),
                    toksv,
                    i as int,
                ),
            decreases n_toks - i,
        {
            let ghost cur = Seq::new(cands@.len(), |k: int| self@[cands@[k] as int]);
            let ghost tokv = toksv[i as int];
            let n_c = cands.len();

            let mut best_pos: usize = 0;
            let mut best_score: usize = 0;
            let mut have_best: bool = false;
            let mut k: usize = 0;
            proof {
                assert(cur.subrange(0, 0) =~= Seq::<ItemModel>::empty());
            }
            while k < n_c
                invariant
                    0 <= k <= n_c,
                    n_c == cands@.len(),
                    n_items == self.items@.len(),
                    self@.len() == n_items,
                    forall|t2: int| 0 <= t2 < cands@.len() ==> (#[trigger] cands@[t2]) < n_items,
                    cur == Seq::new(cands@.len(), |t2: int| self@[cands@[t2] as int]),
                    tokv == toksv[i as int],
                    i < n_toks == toksv.len(),
                    toksv == toks.deep_view(),
                    have_best ==> best_pos < k,
                    have_best ==> spec_eligible(cur[best_pos as int], tokv, i as int),
                    match spec_best(cur.subrange(0, k as int), tokv, i as int) {
                        None => !have_best,
                        Some(b) => have_best && b.0 == best_pos && b.1 == best_score,
                    },
                decreases n_c - k,
            {
                proof {
                    let pre = cur.subrange(0, k as int);
                    let ext = cur.subrange(0, k + 1);
                    assert(ext.drop_last() =~= pre);
                    assert(ext.last() == cur[k as int]);
                }
                let it = &self.items[cands[k]];
                proof {
                    assert(it@ == cur[k as int]);
                }
                let nt = it.tokens.len();
                if i < nt {
                    proof {
                        assert(it.tokens@[i as int]@ == it@.tokens[i as int]);
                    }
                    let score = levenshtein_distance(it.tokens[i].as_str(), toks[i].as_str());
                    let third = it.tokens[i].as_str().unicode_len() / 3;
                    if third >= score {
                        proof {
                            assert(spec_eligible(cur[k as int], tokv, i as int));
                        }
                        if !have_best {
                            have_best = true;
                            best_pos = k;
                            best_score = score;
                        } else if score < best_score {
                            best_pos = k;
                            best_score = score;
                        }
                    } else {
                        proof {
                            assert(!spec_eligible(cur[k as int], tokv, i as int));
                        }
                    }
                } else {
                    proof {
                        assert(!spec_eligible(cur[k as int], tokv, i as int));
                    }
                }
                k += 1;
            }
            proof {
                assert(cur.subrange(0, n_c as int) =~= cur);
            }

            if have_best {
                let bi = cands[best_pos];
                let ghost bt = cur[best_pos as int].tokens[i as int];
                proof {
                    assert(self.items@[bi as int]@ == cur[best_pos as int]);
                    assert(spec_best(cur, tokv, i as int) matches Some(b) && b.0 == best_pos);
                    assert(i < self.items@[bi as int]@.tokens.len());
                }
                let mut new_cands: Vec<usize> = Vec::new();
                let mut k2: usize = 0;
                proof {
                    assert(cur.subrange(0, 0) =~= Seq::<ItemModel>::empty());
                    assert(spec_keep(cur.subrange(0, 0), bt, i as int) =~= Seq::<
                        ItemModel,
                    >::empty());
                }
                while k2 < n_c
                    invariant
                        0 <= k2 <= n_c,
                        n_c == cands@.len(),
                        n_items == self.items@.len(),
                        self@.len() == n_items,
                        forall|t2: int|
                            0 <= t2 < cands@.len() ==> (#[trigger] cands@[t2]) < n_items,
                        forall|t2: int|
                            0 <= t2 < new_cands@.len() ==> (#[trigger] new_cands@[t2]) < n_items,
                        cur == Seq::new(cands@.len(), |t2: int| self@[cands@[t2] as int]),
                        bi < n_items,
                        bt == self.items@[bi as int]@.tokens[i as int],
                        i < self.items@[bi as int]@.tokens.len(),
                        i < n_toks == toksv.len(),
                        Seq::new(new_cands@.len(), |t2: int| self@[new_cands@[t2] as int])
                            =~= spec_keep(cur.subrange(0, k2 as int), bt, i as int),
                    decreases n_c - k2,
                {
                    proof {
                        let pre = cur.subrange(0, k2 as int);
                        let ext = cur.subrange(0, k2 + 1);
                        assert(ext.drop_last() =~= pre);
                        assert(ext.last() == cur[k2 as int]);
                    }
                    let it = &self.items[cands[k2]];
                    proof {
                        assert(it@ == cur[k2 as int]);
                    }
                    let nt = it.tokens.len();
                    if i < nt {
                        proof {
                            assert(it.tokens@[i as int]@ == it@.tokens[i as int]);
                            assert(self.items@[bi as int].tokens@[i as int]@ == self.items@[
                                bi as int]@.tokens[i as int]);
                        }
                        if crate::util::str_eq(
                            it.tokens[i].as_str(),
                            self.items[bi].tokens[i].as_str(),
                        ) {
                            new_cands.push(cands[k2]);
                        }
                    }
                    k2 += 1;
                }
                proof {
                    assert(cur.subrange(0, n_c as int) =~= cur);
                    assert(spec_narrow(cur, tokv, i as int) == spec_keep(cur, bt, i as int));
                    assert(Seq::new(new_cands@.len(), |t2: int| self@[new_cands@[t2] as int])
                        =~= spec_narrow(cur, tokv, i as int));
                }
                cands = new_cands;
            } else {
                proof {
                    assert(spec_best(cur, tokv, i as int) is None);
                    assert(spec_narrow(cur, tokv, i as int) == cur);
                }
            }
            i += 1;
        }

        proof {
            assert(spec_cascade(self@, toksv, 0) == Seq::new(
                cands@.len(),
                |k: int| self@[cands@[k] as int],
            ));
        }
        if cands.len() == 0 {
            None
        } else {
            let idx = cands[0];
            proof {
                assert(self.items@[idx as int]@ == spec_cascade(self@, toksv, 0)[0]);
            }
            Some(&self.items[idx])
        }
    }
}

/// A recognized name whose trimmed length falls outside the catalog's
/// name-length bounds resolves to nothing.
pub proof fn lemma_find_rejects_out_of_bounds(
    items: Seq<ItemModel>,
    min_len: int,
    max_len: int,
    name: Seq<char>,
)
    requires
        spec_trim(name).len() < min_len || spec_trim(name).len() > max_len,
    ensures
        spec_find(items, min_len, max_len, name) is None,
{
}

/// The winner of a pass is an eligible candidate with the least distance,
/// earliest on ties; when there is no winner, nothing was eligible.
pub proof fn lemma_spec_best_props(cands: Seq<ItemModel>, tok: Seq<char>, i: int)
    ensures
        match spec_best(cands, tok, i) {
            None => forall|k: int|
                0 <= k < cands.len() ==> !spec_eligible(#[trigger] cands[k], tok, i),
            Some(b) => {
                &&& 0 <= b.0 < cands.len()
                &&& spec_eligible(cands[b.0], tok, i)
                &&& b.1 == spec_levenshtein(cands[b.0].tokens[i], tok)
                &&& forall|k: int|
                    0 <= k < cands.len() && spec_eligible(#[trigger] cands[k], tok, i)
                        ==> b.1 <= spec_levenshtein(cands[k].tokens[i], tok)
            },
        },
    decreases cands.len(),
{
    if cands.len() > 0 {
        lemma_spec_best_props(cands.drop_last(), tok, i);
        assert(forall|k: int|
            0 <= k < cands.len() - 1 ==> cands.drop_last()[k] == #[trigger] cands[k]);
    }
}

/// Membership in a kept set: exactly the candidates carrying the winning
/// token at this position stay.
pub proof fn lemma_spec_keep_membership(cands: Seq<ItemModel>, bt: Seq<char>, i: int)
    ensures
        forall|x: ItemModel|
            #[trigger] spec_keep(cands, bt, i).contains(x) ==> cands.contains(x) && i
                < x.tokens.len() && x.tokens[i] == bt,
        forall|x: ItemModel|
            #[trigger] cands.contains(x) && i < x.tokens.len() && x.tokens[i] == bt ==> spec_keep(
                cands,
                bt,
                i,
            ).contains(x),
    decreases cands.len(),
{
    if cands.len() > 0 {
        lemma_spec_keep_membership(cands.drop_last(), bt, i);
        let kept = spec_keep(cands, bt, i);
        let rest = spec_keep(cands.drop_last(), bt, i);
        assert forall|x: ItemModel| #[trigger] kept.contains(x) implies cands.contains(x) && i
            < x.tokens.len() && x.tokens[i] == bt by {
            if i < cands.last().tokens.len() && cands.last().tokens[i] == bt {
                assert(kept == rest.push(cands.last()));
                if x == cands.last() {
                    assert(cands[cands.len() - 1] == x);
                } else {
                    let t = choose|t: int| 0 <= t < kept.len() && kept[t] == x;
                    assert(rest[t] == x);
                    assert(rest.contains(x));
                    let u = choose|u: int| 0 <= u < cands.drop_last().len()
                        && cands.drop_last()[u] == x;
                    assert(cands[u] == x);
                }
            } else {
                assert(kept == rest);
                let u = choose|u: int| 0 <= u < cands.drop_last().len() && cands.drop_last()[u]
                    == x;
                assert(cands[u] == x);
            }
        }
        assert forall|x: ItemModel|
            #[trigger] cands.contains(x) && i < x.tokens.len() && x.tokens[i]
                == bt implies kept.contains(x) by {
            let t = choose|t: int| 0 <= t < cands.len() && cands[t] == x;
            if t == cands.len() - 1 {
                assert(cands.last() == x);
                assert(kept == rest.push(x));
                assert(kept[kept.len() - 1] == x);
            } else {
                assert(cands.drop_last()[t] == x);
                assert(cands.drop_last().contains(x));
                assert(rest.contains(x));
                let u = choose|u: int| 0 <= u < rest.len() && rest[u] == x;
                if i < cands.last().tokens.len() && cands.last().tokens[i] == bt {
                    assert(kept == rest.push(cands.last()));
                    assert(kept[u] == x);
                } else {
                    assert(kept == rest);
                }
            }
        }
    }
}

/// A candidate has at least `i` tokens and agrees with the query tokens on
/// every position below `i`.
pub open spec fn spec_prefix_ok(x: ItemModel, toks: Seq<Seq<char>>, i: int) -> bool {
    &&& x.tokens.len() >= i
    &&& forall|j: int| 0 <= j < i ==> x.tokens[j] == toks[j]
}

/// When a candidate whose tokens are exactly the query tokens is in the
/// set, the cascade never empties it, and everything that survives extends
/// the query token for token.
proof fn lemma_cascade_keeps_exact(
    cands: Seq<ItemModel>,
    toks: Seq<Seq<char>>,
    i: int,
    entry: ItemModel,
)
    requires
        0 <= i <= toks.len(),
        cands.contains(entry),
        entry.tokens == toks,
        forall|x: ItemModel| #[trigger] cands.contains(x) ==> spec_prefix_ok(x, toks, i),
    ensures
        spec_cascade(cands, toks, i).len() > 0,
        forall|x: ItemModel|
            #[trigger] spec_cascade(cands, toks, i).contains(x) ==> cands.contains(x)
                && spec_prefix_ok(x, toks, toks.len() as int),
    decreases toks.len() - i,
{
    if i >= toks.len() {
        let t = choose|t: int| 0 <= t < cands.len() && cands[t] == entry;
        assert(spec_cascade(cands, toks, i) == cands);
    } else {
        let tok = toks[i];
        let t = choose|t: int| 0 <= t < cands.len() && cands[t] == entry;
        lemma_levenshtein_self(tok);
        assert(entry.tokens[i] == tok);
        vstd::arithmetic::div_mod::lemma_div_is_ordered(0, entry.tokens[i].len() as int, 3);
        assert(spec_eligible(entry, tok, i));
        lemma_spec_best_props(cands, tok, i);
        match spec_best(cands, tok, i) {
            None => {
                assert(!spec_eligible(cands[t], tok, i));
                assert(false);
            },
            Some(b) => {
                assert(b.1 <= spec_levenshtein(cands[t].tokens[i], tok));
                lemma_levenshtein_nonneg(cands[b.0].tokens[i], tok);
                assert(b.1 == 0);
                lemma_levenshtein_zero(cands[b.0].tokens[i], tok);
                let bt = cands[b.0].tokens[i];
                assert(bt == tok);
                lemma_spec_keep_membership(cands, bt, i);
                let kept = spec_keep(cands, bt, i);
                assert(spec_narrow(cands, tok, i) == kept);
                assert(kept.contains(entry));
                assert forall|x: ItemModel| #[trigger] kept.contains(x) implies spec_prefix_ok(
                    x,
                    toks,
                    i + 1,
                ) by {
                    assert(cands.contains(x));
                }
                lemma_cascade_keeps_exact(kept, toks, i + 1, entry);
                assert(spec_cascade(cands, toks, i) == spec_cascade(kept, toks, i + 1));
            },
        }
    }
}

/// The exact-match law: resolving a name that the catalog holds verbatim
/// succeeds, and, when no other entry's tokens extend that name's tokens,
/// returns an entry carrying exactly that name.
pub proof fn lemma_find_exact_match(
    items: Seq<ItemModel>,
    min_len: int,
    max_len: int,
    name: Seq<char>,
)
    requires
        spec_trim(name) == name,
        min_len <= name.len() <= max_len,
        exists|t: int|
            0 <= t < items.len() && (#[trigger] items[t]).name == name && items[t].wf(),
        forall|k: int|
            0 <= k < items.len() && spec_prefix_ok(
                #[trigger] items[k],
                spec_tokens(name),
                spec_tokens(name).len() as int,
            ) ==> items[k].name == name,
    ensures
        spec_find(items, min_len, max_len, name) matches Some(e) && e.name == name,
{
    let toks = spec_tokens(name);
    let t = choose|t: int| 0 <= t < items.len() && (#[trigger] items[t]).name == name
        && items[t].wf();
    let entry = items[t];
    assert(entry.tokens == toks);
    assert(items.contains(entry));
    assert(forall|x: ItemModel| #[trigger] items.contains(x) ==> spec_prefix_ok(x, toks, 0));
    lemma_cascade_keeps_exact(items, toks, 0, entry);
    let fin = spec_cascade(items, toks, 0);
    assert(fin.contains(fin[0]));
    let u = choose|u: int| 0 <= u < items.len() && items[u] == fin[0];
    assert(items[u].name == name);
}

/// When the query agrees with a surviving entry on every token except one,
/// where the entry passes the distance filter and every other candidate that
/// also passes there either sits strictly farther or carries the entry's own
/// token, the cascade keeps the entry, and every survivor agrees with the
/// entry token for token.
proof fn lemma_cascade_keeps_tolerant(
    cands: Seq<ItemModel>,
    toks: Seq<Seq<char>>,
    i: int,
    entry: ItemModel,
    d: int,
)
    requires
        0 <= i <= toks.len(),
        0 <= d < toks.len(),
        cands.contains(entry),
        entry.tokens.len() == toks.len(),
        forall|j: int| 0 <= j < toks.len() && j != d ==> #[trigger] entry.tokens[j] == toks[j],
        spec_eligible(entry, toks[d], d),
        forall|x: ItemModel|
            #[trigger] cands.contains(x) && spec_eligible(x, toks[d], d) ==> spec_levenshtein(
                x.tokens[d],
                toks[d],
            ) > spec_levenshtein(entry.tokens[d], toks[d]) || x.tokens[d] == entry.tokens[d],
        forall|x: ItemModel| #[trigger] cands.contains(x) ==> spec_prefix_ok(x, entry.tokens, i),
    ensures
        spec_cascade(cands, toks, i).len() > 0,
        forall|x: ItemModel|
            #[trigger] spec_cascade(cands, toks, i).contains(x) ==> cands.contains(x)
                && spec_prefix_ok(x, entry.tokens, toks.len() as int),
    decreases toks.len() - i,
{
    if i >= toks.len() {
        let t = choose|t: int| 0 <= t < cands.len() && cands[t] == entry;
        assert(spec_cascade(cands, toks, i) == cands);
    } else {
        let tok = toks[i];
        let t = choose|t: int| 0 <= t < cands.len() && cands[t] == entry;
        lemma_spec_best_props(cands, tok, i);
        if i != d {
            lemma_levenshtein_self(tok);
            assert(entry.tokens[i] == tok);
            vstd::arithmetic::div_mod::lemma_div_is_ordered(0, entry.tokens[i].len() as int, 3);
            assert(spec_eligible(entry, tok, i));
        }
        match spec_best(cands, tok, i) {
            None => {
                assert(!spec_eligible(cands[t], tok, i));
                assert(false);
            },
            Some(b) => {
                assert(b.1 <= spec_levenshtein(cands[t].tokens[i], tok));
                let bt = cands[b.0].tokens[i];
                if i != d {
                    lemma_levenshtein_nonneg(cands[b.0].tokens[i], tok);
                    assert(b.1 == 0);
                    lemma_levenshtein_zero(cands[b.0].tokens[i], tok);
                    assert(bt == entry.tokens[i]);
                } else {
                    assert(cands.contains(cands[b.0]));
                    assert(bt == entry.tokens[d]);
                }
                lemma_spec_keep_membership(cands, bt, i);
                let kept = spec_keep(cands, bt, i);
                assert(spec_narrow(cands, tok, i) == kept);
                assert(kept.contains(entry));
                assert forall|x: ItemModel| #[trigger] kept.contains(x) implies spec_prefix_ok(
                    x,
                    entry.tokens,
                    i + 1,
                ) by {
                    assert(cands.contains(x));
                }
                assert forall|x: ItemModel|
                    #[trigger] kept.contains(x) && spec_eligible(x, toks[d], d)
                        implies spec_levenshtein(x.tokens[d], toks[d]) > spec_levenshtein(
                    entry.tokens[d],
                    toks[d],
                ) || x.tokens[d] == entry.tokens[d] by {
                    assert(cands.contains(x));
                }
                lemma_cascade_keeps_tolerant(kept, toks, i + 1, entry, d);
                assert(spec_cascade(cands, toks, i) == spec_cascade(kept, toks, i + 1));
            },
        }
    }
}

/// The tolerance law: a recognized name that differs from a catalog entry's
/// name in exactly one token, within that token's third-of-length edit
/// tolerance — for instance one substituted character in a token of at least
/// four characters, at distance 1 with 4 / 3 = 1 — still resolves to an
/// entry carrying the first entry's name, provided no candidate passing the
/// filter at the corrupted position sits as close with a different token,
/// and no other entry's tokens extend the entry's.
pub proof fn lemma_find_tolerates_corrupted_token(
    items: Seq<ItemModel>,
    min_len: int,
    max_len: int,
    name: Seq<char>,
    entry: ItemModel,
    d: int,
)
    requires
        items.contains(entry),
        min_len <= spec_trim(name).len() <= max_len,
        0 <= d < spec_tokens(spec_trim(name)).len(),
        entry.tokens.len() == spec_tokens(spec_trim(name)).len(),
        forall|j: int|
            0 <= j < spec_tokens(spec_trim(name)).len() && j != d ==> #[trigger] entry.tokens[j]
                == spec_tokens(spec_trim(name))[j],
        spec_eligible(entry, spec_tokens(spec_trim(name))[d], d),
        forall|k: int|
            0 <= k < items.len() && spec_eligible(
                #[trigger] items[k],
                spec_tokens(spec_trim(name))[d],
                d,
            ) ==> spec_levenshtein(items[k].tokens[d], spec_tokens(spec_trim(name))[d])
                > spec_levenshtein(entry.tokens[d], spec_tokens(spec_trim(name))[d])
                || items[k].tokens[d] == entry.tokens[d],
        forall|k: int|
            0 <= k < items.len() && #[trigger] spec_prefix_ok(
                items[k],
                entry.tokens,
                entry.tokens.len() as int,
            ) ==> items[k].name == entry.name,
    ensures
        spec_find(items, min_len, max_len, name) matches Some(e) && e.name == entry.name,
{
    let toks = spec_tokens(spec_trim(name));
    assert(forall|x: ItemModel| #[trigger] items.contains(x) ==> spec_prefix_ok(
        x,
        entry.tokens,
        0,
    ));
    assert forall|x: ItemModel|
        #[trigger] items.contains(x) && spec_eligible(x, toks[d], d) implies spec_levenshtein(
        x.tokens[d],
        toks[d],
    ) > spec_levenshtein(entry.tokens[d], toks[d]) || x.tokens[d] == entry.tokens[d] by {
        let k = choose|k: int| 0 <= k < items.len() && items[k] == x;
        assert(spec_eligible(items[k], toks[d], d));
    }
    lemma_cascade_keeps_tolerant(items, toks, 0, entry, d);
    let fin = spec_cascade(items, toks, 0);
    assert(fin.contains(fin[0]));
    let u = choose|u: int| 0 <= u < items.len() && items[u] == fin[0];
    assert(spec_prefix_ok(items[u], entry.tokens, entry.tokens.len() as int));
    assert(items[u].name == entry.name);
}

/// Resolving a list of names that the catalog holds verbatim succeeds slot
/// by slot: each resolves to an entry carrying exactly that name, provided
/// no other entry's tokens extend it.
pub proof fn lemma_resolve_exact_names(items: &Items, names: Seq<Seq<char>>)
    requires
        items.wf(),
        forall|k: int| 0 <= k < names.len() ==> spec_trim(#[trigger] names[k]) == names[k],
        forall|k: int|
            0 <= k < names.len() ==> exists|t: int|
                0 <= t < items@.len() && (#[trigger] items@[t]).name == #[trigger] names[k],
        forall|k: int, t: int|
            #![trigger spec_prefix_ok(items@[t], spec_tokens(names[k]), spec_tokens(names[k]).len() as int)]
            0 <= k < names.len() && 0 <= t < items@.len() && spec_prefix_ok(
                items@[t],
                spec_tokens(names[k]),
                spec_tokens(names[k]).len() as int,
            ) ==> items@[t].name == names[k],
    ensures
        forall|k: int|
            0 <= k < names.len() ==> (spec_find(
                items@,
                items.min_len as int,
                items.max_len as int,
                #[trigger] names[k],
            ) matches Some(e) && e.name == names[k]),
{
    assert forall|k: int| 0 <= k < names.len() implies (spec_find(
        items@,
        items.min_len as int,
        items.max_len as int,
        #[trigger] names[k],
    ) matches Some(e) && e.name == names[k]) by {
        lemma_find_item_exact(items, names[k]);
    }
}

/// The exact-match law stated on a built catalog: a well-formed catalog
/// resolves each of its own names, provided no other entry's tokens extend
/// that name's tokens, to an entry carrying exactly that name.
pub proof fn lemma_find_item_exact(items: &Items, name: Seq<char>)
    requires
        items.wf(),
        spec_trim(name) == name,
        exists|t: int| 0 <= t < items@.len() && (#[trigger] items@[t]).name == name,
        forall|k: int|
            0 <= k < items@.len() && spec_prefix_ok(
                #[trigger] items@[k],
                spec_tokens(name),
                spec_tokens(name).len() as int,
            ) ==> items@[k].name == name,
    ensures
        spec_find(items@, items.min_len as int, items.max_len as int, name) matches Some(e)
            && e.name == name,
{
    let t = choose|t: int| 0 <= t < items@.len() && (#[trigger] items@[t]).name == name;
    assert(items@[t].wf());
    assert(items.min_len <= items@[t].name.len() <= items.max_len);
    lemma_find_exact_match(items@, items.min_len as int, items.max_len as int, name);
}

/// The whole-platinum key the overlay ranks resolved rewards by: thousandths
/// rounded down to whole platinum, nothing counting as zero.
pub open spec fn spec_plat_key(m: ItemModel) -> int {
    (match m.platinum {
        Some(p) => p as int,
        None => 0,
    }) / 1000
}

/// The position of the highest-priced entry, latest on ties.
pub open spec fn spec_highest_platinum(models: Seq<ItemModel>) -> int
    decreases models.len(),
{
    if models.len() <= 1 {
        0
    } else {
        let prev = spec_highest_platinum(models.drop_last());
        if spec_plat_key(models.last()) >= spec_plat_key(models[prev]) {
            models.len() - 1
        } else {
            prev
        }
    }
}

/// The length, in characters, of the longest name among resolved rewards.
pub fn longest_name_len(items: &Vec<Item>) -> (r: usize)
    ensures
        r == spec_max_name_len(Seq::new(items@.len(), |i: int| items@[i]@)),
{
    let ghost models = Seq::new(items@.len(), |i: int| items@[i]@);
    let n = items.len();
    if n == 0 {
        return 0;
    }
    let mut best = items[0].name.as_str().unicode_len();
    proof {
        assert(models.subrange(0, 1).len() == 1);
        assert(models.subrange(0, 1)[0] == models[0]);
    }
    let mut k: usize = 1;
    while k < n
        invariant
            1 <= k <= n,
            n == items@.len(),
            models == Seq::new(items@.len(), |i: int| items@[i]@),
            best == spec_max_name_len(models.subrange(0, k as int)),
        decreases n - k,
    {
        proof {
            let pre = models.subrange(0, k as int);
            let cur = models.subrange(0, k + 1);
            assert(cur.drop_last() =~= pre);
            assert(cur.last() == models[k as int]);
        }
        let l = items[k].name.as_str().unicode_len();
        if l > best {
            best = l;
        }
        k += 1;
    }
    proof {
        assert(models.subrange(0, n as int) =~= models);
    }
    best
}

/// The position of the resolved reward with the highest whole-platinum
/// price, latest on ties; prices are compared in whole platinum, a missing
/// price counting as zero.
pub fn highest_platinum_index(items: &Vec<Item>) -> (r: usize)
    requires
        items@.len() > 0,
    ensures
        r < items@.len(),
        r == spec_highest_platinum(Seq::new(items@.len(), |i: int| items@[i]@)),
{
    let ghost models = Seq::new(items@.len(), |i: int| items@[i]@);
    let n = items.len();
    let mut best: usize = 0;
    let mut best_key: u64 = match items[0].platinum {
        Some(p) => p / 1000,
        None => 0,
    };
    proof {
        assert(models.subrange(0, 1).len() == 1);
        assert(models.subrange(0, 1)[0] == models[0]);
    }
    let mut k: usize = 1;
    while k < n
        invariant
            1 <= k <= n,
            best < k,
            n == items@.len(),
            models == Seq::new(items@.len(), |i: int| items@[i]@),
            best == spec_highest_platinum(models.subrange(0, k as int)),
            best_key == spec_plat_key(models[best as int]),
        decreases n - k,
    {
        proof {
            let pre = models.subrange(0, k as int);
            let cur = models.subrange(0, k + 1);
            assert(cur.drop_last() =~= pre);
            assert(cur.last() == models[k as int]);
            assert(cur[spec_highest_platinum(pre)] == models[spec_highest_platinum(pre)]);
            lemma_highest_platinum_range(pre);
        }
        let key: u64 = match items[k].platinum {
            Some(p) => p / 1000,
            None => 0,
        };
        if key >= best_key {
            best = k;
            best_key = key;
        }
        k += 1;
    }
    proof {
        assert(models.subrange(0, n as int) =~= models);
    }
    best
}

proof fn lemma_highest_platinum_range(models: Seq<ItemModel>)
    requires
        models.len() > 0,
    ensures
        0 <= spec_highest_platinum(models) < models.len(),
    decreases models.len(),
{
    if models.len() > 1 {
        lemma_highest_platinum_range(models.drop_last());
    }
}

/// Every entry the build produces carries its name's own tokens.
pub proof fn lemma_build_models_wf(
    prices: Seq<PriceItem>,
    ignored: Seq<(String, DucatItem)>,
    eqmt: Seq<(String, EquipmentItem)>,
)
    ensures
        forall|k: int|
            0 <= k < spec_build_models(prices, ignored, eqmt).len() ==> (
            #[trigger] spec_build_models(prices, ignored, eqmt)[k]).wf(),
{
    lemma_eqmt_models_wf(prices, eqmt);
}

proof fn lemma_eqmt_models_wf(prices: Seq<PriceItem>, eqmt: Seq<(String, EquipmentItem)>)
    ensures
        forall|k: int|
            0 <= k < spec_eqmt_models(prices, eqmt).len() ==> (
            #[trigger] spec_eqmt_models(prices, eqmt)[k]).wf(),
    decreases eqmt.len(),
{
    if eqmt.len() > 0 {
        lemma_eqmt_models_wf(prices, eqmt.drop_last());
        let head = spec_eqmt_models(prices, eqmt.drop_last());
        let tail = spec_parts_models(prices, eqmt.last().1.vaulted, eqmt.last().1.parts@);
        assert forall|k: int|
            0 <= k < spec_eqmt_models(prices, eqmt).len() implies (
        #[trigger] spec_eqmt_models(prices, eqmt)[k]).wf() by {
            if k < head.len() {
                assert(spec_eqmt_models(prices, eqmt)[k] == head[k]);
            } else {
                assert(spec_eqmt_models(prices, eqmt)[k] == tail[k - head.len()]);
            }
        }
    }
}

} // verus!
