//! Reading Auctionator's price database.
//!
//! Auctionator holds every scan the account has ever done, going back weeks;
//! our own collector only sees the scans the player ran while it was
//! installed. So its database is read rather than re-implemented.
//!
//! `AUCTIONATOR_PRICE_DATABASE` does not hold tables. It holds one **CBOR
//! blob per realm-and-faction**, written into a Lua string literal — so the
//! file is full of raw control bytes and is not valid UTF-8 anywhere near
//! them. This module therefore works at the byte level, and deliberately
//! does not try to be a Lua parser. It finds two named globals, reads string
//! literals and plain integer entries out of them, and stops. Narrowness is
//! the safety property here: a format we do not control is being read by
//! code that can only do one thing with it.
//!
//! The blob itself is decoded with a real CBOR implementation rather than a
//! hand-rolled one, and walked here as a [`CborValue`].
//!
//! Auctionator's per-item record:
//!
//! - `m` — the last seen minimum buyout, per unit, in copper.
//! - `h` — day number to the *highest* low price seen that day.
//! - `l` — day number to the *lowest* low price seen that day, stored only
//!   when it differs from `h`. An absent `l` is not zero.
//! - `a` — day number to the highest quantity seen that day.
//!
//! Day numbers are compared with each other only, never turned into dates.

use std::collections::BTreeMap;

use vstd::prelude::*;
use vstd::std_specs::iter::IteratorSpec;
use vstd::utf8::encode_utf8;

use vstd::std_specs::btree::spec_btree_map_iter;

use crate::order::{sort_stable, stable_sorted, total_preorder};
use crate::coaching::texts_of;
use crate::identity::{trim, trim_str};
use crate::text::{
    decimal, parse_unsigned, parse_unsigned_str, push_char, decimal_string, lossy_text, lossy_utf8, parse_i64_str, parse_signed, push_str,
    keyed_by_last, lemma_keyed_step, sorted_by_key, has_key, str_eq, to_owned_string, value_of, merged_value,
    StrMap,
};

verus! {

broadcast use vstd::std_specs::btree::group_btree_axioms;

/// The whole price database, keyed by Auctionator's own realm key.
#[derive(Debug, Clone, Default, PartialEq)]
pub struct PriceDb {
    /// Key is `"<Realm> <Faction>"`, e.g. `"Dreamscythe Horde"`.
    pub realms: StrMap<RealmPrices>,
    /// Item id to the price a vendor pays, in copper. Account-wide, and
    /// unrelated to the auction house.
    pub vendor: BTreeMap<u32, u64>,
    /// Non-fatal notes, surfaced rather than logged.
    pub notes: Vec<String>,
}

#[derive(Debug, Clone, Default, PartialEq)]
pub struct RealmPrices {
    /// Key is Auctionator's db key: a bare item id, `p:<species>` for a battle
    /// pet, `gr:<item>:<suffix>` for legacy random-suffix gear, or
    /// `g:<item>:<ilvl>` for modern gear above the item-level threshold.
    pub items: StrMap<ItemPrices>,
}

#[derive(Debug, Clone, Default, PartialEq)]
pub struct ItemPrices {
    /// Last seen minimum buyout per unit, in copper.
    pub last_seen_min: Option<u64>,
    /// Day number to highest low price.
    pub high: BTreeMap<i64, u64>,
    /// Day number to lowest low price, where it differed from the high.
    pub low: BTreeMap<i64, u64>,
    /// Day number to highest quantity seen.
    pub available: BTreeMap<i64, u64>,
}

/// `days` lists the days of a day map, in increasing order.
pub open spec fn days_of(m: Map<i64, u64>, days: Seq<i64>) -> bool {
    &&& forall|i: int, j: int| 0 <= i < j < days.len() ==> days[i] < days[j]
    &&& forall|d: i64| #[trigger] days.contains(d) <==> m.dom().contains(d)
}

/// `prices` lists a day map's prices in day order.
pub open spec fn prices_in_day_order(m: Map<i64, u64>, prices: Seq<u64>) -> bool {
    exists|days: Seq<i64>|
        #[trigger] days_of(m, days) && days.len() == prices.len() && forall|i: int|
            0 <= i < prices.len() ==> prices[i] == m[days[i]]
}

/// Ascending order on prices.
pub open spec fn price_order(a: u64, b: u64) -> bool {
    a <= b
}

/// `sorted` is `prices` in ascending order.
pub open spec fn sorted_prices(sorted: Seq<u64>, prices: Seq<u64>) -> bool {
    stable_sorted(sorted, prices, |a: u64, b: u64| price_order(a, b))
}

/// `x` is the median of a day map's prices: the middle of them once sorted,
/// the upper middle when there is an even number.
pub open spec fn is_median(m: Map<i64, u64>, x: u64) -> bool {
    exists|prices: Seq<u64>, sorted: Seq<u64>|
        #![trigger prices_in_day_order(m, prices), sorted_prices(sorted, prices)]
        prices_in_day_order(m, prices) && sorted_prices(sorted, prices) && x == sorted[sorted.len()
            as int / 2]
}

/// The newest day of two day maps together.
pub open spec fn is_newest_day(a: Map<i64, u64>, b: Map<i64, u64>, d: i64) -> bool {
    &&& (a.dom().contains(d) || b.dom().contains(d))
    &&& forall|e: i64| a.dom().contains(e) || b.dom().contains(e) ==> e <= d
}

fn earlier_price(a: &u64, b: &u64) -> (earlier: bool)
    ensures
        earlier == (*a < *b),
{
    *a < *b
}

/// The prices of a day map, in day order.
fn day_prices(m: &BTreeMap<i64, u64>) -> (prices: Vec<u64>)
    ensures
        prices_in_day_order(m@, prices@),
        prices@.len() == m@.dom().len(),
{
    broadcast use vstd::laws_cmp::group_laws_cmp;

    let mut prices: Vec<u64> = Vec::new();
    let ghost mut days: Seq<i64> = Seq::empty();
    let ghost v = spec_btree_map_iter(m).remaining();
    for kv in it: m.iter()
        invariant
            v == spec_btree_map_iter(m).remaining(),
            it.seq() == v,
            prices@.len() == it.index(),
            days.len() == it.index(),
            forall|i: int| 0 <= i < it.index() ==> days[i] == *v[i].0 && prices@[i] == *v[i].1,
    {
        let (day, price) = kv;
        prices.push(*price);
        proof {
            days = days.push(*day);
        }
    }
    proof {
        let keys = v.map_values(|kv: (&i64, &u64)| *kv.0);
        assert(vstd::std_specs::btree::increasing_seq(keys));
        assert(vstd::laws_cmp::obeys_cmp::<i64>());
        assert forall|i: int, j: int| 0 <= i < j < days.len() implies days[i] < days[j] by {
            assert(keys[i] == days[i] && keys[j] == days[j]);
            assert(vstd::std_specs::cmp::OrdSpec::cmp_spec(&keys[i], &keys[j]) is Less);
        }
        assert forall|d: i64| #[trigger] days.contains(d) <==> m@.dom().contains(d) by {
            if days.contains(d) {
                let i = choose|i: int| 0 <= i < days.len() && days[i] == d;
                assert(m@.contains_key(*v[i].0));
            }
            if m@.dom().contains(d) {
                assert(v.contains((&d, &m@[d])));
                let i = choose|i: int| 0 <= i < v.len() && v[i] == (&d, &m@[d]);
                assert(days[i] == d);
            }
        }
        assert(days_of(m@, days));
        assert forall|i: int| 0 <= i < prices@.len() implies prices@[i] == m@[days[i]] by {
            assert(m@[*v[i].0] == *v[i].1);
        }
    }
    prices
}

impl ItemPrices {
    /// The middle of the daily prices on record, which is what the item has
    /// actually been going for.
    ///
    /// `last_seen_min` is one observation and nothing more. When an item is
    /// thin on the auction house, a single joke listing becomes the whole
    /// market. A median over the retained days cannot be moved by one
    /// listing, which is exactly the property wanted here.
    ///
    /// `None` when there is no price history at all — never a guess.
    pub fn typical(&self) -> (typical: Option<u64>)
        ensures
            match typical {
                None => self.high@.dom().len() == 0,
                Some(x) => self.high@.dom().len() > 0 && is_median(self.high@, x),
            },
    {
        if self.high.is_empty() {
            return None;
        }
        let prices = day_prices(&self.high);
        proof {
            assert(total_preorder(|a: u64, b: u64| price_order(a, b)));
        }
        let ghost unsorted = prices@;
        let sorted = sort_stable(prices, Ghost(|a: u64, b: u64| price_order(a, b)), earlier_price);
        proof {
            assert(sorted_prices(sorted@, unsorted));
            assert(sorted@.len() == unsorted.len());
        }
        Some(sorted[sorted.len() / 2])
    }

    /// The most recent day this item was seen in a scan.
    pub fn last_seen_day(&self) -> (day: Option<i64>)
        ensures
            day == newest_seen(*self),
            match day {
                None => self.high@.dom().len() == 0 && self.available@.dom().len() == 0,
                Some(d) => is_newest_day(self.high@, self.available@, d),
            },
    {
        let mut best: Option<i64> = None;
        for kv in it: self.high.iter()
            invariant
                match best {
                    Some(d) => self.high@.contains_key(d) && forall|i: int|
                        0 <= i < it.index() ==> *it.seq()[i].0 <= d,
                    None => it.index() == 0,
                },
        {
            let (day, _) = kv;
            best = match best {
                Some(b) => if *day > b {
                    Some(*day)
                } else {
                    Some(b)
                },
                None => Some(*day),
            };
        }
        let ghost from_high = best;
        for kv in it: self.available.iter()
            invariant
                from_high is Some ==> best is Some,
                match from_high {
                    Some(d) => forall|e: i64| self.high@.contains_key(e) ==> e <= d,
                    None => self.high@.dom().len() == 0,
                },
                match best {
                    Some(d) => (self.high@.contains_key(d) || self.available@.contains_key(d))
                        && (from_high matches Some(h) ==> h <= d) && forall|i: int|
                        0 <= i < it.index() ==> *it.seq()[i].0 <= d,
                    None => it.index() == 0,
                },
        {
            let (day, _) = kv;
            best = match best {
                Some(b) => if *day > b {
                    Some(*day)
                } else {
                    Some(b)
                },
                None => Some(*day),
            };
        }
        proof {
            if let Some(d) = best {
                let v = self.available.iter().remaining();
                assert forall|e: i64|
                    self.high@.dom().contains(e) || self.available@.dom().contains(e) implies e
                    <= d by {
                    if self.available@.dom().contains(e) {
                        assert(v.contains((&e, &self.available@[e])));
                        let i = choose|i: int| 0 <= i < v.len() && v[i] == (&e, &self.available@[e]);
                    }
                }
            } else {
                assert(self.available@.dom().len() == 0);
            }
            if let Some(d) = best {
                assert(is_newest_day(self.high@, self.available@, d));
                let e = choose|e: i64| is_newest_day(self.high@, self.available@, e);
                assert(e <= d && d <= e);
            } else {
                assert forall|e: i64| !is_newest_day(self.high@, self.available@, e) by {
                    if self.high@.dom().contains(e) {
                        vstd::set_lib::lemma_set_empty_equivalency_len(self.high@.dom());
                    }
                    if self.available@.dom().contains(e) {
                        vstd::set_lib::lemma_set_empty_equivalency_len(self.available@.dom());
                    }
                }
            }
        }
        best
    }
}

/// An item has a day on record: a price or a quantity seen that day.
pub open spec fn has_day(p: ItemPrices, d: i64) -> bool {
    p.high@.dom().contains(d) || p.available@.dom().contains(d)
}

impl RealmPrices {
    /// Look up a plain item id: the entry under its bare decimal id.
    ///
    /// Gear with a random suffix is also stored under a `gr:` key carrying the
    /// suffix, but the collector captures bag contents as bare item ids and
    /// cannot tell which suffix a stack has. Auctionator records the bare key
    /// too, and its own lookup falls back to exactly this.
    pub fn for_item(&self, item_id: u32) -> (prices: Option<&ItemPrices>)
        ensures
            match prices {
                Some(p) => value_of(self.items@, decimal(item_id as nat)) == Some(*p),
                None => value_of(self.items@, decimal(item_id as nat)) is None,
            },
    {
        let key = decimal_string(item_id as u64);
        self.items.get(key.as_str())
    }

    /// The newest day number anywhere in this realm's data — that is, when
    /// the account last ran a scan.
    pub fn last_scan_day(&self) -> (day: Option<i64>)
        ensures
            day == latest_scan(*self),
            match day {
                None => forall|i: int, e: i64|
                    0 <= i < self.items@.len() ==> !#[trigger] has_day(self.items@[i].1, e),
                Some(d) => (exists|i: int|
                    0 <= i < self.items@.len() && #[trigger] has_day(self.items@[i].1, d))
                    && forall|i: int, e: i64|
                    0 <= i < self.items@.len() && #[trigger] has_day(self.items@[i].1, e) ==> e
                        <= d,
            },
    {
        let mut best: Option<i64> = None;
        let mut i: usize = 0;
        while i < self.items.len()
            invariant
                0 <= i <= self.items@.len(),
                match best {
                    None => forall|k: int, e: i64| 0 <= k < i ==> !#[trigger] has_day(self.items@[k].1, e),
                    Some(d) => (exists|k: int| 0 <= k < i && #[trigger] has_day(self.items@[k].1, d))
                        && forall|k: int, e: i64|
                        0 <= k < i && #[trigger] has_day(self.items@[k].1, e) ==> e <= d,
                },
            decreases self.items@.len() - i,
        {
            let (_, prices) = self.items.entry(i);
            let seen = prices.last_seen_day();
            match seen {
                Some(day) => {
                    let ghost old_best = best;
                    best = match best {
                        Some(b) => if day > b {
                            Some(day)
                        } else {
                            Some(b)
                        },
                        None => Some(day),
                    };
                    proof {
                        let p = self.items@[i as int].1;
                        assert(*prices == p);
                        assert(has_day(p, day));
                        let d = best->0;
                        assert forall|k: int, e: i64|
                            0 <= k < i + 1 && #[trigger] has_day(self.items@[k].1, e) implies e
                            <= d by {
                            if k == i {
                                assert(is_newest_day(p.high@, p.available@, day));
                            }
                        }
                        if d == day {
                            assert(has_day(self.items@[i as int].1, d));
                        } else {
                            let k = choose|k: int| 0 <= k < i && #[trigger] has_day(self.items@[k].1, d);
                            assert(0 <= k < i + 1 && has_day(self.items@[k].1, d));
                        }
                    }
                },
                None => {
                    proof {
                        let p = self.items@[i as int].1;
                        assert(*prices == p);
                        assert(p.high@.dom().len() == 0 && p.available@.dom().len() == 0);
                        assert forall|e: i64| !#[trigger] has_day(self.items@[i as int].1, e) by {
                            if p.high@.dom().contains(e) {
                                assert(p.high@.dom().finite());
                                vstd::set_lib::lemma_set_empty_equivalency_len(p.high@.dom());
                            }
                            if p.available@.dom().contains(e) {
                                assert(p.available@.dom().finite());
                                vstd::set_lib::lemma_set_empty_equivalency_len(p.available@.dom());
                            }
                        }
                        if best is None {
                            assert forall|k: int, e: i64| 0 <= k < i + 1 implies !#[trigger] has_day(
                                self.items@[k].1,
                                e,
                            ) by {
                                if k == i {
                                    assert(!has_day(self.items@[i as int].1, e));
                                }
                            }
                        }
                    }
                },
            }
            i = i + 1;
        }
        proof {
            if let Some(d) = best {
                assert(is_latest_scan(*self, d));
                let e = choose|e: i64| is_latest_scan(*self, e);
                assert(e <= d && d <= e);
            }
        }
        best
    }
}

/// `d` is the newest day anywhere in a realm's data.
pub open spec fn is_latest_scan(r: RealmPrices, d: i64) -> bool {
    &&& exists|i: int| 0 <= i < r.items@.len() && #[trigger] has_day(r.items@[i].1, d)
    &&& forall|i: int, e: i64| 0 <= i < r.items@.len() && #[trigger] has_day(r.items@[i].1, e) ==> e <= d
}

/// The newest day anywhere in a realm's data, if it has any.
pub open spec fn latest_scan(r: RealmPrices) -> Option<i64> {
    if exists|d: i64| is_latest_scan(r, d) {
        Some(choose|d: i64| is_latest_scan(r, d))
    } else {
        None
    }
}

/// The newest day an item was seen, if it ever was.
pub open spec fn newest_seen(p: ItemPrices) -> Option<i64> {
    if exists|d: i64| is_newest_day(p.high@, p.available@, d) {
        Some(choose|d: i64| is_newest_day(p.high@, p.available@, d))
    } else {
        None
    }
}

/// What went wrong reading the file.
#[derive(Debug, Clone, PartialEq)]
pub enum PriceError {
    /// The named global is not in the file at all.
    MissingGlobal(&'static str),
    /// A string literal began and never ended.
    UnterminatedString(String),
    /// The blob is not CBOR, or not CBOR we understand.
    Cbor { realm: String, detail: String },
}

impl PriceError {
    /// What went wrong, for a reader.
    pub fn message(&self) -> (text: String)
        ensures
            text@ == match *self {
                PriceError::MissingGlobal(name) => name@
                    + " is not in this file — is it Auctionator's SavedVariables?"@,
                PriceError::UnterminatedString(realm) => "the entry for "@ + realm@
                    + " is missing its closing quote"@,
                PriceError::Cbor { realm, detail } => "could not decode the price blob for "@
                    + realm@ + ": "@ + detail@,
            },
    {
        match self {
            PriceError::MissingGlobal(name) => {
                let mut text = to_owned_string(name);
                push_str(&mut text, " is not in this file — is it Auctionator's SavedVariables?");
                text
            },
            PriceError::UnterminatedString(realm) => {
                let mut text = to_owned_string("the entry for ");
                push_str(&mut text, realm.as_str());
                push_str(&mut text, " is missing its closing quote");
                text
            },
            PriceError::Cbor { realm, detail } => {
                let mut text = to_owned_string("could not decode the price blob for ");
                push_str(&mut text, realm.as_str());
                push_str(&mut text, ": ");
                push_str(&mut text, detail.as_str());
                text
            },
        }
    }
}

/// Auctionator's realm key for a character, `"<realm> <faction>"`, or `None`
/// when either half is missing. Both halves are needed: prices are per
/// faction, and valuing Horde holdings at Alliance prices would be quietly
/// wrong rather than obviously so.
pub fn realm_key(realm: Option<&str>, faction: Option<&str>) -> (key: Option<String>)
    ensures
        match key {
            Some(k) => realm.is_some() && faction.is_some() && k@ == realm->0@ + " "@
                + faction->0@,
            None => realm.is_none() || faction.is_none(),
        },
{
    match (realm, faction) {
        (Some(realm), Some(faction)) => {
            let mut key = to_owned_string(realm);
            push_str(&mut key, " ");
            push_str(&mut key, faction);
            Some(key)
        },
        _ => None,
    }
}

/// A decoded CBOR value, holding what the price reader looks at.
#[derive(Debug, PartialEq)]
pub enum CborValue {
    Integer(i128),
    Bytes(Vec<u8>),
    /// A float, as the bits of an IEEE-754 double.
    Float(u64),
    Text(String),
    Dict(Vec<(CborValue, CborValue)>),
    /// An array, a tag, a boolean or null: nothing a price is read from.
    Other,
}

/// `ciborium::Value`, the decoder's own tree of a CBOR item. Opaque here: it
/// is only ever carried over into a [`CborValue`].
#[verifier::external_type_specification]
#[verifier::external_body]
pub struct ExCiboriumValue(ciborium::Value);

/// What decoding a CBOR item from the front of `bytes` gives: the value, or
/// the decoder's error text.
pub uninterp spec fn cbor_decoding(bytes: Seq<u8>) -> Result<CborValue, Seq<char>>;

/// The decoder's answer with its error text taken as characters.
pub open spec fn decoding_view(decoded: Result<CborValue, String>) -> Result<CborValue, Seq<char>> {
    match decoded {
        Ok(value) => Ok(value),
        Err(detail) => Err(detail@),
    }
}

/// Carry a decoded `ciborium::Value` over into a [`CborValue`], variant by
/// variant: integers by value, floats by their bits, maps entry by entry.
#[verifier::external_body]
fn from_ciborium(value: ciborium::Value) -> CborValue {
    match value {
        ciborium::Value::Integer(n) => CborValue::Integer(i128::from(n)),
        ciborium::Value::Bytes(bytes) => CborValue::Bytes(bytes),
        ciborium::Value::Float(float) => CborValue::Float(float.to_bits()),
        ciborium::Value::Text(text) => CborValue::Text(text),
        ciborium::Value::Map(entries) => CborValue::Dict(
            entries.into_iter().map(|(k, v)| (from_ciborium(k), from_ciborium(v))).collect(),
        ),
        _ => CborValue::Other,
    }
}

/// Decode one CBOR item from the front of a blob.
///
/// Trusted: wraps `ciborium::from_reader` into a `ciborium::Value`, carried
/// over by [`from_ciborium`]; on failure, the text of ciborium's error. The
/// contract names the outcome as a function of the bytes alone and says
/// nothing more of it.
#[verifier::external_body]
fn read_cbor(blob: &[u8]) -> (decoded: Result<CborValue, String>)
    ensures
        decoding_view(decoded) == cbor_decoding(blob@),
{
    match ciborium::from_reader::<ciborium::Value, &[u8]>(blob) {
        Ok(value) => Ok(from_ciborium(value)),
        Err(error) => Err(error.to_string()),
    }
}

/// A CBOR key read as text. LibCBOR writes Lua strings as byte strings, so
/// either kind is accepted; bytes are read as UTF-8 with malformed sequences
/// replaced.
pub open spec fn text_of(value: CborValue) -> Option<Seq<char>> {
    match value {
        CborValue::Text(text) => Some(text@),
        CborValue::Bytes(bytes) => Some(lossy_utf8(bytes@)),
        _ => None,
    }
}

fn as_text(value: &CborValue) -> (text: Option<String>)
    ensures
        match text {
            Some(t) => text_of(*value) == Some(t@),
            None => text_of(*value) is None,
        },
{
    match value {
        CborValue::Text(text) => Some(text.clone()),
        CborValue::Bytes(bytes) => Some(lossy_text(bytes.as_slice())),
        _ => None,
    }
}

/// `m` halved `k` times, rounding down each time: `m / 2^k`, rounded down.
pub open spec fn halved(m: nat, k: nat) -> nat
    decreases k,
{
    if k == 0 {
        m
    } else {
        halved(m / 2, (k - 1) as nat)
    }
}

/// `m` doubled `k` times: `m * 2^k`.
pub open spec fn doubled(m: nat, k: nat) -> nat
    decreases k,
{
    if k == 0 {
        m
    } else {
        2 * doubled(m, (k - 1) as nat)
    }
}

/// What `as u64` gives for the double with these bits, when the double is
/// finite and not below zero: the value truncated toward zero, saturating at
/// `u64::MAX`. `None` for an infinity, a NaN or a negative value; `-0.0` is
/// not below zero and gives zero.
pub open spec fn whole_of_float(bits: u64) -> Option<u64> {
    let sign = bits / 0x8000_0000_0000_0000;
    let exponent = (bits / 0x10_0000_0000_0000) % 2048;
    let fraction = bits % 0x10_0000_0000_0000;
    let significand = 0x10_0000_0000_0000 + fraction;
    if exponent == 2047 {
        None
    } else if sign == 1 && (exponent != 0 || fraction != 0) {
        None
    } else if exponent < 1023 {
        Some(0)
    } else if exponent >= 1087 {
        Some(u64::MAX)
    } else if exponent >= 1075 {
        Some(doubled(significand as nat, (exponent - 1075) as nat) as u64)
    } else {
        Some(halved(significand as nat, (1075 - exponent) as nat) as u64)
    }
}

proof fn lemma_halved_bound(m: nat, k: nat)
    ensures
        halved(m, k) <= m,
    decreases k,
{
    if k > 0 {
        lemma_halved_bound(m / 2, (k - 1) as nat);
    }
}

proof fn lemma_doubled_is_power(m: nat, k: nat)
    ensures
        doubled(m, k) == m * vstd::arithmetic::power2::pow2(k),
    decreases k,
{
    if k > 0 {
        vstd::arithmetic::power2::lemma_pow2_unfold(k);
        lemma_doubled_is_power(m, (k - 1) as nat);
        let p = vstd::arithmetic::power2::pow2((k - 1) as nat);
        assert(2 * (m * p) == m * (2 * p)) by (nonlinear_arith);
    } else {
        vstd::arithmetic::power2::lemma2_to64();
    }
}

proof fn lemma_doubled_bound(m: nat, k: nat)
    requires
        m < 0x20_0000_0000_0000,
        k <= 11,
    ensures
        doubled(m, k) < 0x1_0000_0000_0000_0000,
{
    lemma_doubled_is_power(m, k);
    vstd::arithmetic::power2::lemma2_to64();
    if k < 11 {
        vstd::arithmetic::power2::lemma_pow2_strictly_increases(k, 11);
    }
    let p = vstd::arithmetic::power2::pow2(k);
    assert(p <= 2048);
    assert(m * p < 0x1_0000_0000_0000_0000) by (nonlinear_arith)
        requires
            m < 0x20_0000_0000_0000,
            p <= 2048,
    ;
}

fn float_whole(bits: u64) -> (whole: Option<u64>)
    ensures
        whole == whole_of_float(bits),
{
    let sign = bits / 0x8000_0000_0000_0000;
    let exponent = (bits / 0x10_0000_0000_0000) % 2048;
    let fraction = bits % 0x10_0000_0000_0000;
    let significand = 0x10_0000_0000_0000 + fraction;
    if exponent == 2047 {
        return None;
    }
    if sign == 1 && (exponent != 0 || fraction != 0) {
        return None;
    }
    if exponent < 1023 {
        return Some(0);
    }
    if exponent >= 1087 {
        return Some(u64::MAX);
    }
    if exponent >= 1075 {
        let k = exponent - 1075;
        let mut value: u64 = significand;
        let mut i: u64 = 0;
        while i < k
            invariant
                0 <= i <= k,
                k <= 11,
                significand < 0x20_0000_0000_0000,
                value == doubled(significand as nat, i as nat),
            decreases k - i,
        {
            proof {
                lemma_doubled_bound(significand as nat, (i + 1) as nat);
            }
            value = 2 * value;
            i = i + 1;
        }
        return Some(value);
    }
    let k = 1075 - exponent;
    let mut value: u64 = significand;
    let mut i: u64 = 0;
    while i < k
        invariant
            0 <= i <= k,
            value as nat == halved(significand as nat, i as nat),
        decreases k - i,
    {
        proof {
            lemma_halved_split(significand as nat, i as nat);
        }
        value = value / 2;
        i = i + 1;
    }
    Some(value)
}

/// Halving once more after `k` halvings is halving `k + 1` times.
proof fn lemma_halved_split(m: nat, k: nat)
    ensures
        halved(m, k + 1) == halved(m, k) / 2,
    decreases k,
{
    assert(halved(m, k + 1) == halved(m / 2, k));
    if k > 0 {
        lemma_halved_split(m / 2, (k - 1) as nat);
    }
}

/// A CBOR value read as a whole number of copper: an integer in range, or a
/// float — Lua has one number type, so an integral price can arrive as one —
/// cut to a whole number.
pub open spec fn whole_of(value: CborValue) -> Option<u64> {
    match value {
        CborValue::Integer(n) => if 0 <= n <= u64::MAX {
            Some(n as u64)
        } else {
            None
        },
        CborValue::Float(bits) => whole_of_float(bits),
        _ => None,
    }
}

fn as_u64(value: &CborValue) -> (whole: Option<u64>)
    ensures
        whole == whole_of(*value),
{
    match value {
        CborValue::Integer(n) => if 0 <= *n && *n <= u64::MAX as i128 {
            Some(*n as u64)
        } else {
            None
        },
        CborValue::Float(bits) => float_whole(*bits),
        _ => None,
    }
}

/// A day-keyed table read into a map: each entry whose key reads as a day
/// number and whose value reads as a whole number, later entries replacing
/// earlier ones. Anything but a map — an empty Lua table arrives as an empty
/// array — is an empty table.
pub open spec fn day_map_of(value: CborValue) -> Map<i64, u64> {
    match value {
        CborValue::Dict(entries) => day_entries(entries@),
        _ => Map::empty(),
    }
}

pub open spec fn day_entries(entries: Seq<(CborValue, CborValue)>) -> Map<i64, u64>
    decreases entries.len(),
{
    if entries.len() == 0 {
        Map::empty()
    } else {
        let rest = day_entries(entries.drop_last());
        let (day, price) = entries.last();
        match (text_of(day), whole_of(price)) {
            (Some(text), Some(p)) => match parse_signed(text, i64::MIN as int, i64::MAX as int) {
                Some(d) => rest.insert(d as i64, p),
                None => rest,
            },
            _ => rest,
        }
    }
}

fn day_map(value: &CborValue) -> (days: BTreeMap<i64, u64>)
    ensures
        days@ == day_map_of(*value),
{
    let mut found: BTreeMap<i64, u64> = BTreeMap::new();
    let entries = match value {
        CborValue::Dict(entries) => entries,
        _ => return found,
    };
    let mut i: usize = 0;
    while i < entries.len()
        invariant
            0 <= i <= entries@.len(),
            *value == CborValue::Dict(*entries),
            found@ == day_entries(entries@.take(i as int)),
        decreases entries@.len() - i,
    {
        proof {
            assert(entries@.take(i + 1).drop_last() =~= entries@.take(i as int));
        }
        let (day, price) = &entries[i];
        if let Some(text) = as_text(day) {
            if let Some(d) = parse_i64_str(text.as_str()) {
                if let Some(p) = as_u64(price) {
                    found.insert(d, p);
                }
            }
        }
        i = i + 1;
    }
    proof {
        assert(entries@.take(entries@.len() as int) =~= entries@);
    }
    found
}

/// The item records of a realm blob, in order: each entry whose key reads as
/// text and whose value is a map, as the key and the map's fields. Anything
/// else — the `version` sentinel sits among the items as a bare number — is
/// passed over.
pub open spec fn item_records(entries: Seq<(CborValue, CborValue)>) -> Seq<
    (Seq<char>, Seq<(CborValue, CborValue)>),
>
    decreases entries.len(),
{
    if entries.len() == 0 {
        Seq::empty()
    } else {
        let rest = item_records(entries.drop_last());
        let (key, value) = entries.last();
        match (text_of(key), value) {
            (Some(k), CborValue::Dict(fields)) => rest.push((k, fields@)),
            _ => rest,
        }
    }
}

/// The value of the last field whose name reads as `name`.
pub open spec fn last_field(fields: Seq<(CborValue, CborValue)>, name: Seq<char>) -> Option<
    CborValue,
>
    decreases fields.len(),
{
    if fields.len() == 0 {
        None
    } else if text_of(fields.last().0) == Some(name) {
        Some(fields.last().1)
    } else {
        last_field(fields.drop_last(), name)
    }
}

/// The day map the last field named `name` holds, empty when there is none.
pub open spec fn day_field(fields: Seq<(CborValue, CborValue)>, name: Seq<char>) -> Map<i64, u64> {
    match last_field(fields, name) {
        Some(value) => day_map_of(value),
        None => Map::empty(),
    }
}

/// `p` is the item record these fields describe: `m` the last seen minimum,
/// `h`, `l` and `a` the day maps.
pub open spec fn prices_from(p: ItemPrices, fields: Seq<(CborValue, CborValue)>) -> bool {
    &&& p.last_seen_min == match last_field(fields, "m"@) {
        Some(value) => whole_of(value),
        None => None,
    }
    &&& p.high@ == day_field(fields, "h"@)
    &&& p.low@ == day_field(fields, "l"@)
    &&& p.available@ == day_field(fields, "a"@)
}

/// `r` holds the item records of a realm blob: one entry per key, from the
/// last record under it.
pub open spec fn realm_from(r: RealmPrices, entries: Seq<(CborValue, CborValue)>) -> bool {
    let records = item_records(entries);
    &&& sorted_by_key(r.items@)
    &&& keyed_by_last(r.items@, records, |p: ItemPrices, f: Seq<(CborValue, CborValue)>| prices_from(p, f))
}

fn item_prices(fields: &Vec<(CborValue, CborValue)>) -> (prices: ItemPrices)
    ensures
        prices_from(prices, fields@),
{
    let mut prices = ItemPrices {
        last_seen_min: None,
        high: BTreeMap::new(),
        low: BTreeMap::new(),
        available: BTreeMap::new(),
    };
    let mut j: usize = 0;
    while j < fields.len()
        invariant
            0 <= j <= fields@.len(),
            prices_from(prices, fields@.take(j as int)),
        decreases fields@.len() - j,
    {
        proof {
            assert(fields@.take(j + 1).drop_last() =~= fields@.take(j as int));
            assert(fields@.take(j + 1).last() == fields@[j as int]);
            reveal_strlit("m");
            reveal_strlit("h");
            reveal_strlit("l");
            reveal_strlit("a");
            assert("m"@[0] == 'm' && "h"@[0] == 'h' && "l"@[0] == 'l' && "a"@[0] == 'a');
            assert("m"@ != "h"@ && "m"@ != "l"@ && "m"@ != "a"@);
            assert("h"@ != "l"@ && "h"@ != "a"@ && "l"@ != "a"@);
        }
        let (field, value) = &fields[j];
        match as_text(field) {
            Some(name) => {
                if str_eq(name.as_str(), "m") {
                    prices.last_seen_min = as_u64(value);
                } else if str_eq(name.as_str(), "h") {
                    prices.high = day_map(value);
                } else if str_eq(name.as_str(), "l") {
                    prices.low = day_map(value);
                } else if str_eq(name.as_str(), "a") {
                    prices.available = day_map(value);
                }
            },
            None => {},
        }
        j = j + 1;
    }
    proof {
        assert(fields@.take(fields@.len() as int) =~= fields@);
    }
    prices
}

/// Decode one realm's blob into its item records.
fn decode_realm(blob: &[u8]) -> (realm: Result<RealmPrices, String>)
    ensures
        match realm {
            Ok(r) => cbor_decoding(blob@) matches Ok(CborValue::Dict(entries)) && realm_from(
                r,
                entries@,
            ),
            Err(detail) => match cbor_decoding(blob@) {
                Err(reason) => detail@ == reason,
                Ok(value) => !(value is Dict) && detail@ == "the blob is not a map"@,
            },
        },
{
    match read_cbor(blob) {
        Ok(value) => realm_from_cbor(&value),
        Err(detail) => Err(detail),
    }
}

/// Read one realm's item records out of its decoded blob.
///
/// The blob must be a CBOR map. Each entry whose key reads as text and whose
/// value is itself a map is an item record; a later record under the same key
/// replaces an earlier one.
pub fn realm_from_cbor(value: &CborValue) -> (realm: Result<RealmPrices, String>)
    ensures
        match realm {
            Ok(r) => value matches CborValue::Dict(entries) && realm_from(r, entries@),
            Err(detail) => !(value is Dict) && detail@ == "the blob is not a map"@,
        },
{
    let entries = match value {
        CborValue::Dict(entries) => entries,
        _ => return Err(to_owned_string("the blob is not a map")),
    };
    let mut items: StrMap<ItemPrices> = StrMap::new();
    let ghost mut records: Seq<(Seq<char>, Seq<(CborValue, CborValue)>)> = Seq::empty();
    let mut i: usize = 0;
    while i < entries.len()
        invariant
            0 <= i <= entries@.len(),
            records == item_records(entries@.take(i as int)),
            sorted_by_key(items@),
            keyed_by_last(items@, records, |p: ItemPrices, f: Seq<(CborValue, CborValue)>| prices_from(p, f)),
        decreases entries@.len() - i,
    {
        proof {
            assert(entries@.take(i + 1).drop_last() =~= entries@.take(i as int));
            assert(entries@.take(i + 1).last() == entries@[i as int]);
        }
        let (key, value) = &entries[i];
        if let Some(key) = as_text(key) {
            if let CborValue::Dict(fields) = value {
                let prices = item_prices(fields);
                let ghost before = items@;
                let ghost k = key@;
                items.insert(key, prices);
                proof {
                    lemma_keyed_step(
                        before,
                        items@,
                        records,
                        k,
                        fields@,
                        prices,
                        |p: ItemPrices, f: Seq<(CborValue, CborValue)>| prices_from(p, f),
                    );
                    records = records.push((k, fields@));
                }
            }
        }
        i = i + 1;
    }
    proof {
        assert(entries@.take(entries@.len() as int) =~= entries@);
    }
    Ok(RealmPrices { items })
}

/// Where `needle` first occurs in `haystack` at or after `i`.
pub open spec fn find_from<T>(haystack: Seq<T>, needle: Seq<T>, i: int) -> Option<int>
    decreases haystack.len() + 1 - i,
{
    if i < 0 || i + needle.len() > haystack.len() {
        None
    } else if haystack.subrange(i, i + needle.len()) == needle {
        Some(i)
    } else {
        find_from(haystack, needle, i + 1)
    }
}

pub proof fn lemma_find_from_bounds<T>(haystack: Seq<T>, needle: Seq<T>, i: int)
    ensures
        find_from(haystack, needle, i) matches Some(j) ==> i <= j && j + needle.len()
            <= haystack.len() && haystack.subrange(j, j + needle.len()) == needle,
    decreases haystack.len() + 1 - i,
{
    if !(i < 0 || i + needle.len() > haystack.len()) && haystack.subrange(i, i + needle.len())
        != needle {
        lemma_find_from_bounds(haystack, needle, i + 1);
    }
}

/// Where `needle` first occurs at or after `from`; never for an empty needle.
fn find(haystack: &[u8], needle: &[u8], from: usize) -> (at: Option<usize>)
    ensures
        match at {
            Some(j) => needle@.len() > 0 && find_from(haystack@, needle@, from as int) == Some(
                j as int,
            ),
            None => needle@.len() == 0 || find_from(haystack@, needle@, from as int) is None,
        },
{
    let n = needle.len();
    if n == 0 {
        return None;
    }
    let mut i: usize = from;
    while i <= haystack.len() && n <= haystack.len() - i
        invariant
            from <= i,
            n == needle@.len(),
            n > 0,
            find_from(haystack@, needle@, from as int) == find_from(haystack@, needle@, i as int),
        decreases haystack@.len() - i,
    {
        let mut k: usize = 0;
        let hl = haystack.len();
        while k < n
            invariant
                0 <= k <= n,
                hl == haystack@.len(),
                i + n <= haystack@.len(),
                n == needle@.len(),
                forall|x: int| 0 <= x < k ==> haystack@[i + x] == needle@[x],
            ensures
                0 <= k <= n,
                forall|x: int| 0 <= x < k ==> haystack@[i + x] == needle@[x],
                k < n ==> haystack@[i + k] != needle@[k as int],
            decreases n - k,
        {
            if haystack[i + k] != needle[k] {
                break;
            }
            k = k + 1;
        }
        if k == n {
            proof {
                assert(haystack@.subrange(i as int, i + n) =~= needle@);
            }
            return Some(i);
        }
        proof {
            assert(haystack@.subrange(i as int, i + n)[k as int] != needle@[k as int]);
        }
        i = i + 1;
    }
    None
}

/// `["`, which opens a keyed entry.
pub open spec fn entry_open() -> Seq<u8> {
    seq![91u8, 34u8]
}

/// `"]`, which closes an entry's key.
pub open spec fn key_close() -> Seq<u8> {
    seq![34u8, 93u8]
}

/// A newline and a brace in the first column, which closes a top-level
/// global.
pub open spec fn global_close() -> Seq<u8> {
    seq![10u8, 125u8]
}

/// Whether a byte is ASCII whitespace: space, tab, newline, form feed,
/// carriage return.
pub open spec fn is_ascii_space(b: u8) -> bool {
    b == 32 || b == 9 || b == 10 || b == 12 || b == 13
}

/// The first byte at or after `i` that is not ASCII whitespace.
pub open spec fn skip_ascii_space(body: Seq<u8>, i: int) -> Option<int>
    decreases body.len() - i,
{
    if i < 0 || i >= body.len() {
        None
    } else if is_ascii_space(body[i]) {
        skip_ascii_space(body, i + 1)
    } else {
        Some(i)
    }
}

pub proof fn lemma_skip_bounds(body: Seq<u8>, i: int)
    ensures
        skip_ascii_space(body, i) matches Some(j) ==> i <= j < body.len(),
    decreases body.len() - i,
{
    if 0 <= i < body.len() && is_ascii_space(body[i]) {
        lemma_skip_bounds(body, i + 1);
    }
}

fn skip_space_bytes(body: &[u8], from: usize) -> (at: Option<usize>)
    ensures
        match at {
            Some(j) => skip_ascii_space(body@, from as int) == Some(j as int),
            None => skip_ascii_space(body@, from as int) is None,
        },
{
    let mut i = from;
    while i < body.len()
        invariant
            from <= i,
            skip_ascii_space(body@, from as int) == skip_ascii_space(body@, i as int),
        decreases body@.len() - i,
    {
        let b = body[i];
        if !(b == 32 || b == 9 || b == 10 || b == 12 || b == 13) {
            return Some(i);
        }
        i = i + 1;
    }
    None
}

/// How many backslashes run back from just before `i`, not reaching past
/// `from`.
pub open spec fn backslashes_before(body: Seq<u8>, from: int, i: int) -> nat
    decreases i - from,
{
    if i > from && i - 1 < body.len() && body[i - 1] == 92 {
        1 + backslashes_before(body, from, i - 1)
    } else {
        0
    }
}

/// The quote that ends a string literal whose contents start at `from`,
/// searching from `i`: a quote preceded by an odd number of backslashes is
/// escaped and ends nothing.
pub open spec fn closing_quote_from(body: Seq<u8>, from: int, i: int) -> Option<int>
    decreases body.len() - i,
{
    if i < 0 || i >= body.len() {
        None
    } else if body[i] == 34 && backslashes_before(body, from, i) % 2 == 0 {
        Some(i)
    } else {
        closing_quote_from(body, from, i + 1)
    }
}

pub proof fn lemma_closing_bounds(body: Seq<u8>, from: int, i: int)
    ensures
        closing_quote_from(body, from, i) matches Some(j) ==> i <= j < body.len(),
    decreases body.len() - i,
{
    if 0 <= i < body.len() && !(body[i] == 34 && backslashes_before(body, from, i) % 2 == 0) {
        lemma_closing_bounds(body, from, i + 1);
    }
}

/// The index of the quote that ends a string literal starting at `from`.
/// Counting rather than toggling matters: `\\"` ends the string and `\"`
/// does not.
fn closing_quote(body: &[u8], from: usize) -> (end: Option<usize>)
    ensures
        match end {
            Some(j) => closing_quote_from(body@, from as int, from as int) == Some(j as int),
            None => closing_quote_from(body@, from as int, from as int) is None,
        },
{
    let mut index = from;
    while index < body.len()
        invariant
            from <= index,
            closing_quote_from(body@, from as int, from as int) == closing_quote_from(
                body@,
                from as int,
                index as int,
            ),
        decreases body@.len() - index,
    {
        if body[index] == 34 {
            let mut backslashes: usize = 0;
            let mut back = index;
            while back > from && body[back - 1] == 92
                invariant
                    from <= back <= index < body@.len(),
                    backslashes == index - back,
                    backslashes_before(body@, from as int, index as int) == backslashes
                        + backslashes_before(body@, from as int, back as int),
                decreases back - from,
            {
                backslashes = backslashes + 1;
                back = back - 1;
            }
            if backslashes % 2 == 0 {
                return Some(index);
            }
        }
        index = index + 1;
    }
    None
}

/// How many ASCII digits, up to three, start at `i`.
pub open spec fn escape_digits(lit: Seq<u8>, i: int, k: int) -> int
    decreases 3 - k,
{
    if k >= 3 || i + k >= lit.len() || !(48 <= lit[i + k] <= 57) {
        k
    } else {
        escape_digits(lit, i, k + 1)
    }
}

/// The value of the decimal digits `lit[i..i + n]`.
pub open spec fn escape_value(lit: Seq<u8>, i: int, n: int) -> int
    decreases n,
{
    if n <= 0 {
        0
    } else {
        escape_value(lit, i, n - 1) * 10 + (lit[i + n - 1] - 48)
    }
}

/// What a Lua string literal's bytes from `i` on stand for. The game's writer
/// escapes `\n`, `\r`, `\"`, `\\` and NUL as `\000`; `\t`, `\'` and decimal
/// escapes of one to three digits are read as Lua reads them, keeping the low
/// byte of a value above 255. A backslash before anything else, or at the
/// end, is kept as it is.
pub open spec fn unescaped_from(lit: Seq<u8>, i: int) -> Seq<u8>
    decreases lit.len() - i,
{
    if i < 0 || i >= lit.len() {
        Seq::empty()
    } else if lit[i] != 92 {
        seq![lit[i]] + unescaped_from(lit, i + 1)
    } else if i + 1 >= lit.len() {
        seq![92u8] + unescaped_from(lit, i + 1)
    } else {
        let c = lit[i + 1];
        if c == 110 {
            seq![10u8] + unescaped_from(lit, i + 2)
        } else if c == 114 {
            seq![13u8] + unescaped_from(lit, i + 2)
        } else if c == 116 {
            seq![9u8] + unescaped_from(lit, i + 2)
        } else if c == 34 || c == 39 || c == 92 {
            seq![c] + unescaped_from(lit, i + 2)
        } else if 48 <= c <= 57 {
            proof {
                lemma_escape_digits(lit, i + 1, 0);
            }
            let n = escape_digits(lit, i + 1, 0);
            seq![(escape_value(lit, i + 1, n) % 256) as u8] + unescaped_from(lit, i + 1 + n)
        } else {
            seq![92u8] + unescaped_from(lit, i + 1)
        }
    }
}

pub proof fn lemma_escape_digits(lit: Seq<u8>, i: int, k: int)
    requires
        0 <= k <= 3,
        0 <= i,
        i + k <= lit.len(),
        forall|y: int| i <= y < i + k ==> 48 <= #[trigger] lit[y] <= 57,
    ensures
        k <= escape_digits(lit, i, k) <= 3,
        i + escape_digits(lit, i, k) <= lit.len(),
        forall|y: int| i <= y < i + escape_digits(lit, i, k) ==> 48 <= #[trigger] lit[y] <= 57,
    decreases 3 - k,
{
    if !(k >= 3 || i + k >= lit.len() || !(48 <= lit[i + k] <= 57)) {
        lemma_escape_digits(lit, i, k + 1);
    }
}

/// How the game's writer puts one byte into a string literal: a backslash,
/// a quote, a line feed and a carriage return are escaped, NUL is written as
/// `\000`, and every other byte stands for itself.
pub open spec fn escape_byte(b: u8) -> Seq<u8> {
    if b == 92 {
        seq![92u8, 92u8]
    } else if b == 34 {
        seq![92u8, 34u8]
    } else if b == 10 {
        seq![92u8, 110u8]
    } else if b == 13 {
        seq![92u8, 114u8]
    } else if b == 0 {
        seq![92u8, 48u8, 48u8, 48u8]
    } else {
        seq![b]
    }
}

/// The literal the game's writer makes of a run of bytes.
pub open spec fn game_escaped(bytes: Seq<u8>) -> Seq<u8>
    decreases bytes.len(),
{
    if bytes.len() == 0 {
        Seq::empty()
    } else {
        escape_byte(bytes[0]) + game_escaped(bytes.drop_first())
    }
}

proof fn lemma_digits_shift(p: Seq<u8>, r: Seq<u8>, k: int, m: int)
    requires
        0 <= k,
        0 <= m,
    ensures
        escape_digits(p + r, p.len() + k, m) == escape_digits(r, k, m),
    decreases 3 - m,
{
    if !(m >= 3 || k + m >= r.len()) {
        assert((p + r)[p.len() + k + m] == r[k + m]);
        lemma_digits_shift(p, r, k, m + 1);
    }
}

proof fn lemma_value_shift(p: Seq<u8>, r: Seq<u8>, k: int, n: int)
    requires
        0 <= k,
        0 <= n,
        k + n <= r.len(),
    ensures
        escape_value(p + r, p.len() + k, n) == escape_value(r, k, n),
    decreases n,
{
    if n > 0 {
        assert((p + r)[p.len() + k + n - 1] == r[k + n - 1]);
        lemma_value_shift(p, r, k, n - 1);
    }
}

/// What follows a prefix of a literal is read the same with the prefix as
/// without it.
proof fn lemma_unescape_shift(p: Seq<u8>, r: Seq<u8>, k: int)
    requires
        0 <= k,
    ensures
        unescaped_from(p + r, p.len() + k) == unescaped_from(r, k),
    decreases r.len() - k,
{
    let s = p + r;
    let i = p.len() + k;
    if k < r.len() {
        assert(s[i] == r[k]);
        if r[k] != 92 || k + 1 >= r.len() {
            lemma_unescape_shift(p, r, k + 1);
        } else {
            assert(s[i + 1] == r[k + 1]);
            let c = r[k + 1];
            if c == 110 || c == 114 || c == 116 || c == 34 || c == 39 || c == 92 {
                lemma_unescape_shift(p, r, k + 2);
            } else if 48 <= c <= 57 {
                lemma_digits_shift(p, r, k + 1, 0);
                lemma_escape_digits(r, k + 1, 0);
                let n = escape_digits(r, k + 1, 0);
                lemma_value_shift(p, r, k + 1, n);
                lemma_unescape_shift(p, r, k + 1 + n);
            } else {
                lemma_unescape_shift(p, r, k + 1);
            }
        }
    }
}

/// Unescaping undoes the game's writer: any run of bytes, written into a
/// literal the way the game writes it, reads back as exactly those bytes.
pub proof fn unescaping_undoes_the_game_s_escaping(bytes: Seq<u8>)
    ensures
        unescaped_from(game_escaped(bytes), 0) == bytes,
    decreases bytes.len(),
{
    if bytes.len() > 0 {
        let b = bytes[0];
        let p = escape_byte(b);
        let r = game_escaped(bytes.drop_first());
        let s = p + r;
        assert(game_escaped(bytes) == s);
        unescaping_undoes_the_game_s_escaping(bytes.drop_first());
        lemma_unescape_shift(p, r, 0);
        assert(unescaped_from(s, p.len() as int) == bytes.drop_first());
        if b == 0 {
            assert(s[0] == 92 && s[1] == 48 && s[2] == 48 && s[3] == 48);
            assert(escape_digits(s, 1, 3) == 3);
            assert(escape_digits(s, 1, 2) == 3);
            assert(escape_digits(s, 1, 1) == 3);
            assert(escape_digits(s, 1, 0) == 3);
            assert(escape_value(s, 1, 0) == 0);
            assert(escape_value(s, 1, 1) == 0);
            assert(escape_value(s, 1, 2) == 0);
            assert(escape_value(s, 1, 3) == 0);
            assert(unescaped_from(s, 0) == seq![0u8] + unescaped_from(s, 4));
        } else if b == 92 || b == 34 || b == 10 || b == 13 {
            assert(s[0] == 92 && s[1] == p[1]);
            assert(unescaped_from(s, 0) == seq![b] + unescaped_from(s, 2));
        } else {
            assert(s[0] == b);
            assert(unescaped_from(s, 0) == seq![b] + unescaped_from(s, 1));
        }
        assert(unescaped_from(s, 0) =~= bytes);
    }
}

/// Turn a Lua string literal's bytes back into the bytes it stood for.
fn unescape(literal: &[u8]) -> (out: Vec<u8>)
    ensures
        out@ == unescaped_from(literal@, 0),
{
    let mut out: Vec<u8> = Vec::new();
    let mut index: usize = 0;
    let ghost lit = literal@;
    while index < literal.len()
        invariant
            lit == literal@,
            0 <= index <= lit.len(),
            out@ + unescaped_from(lit, index as int) == unescaped_from(lit, 0),
        decreases lit.len() - index,
    {
        let ghost before = out@;
        if literal[index] != 92 {
            out.push(literal[index]);
            index = index + 1;
            proof {
                assert(out@ =~= before + seq![lit[index - 1]]);
            }
            continue;
        }
        if index + 1 >= literal.len() {
            out.push(92);
            index = index + 1;
            proof {
                assert(out@ =~= before + seq![92u8]);
            }
            continue;
        }
        let c = literal[index + 1];
        if c == 110 || c == 114 || c == 116 || c == 34 || c == 39 || c == 92 {
            let b: u8 = if c == 110 {
                10
            } else if c == 114 {
                13
            } else if c == 116 {
                9
            } else {
                c
            };
            out.push(b);
            index = index + 2;
            proof {
                assert(out@ =~= before + seq![b]);
            }
        } else if 48 <= c && c <= 57 {
            let mut value: u32 = 0;
            let mut digits: usize = 0;
            proof {
                lemma_escape_digits(lit, index + 1, 0);
            }
            while digits < 3 && digits < literal.len() - index - 1 && 48 <= literal[index + 1
                + digits] && literal[index + 1 + digits] <= 57
                invariant
                    lit == literal@,
                    0 <= digits <= 3,
                    index + 1 < lit.len(),
                    escape_digits(lit, index + 1, 0) == escape_digits(lit, index + 1, digits as int),
                    value == escape_value(lit, index + 1, digits as int),
                    value <= 999,
                    digits == 0 ==> value == 0,
                    digits == 1 ==> value <= 9,
                    digits == 2 ==> value <= 99,
                    index + 1 + digits <= lit.len(),
                    forall|y: int| index + 1 <= y < index + 1 + digits ==> 48 <= #[trigger] lit[y] <= 57,
                decreases 3 - digits,
            {
                let d = literal[index + 1 + digits];
                proof {
                    assert(value * 10 + (d - 48) <= 999) by (nonlinear_arith)
                        requires
                            value == escape_value(lit, index + 1, digits as int),
                            digits < 3,
                            48 <= d <= 57,
                            value <= 999,
                            digits == 0 ==> value == 0,
                            digits == 1 ==> value <= 9,
                            digits == 2 ==> value <= 99,
                    ;
                }
                value = value * 10 + (d - 48) as u32;
                digits = digits + 1;
            }
            out.push((value % 256) as u8);
            index = index + 1 + digits;
            proof {
                assert(out@ =~= before + seq![(escape_value(lit, index - digits, digits as int) % 256) as u8]);
            }
        } else {
            out.push(92);
            index = index + 1;
            proof {
                assert(out@ =~= before + seq![92u8]);
            }
        }
    }
    proof {
        assert(out@ + unescaped_from(lit, index as int) =~= out@);
    }
    out
}

/// A copy of some bytes.
fn copy_bytes(bytes: &[u8]) -> (copy: Vec<u8>)
    ensures
        copy@ == bytes@,
{
    let mut copy: Vec<u8> = Vec::new();
    let mut i: usize = 0;
    while i < bytes.len()
        invariant
            0 <= i <= bytes@.len(),
            copy@ == bytes@.take(i as int),
        decreases bytes@.len() - i,
    {
        copy.push(bytes[i]);
        proof {
            assert(copy@ =~= bytes@.take(i + 1));
        }
        i = i + 1;
    }
    proof {
        assert(bytes@.take(bytes@.len() as int) =~= bytes@);
    }
    copy
}

/// Prepend `entries` to a scan's outcome.
pub open spec fn ahead<T, E>(entries: Seq<T>, outcome: Result<Seq<T>, E>) -> Result<Seq<T>, E> {
    match outcome {
        Ok(rest) => Ok(entries + rest),
        Err(e) => Err(e),
    }
}

/// Every `["key"] = "value"` entry of a global's body from `at` on, values
/// still escaped; or the key of an entry whose string never ends. Only a
/// value that is itself a string literal counts: a number or a table is
/// passed over. Keys are read as UTF-8 with malformed sequences replaced.
pub open spec fn scan_entries(body: Seq<u8>, at: int) -> Result<Seq<(Seq<char>, Seq<u8>)>, Seq<char>>
    decreases body.len() + 1 - at,
{
    if at < 0 || at > body.len() {
        Ok(Seq::empty())
    } else {
        match find_from(body, entry_open(), at) {
            None => Ok(Seq::empty()),
            Some(open) => {
                proof {
                    lemma_find_from_bounds(body, entry_open(), at);
                }
                let key_start = open + 2;
                match find_from(body, key_close(), key_start) {
                    None => Ok(Seq::empty()),
                    Some(key_end) => {
                        proof {
                            lemma_find_from_bounds(body, key_close(), key_start);
                        }
                        let key = lossy_utf8(body.subrange(key_start, key_end));
                        let after_key = key_end + 2;
                        match skip_ascii_space(body, after_key) {
                            None => Ok(Seq::empty()),
                            Some(eq) => {
                                proof {
                                    lemma_skip_bounds(body, after_key);
                                }
                                if body[eq] != 61 {
                                    scan_entries(body, after_key)
                                } else {
                                    match skip_ascii_space(body, eq + 1) {
                                        None => Ok(Seq::empty()),
                                        Some(quote) => {
                                            proof {
                                                lemma_skip_bounds(body, eq + 1);
                                            }
                                            if body[quote] != 34 {
                                                scan_entries(body, quote)
                                            } else {
                                                match closing_quote_from(body, quote + 1, quote + 1) {
                                                    None => Err(key),
                                                    Some(end) => {
                                                        proof {
                                                            lemma_closing_bounds(
                                                                body,
                                                                quote + 1,
                                                                quote + 1,
                                                            );
                                                        }
                                                        ahead(
                                                            seq![(key, body.subrange(quote + 1, end))],
                                                            scan_entries(body, end + 1),
                                                        )
                                                    },
                                                }
                                            }
                                        },
                                    }
                                }
                            },
                        }
                    },
                }
            },
        }
    }
}

/// The entries as characters and bytes.
pub open spec fn entries_view(found: Seq<(String, Vec<u8>)>) -> Seq<(Seq<char>, Seq<u8>)> {
    found.map_values(|e: (String, Vec<u8>)| (e.0@, e.1@))
}

/// Every `["key"] = "value"` entry in a global's body, values still escaped.
fn string_entries(body: &[u8]) -> (entries: Result<Vec<(String, Vec<u8>)>, PriceError>)
    ensures
        match entries {
            Ok(found) => scan_entries(body@, 0) == Ok::<_, Seq<char>>(entries_view(found@)),
            Err(e) => scan_entries(body@, 0) matches Err(key) && e matches PriceError::UnterminatedString(
                k,
            ) && k@ == key,
        },
{
    let mut found: Vec<(String, Vec<u8>)> = Vec::new();
    let mut at: usize = 0;
    let blen = body.len();
    let open = vec![91u8, 34u8];
    let close = vec![34u8, 93u8];
    proof {
        assert(open@ =~= entry_open());
        assert(close@ =~= key_close());
    }
    loop
        invariant
            at <= body@.len(),
            blen == body@.len(),
            open@ == entry_open(),
            close@ == key_close(),
            ahead(entries_view(found@), scan_entries(body@, at as int)) == scan_entries(body@, 0),
        decreases body@.len() + 1 - at,
    {
        let ghost here = scan_entries(body@, at as int);
        let start = match find(body, open.as_slice(), at) {
            Some(start) => start,
            None => {
                proof {
                    assert(entries_view(found@) + Seq::empty() =~= entries_view(found@));
                }
                return Ok(found);
            },
        };
        proof {
            lemma_find_from_bounds(body@, entry_open(), at as int);
        }
        let key_start = start + 2;
        let key_end = match find(body, close.as_slice(), key_start) {
            Some(key_end) => key_end,
            None => {
                proof {
                    assert(entries_view(found@) + Seq::empty() =~= entries_view(found@));
                }
                return Ok(found);
            },
        };
        proof {
            lemma_find_from_bounds(body@, key_close(), key_start as int);
        }
        let key = lossy_text(&body[key_start..key_end]);
        let after_key = key_end + 2;
        let eq = match skip_space_bytes(body, after_key) {
            Some(eq) => eq,
            None => {
                proof {
                    assert(entries_view(found@) + Seq::empty() =~= entries_view(found@));
                }
                return Ok(found);
            },
        };
        proof {
            lemma_skip_bounds(body@, after_key as int);
        }
        if body[eq] != 61 {
            proof {
                assert(here == scan_entries(body@, after_key as int));
            }
            at = after_key;
            continue;
        }
        let quote = match skip_space_bytes(body, eq + 1) {
            Some(quote) => quote,
            None => {
                proof {
                    assert(entries_view(found@) + Seq::empty() =~= entries_view(found@));
                }
                return Ok(found);
            },
        };
        proof {
            lemma_skip_bounds(body@, eq + 1);
        }
        if body[quote] != 34 {
            proof {
                assert(here == scan_entries(body@, quote as int));
            }
            at = quote;
            continue;
        }
        let end = match closing_quote(body, quote + 1) {
            Some(end) => end,
            None => {
                return Err(PriceError::UnterminatedString(key));
            },
        };
        proof {
            lemma_closing_bounds(body@, quote + 1, quote + 1);
        }
        let literal = copy_bytes(&body[quote + 1..end]);
        let ghost entry = (key@, literal@);
        let ghost before = entries_view(found@);
        found.push((key, literal));
        proof {
            assert(entries_view(found@) =~= before + seq![entry]);
            assert(entry == (lossy_utf8(body@.subrange(key_start as int, key_end as int)), body@.subrange(quote + 1, end as int)));
            assert(here == ahead(seq![entry], scan_entries(body@, end + 1)));
            match scan_entries(body@, end + 1) {
                Ok(rest) => {
                    assert(before + seq![entry] + rest =~= before + (seq![entry] + rest));
                },
                Err(_) => {},
            }
        }
        at = end + 1;
    }
}

/// The body of the global that `marker` opens: from just after the marker
/// to the first newline-and-brace after it.
pub open spec fn global_body_of(bytes: Seq<u8>, marker: Seq<u8>) -> Option<Seq<u8>> {
    if marker.len() == 0 {
        None
    } else {
        match find_from(bytes, marker, 0) {
            None => None,
            Some(m) => match find_from(bytes, global_close(), m + marker.len()) {
                None => None,
                Some(end) => Some(bytes.subrange(m + marker.len(), end)),
            },
        }
    }
}

/// The bytes between a named global's opening brace and its close.
///
/// The writer indents nested tables but always puts a lone `}` in the first
/// column to close a top-level global, which is what this looks for. That is a
/// property of the file format rather than of Lua, which is precisely why this
/// is not trying to be a parser.
fn global_body<'a>(bytes: &'a [u8], marker: &[u8]) -> (body: Option<&'a [u8]>)
    ensures
        match body {
            Some(b) => global_body_of(bytes@, marker@) == Some(b@),
            None => global_body_of(bytes@, marker@) is None,
        },
{
    let blen = bytes.len();
    let m = match find(bytes, marker, 0) {
        Some(m) => m,
        None => return None,
    };
    proof {
        lemma_find_from_bounds(bytes@, marker@, 0);
    }
    let start = m + marker.len();
    let close = vec![10u8, 125u8];
    proof {
        assert(close@ =~= global_close());
    }
    let end = match find(bytes, close.as_slice(), start) {
        Some(end) => end,
        None => return None,
    };
    proof {
        lemma_find_from_bounds(bytes@, global_close(), start as int);
    }
    Some(&bytes[start..end])
}

/// `"] = `, which separates a vendor entry's key from its price.
pub open spec fn key_separator() -> Seq<char> {
    seq!['"', ']', ' ', '=', ' ']
}

/// `s` without the commas at its end.
pub open spec fn without_trailing_commas(s: Seq<char>) -> Seq<char>
    decreases s.len(),
{
    if s.len() > 0 && s.last() == ',' {
        without_trailing_commas(s.drop_last())
    } else {
        s
    }
}

/// A `["123"] = 456,` line of the vendor cache: the line read as UTF-8 with
/// malformed sequences replaced and trimmed; the key between `["` and the
/// first `"] = `; the price after it, less trailing commas, trimmed. Both
/// must read as numbers of their type.
pub open spec fn vendor_line(line: Seq<u8>) -> Option<(u32, u64)> {
    let text = trim(lossy_utf8(line));
    if text.len() >= 2 && text[0] == '[' && text[1] == '"' {
        let rest = text.subrange(2, text.len() as int);
        match find_from(rest, key_separator(), 0) {
            Some(p) => {
                let key = rest.subrange(0, p);
                let value = trim(without_trailing_commas(rest.subrange(p + 5, rest.len() as int)));
                match (parse_unsigned(key, u32::MAX as nat), parse_unsigned(value, u64::MAX as nat)) {
                    (Some(id), Some(price)) => Some((id as u32, price as u64)),
                    _ => None,
                }
            },
            None => None,
        }
    } else {
        None
    }
}

/// The lines of `body` from `i` on, split at each newline.
pub open spec fn lines_from(body: Seq<u8>, i: int) -> Seq<Seq<u8>>
    decreases body.len() + 1 - i,
{
    if i < 0 || i > body.len() {
        Seq::empty()
    } else {
        match find_from(body, seq![10u8], i) {
            None => seq![body.subrange(i, body.len() as int)],
            Some(p) => {
                proof {
                    lemma_find_from_bounds(body, seq![10u8], i);
                }
                seq![body.subrange(i, p)] + lines_from(body, p + 1)
            },
        }
    }
}

/// The vendor prices the lines give, a later line for an id replacing an
/// earlier one.
pub open spec fn vendor_prices(lines: Seq<Seq<u8>>) -> Map<u32, u64>
    decreases lines.len(),
{
    if lines.len() == 0 {
        Map::empty()
    } else {
        let rest = vendor_prices(lines.drop_last());
        match vendor_line(lines.last()) {
            Some((id, price)) => rest.insert(id, price),
            None => rest,
        }
    }
}

/// A copy of the characters `from..to` of a string.
fn chars_between(text: &str, from: usize, to: usize) -> (part: String)
    requires
        from <= to <= text@.len(),
    ensures
        part@ == text@.subrange(from as int, to as int),
{
    let mut part = String::new();
    let mut i = from;
    while i < to
        invariant
            from <= i <= to <= text@.len(),
            part@ == text@.subrange(from as int, i as int),
        decreases to - i,
    {
        push_char(&mut part, text.get_char(i));
        proof {
            assert(part@ =~= text@.subrange(from as int, i + 1));
        }
        i = i + 1;
    }
    part
}

fn vendor_entry(line: &[u8]) -> (entry: Option<(u32, u64)>)
    ensures
        entry == vendor_line(line@),
{
    let raw = lossy_text(line);
    let text = trim_str(raw.as_str());
    let n = text.unicode_len();
    if n < 2 || text.get_char(0) != '[' || text.get_char(1) != '"' {
        return None;
    }
    let ghost rest = text@.subrange(2, n as int);
    let sep = ['"', ']', ' ', '=', ' '];
    proof {
        assert(sep@ =~= key_separator());
    }
    // Where the separator first sits, as an offset into the part after `["`.
    let mut j: usize = 0;
    let mut found: Option<usize> = None;
    while j <= n - 2 && 5 <= n - 2 - j
        invariant_except_break
            found is None,
        invariant
            n == text@.len(),
            n >= 2,
            j <= n,
            rest == text@.subrange(2, n as int),
            sep@ == key_separator(),
            find_from(rest, key_separator(), 0) == find_from(rest, key_separator(), j as int),
        ensures
            match found {
                Some(p) => find_from(rest, key_separator(), 0) == Some(p as int),
                None => find_from(rest, key_separator(), 0) is None,
            },
        decreases n - j,
    {
        let mut k: usize = 0;
        while k < 5
            invariant
                0 <= k <= 5,
                j + 5 <= n - 2,
                n == text@.len(),
                sep@ == key_separator(),
                forall|x: int| 0 <= x < k ==> text@[2 + j + x] == key_separator()[x],
            ensures
                0 <= k <= 5,
                forall|x: int| 0 <= x < k ==> text@[2 + j + x] == key_separator()[x],
                k < 5 ==> text@[2 + j + k] != key_separator()[k as int],
            decreases 5 - k,
        {
            if text.get_char(2 + j + k) != sep[k] {
                break;
            }
            k = k + 1;
        }
        if k == 5 {
            proof {
                assert(rest.subrange(j as int, j + 5) =~= key_separator());
            }
            found = Some(j);
            break;
        }
        proof {
            assert(rest.subrange(j as int, j + 5)[k as int] != key_separator()[k as int]);
        }
        j = j + 1;
    }
    let p = match found {
        Some(p) => p,
        None => return None,
    };
    proof {
        lemma_find_from_bounds(rest, key_separator(), 0);
    }
    let key = chars_between(text.as_str(), 2, 2 + p);
    let mut end = n;
    while end > 2 + p + 5 && text.get_char(end - 1) == ','
        invariant
            2 + p + 5 <= end <= n,
            n == text@.len(),
            without_trailing_commas(text@.subrange(2 + p + 5, n as int)) == without_trailing_commas(
                text@.subrange(2 + p + 5, end as int),
            ),
        decreases end,
    {
        proof {
            assert(text@.subrange(2 + p + 5, end as int).drop_last() =~= text@.subrange(
                2 + p + 5,
                end - 1,
            ));
        }
        end = end - 1;
    }
    proof {
        let tail = text@.subrange(2 + p + 5, end as int);
        assert(without_trailing_commas(tail) == tail);
        assert(rest.subrange(p as int, rest.len() as int).subrange(5, rest.len() - p) =~= text@.subrange(2 + p + 5, n as int));
        assert(rest.subrange(p + 5, rest.len() as int) =~= text@.subrange(2 + p + 5, n as int));
        assert(rest.subrange(0, p as int) =~= text@.subrange(2, 2 + p));
    }
    let value_raw = chars_between(text.as_str(), 2 + p + 5, end);
    let value = trim_str(value_raw.as_str());
    let id = parse_unsigned_str(key.as_str(), u32::MAX as u64);
    let price = parse_unsigned_str(value.as_str(), u64::MAX);
    match (id, price) {
        (Some(id), Some(price)) => Some((id as u32, price)),
        _ => None,
    }
}

/// Every `["123"] = 456,` entry in a global's body.
fn integer_entries(body: &[u8]) -> (prices: BTreeMap<u32, u64>)
    ensures
        prices@ == vendor_prices(lines_from(body@, 0)),
{
    let mut found: BTreeMap<u32, u64> = BTreeMap::new();
    let ghost mut done: Seq<Seq<u8>> = Seq::empty();
    let blen = body.len();
    let newline = vec![10u8];
    proof {
        assert(newline@ =~= seq![10u8]);
    }
    let mut at: usize = 0;
    loop
        invariant
            at <= body@.len(),
            blen == body@.len(),
            newline@ == seq![10u8],
            done + lines_from(body@, at as int) == lines_from(body@, 0),
            found@ == vendor_prices(done),
        decreases body@.len() + 1 - at,
    {
        let ghost before = done;
        match find(body, newline.as_slice(), at) {
            Some(p) => {
                proof {
                    lemma_find_from_bounds(body@, seq![10u8], at as int);
                }
                let line = &body[at..p];
                if let Some((id, price)) = vendor_entry(line) {
                    found.insert(id, price);
                }
                proof {
                    done = done.push(line@);
                    assert(done.drop_last() =~= before);
                    assert(lines_from(body@, at as int) == seq![line@] + lines_from(body@, p + 1));
                    assert(before + (seq![line@] + lines_from(body@, p + 1)) =~= done + lines_from(
                        body@,
                        p + 1,
                    ));
                }
                at = p + 1;
            },
            None => {
                let line = &body[at..blen];
                if let Some((id, price)) = vendor_entry(line) {
                    found.insert(id, price);
                }
                proof {
                    done = done.push(line@);
                    assert(done.drop_last() =~= before);
                    assert(lines_from(body@, at as int) == seq![line@]);
                    assert(before + seq![line@] =~= done);
                }
                return found;
            },
        }
    }
}

/// What the price database's global opens with.
pub open spec fn price_marker() -> Seq<u8> {
    encode_utf8("AUCTIONATOR_PRICE_DATABASE = {"@)
}

/// What the vendor price cache's global opens with.
pub open spec fn vendor_marker() -> Seq<u8> {
    encode_utf8("AUCTIONATOR_VENDOR_PRICE_CACHE = {"@)
}

/// Why a realm's blob does not decode, if it does not.
pub open spec fn realm_failure(blob: Seq<u8>) -> Option<Seq<char>> {
    match cbor_decoding(blob) {
        Err(reason) => Some(reason),
        Ok(value) => if value is Dict {
            None
        } else {
            Some("the blob is not a map"@)
        },
    }
}

/// The realm blobs that decode, as each realm's key and the decoded map's
/// entries, in order.
pub open spec fn decoded_realms(entries: Seq<(Seq<char>, Seq<u8>)>) -> Seq<
    (Seq<char>, Seq<(CborValue, CborValue)>),
>
    decreases entries.len(),
{
    if entries.len() == 0 {
        Seq::empty()
    } else {
        let rest = decoded_realms(entries.drop_last());
        let (key, literal) = entries.last();
        match cbor_decoding(unescaped_from(literal, 0)) {
            Ok(CborValue::Dict(items)) => rest.push((key, items@)),
            _ => rest,
        }
    }
}

/// A note for each realm whose blob does not decode, in order.
pub open spec fn realm_notes(entries: Seq<(Seq<char>, Seq<u8>)>) -> Seq<Seq<char>>
    decreases entries.len(),
{
    if entries.len() == 0 {
        Seq::empty()
    } else {
        let rest = realm_notes(entries.drop_last());
        let (key, literal) = entries.last();
        match realm_failure(unescaped_from(literal, 0)) {
            Some(detail) => rest.push(
                "could not decode the price data for "@ + key + ": "@ + detail,
            ),
            None => rest,
        }
    }
}

/// `db` is what the file's realm entries and vendor cache give.
pub open spec fn price_db_from(
    db: PriceDb,
    entries: Seq<(Seq<char>, Seq<u8>)>,
    vendor_body: Option<Seq<u8>>,
) -> bool {
    &&& sorted_by_key(db.realms@)
    &&& keyed_by_last(
        db.realms@,
        decoded_realms(entries),
        |r: RealmPrices, items: Seq<(CborValue, CborValue)>| realm_from(r, items),
    )
    &&& texts_of(db.notes@) == realm_notes(entries)
    &&& db.vendor@ == match vendor_body {
        Some(body) => vendor_prices(lines_from(body, 0)),
        None => Map::empty(),
    }
}

/// Read a whole `Auctionator.lua`.
///
/// Takes bytes rather than a string on purpose: the file is not valid UTF-8,
/// and lossy conversion would corrupt the very blobs being read. The price
/// database must be there; each realm entry is unescaped and decoded, and one
/// unreadable realm becomes a note rather than costing the player the rest.
/// The vendor cache is read when present.
pub fn load(bytes: &[u8]) -> (db: Result<PriceDb, PriceError>)
    ensures
        match db {
            Ok(db) => global_body_of(bytes@, price_marker()) matches Some(body) && scan_entries(
                body,
                0,
            ) matches Ok(entries) && price_db_from(
                db,
                entries,
                global_body_of(bytes@, vendor_marker()),
            ),
            Err(e) => match global_body_of(bytes@, price_marker()) {
                None => e == PriceError::MissingGlobal("AUCTIONATOR_PRICE_DATABASE"),
                Some(body) => scan_entries(body, 0) matches Err(key) && e matches PriceError::UnterminatedString(
                    k,
                ) && k@ == key,
            },
        },
{
    let price_body = match global_body(bytes, "AUCTIONATOR_PRICE_DATABASE = {".as_bytes()) {
        Some(body) => body,
        None => return Err(PriceError::MissingGlobal("AUCTIONATOR_PRICE_DATABASE")),
    };
    let entries = match string_entries(price_body) {
        Ok(entries) => entries,
        Err(e) => return Err(e),
    };
    let ghost all = entries_view(entries@);
    let mut realms: StrMap<RealmPrices> = StrMap::new();
    let mut notes: Vec<String> = Vec::new();
    let mut i: usize = 0;
    while i < entries.len()
        invariant
            0 <= i <= entries@.len(),
            all == entries_view(entries@),
            sorted_by_key(realms@),
            keyed_by_last(
                realms@,
                decoded_realms(all.take(i as int)),
                |r: RealmPrices, items: Seq<(CborValue, CborValue)>| realm_from(r, items),
            ),
            texts_of(notes@) == realm_notes(all.take(i as int)),
        decreases entries@.len() - i,
    {
        proof {
            assert(all.take(i + 1).drop_last() =~= all.take(i as int));
            assert(all.take(i + 1).last() == all[i as int]);
        }
        let (key, literal) = &entries[i];
        // `__dbversion` sits beside the realms as a plain number, so it never
        // appears here; anything that is a string is a realm blob.
        let blob = unescape(literal.as_slice());
        match decode_realm(blob.as_slice()) {
            Ok(prices) => {
                let ghost before = realms@;
                let ghost items = match cbor_decoding(blob@) {
                    Ok(CborValue::Dict(items)) => items@,
                    _ => Seq::empty(),
                };
                realms.insert(key.clone(), prices);
                proof {
                    lemma_keyed_step(
                        before,
                        realms@,
                        decoded_realms(all.take(i as int)),
                        key@,
                        items,
                        prices,
                        |r: RealmPrices, items: Seq<(CborValue, CborValue)>| realm_from(r, items),
                    );
                }
            },
            Err(detail) => {
                let ghost before = notes@;
                let mut note = to_owned_string("could not decode the price data for ");
                push_str(&mut note, key.as_str());
                push_str(&mut note, ": ");
                push_str(&mut note, detail.as_str());
                notes.push(note);
                proof {
                    assert(texts_of(notes@) =~= texts_of(before).push(
                        "could not decode the price data for "@ + key@ + ": "@ + detail@,
                    ));
                }
            },
        }
        i = i + 1;
    }
    proof {
        assert(all.take(entries@.len() as int) =~= all);
    }
    let vendor = match global_body(bytes, "AUCTIONATOR_VENDOR_PRICE_CACHE = {".as_bytes()) {
        Some(body) => integer_entries(body),
        None => BTreeMap::new(),
    };
    Ok(PriceDb { realms, vendor, notes })
}

fn more_items(incoming: &RealmPrices, held: &RealmPrices) -> (more: bool)
    ensures
        more == (incoming.items@.len() > held.items@.len()),
{
    incoming.items.len() > held.items.len()
}

/// Merge the prices read from another file into those already held.
///
/// Two accounts can both have scanned the same realm; whichever saw more
/// items is the better database, and the one already held wins a tie. Vendor
/// prices from the newer file replace those already held. Notes are left to
/// the caller.
pub fn merge_prices(into: &mut PriceDb, loaded: PriceDb)
    ensures
        final(into).notes@ == old(into).notes@,
        final(into).vendor@ == old(into).vendor@.union_prefer_right(loaded.vendor@),
        forall|k: Seq<char>|
            #[trigger] value_of(final(into).realms@, k) == merged_value(
                value_of(old(into).realms@, k),
                value_of(loaded.realms@, k),
                |n: RealmPrices, o: RealmPrices| n.items@.len() > o.items@.len(),
            ),
{
    let ghost before = into.vendor@;
    let ghost vendor = loaded.vendor@;
    let ghost notes = into.notes@;
    let ghost realms = into.realms@;
    for kv in it: loaded.vendor.iter()
        invariant
            into.notes@ == notes,
            into.realms@ == realms,
            notes == old(into).notes@,
            realms == old(into).realms@,
            forall|i: int| 0 <= i < it.seq().len() ==> vendor.contains_key(*it.seq()[i].0) && vendor[*it.seq()[i].0] == *it.seq()[i].1,
            forall|k: u32|
                #[trigger] into.vendor@.contains_key(k) <==> (before.contains_key(k) || exists|j: int|
                    0 <= j < it.index() && *it.seq()[j].0 == k),
            forall|k: u32|
                #[trigger] into.vendor@.contains_key(k) ==> into.vendor@[k] == if exists|j: int|
                    0 <= j < it.index() && *it.seq()[j].0 == k {
                    vendor[k]
                } else {
                    before[k]
                },
    {
        let (item, price) = kv;
        into.vendor.insert(*item, *price);
    }
    proof {
        let v = loaded.vendor.iter().remaining();
        assert forall|k: u32| vendor.contains_key(k) implies exists|j: int|
            0 <= j < v.len() && *v[j].0 == k by {
            assert(v.contains((&k, &vendor[k])));
            let j = choose|j: int| 0 <= j < v.len() && v[j] == (&k, &vendor[k]);
        }
        assert(into.vendor@ =~= before.union_prefer_right(vendor));
    }
    into.realms.merge(
        loaded.realms,
        Ghost(|n: RealmPrices, o: RealmPrices| n.items@.len() > o.items@.len()),
        more_items,
    );
}

} // verus!
