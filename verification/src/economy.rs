//! What the whole roster makes and holds.
//!
//! This is the view a per-character window cannot give you. Professions are
//! spread across alts on purpose, materials pile up wherever they dropped, and
//! the character holding the ore is rarely the one who can smelt it.
//!
//! **Every role counts here.** That is the entire point of marking a bank alt:
//! it leaves the play rotation and keeps its professions, its bags and its
//! gold.
//!
//! Prices come from Auctionator's record of the last minimum buyout it saw in
//! a scan: a real observation, not what the player would receive. Every
//! figure travels with how stale it is, and anything without a price is
//! reported as unpriced rather than counted as worthless.
//!
//! Auctionator's daily figure is the best minimum buyout it happened to
//! *see*, so the day-to-day series measures scan completeness as much as
//! price. A last-seen price is only called out when it is at least a hundred
//! times away from the usual one — far beyond what that artifact reaches.
//! The comparison is made in exact integer arithmetic.

use vstd::prelude::*;

use crate::auctionator::{is_median, latest_scan, newest_seen, ItemPrices, PriceDb, RealmPrices};
use crate::coaching::{only_if, texts_of};
use crate::gap::comma_joined;
use crate::collector::{display_name_of, CharacterRecord, ProfessionRecipes};
use crate::order::{sort_stable, stable_sorted, total_preorder};
use crate::roster::{Role, RosterEntry};
use crate::text::{
    ascending_keys, decimal, eq_ignore_ascii_case, lemma_ascending_keys_unique, push_decimal,
    push_str, key_lt, key_order, lemma_key_lt_transitive, lemma_key_order,
    has_key, lemma_unique_key, same_ignoring_ascii_case, sorted_by_key, to_owned_string,
    opt_view, value_of, KeyOrder, StrMap,
};

verus! {

/// A profession somebody on the roster has.
#[derive(Debug, Clone, PartialEq)]
pub struct ProfessionHolder {
    pub key: String,
    pub name: String,
    pub role: Role,
    pub profession: String,
    pub rank: Option<u16>,
    pub max_rank: Option<u16>,
    pub recipes_known: Option<usize>,
}

impl ProfessionHolder {
    /// True when the skill is at its cap and needs a trainer to go further.
    pub fn needs_training(&self) -> (needs: bool)
        ensures
            needs == (self.rank matches Some(rank) && self.max_rank matches Some(max) && max > 0
                && rank >= max),
    {
        match (self.rank, self.max_rank) {
            (Some(rank), Some(max)) => max > 0 && rank >= max,
            _ => false,
        }
    }
}

/// One item in one market, totalled across everyone there holding it.
///
/// **Market, not item, is the unit.** Horde and Alliance run separate auction
/// houses on the same realm and the same item routinely differs by more than
/// double between them. Pooling a cross-faction roster into one row would
/// price half of it at the wrong market.
#[derive(Debug, Clone, PartialEq)]
pub struct Holding {
    /// Auctionator's realm key, e.g. `"Dreamscythe Horde"`. Absent when the
    /// capture did not say which realm or faction the holder was on.
    pub market: Option<String>,
    pub item_id: u32,
    /// The client's own name for it, when the capture had one. Never a key.
    pub name: Option<String>,
    pub count: u32,
    /// Character name to the count it holds, so the player knows where to go.
    pub held_by: StrMap<u32>,
    /// Last seen minimum buyout per unit, in copper.
    pub unit_price: Option<u64>,
    /// The middle of the recent daily prices, which one odd listing cannot
    /// move. Absent when there is no history to take a middle of.
    pub typical_price: Option<u64>,
    /// `unit_price * count`, absent when the price is.
    pub value: Option<u64>,
    /// `typical_price * count`, for the same reason.
    pub typical_value: Option<u64>,
    /// How many days before the realm's most recent scan this item was last
    /// seen. Zero means it was in the latest scan.
    pub days_stale: Option<i64>,
}

/// How far out of line a last-seen price has to be before it is called out:
/// a hundred times the usual price, or a hundredth of it.
///
/// High on purpose. Comparing across days measures scan completeness as much
/// as price: on a real database that artifact alone reached about 30x, while
/// the genuine mis-listing that prompted this reached about 5,600x. A hundred
/// sits in the gap between them, and is set to miss borderline cases rather
/// than flag good ones.
pub const OUTLIER_RATIO: u64 = 100;

/// The last seen price is wildly out of line with the usual one.
pub open spec fn is_outlier(unit_price: Option<u64>, typical_price: Option<u64>) -> bool {
    match (unit_price, typical_price) {
        (Some(last), Some(typical)) => typical > 0 && last > 0 && (last >= OUTLIER_RATIO
            * typical || OUTLIER_RATIO * last <= typical),
        _ => false,
    }
}

impl Holding {
    /// True when the last seen price is wildly out of line with the history.
    ///
    /// This does not mean the price is wrong. It means one listing is carrying
    /// the whole figure, and a reader deciding what to sell should know that
    /// before acting on it.
    pub fn price_looks_like_an_outlier(&self) -> (odd: bool)
        ensures
            odd == is_outlier(self.unit_price, self.typical_price),
    {
        match (self.unit_price, self.typical_price) {
            (Some(last), Some(typical)) => {
                if typical > 0 && last > 0 {
                    let last = last as u128;
                    let typical = typical as u128;
                    last >= 100 * typical || 100 * last <= typical
                } else {
                    false
                }
            },
            _ => false,
        }
    }
}

#[derive(Debug, Clone, Default, PartialEq)]
pub struct Economy {
    /// Sorted by profession, then by rank descending.
    pub professions: Vec<ProfessionHolder>,
    /// Priced holdings, most valuable first.
    pub holdings: Vec<Holding>,
    /// Held, but Auctionator has never seen it on the auction house. Kept
    /// apart rather than valued at zero: "no price" and "worthless" are
    /// different claims and only one of them is supported.
    pub unpriced: Vec<Holding>,
    /// Coin carried by every character counted here.
    pub gold_copper: u64,
    /// The sum of `holdings` at last seen prices.
    pub holdings_value: u64,
    /// The same with the flagged outliers valued at their typical price
    /// instead. Only those: substituting everywhere would swap a market
    /// figure for an artifact of how complete each day's scan happened to be.
    pub holdings_value_typical: u64,
    pub caveats: Vec<String>,
}

/// Holders best first: by rank, highest first.
pub open spec fn by_rank(a: ProfessionHolder, b: ProfessionHolder) -> bool {
    a.rank.unwrap_or(0) >= b.rank.unwrap_or(0)
}

/// The holders whose profession matches `profession`, ignoring ASCII case, in
/// order.
pub open spec fn holders_of(holders: Seq<ProfessionHolder>, profession: Seq<char>) -> Seq<
    ProfessionHolder,
>
    decreases holders.len(),
{
    if holders.len() == 0 {
        Seq::empty()
    } else {
        let rest = holders_of(holders.drop_last(), profession);
        if same_ignoring_ascii_case(holders.last().profession@, profession) {
            rest.push(holders.last())
        } else {
            rest
        }
    }
}

fn rank_higher(a: &&ProfessionHolder, b: &&ProfessionHolder) -> (higher: bool)
    ensures
        higher == (a.rank.unwrap_or(0) > b.rank.unwrap_or(0)),
{
    let ra: u16 = match a.rank {
        Some(rank) => rank,
        None => 0,
    };
    let rb: u16 = match b.rank {
        Some(rank) => rank,
        None => 0,
    };
    ra > rb
}

impl Economy {
    /// Everyone who has this profession, best first; holders of equal rank
    /// keep their order.
    pub fn who_has(&self, profession: &str) -> (found: Vec<&ProfessionHolder>)
        ensures
            stable_sorted(
                found@.map_values(|h: &ProfessionHolder| *h),
                holders_of(self.professions@, profession@),
                |a: ProfessionHolder, b: ProfessionHolder| by_rank(a, b),
            ),
    {
        let mut found: Vec<&ProfessionHolder> = Vec::new();
        let mut i: usize = 0;
        while i < self.professions.len()
            invariant
                0 <= i <= self.professions@.len(),
                found@.map_values(|h: &ProfessionHolder| *h) == holders_of(
                    self.professions@.take(i as int),
                    profession@,
                ),
            decreases self.professions@.len() - i,
        {
            proof {
                assert(self.professions@.take(i + 1).drop_last() =~= self.professions@.take(
                    i as int,
                ));
            }
            let holder = &self.professions[i];
            if eq_ignore_ascii_case(holder.profession.as_str(), profession) {
                found.push(holder);
                proof {
                    assert(found@.map_values(|h: &ProfessionHolder| *h) =~= holders_of(
                        self.professions@.take(i as int),
                        profession@,
                    ).push(self.professions@[i as int]));
                }
            }
            i = i + 1;
        }
        proof {
            assert(self.professions@.take(self.professions@.len() as int) =~= self.professions@);
        }
        let ghost le = |a: &ProfessionHolder, b: &ProfessionHolder| by_rank(*a, *b);
        let ghost unsorted = found@;
        let sorted = sort_stable(found, Ghost(le), rank_higher);
        proof {
            lemma_deref_holders(sorted@, unsorted, le);
        }
        sorted
    }
}

proof fn lemma_deref_holders(
    sorted: Seq<&ProfessionHolder>,
    input: Seq<&ProfessionHolder>,
    le_ref: spec_fn(&ProfessionHolder, &ProfessionHolder) -> bool,
)
    requires
        stable_sorted(sorted, input, le_ref),
        forall|a: &ProfessionHolder, b: &ProfessionHolder| #[trigger] le_ref(a, b) == by_rank(
            *a,
            *b,
        ),
    ensures
        stable_sorted(
            sorted.map_values(|h: &ProfessionHolder| *h),
            input.map_values(|h: &ProfessionHolder| *h),
            |a: ProfessionHolder, b: ProfessionHolder| by_rank(a, b),
        ),
{
    let p = choose|p: Seq<int>| crate::order::stable_arrangement(sorted, input, p, le_ref);
    let out = sorted.map_values(|h: &ProfessionHolder| *h);
    let inp = input.map_values(|h: &ProfessionHolder| *h);
    let le = |a: ProfessionHolder, b: ProfessionHolder| by_rank(a, b);
    assert(crate::order::stable_arrangement(out, inp, p, le)) by {
        assert forall|i: int, j: int| 0 <= i < j < out.len() implies le(
            #[trigger] out[i],
            #[trigger] out[j],
        ) && (le(out[j], out[i]) ==> p[i] < p[j]) by {
            assert(le_ref(sorted[i], sorted[j]));
        }
    }
}

/// Split copper into gold, silver and copper, for display.
pub fn coin(copper: u64) -> (parts: (u64, u64, u64))
    ensures
        parts == ((copper / 10_000) as u64, ((copper % 10_000) / 100) as u64, (copper % 100) as u64),
{
    (copper / 10_000, (copper % 10_000) / 100, copper % 100)
}

/// The market a record trades in: Auctionator's `"<realm> <faction>"` key,
/// when both halves were captured.
pub open spec fn market_of(record: CharacterRecord) -> Option<Seq<char>> {
    match (record.realm, record.faction) {
        (Some(realm), Some(faction)) => Some(realm@ + " "@ + faction@),
        _ => None,
    }
}

/// One stack counted: its market, item, holder's name, count, and the item's
/// name if the capture had one.
pub type Contribution = (Option<Seq<char>>, u32, Seq<char>, u32, Option<Seq<char>>);

/// The stacks a character's bags contribute: those whose item and count were
/// both captured.
pub open spec fn stack_contributions(
    stacks: Seq<crate::collector::ItemStack>,
    market: Option<Seq<char>>,
    holder: Seq<char>,
) -> Seq<Contribution>
    decreases stacks.len(),
{
    if stacks.len() == 0 {
        Seq::empty()
    } else {
        let rest = stack_contributions(stacks.drop_last(), market, holder);
        let stack = stacks.last();
        match (stack.item_id, stack.count) {
            (Some(item), Some(count)) => rest.push(
                (
                    market,
                    item,
                    holder,
                    count,
                    opt_view(stack.name),
                ),
            ),
            _ => rest,
        }
    }
}

/// A character's captured bag contents, if they were captured.
pub open spec fn bag_contents(record: CharacterRecord) -> Option<Seq<crate::collector::ItemStack>> {
    match record.inventory {
        Some(inventory) => match inventory.contents {
            Some(contents) => Some(contents@),
            None => None,
        },
        None => None,
    }
}

/// Everything the roster's bags contribute, character by character.
pub open spec fn contributions(entries: Seq<RosterEntry>) -> Seq<Contribution>
    decreases entries.len(),
{
    if entries.len() == 0 {
        Seq::empty()
    } else {
        let e = entries.last();
        contributions(entries.drop_last()) + match bag_contents(*e.record) {
            Some(stacks) => stack_contributions(
                stacks,
                market_of(*e.record),
                display_name_of(*e.record, e.key@),
            ),
            None => Seq::empty(),
        }
    }
}

/// How many of an item one holder has in one market.
pub open spec fn amount(cs: Seq<Contribution>, market: Option<Seq<char>>, item: u32, holder: Seq<char>) -> nat
    decreases cs.len(),
{
    if cs.len() == 0 {
        0
    } else {
        let c = cs.last();
        amount(cs.drop_last(), market, item, holder) + if c.0 == market && c.1 == item && c.2
            == holder {
            c.3 as nat
        } else {
            0nat
        }
    }
}

/// How many of an item the roster has in one market.
pub open spec fn group_total(cs: Seq<Contribution>, market: Option<Seq<char>>, item: u32) -> nat
    decreases cs.len(),
{
    if cs.len() == 0 {
        0
    } else {
        let c = cs.last();
        group_total(cs.drop_last(), market, item) + if c.0 == market && c.1 == item {
            c.3 as nat
        } else {
            0nat
        }
    }
}

/// Some stack of the item is held in the market.
pub open spec fn occurs(cs: Seq<Contribution>, market: Option<Seq<char>>, item: u32) -> bool {
    exists|i: int| 0 <= i < cs.len() && (#[trigger] cs[i]).0 == market && cs[i].1 == item
}

/// The holder has a stack of the item in the market.
pub open spec fn holds(cs: Seq<Contribution>, market: Option<Seq<char>>, item: u32, holder: Seq<char>) -> bool {
    exists|i: int|
        0 <= i < cs.len() && (#[trigger] cs[i]).0 == market && cs[i].1 == item && cs[i].2 == holder
}

/// The first name any stack gave the item, in any market: names are display
/// only, so the first one wins and the id stays the key.
pub open spec fn first_name(cs: Seq<Contribution>, item: u32) -> Option<Seq<char>>
    decreases cs.len(),
{
    if cs.len() == 0 {
        None
    } else {
        match first_name(cs.drop_last(), item) {
            Some(name) => Some(name),
            None => if cs.last().1 == item {
                cs.last().4
            } else {
                None
            },
        }
    }
}

/// Markets in order: an unknown market first, then by key.
pub open spec fn market_lt(a: Option<Seq<char>>, b: Option<Seq<char>>) -> bool {
    match (a, b) {
        (None, Some(_)) => true,
        (Some(x), Some(y)) => key_lt(x, y),
        _ => false,
    }
}

/// Groups in order: by market, then by item.
pub open spec fn group_lt(a: (Option<Seq<char>>, u32), b: (Option<Seq<char>>, u32)) -> bool {
    market_lt(a.0, b.0) || (a.0 == b.0 && a.1 < b.1)
}

/// A strictly increasing list of groups.
pub open spec fn ascending_groups(gs: Seq<(Option<Seq<char>>, u32)>) -> bool {
    forall|i: int, j: int| 0 <= i < j < gs.len() ==> group_lt(#[trigger] gs[i], #[trigger] gs[j])
}

proof fn lemma_market_order(a: Option<Seq<char>>, b: Option<Seq<char>>, c: Option<Seq<char>>)
    ensures
        market_lt(a, b) || market_lt(b, a) || a == b,
        !(market_lt(a, b) && market_lt(b, a)),
        !market_lt(a, a),
        market_lt(a, b) && market_lt(b, c) ==> market_lt(a, c),
{
    match (a, b) {
        (Some(x), Some(y)) => lemma_key_order(x, y),
        _ => {},
    }
    match a {
        Some(x) => lemma_key_order(x, x),
        None => {},
    }
    if market_lt(a, b) && market_lt(b, c) {
        match (a, b, c) {
            (Some(x), Some(y), Some(z)) => lemma_key_lt_transitive(x, y, z),
            _ => {},
        }
    }
}

/// A market as characters.
pub open spec fn market_view(market: Option<String>) -> Option<Seq<char>> {
    match market {
        Some(m) => Some(m@),
        None => None,
    }
}

/// A holding group while the bags are being counted.
struct Group {
    market: Option<String>,
    item_id: u32,
    count: u32,
    held_by: StrMap<u32>,
}

/// `g` counts exactly what `cs` holds of its item in its market.
spec fn counts(g: Group, cs: Seq<Contribution>) -> bool {
    let m = market_view(g.market);
    &&& g.count == group_total(cs, m, g.item_id)
    &&& sorted_by_key(g.held_by@)
    &&& forall|h: Seq<char>| #[trigger] has_key(g.held_by@, h) <==> holds(cs, m, g.item_id, h)
    &&& forall|k: int|
        0 <= k < g.held_by@.len() ==> (#[trigger] g.held_by@[k]).1 == amount(
            cs,
            m,
            g.item_id,
            g.held_by@[k].0,
        )
}

/// The groups as market and item.
spec fn group_keys(groups: Seq<Group>) -> Seq<(Option<Seq<char>>, u32)> {
    groups.map_values(|g: Group| (market_view(g.market), g.item_id))
}

/// The groups count exactly the stacks seen so far, one group per market and
/// item, in order.
spec fn tallied(groups: Seq<Group>, cs: Seq<Contribution>) -> bool {
    &&& ascending_groups(group_keys(groups))
    &&& forall|m: Option<Seq<char>>, i: u32| #[trigger]
        occurs(cs, m, i) <==> group_keys(groups).contains((m, i))
    &&& forall|k: int| 0 <= k < groups.len() ==> counts(#[trigger] groups[k], cs)
}

/// Every market's total of every item fits a `u32`.
pub open spec fn totals_fit(cs: Seq<Contribution>) -> bool {
    forall|m: Option<Seq<char>>, i: u32| #[trigger] group_total(cs, m, i) <= u32::MAX
}

proof fn lemma_amount_within_total(cs: Seq<Contribution>, m: Option<Seq<char>>, i: u32, h: Seq<char>)
    ensures
        amount(cs, m, i, h) <= group_total(cs, m, i),
    decreases cs.len(),
{
    if cs.len() > 0 {
        lemma_amount_within_total(cs.drop_last(), m, i, h);
    }
}

proof fn lemma_prefix_totals(cs: Seq<Contribution>, n: int, m: Option<Seq<char>>, i: u32)
    requires
        0 <= n <= cs.len(),
    ensures
        group_total(cs.take(n), m, i) <= group_total(cs, m, i),
    decreases cs.len() - n,
{
    if n < cs.len() {
        lemma_prefix_totals(cs, n + 1, m, i);
        assert(cs.take(n + 1).drop_last() =~= cs.take(n));
    } else {
        assert(cs.take(n) =~= cs);
    }
}

proof fn lemma_push_facts(cs: Seq<Contribution>, c: Contribution, m: Option<Seq<char>>, i: u32, h: Seq<char>)
    ensures
        group_total(cs.push(c), m, i) == group_total(cs, m, i) + if c.0 == m && c.1 == i {
            c.3 as nat
        } else {
            0nat
        },
        amount(cs.push(c), m, i, h) == amount(cs, m, i, h) + if c.0 == m && c.1 == i && c.2 == h {
            c.3 as nat
        } else {
            0nat
        },
        occurs(cs.push(c), m, i) <==> occurs(cs, m, i) || (c.0 == m && c.1 == i),
        holds(cs.push(c), m, i, h) <==> holds(cs, m, i, h) || (c.0 == m && c.1 == i && c.2 == h),
{
    let next = cs.push(c);
    assert(next.drop_last() =~= cs);
    assert(next[cs.len() as int] == c);
    if occurs(next, m, i) {
        let k = choose|k: int| 0 <= k < next.len() && (#[trigger] next[k]).0 == m && next[k].1 == i;
        if k < cs.len() {
            assert(cs[k] == next[k]);
        }
    }
    if occurs(cs, m, i) {
        let k = choose|k: int| 0 <= k < cs.len() && (#[trigger] cs[k]).0 == m && cs[k].1 == i;
        assert(next[k] == cs[k]);
    }
    if holds(next, m, i, h) {
        let k = choose|k: int|
            0 <= k < next.len() && (#[trigger] next[k]).0 == m && next[k].1 == i && next[k].2 == h;
        if k < cs.len() {
            assert(cs[k] == next[k]);
        }
    }
    if holds(cs, m, i, h) {
        let k = choose|k: int|
            0 <= k < cs.len() && (#[trigger] cs[k]).0 == m && cs[k].1 == i && cs[k].2 == h;
        assert(next[k] == cs[k]);
    }
}

proof fn lemma_absent_is_zero(cs: Seq<Contribution>, m: Option<Seq<char>>, i: u32, h: Seq<char>)
    ensures
        !occurs(cs, m, i) ==> group_total(cs, m, i) == 0,
        !holds(cs, m, i, h) ==> amount(cs, m, i, h) == 0,
    decreases cs.len(),
{
    if cs.len() > 0 {
        let rest = cs.drop_last();
        lemma_absent_is_zero(rest, m, i, h);
        lemma_push_facts(rest, cs.last(), m, i, h);
        assert(rest.push(cs.last()) =~= cs);
    }
}

/// Add one stack to a holder's count in a group's map.
fn add_to_holder(held_by: &mut StrMap<u32>, holder: &str, count: u32, bound: Ghost<nat>)
    requires
        sorted_by_key(old(held_by)@),
        match value_of(old(held_by)@, holder@) {
            Some(v) => v + count <= bound@,
            None => count <= bound@,
        },
        bound@ <= u32::MAX,
    ensures
        sorted_by_key(final(held_by)@),
        forall|e: (Seq<char>, u32)|
            #![trigger final(held_by)@.contains(e)]
            #![trigger old(held_by)@.contains(e)]
            final(held_by)@.contains(e) <==> (e == (holder@, match value_of(old(held_by)@, holder@) {
                Some(v) => (v + count) as u32,
                None => count,
            }) || (old(held_by)@.contains(e) && e.0 != holder@)),
{
    let current: u32 = match held_by.get(holder) {
        Some(v) => *v,
        None => 0,
    };
    held_by.insert(to_owned_string(holder), current + count);
}

/// After adding a stack, a group's holder map still counts what it holds.
proof fn lemma_held_step(
    before: Seq<(Seq<char>, u32)>,
    after: Seq<(Seq<char>, u32)>,
    cs: Seq<Contribution>,
    c: Contribution,
)
    requires
        sorted_by_key(before),
        forall|h: Seq<char>| #[trigger] has_key(before, h) <==> holds(cs, c.0, c.1, h),
        forall|k: int|
            0 <= k < before.len() ==> (#[trigger] before[k]).1 == amount(cs, c.0, c.1, before[k].0),
        sorted_by_key(after),
        amount(cs, c.0, c.1, c.2) + c.3 <= u32::MAX,
        forall|e: (Seq<char>, u32)|
            #![trigger after.contains(e)]
            #![trigger before.contains(e)]
            after.contains(e) <==> (e == (c.2, match value_of(before, c.2) {
                Some(v) => (v + c.3) as u32,
                None => c.3,
            }) || (before.contains(e) && e.0 != c.2)),
    ensures
        forall|h: Seq<char>| #[trigger] has_key(after, h) <==> holds(cs.push(c), c.0, c.1, h),
        forall|k: int|
            0 <= k < after.len() ==> (#[trigger] after[k]).1 == amount(
                cs.push(c),
                c.0,
                c.1,
                after[k].0,
            ),
{
    let next = cs.push(c);
    lemma_push_facts(cs, c, c.0, c.1, c.2);
    lemma_absent_is_zero(cs, c.0, c.1, c.2);
    let new_value = match value_of(before, c.2) {
        Some(v) => (v + c.3) as u32,
        None => c.3,
    };
    assert(new_value == amount(next, c.0, c.1, c.2)) by {
        if has_key(before, c.2) {
            let k = crate::text::key_position(before, c.2);
            assert(before[k].0 == c.2);
            assert(before[k].1 == amount(cs, c.0, c.1, c.2));
        }
    }
    assert forall|h: Seq<char>| #[trigger] has_key(after, h) <==> holds(next, c.0, c.1, h) by {
        lemma_push_facts(cs, c, c.0, c.1, h);
        if h == c.2 {
            assert(after.contains((c.2, new_value)));
            let x = choose|x: int| 0 <= x < after.len() && after[x] == (c.2, new_value);
            assert(after[x].0 == h);
        } else {
            if has_key(after, h) {
                let x = choose|x: int| 0 <= x < after.len() && #[trigger] after[x].0 == h;
                assert(after.contains(after[x]));
                assert(before.contains(after[x]));
                let y = choose|y: int| 0 <= y < before.len() && before[y] == after[x];
                assert(before[y].0 == h);
                assert(has_key(before, h));
            }
            if holds(next, c.0, c.1, h) {
                assert(has_key(before, h));
                let y = choose|y: int| 0 <= y < before.len() && #[trigger] before[y].0 == h;
                assert(before.contains(before[y]));
                assert(after.contains(before[y]));
                let x = choose|x: int| 0 <= x < after.len() && after[x] == before[y];
                assert(after[x].0 == h);
            }
        }
    }
    assert forall|k: int| 0 <= k < after.len() implies (#[trigger] after[k]).1 == amount(
        next,
        c.0,
        c.1,
        after[k].0,
    ) by {
        lemma_push_facts(cs, c, c.0, c.1, after[k].0);
        assert(after.contains(after[k]));
        if after[k] != (c.2, new_value) {
            assert(before.contains(after[k]));
            let y = choose|y: int| 0 <= y < before.len() && before[y] == after[k];
        }
    }
}

fn copy_market(market: &Option<String>) -> (copy: Option<String>)
    ensures
        copy == *market,
{
    match market {
        Some(m) => Some(m.clone()),
        None => None,
    }
}

/// Whether market `a` sorts before market `b`, and whether they are the same.
fn compare_markets(a: &Option<String>, b: &Option<String>) -> (order: KeyOrder)
    ensures
        (order == KeyOrder::Less) == market_lt(market_view(*a), market_view(*b)),
        (order == KeyOrder::Equal) == (market_view(*a) == market_view(*b)),
        (order == KeyOrder::Greater) == market_lt(market_view(*b), market_view(*a)),
{
    proof {
        lemma_market_order(market_view(*a), market_view(*b), market_view(*b));
    }
    match (a, b) {
        (None, None) => KeyOrder::Equal,
        (None, Some(_)) => KeyOrder::Less,
        (Some(_), None) => KeyOrder::Greater,
        (Some(x), Some(y)) => key_order(x.as_str(), y.as_str()),
    }
}

proof fn lemma_counts_elsewhere(g: Group, cs: Seq<Contribution>, c: Contribution)
    requires
        counts(g, cs),
        (market_view(g.market), g.item_id) != (c.0, c.1),
    ensures
        counts(g, cs.push(c)),
{
    let m = market_view(g.market);
    lemma_push_facts(cs, c, m, g.item_id, c.2);
    assert forall|h: Seq<char>| #[trigger] has_key(g.held_by@, h) <==> holds(cs.push(c), m, g.item_id, h) by {
        lemma_push_facts(cs, c, m, g.item_id, h);
    }
    assert forall|k: int| 0 <= k < g.held_by@.len() implies (#[trigger] g.held_by@[k]).1 == amount(
        cs.push(c),
        m,
        g.item_id,
        g.held_by@[k].0,
    ) by {
        lemma_push_facts(cs, c, m, g.item_id, g.held_by@[k].0);
    }
}

/// Count one stack into the groups.
fn tally(
    groups: &mut Vec<Group>,
    market: &Option<String>,
    item: u32,
    holder: &str,
    count: u32,
    Ghost(cs): Ghost<Seq<Contribution>>,
    Ghost(c): Ghost<Contribution>,
)
    requires
        tallied(old(groups)@, cs),
        c.0 == market_view(*market),
        c.1 == item,
        c.2 == holder@,
        c.3 == count,
        group_total(cs.push(c), c.0, c.1) <= u32::MAX,
    ensures
        tallied(final(groups)@, cs.push(c)),
{
    let ghost key = (c.0, c.1);
    let ghost next = cs.push(c);
    proof {
        lemma_push_facts(cs, c, c.0, c.1, c.2);
        lemma_absent_is_zero(cs, c.0, c.1, c.2);
        lemma_amount_within_total(cs, c.0, c.1, c.2);
    }
    let mut pos: usize = 0;
    while pos < groups.len()
        invariant
            0 <= pos <= groups@.len(),
            key == (market_view(*market), item),
            forall|k: int| 0 <= k < pos ==> group_lt(#[trigger] group_keys(groups@)[k], key),
        ensures
            0 <= pos <= groups@.len(),
            forall|k: int| 0 <= k < pos ==> group_lt(#[trigger] group_keys(groups@)[k], key),
            pos < groups@.len() ==> !group_lt(group_keys(groups@)[pos as int], key),
        decreases groups@.len() - pos,
    {
        let order = compare_markets(&groups[pos].market, market);
        let before = order == KeyOrder::Less || (order == KeyOrder::Equal && groups[pos].item_id
            < item);
        if !before {
            break;
        }
        pos = pos + 1;
    }
    let ghost old_groups = groups@;
    let ghost keys = group_keys(old_groups);
    let same = pos < groups.len() && compare_markets(&groups[pos].market, market) == KeyOrder::Equal
        && groups[pos].item_id == item;
    if same {
        let mut g = groups.remove(pos);
        proof {
            assert(g == old_groups[pos as int]);
            assert(counts(g, cs));
            assert(keys[pos as int] == key);
        }
        let ghost held_before = g.held_by@;
        proof {
            assert(match value_of(held_before, holder@) {
                Some(v) => v + count <= group_total(next, c.0, c.1),
                None => count <= group_total(next, c.0, c.1),
            }) by {
                if has_key(held_before, holder@) {
                    let k = crate::text::key_position(held_before, holder@);
                    assert(held_before[k].0 == holder@);
                    assert(held_before[k].1 == amount(cs, c.0, c.1, holder@));
                }
            }
        }
        add_to_holder(&mut g.held_by, holder, count, Ghost(group_total(next, c.0, c.1)));
        proof {
            lemma_held_step(held_before, g.held_by@, cs, c);
        }
        g.count = g.count + count;
        groups.insert(pos, g);
        proof {
            assert(groups@ =~= old_groups.update(pos as int, g));
            assert(group_keys(groups@) =~= keys);
            assert(counts(g, next));
            assert forall|k: int| 0 <= k < groups@.len() implies counts(#[trigger] groups@[k], next) by {
                if k != pos {
                    assert(groups@[k] == old_groups[k]);
                    assert(keys[k] != key);
                    lemma_counts_elsewhere(old_groups[k], cs, c);
                }
            }
            assert forall|m: Option<Seq<char>>, i: u32| #[trigger]
                occurs(next, m, i) <==> group_keys(groups@).contains((m, i)) by {
                lemma_push_facts(cs, c, m, i, c.2);
                if (m, i) == key {
                    assert(group_keys(groups@)[pos as int] == key);
                }
            }
        }
    } else {
        let mut held_by: StrMap<u32> = StrMap::new();
        held_by.insert(to_owned_string(holder), count);
        let g = Group { market: copy_market(market), item_id: item, count, held_by };
        proof {
            assert(!keys.contains(key)) by {
                if keys.contains(key) {
                    let x = choose|x: int| 0 <= x < keys.len() && keys[x] == key;
                    if x < pos {
                        assert(group_lt(keys[x], key));
                        lemma_market_order(key.0, key.0, key.0);
                    } else if x > pos {
                        assert(group_lt(keys[pos as int], keys[x]));
                        lemma_market_order(keys[pos as int].0, key.0, key.0);
                    }
                }
            }
            assert(!occurs(cs, c.0, c.1));
            assert(group_total(cs, c.0, c.1) == 0);
            assert(held_by@.contains((holder@, count)));
            assert forall|h: Seq<char>| #[trigger] has_key(held_by@, h) <==> holds(next, c.0, c.1, h) by {
                lemma_push_facts(cs, c, c.0, c.1, h);
                if holds(cs, c.0, c.1, h) {
                    let k = choose|k: int|
                        0 <= k < cs.len() && (#[trigger] cs[k]).0 == c.0 && cs[k].1 == c.1 && cs[k].2 == h;
                    assert(occurs(cs, c.0, c.1));
                }
                if has_key(held_by@, h) {
                    let x = choose|x: int| 0 <= x < held_by@.len() && #[trigger] held_by@[x].0 == h;
                    assert(held_by@.contains(held_by@[x]));
                }
                if h == holder@ {
                    let x = choose|x: int| 0 <= x < held_by@.len() && held_by@[x] == (holder@, count);
                    assert(held_by@[x].0 == h);
                }
            }
            assert forall|k: int| 0 <= k < held_by@.len() implies (#[trigger] held_by@[k]).1 == amount(
                next,
                c.0,
                c.1,
                held_by@[k].0,
            ) by {
                assert(held_by@.contains(held_by@[k]));
            }
            assert(counts(g, next));
        }
        groups.insert(pos, g);
        proof {
            let new_keys = group_keys(groups@);
            assert(new_keys =~= keys.insert(pos as int, key));
            assert forall|a: int, b: int| 0 <= a < b < new_keys.len() implies group_lt(
                #[trigger] new_keys[a],
                #[trigger] new_keys[b],
            ) by {
                if pos < keys.len() {
                    assert(!group_lt(keys[pos as int], key));
                    assert(keys[pos as int] != key);
                    lemma_market_order(keys[pos as int].0, key.0, key.0);
                }
                if a < pos && b > pos {
                    assert(group_lt(keys[a], key));
                    assert(group_lt(key, keys[b - 1])) by {
                        if b - 1 > pos {
                            assert(group_lt(keys[pos as int], keys[b - 1]));
                            lemma_market_order(key.0, keys[pos as int].0, keys[b - 1].0);
                        }
                    }
                    lemma_market_order(keys[a].0, key.0, keys[b - 1].0);
                } else if a > pos {
                    assert(new_keys[a] == keys[a - 1] && new_keys[b] == keys[b - 1]);
                } else if b < pos {
                    assert(new_keys[a] == keys[a] && new_keys[b] == keys[b]);
                } else if b == pos {
                    assert(new_keys[a] == keys[a]);
                } else {
                    assert(a == pos);
                    assert(new_keys[b] == keys[b - 1]);
                    if b - 1 > pos {
                        assert(group_lt(keys[pos as int], keys[b - 1]));
                        lemma_market_order(key.0, keys[pos as int].0, keys[b - 1].0);
                    }
                }
            }
            assert forall|k: int| 0 <= k < groups@.len() implies counts(#[trigger] groups@[k], next) by {
                if k < pos {
                    assert(groups@[k] == old_groups[k]);
                    assert(group_lt(keys[k], key));
                    lemma_market_order(key.0, key.0, key.0);
                    assert(keys[k] != key);
                    lemma_counts_elsewhere(old_groups[k], cs, c);
                } else if k > pos {
                    assert(groups@[k] == old_groups[k - 1]);
                    assert(keys[k - 1] != key);
                    lemma_counts_elsewhere(old_groups[k - 1], cs, c);
                }
            }
            assert forall|m: Option<Seq<char>>, i: u32| #[trigger]
                occurs(next, m, i) <==> new_keys.contains((m, i)) by {
                lemma_push_facts(cs, c, m, i, c.2);
                if keys.contains((m, i)) {
                    let x = choose|x: int| 0 <= x < keys.len() && keys[x] == (m, i);
                    if x < pos {
                        assert(new_keys[x] == keys[x]);
                    } else {
                        assert(new_keys[x + 1] == keys[x]);
                    }
                }
                if new_keys.contains((m, i)) && (m, i) != key {
                    let x = choose|x: int| 0 <= x < new_keys.len() && new_keys[x] == (m, i);
                    if x < pos {
                        assert(keys[x] == (m, i));
                    } else {
                        assert(keys[x - 1] == (m, i));
                    }
                }
                if (m, i) == key {
                    assert(new_keys[pos as int] == key);
                }
            }
        }
    }
}

/// The money on the roster, taken as zero where it was not captured.
pub open spec fn total_money(entries: Seq<RosterEntry>) -> nat
    decreases entries.len(),
{
    if entries.len() == 0 {
        0
    } else {
        total_money(entries.drop_last()) + entries.last().record.money_copper.unwrap_or(0) as nat
    }
}

/// A sum as a `u64` sum that saturates gives it: capped at `u64::MAX`.
pub open spec fn capped(total: nat) -> nat {
    if total > u64::MAX {
        u64::MAX as nat
    } else {
        total
    }
}

/// Each character's professions, from its recipe cache in key order: the
/// cache only holds skills read out of a trade skill window, so everything in
/// it is a trade skill, whatever the client's language.
pub open spec fn profession_sources<'a>(entries: Seq<RosterEntry<'a>>) -> Seq<
    (RosterEntry<'a>, Seq<char>, ProfessionRecipes),
>
    decreases entries.len(),
{
    if entries.len() == 0 {
        Seq::empty()
    } else {
        let e = entries.last();
        profession_sources(entries.drop_last()) + match e.record.recipes {
            Some(recipes) => recipes@.map_values(
                |r: (Seq<char>, ProfessionRecipes)| (e, r.0, r.1),
            ),
            None => Seq::empty(),
        }
    }
}

/// `h` is the profession holder a recipe-cache entry makes.
pub open spec fn holder_is(h: ProfessionHolder, source: (RosterEntry, Seq<char>, ProfessionRecipes)) -> bool {
    let (e, profession, cache) = source;
    &&& h.key@ == e.key@
    &&& h.name@ == display_name_of(*e.record, e.key@)
    &&& h.role == e.role
    &&& h.profession@ == profession
    &&& h.rank == cache.rank
    &&& h.max_rank == cache.max_rank
    &&& h.recipes_known == match cache.recipes {
        Some(recipes) => Some(recipes@.len() as usize),
        None => None,
    }
}

/// The names of the characters whose bags were not captured, in order.
pub open spec fn uncaptured_bags(entries: Seq<RosterEntry>) -> Seq<Seq<char>>
    decreases entries.len(),
{
    if entries.len() == 0 {
        Seq::empty()
    } else {
        let e = entries.last();
        let rest = uncaptured_bags(entries.drop_last());
        if bag_contents(*e.record) is None {
            rest.push(display_name_of(*e.record, e.key@))
        } else {
            rest
        }
    }
}

/// Some character trades in this market.
pub open spec fn market_used(entries: Seq<RosterEntry>, market: Seq<char>) -> bool {
    exists|i: int| 0 <= i < entries.len() && market_of(*(#[trigger] entries[i]).record) == Some(market)
}

/// What the bags and caches of the roster add up to before any pricing.
struct Gathered {
    professions: Vec<ProfessionHolder>,
    groups: Vec<Group>,
    names: std::collections::BTreeMap<u32, String>,
    markets: StrMap<bool>,
    bags_missing: Vec<String>,
    gold: u64,
}

/// The first names recorded so far are the first names of the stacks seen.
spec fn names_match(names: Map<u32, String>, cs: Seq<Contribution>) -> bool {
    forall|i: u32|
        #![trigger names.contains_key(i)]
        #![trigger first_name(cs, i)]
        (names.contains_key(i) <==> first_name(cs, i) is Some) && (names.contains_key(i) ==> Some(
            names[i]@,
        ) == first_name(cs, i))
}

proof fn lemma_first_name_push(cs: Seq<Contribution>, c: Contribution, i: u32)
    ensures
        first_name(cs.push(c), i) == match first_name(cs, i) {
            Some(n) => Some(n),
            None => if c.1 == i {
                c.4
            } else {
                None
            },
        },
{
    assert(cs.push(c).drop_last() =~= cs);
}

/// The markets seen so far, each with whether the price database has it.
spec fn markets_match(markets: Seq<(Seq<char>, bool)>, entries: Seq<RosterEntry>, prices: PriceDb) -> bool {
    &&& sorted_by_key(markets)
    &&& forall|k: Seq<char>| #[trigger] has_key(markets, k) <==> market_used(entries, k)
    &&& forall|x: int| 0 <= x < markets.len() ==> (#[trigger] markets[x]).1 == has_key(
        prices.realms@,
        markets[x].0,
    )
}

fn holder_for(entry: &RosterEntry, profession: &String, cache: &ProfessionRecipes) -> (h: ProfessionHolder)
    ensures
        holder_is(h, (*entry, profession@, *cache)),
{
    ProfessionHolder {
        key: to_owned_string(entry.key),
        name: to_owned_string(entry.name()),
        role: entry.role,
        profession: profession.clone(),
        rank: cache.rank,
        max_rank: cache.max_rank,
        recipes_known: match &cache.recipes {
            Some(recipes) => Some(recipes.len()),
            None => None,
        },
    }
}

/// Count one character's bags into the groups and first names.
fn count_bags(
    groups: &mut Vec<Group>,
    names: &mut std::collections::BTreeMap<u32, String>,
    stacks: &Vec<crate::collector::ItemStack>,
    market: &Option<String>,
    holder: &str,
    Ghost(cs): Ghost<Seq<Contribution>>,
    Ghost(all): Ghost<Seq<Contribution>>,
)
    requires
        tallied(old(groups)@, cs),
        names_match(old(names)@, cs),
        totals_fit(all),
        cs + stack_contributions(stacks@, market_view(*market), holder@) == all.take(
            (cs.len() + stack_contributions(stacks@, market_view(*market), holder@).len()) as int,
        ),
        cs.len() + stack_contributions(stacks@, market_view(*market), holder@).len() <= all.len(),
    ensures
        tallied(final(groups)@, cs + stack_contributions(stacks@, market_view(*market), holder@)),
        names_match(final(names)@, cs + stack_contributions(stacks@, market_view(*market), holder@)),
{
    broadcast use vstd::std_specs::btree::group_btree_axioms;

    let ghost m = market_view(*market);
    let ghost whole = stack_contributions(stacks@, m, holder@);
    let mut j: usize = 0;
    while j < stacks.len()
        invariant
            0 <= j <= stacks@.len(),
            m == market_view(*market),
            whole == stack_contributions(stacks@, m, holder@),
            totals_fit(all),
            cs + whole == all.take((cs.len() + whole.len()) as int),
            cs.len() + whole.len() <= all.len(),
            stack_contributions(stacks@.take(j as int), m, holder@).len() <= whole.len(),
            whole.take(stack_contributions(stacks@.take(j as int), m, holder@).len() as int)
                == stack_contributions(stacks@.take(j as int), m, holder@),
            tallied(groups@, cs + stack_contributions(stacks@.take(j as int), m, holder@)),
            names_match(names@, cs + stack_contributions(stacks@.take(j as int), m, holder@)),
        decreases stacks@.len() - j,
    {
        let ghost done = cs + stack_contributions(stacks@.take(j as int), m, holder@);
        proof {
            assert(stacks@.take(j + 1).drop_last() =~= stacks@.take(j as int));
            lemma_stack_prefix(stacks@, j as int + 1, m, holder@);
        }
        let stack = &stacks[j];
        match (stack.item_id, stack.count) {
            (Some(item), Some(count)) => {
                let ghost c: Contribution = (m, item, holder@, count, opt_view(stack.name));
                proof {
                    assert(stack_contributions(stacks@.take(j + 1), m, holder@) == stack_contributions(
                        stacks@.take(j as int),
                        m,
                        holder@,
                    ).push(c));
                    assert(done.push(c) =~= cs + stack_contributions(stacks@.take(j + 1), m, holder@));
                    let n: int = done.len() as int + 1;
                    assert(done.push(c) =~= all.take(n)) by {
                        assert(whole.take(n - cs.len()) =~= stack_contributions(
                            stacks@.take(j + 1),
                            m,
                            holder@,
                        ));
                    }
                    lemma_prefix_totals(all, n, m, item);
                    assert(group_total(all, m, item) <= u32::MAX);
                }
                tally(groups, market, item, holder, count, Ghost(done), Ghost(c));
                if let Some(item_name) = &stack.name {
                    if !names.contains_key(&item) {
                        names.insert(item, item_name.clone());
                    }
                }
                proof {
                    assert forall|i: u32|
                        #![trigger names@.contains_key(i)]
                        #![trigger first_name(done.push(c), i)]
                        (names@.contains_key(i) <==> first_name(done.push(c), i) is Some) && (
                        names@.contains_key(i) ==> Some(names@[i]@) == first_name(done.push(c), i)) by {
                        lemma_first_name_push(done, c, i);
                    }
                }
            },
            _ => {
                proof {
                    assert(stack_contributions(stacks@.take(j + 1), m, holder@) == stack_contributions(
                        stacks@.take(j as int),
                        m,
                        holder@,
                    ));
                }
            },
        }
        j = j + 1;
    }
    proof {
        assert(stacks@.take(stacks@.len() as int) =~= stacks@);
    }
}

/// The contributions of a prefix of a character's stacks are a prefix of
/// the contributions of them all.
proof fn lemma_stack_prefix(
    stacks: Seq<crate::collector::ItemStack>,
    n: int,
    m: Option<Seq<char>>,
    holder: Seq<char>,
)
    requires
        0 <= n <= stacks.len(),
    ensures
        stack_contributions(stacks.take(n), m, holder).len() <= stack_contributions(stacks, m, holder).len(),
        stack_contributions(stacks, m, holder).take(
            stack_contributions(stacks.take(n), m, holder).len() as int,
        ) == stack_contributions(stacks.take(n), m, holder),
    decreases stacks.len() - n,
{
    let whole = stack_contributions(stacks, m, holder);
    if n == stacks.len() {
        assert(stacks.take(n) =~= stacks);
        assert(whole.take(whole.len() as int) =~= whole);
    } else {
        lemma_stack_prefix(stacks, n + 1, m, holder);
        let next = stack_contributions(stacks.take(n + 1), m, holder);
        let here = stack_contributions(stacks.take(n), m, holder);
        assert(stacks.take(n + 1).drop_last() =~= stacks.take(n));
        assert(whole.take(next.len() as int) == next);
        if next.len() == here.len() {
        } else {
            assert(next == here.push(next.last()));
            assert(whole.take(here.len() as int) =~= next.take(here.len() as int));
            assert(next.take(here.len() as int) =~= here);
        }
    }
}

proof fn lemma_contribution_prefix(entries: Seq<RosterEntry>, n: int)
    requires
        0 <= n <= entries.len(),
    ensures
        contributions(entries.take(n)).len() <= contributions(entries).len(),
        contributions(entries).take(contributions(entries.take(n)).len() as int) == contributions(
            entries.take(n),
        ),
    decreases entries.len() - n,
{
    let whole = contributions(entries);
    if n == entries.len() {
        assert(entries.take(n) =~= entries);
        assert(whole.take(whole.len() as int) =~= whole);
    } else {
        lemma_contribution_prefix(entries, n + 1);
        let next = contributions(entries.take(n + 1));
        let here = contributions(entries.take(n));
        assert(entries.take(n + 1).drop_last() =~= entries.take(n));
        assert(whole.take(next.len() as int) == next);
        assert(next.take(here.len() as int) =~= here);
        assert(whole.take(here.len() as int) =~= next.take(here.len() as int));
    }
}

/// Gather what the roster's bags and recipe caches hold, character by
/// character.
fn gather(entries: &[RosterEntry<'_>], prices: &PriceDb) -> (g: Gathered)
    requires
        totals_fit(contributions(entries@)),
    ensures
        tallied(g.groups@, contributions(entries@)),
        names_match(g.names@, contributions(entries@)),
        markets_match(g.markets@, entries@, *prices),
        texts_of(g.bags_missing@) == uncaptured_bags(entries@),
        g.gold == capped(total_money(entries@)),
        g.professions@.len() == profession_sources(entries@).len(),
        forall|k: int|
            0 <= k < g.professions@.len() ==> holder_is(
                #[trigger] g.professions@[k],
                profession_sources(entries@)[k],
            ),
{
    broadcast use vstd::std_specs::btree::group_btree_axioms;

    let mut professions: Vec<ProfessionHolder> = Vec::new();
    let mut groups: Vec<Group> = Vec::new();
    let mut names: std::collections::BTreeMap<u32, String> = std::collections::BTreeMap::new();
    let mut markets: StrMap<bool> = StrMap::new();
    let mut bags_missing: Vec<String> = Vec::new();
    let mut gold: u64 = 0;
    let ghost all = contributions(entries@);
    proof {
        assert(texts_of(bags_missing@) =~= Seq::<Seq<char>>::empty());
        assert(entries@.take(0) =~= Seq::<RosterEntry>::empty());
    }
    let mut i: usize = 0;
    while i < entries.len()
        invariant
            0 <= i <= entries@.len(),
            all == contributions(entries@),
            totals_fit(all),
            tallied(groups@, contributions(entries@.take(i as int))),
            names_match(names@, contributions(entries@.take(i as int))),
            markets_match(markets@, entries@.take(i as int), *prices),
            texts_of(bags_missing@) == uncaptured_bags(entries@.take(i as int)),
            gold == capped(total_money(entries@.take(i as int))),
            professions@.len() == profession_sources(entries@.take(i as int)).len(),
            forall|k: int|
                0 <= k < professions@.len() ==> holder_is(
                    #[trigger] professions@[k],
                    profession_sources(entries@.take(i as int))[k],
                ),
        decreases entries@.len() - i,
    {
        let entry = &entries[i];
        let record = entry.record;
        let ghost before = entries@.take(i as int);
        let ghost after = entries@.take(i + 1);
        proof {
            assert(after.drop_last() =~= before);
            assert(after.last() == entries@[i as int]);
            lemma_contribution_prefix(entries@, i + 1);
        }
        let name = entry.name();
        // Coin, saturating: a total past `u64::MAX` is no longer a figure
        // anyone acts on.
        let money: u64 = match record.money_copper {
            Some(copper) => copper,
            None => 0,
        };
        gold = gold.saturating_add(money);
        // Professions come from the recipe cache, not from the skill list:
        // the skill list also holds talent tabs, weapon skills and languages.
        let ghost sources_before = profession_sources(before);
        if let Some(recipes) = &record.recipes {
            let mut r: usize = 0;
            while r < recipes.len()
                invariant
                    0 <= r <= recipes@.len(),
                    record.recipes == Some(*recipes),
                    professions@.len() == sources_before.len() + r,
                    forall|k: int|
                        0 <= k < professions@.len() ==> holder_is(
                            #[trigger] professions@[k],
                            (sources_before + recipes@.map_values(
                                |x: (Seq<char>, ProfessionRecipes)| (*entry, x.0, x.1),
                            ))[k],
                        ),
                decreases recipes@.len() - r,
            {
                let (profession, cache) = recipes.entry(r);
                professions.push(holder_for(entry, profession, cache));
                r = r + 1;
            }
        }
        proof {
            assert(profession_sources(after) =~= sources_before + match record.recipes {
                Some(recipes) => recipes@.map_values(
                    |x: (Seq<char>, ProfessionRecipes)| (*entry, x.0, x.1),
                ),
                None => Seq::empty(),
            });
        }
        let market = crate::auctionator::realm_key(
            match &record.realm {
                Some(realm) => Some(realm.as_str()),
                None => None,
            },
            match &record.faction {
                Some(faction) => Some(faction.as_str()),
                None => None,
            },
        );
        proof {
            assert(market_view(market) == market_of(*record));
        }
        let ghost markets_before = markets@;
        if let Some(key) = &market {
            if !markets.contains_key(key.as_str()) {
                let priced = prices.realms.contains_key(key.as_str());
                markets.insert(key.clone(), priced);
            }
        }
        proof {
            lemma_markets_step(markets_before, markets@, before, entries@[i as int], *prices, market);
            assert(after =~= before.push(entries@[i as int]));
        }
        let ghost cs = contributions(before);
        match &record.inventory {
            Some(inventory) => match &inventory.contents {
                Some(contents) => {
                    count_bags(&mut groups, &mut names, contents, &market, name, Ghost(cs), Ghost(all));
                },
                None => {
                    bags_missing.push(to_owned_string(name));
                    proof {
                        assert(cs + Seq::<Contribution>::empty() =~= cs);
                    }
                },
            },
            None => {
                bags_missing.push(to_owned_string(name));
                proof {
                    assert(cs + Seq::<Contribution>::empty() =~= cs);
                }
            },
        }
        proof {
            assert(contributions(after) == cs + match bag_contents(*record) {
                Some(stacks) => stack_contributions(
                    stacks,
                    market_of(*record),
                    display_name_of(*record, entry.key@),
                ),
                None => Seq::empty(),
            });
            assert(texts_of(bags_missing@) =~= uncaptured_bags(after));
        }
        i = i + 1;
    }
    proof {
        assert(entries@.take(entries@.len() as int) =~= entries@);
    }
    Gathered { professions, groups, names, markets, bags_missing, gold }
}

proof fn lemma_markets_step(
    before: Seq<(Seq<char>, bool)>,
    after: Seq<(Seq<char>, bool)>,
    entries: Seq<RosterEntry>,
    entry: RosterEntry,
    prices: PriceDb,
    market: Option<String>,
)
    requires
        markets_match(before, entries, prices),
        market_view(market) == market_of(*entry.record),
        match market {
            None => after == before,
            Some(key) => if has_key(before, key@) {
                after == before
            } else {
                sorted_by_key(after) && forall|e: (Seq<char>, bool)|
                    #![trigger after.contains(e)]
                    #![trigger before.contains(e)]
                    after.contains(e) <==> (e == (key@, has_key(prices.realms@, key@)) || (
                    before.contains(e) && e.0 != key@))
            },
        },
    ensures
        markets_match(after, entries.push(entry), prices),
{
    let next = entries.push(entry);
    assert forall|k: Seq<char>| #[trigger] market_used(next, k) <==> market_used(entries, k) || market_of(
        *entry.record,
    ) == Some(k) by {
        if market_used(next, k) {
            let x = choose|x: int| 0 <= x < next.len() && market_of(*(#[trigger] next[x]).record) == Some(k);
            if x < entries.len() {
                assert(entries[x] == next[x]);
            }
        }
        if market_used(entries, k) {
            let x = choose|x: int| 0 <= x < entries.len() && market_of(*(#[trigger] entries[x]).record) == Some(k);
            assert(next[x] == entries[x]);
        }
        if market_of(*entry.record) == Some(k) {
            assert(next[entries.len() as int] == entry);
        }
    }
    match market {
        None => {},
        Some(key) => {
            if !has_key(before, key@) {
                let v = has_key(prices.realms@, key@);
                assert forall|k: Seq<char>| #[trigger] has_key(after, k) <==> market_used(next, k) by {
                    if k == key@ {
                        assert(after.contains((key@, v)));
                        let x = choose|x: int| 0 <= x < after.len() && after[x] == (key@, v);
                        assert(after[x].0 == k);
                    } else {
                        if has_key(after, k) {
                            let x = choose|x: int| 0 <= x < after.len() && #[trigger] after[x].0 == k;
                            assert(after.contains(after[x]));
                            let y = choose|y: int| 0 <= y < before.len() && before[y] == after[x];
                            assert(before[y].0 == k);
                            assert(has_key(before, k));
                            assert(market_used(entries, k));
                        }
                        if market_used(entries, k) {
                            assert(has_key(before, k));
                            let y = choose|y: int| 0 <= y < before.len() && #[trigger] before[y].0 == k;
                            assert(before.contains(before[y]));
                            assert(after.contains(before[y]));
                            let x = choose|x: int| 0 <= x < after.len() && after[x] == before[y];
                            assert(after[x].0 == k);
                        }
                    }
                }
                assert forall|x: int| 0 <= x < after.len() implies (#[trigger] after[x]).1 == has_key(
                    prices.realms@,
                    after[x].0,
                ) by {
                    assert(after.contains(after[x]));
                    if after[x] != (key@, v) {
                        let y = choose|y: int| 0 <= y < before.len() && before[y] == after[x];
                    }
                }
            }
        },
    }
}

/// The realm a market's prices come from, if the database has one.
pub open spec fn market_prices(prices: PriceDb, market: Option<Seq<char>>) -> Option<RealmPrices> {
    match market {
        Some(key) => value_of(prices.realms@, key),
        None => None,
    }
}

/// An item's record in a market, if the database has one: under its bare id.
pub open spec fn item_prices_in(prices: PriceDb, market: Option<Seq<char>>, item: u32) -> Option<ItemPrices> {
    match market_prices(prices, market) {
        Some(realm) => value_of(realm.items@, decimal(item as nat)),
        None => None,
    }
}

/// A price of zero is no price.
pub open spec fn nonzero(price: Option<u64>) -> Option<u64> {
    match price {
        Some(p) => if p > 0 {
            Some(p)
        } else {
            None
        },
        None => None,
    }
}

/// A unit price times a count, saturating.
pub open spec fn times(price: Option<u64>, count: u32) -> Option<u64> {
    match price {
        Some(p) => Some(capped(p as nat * count as nat) as u64),
        None => None,
    }
}

/// How stale an item's price is: days from its newest sighting to the
/// realm's latest scan.
pub open spec fn staleness(prices: PriceDb, market: Option<Seq<char>>, item: u32) -> Option<int> {
    match (market_prices(prices, market), item_prices_in(prices, market, item)) {
        (Some(realm), Some(p)) => match (latest_scan(realm), newest_seen(p)) {
            (Some(latest), Some(seen)) => Some(latest - seen),
            _ => None,
        },
        _ => None,
    }
}

/// `h` is the holding for one item in one market: what the bags hold of it,
/// and what the market's prices say of it.
pub open spec fn holding_is(
    h: Holding,
    cs: Seq<Contribution>,
    prices: PriceDb,
    group: (Option<Seq<char>>, u32),
) -> bool {
    let (m, i) = group;
    let item = item_prices_in(prices, m, i);
    &&& market_view(h.market) == m
    &&& h.item_id == i
    &&& opt_view(h.name) == first_name(cs, i)
    &&& h.count == group_total(cs, m, i)
    &&& sorted_by_key(h.held_by@)
    &&& forall|n: Seq<char>| #[trigger] has_key(h.held_by@, n) <==> holds(cs, m, i, n)
    &&& forall|k: int|
        0 <= k < h.held_by@.len() ==> (#[trigger] h.held_by@[k]).1 == amount(cs, m, i, h.held_by@[k].0)
    &&& h.unit_price == match item {
        Some(p) => nonzero(p.last_seen_min),
        None => None,
    }
    &&& match item {
        None => h.typical_price is None,
        Some(p) => match h.typical_price {
            Some(x) => x > 0 && p.high@.dom().len() > 0 && is_median(p.high@, x),
            None => p.high@.dom().len() == 0 || is_median(p.high@, 0),
        },
    }
    &&& h.value == times(h.unit_price, h.count)
    &&& h.typical_value == times(h.typical_price, h.count)
    &&& match h.days_stale {
        Some(d) => staleness(prices, m, i) == Some(d as int),
        None => staleness(prices, m, i) is None,
    }
}

/// Every staleness the survey computes fits an `i64`.
pub open spec fn staleness_fits(prices: PriceDb, cs: Seq<Contribution>) -> bool {
    forall|m: Option<Seq<char>>, i: u32|
        #[trigger] occurs(cs, m, i) ==> match staleness(prices, m, i) {
            Some(d) => i64::MIN <= d <= i64::MAX,
            None => true,
        }
}

fn priced(price: Option<u64>) -> (p: Option<u64>)
    ensures
        p == nonzero(price),
{
    match price {
        Some(p) => if p > 0 {
            Some(p)
        } else {
            None
        },
        None => None,
    }
}

fn times_count(price: Option<u64>, count: u32) -> (v: Option<u64>)
    ensures
        v == times(price, count),
{
    match price {
        Some(p) => {
            assert(p as u128 * count as u128 <= u64::MAX as u128 * u32::MAX as u128) by (nonlinear_arith);
            let product: u128 = p as u128 * count as u128;
            if product > u64::MAX as u128 {
                Some(u64::MAX)
            } else {
                Some(product as u64)
            }
        },
        None => None,
    }
}

/// Value one group at its market's prices.
fn holding_for(
    g: Group,
    names: &std::collections::BTreeMap<u32, String>,
    prices: &PriceDb,
    Ghost(cs): Ghost<Seq<Contribution>>,
) -> (h: Holding)
    requires
        counts(g, cs),
        names_match(names@, cs),
        occurs(cs, market_view(g.market), g.item_id),
        staleness_fits(*prices, cs),
    ensures
        holding_is(h, cs, *prices, (market_view(g.market), g.item_id)),
{
    broadcast use vstd::std_specs::btree::group_btree_axioms;

    let ghost m = market_view(g.market);
    let realm: Option<&RealmPrices> = match &g.market {
        Some(key) => prices.realms.get(key.as_str()),
        None => None,
    };
    let item: Option<&ItemPrices> = match realm {
        Some(realm) => realm.for_item(g.item_id),
        None => None,
    };
    proof {
        assert(match realm {
            Some(r) => market_prices(*prices, m) == Some(*r),
            None => market_prices(*prices, m) is None,
        });
        assert(match item {
            Some(p) => item_prices_in(*prices, m, g.item_id) == Some(*p),
            None => item_prices_in(*prices, m, g.item_id) is None,
        });
    }
    let unit_price = match item {
        Some(item) => priced(item.last_seen_min),
        None => None,
    };
    let typical_price = match item {
        Some(item) => priced(item.typical()),
        None => None,
    };
    let days_stale = match (realm, item) {
        (Some(realm), Some(item)) => match (realm.last_scan_day(), item.last_seen_day()) {
            (Some(latest), Some(seen)) => Some(latest - seen),
            _ => None,
        },
        _ => None,
    };
    let name = match names.get(&g.item_id) {
        Some(name) => Some(name.clone()),
        None => None,
    };
    let value = times_count(unit_price, g.count);
    let typical_value = times_count(typical_price, g.count);
    Holding {
        market: g.market,
        item_id: g.item_id,
        name,
        count: g.count,
        held_by: g.held_by,
        unit_price,
        typical_price,
        value,
        typical_value,
        days_stale,
    }
}

/// Holders in order: by profession, then by rank highest first, then by name.
pub open spec fn holder_before(a: ProfessionHolder, b: ProfessionHolder) -> bool {
    let (ra, rb) = (a.rank.unwrap_or(0), b.rank.unwrap_or(0));
    ||| key_lt(a.profession@, b.profession@)
    ||| a.profession@ == b.profession@ && ra > rb
    ||| a.profession@ == b.profession@ && ra == rb && key_lt(a.name@, b.name@)
}

pub open spec fn holder_order(a: ProfessionHolder, b: ProfessionHolder) -> bool {
    !holder_before(b, a)
}

/// Priced holdings in order: most valuable first, then by item, then by
/// market.
pub open spec fn priced_before(a: Holding, b: Holding) -> bool {
    let (va, vb) = (a.value.unwrap_or(0), b.value.unwrap_or(0));
    ||| va > vb
    ||| va == vb && a.item_id < b.item_id
    ||| va == vb && a.item_id == b.item_id && market_lt(market_view(a.market), market_view(b.market))
}

pub open spec fn priced_order(a: Holding, b: Holding) -> bool {
    !priced_before(b, a)
}

/// Unpriced holdings in order: most held first, then by item, then by market.
pub open spec fn unpriced_before(a: Holding, b: Holding) -> bool {
    ||| a.count > b.count
    ||| a.count == b.count && a.item_id < b.item_id
    ||| a.count == b.count && a.item_id == b.item_id && market_lt(
        market_view(a.market),
        market_view(b.market),
    )
}

pub open spec fn unpriced_order(a: Holding, b: Holding) -> bool {
    !unpriced_before(b, a)
}

proof fn lemma_holder_order()
    ensures
        total_preorder(|a: ProfessionHolder, b: ProfessionHolder| holder_order(a, b)),
{
    assert forall|a: ProfessionHolder| #[trigger] holder_order(a, a) by {
        lemma_key_order(a.profession@, a.profession@);
        lemma_key_order(a.name@, a.name@);
    }
    assert forall|a: ProfessionHolder, b: ProfessionHolder| #[trigger]
        holder_order(a, b) || holder_order(b, a) by {
        lemma_key_order(a.profession@, b.profession@);
        lemma_key_order(a.name@, b.name@);
    }
    assert forall|a: ProfessionHolder, b: ProfessionHolder, c: ProfessionHolder|
        #[trigger] holder_order(a, b) && #[trigger] holder_order(b, c) implies holder_order(a, c) by {
        lemma_key_order(a.profession@, b.profession@);
        lemma_key_order(b.profession@, c.profession@);
        lemma_key_order(a.profession@, c.profession@);
        lemma_key_order(a.name@, b.name@);
        lemma_key_order(b.name@, c.name@);
        lemma_key_order(a.name@, c.name@);
        if key_lt(c.profession@, a.profession@) && key_lt(a.profession@, b.profession@) {
            lemma_key_lt_transitive(c.profession@, a.profession@, b.profession@);
        }
        if key_lt(b.profession@, c.profession@) && key_lt(c.profession@, a.profession@) {
            lemma_key_lt_transitive(b.profession@, c.profession@, a.profession@);
        }
        if key_lt(c.name@, a.name@) && key_lt(a.name@, b.name@) {
            lemma_key_lt_transitive(c.name@, a.name@, b.name@);
        }
        if key_lt(b.name@, c.name@) && key_lt(c.name@, a.name@) {
            lemma_key_lt_transitive(b.name@, c.name@, a.name@);
        }
    }
}

proof fn lemma_holding_orders()
    ensures
        total_preorder(|a: Holding, b: Holding| priced_order(a, b)),
        total_preorder(|a: Holding, b: Holding| unpriced_order(a, b)),
{
    assert forall|a: Holding| #[trigger] priced_order(a, a) && unpriced_order(a, a) by {
        lemma_market_order(market_view(a.market), market_view(a.market), market_view(a.market));
    }
    assert forall|a: Holding, b: Holding| #[trigger] priced_order(a, b) || priced_order(b, a) by {
        lemma_market_order(market_view(a.market), market_view(b.market), market_view(b.market));
    }
    assert forall|a: Holding, b: Holding| #[trigger] unpriced_order(a, b) || unpriced_order(b, a) by {
        lemma_market_order(market_view(a.market), market_view(b.market), market_view(b.market));
    }
    assert forall|a: Holding, b: Holding, c: Holding|
        #[trigger] priced_order(a, b) && #[trigger] priced_order(b, c) implies priced_order(a, c) by {
        let (ma, mb, mc) = (market_view(a.market), market_view(b.market), market_view(c.market));
        lemma_market_order(ma, mb, mc);
        lemma_market_order(mb, mc, ma);
        lemma_market_order(mc, ma, mb);
        lemma_market_order(ma, mc, mb);
        lemma_market_order(mb, ma, mc);
        lemma_market_order(mc, mb, ma);
    }
    assert forall|a: Holding, b: Holding, c: Holding|
        #[trigger] unpriced_order(a, b) && #[trigger] unpriced_order(b, c) implies unpriced_order(a, c) by {
        let (ma, mb, mc) = (market_view(a.market), market_view(b.market), market_view(c.market));
        lemma_market_order(ma, mb, mc);
        lemma_market_order(mb, mc, ma);
        lemma_market_order(mc, ma, mb);
        lemma_market_order(ma, mc, mb);
        lemma_market_order(mb, ma, mc);
        lemma_market_order(mc, mb, ma);
    }
}

fn market_before(a: &Option<String>, b: &Option<String>) -> (before: bool)
    ensures
        before == market_lt(market_view(*a), market_view(*b)),
{
    compare_markets(a, b) == KeyOrder::Less
}

fn holder_earlier(a: &ProfessionHolder, b: &ProfessionHolder) -> (earlier: bool)
    ensures
        earlier == holder_before(*a, *b),
{
    let order = key_order(a.profession.as_str(), b.profession.as_str());
    if order != KeyOrder::Equal {
        return order == KeyOrder::Less;
    }
    let ra: u16 = match a.rank {
        Some(rank) => rank,
        None => 0,
    };
    let rb: u16 = match b.rank {
        Some(rank) => rank,
        None => 0,
    };
    if ra != rb {
        return ra > rb;
    }
    key_order(a.name.as_str(), b.name.as_str()) == KeyOrder::Less
}

fn priced_earlier(a: &Holding, b: &Holding) -> (earlier: bool)
    ensures
        earlier == priced_before(*a, *b),
{
    let va: u64 = match a.value {
        Some(v) => v,
        None => 0,
    };
    let vb: u64 = match b.value {
        Some(v) => v,
        None => 0,
    };
    if va != vb {
        return va > vb;
    }
    if a.item_id != b.item_id {
        return a.item_id < b.item_id;
    }
    market_before(&a.market, &b.market)
}

fn unpriced_earlier(a: &Holding, b: &Holding) -> (earlier: bool)
    ensures
        earlier == unpriced_before(*a, *b),
{
    if a.count != b.count {
        return a.count > b.count;
    }
    if a.item_id != b.item_id {
        return a.item_id < b.item_id;
    }
    market_before(&a.market, &b.market)
}

/// The holdings a valuation has a price for, in order.
pub open spec fn with_price(all: Seq<Holding>) -> Seq<Holding>
    decreases all.len(),
{
    if all.len() == 0 {
        Seq::empty()
    } else {
        let rest = with_price(all.drop_last());
        if all.last().value is Some {
            rest.push(all.last())
        } else {
            rest
        }
    }
}

/// The holdings a valuation has no price for, in order.
pub open spec fn without_price(all: Seq<Holding>) -> Seq<Holding>
    decreases all.len(),
{
    if all.len() == 0 {
        Seq::empty()
    } else {
        let rest = without_price(all.drop_last());
        if all.last().value is None {
            rest.push(all.last())
        } else {
            rest
        }
    }
}

/// The sum of the holdings' values.
pub open spec fn value_total(hs: Seq<Holding>) -> nat
    decreases hs.len(),
{
    if hs.len() == 0 {
        0
    } else {
        value_total(hs.drop_last()) + hs.last().value.unwrap_or(0) as nat
    }
}

/// What a holding adds to the typical total: its typical value where its last
/// seen price is an outlier and it has one, its value otherwise.
pub open spec fn typical_part(h: Holding) -> nat {
    let v = if is_outlier(h.unit_price, h.typical_price) {
        match h.typical_value {
            Some(t) => Some(t),
            None => h.value,
        }
    } else {
        h.value
    };
    v.unwrap_or(0) as nat
}

/// The sum of what the holdings add to the typical total.
pub open spec fn typical_total(hs: Seq<Holding>) -> nat
    decreases hs.len(),
{
    if hs.len() == 0 {
        0
    } else {
        typical_total(hs.drop_last()) + typical_part(hs.last())
    }
}

/// `all` holds, in order of market and item, the holding for every market
/// and item the bags hold.
pub open spec fn holdings_from(all: Seq<Holding>, cs: Seq<Contribution>, prices: PriceDb) -> bool {
    let groups = all.map_values(|h: Holding| (market_view(h.market), h.item_id));
    &&& ascending_groups(groups)
    &&& forall|m: Option<Seq<char>>, i: u32| #[trigger] occurs(cs, m, i) <==> groups.contains((m, i))
    &&& forall|k: int| 0 <= k < all.len() ==> holding_is(#[trigger] all[k], cs, prices, groups[k])
}

/// How many holdings have no name.
pub open spec fn count_nameless(hs: Seq<Holding>) -> nat
    decreases hs.len(),
{
    if hs.len() == 0 {
        0
    } else {
        count_nameless(hs.drop_last()) + if hs.last().name is None {
            1nat
        } else {
            0nat
        }
    }
}

/// How many holdings were last seen a week or more before the latest scan.
pub open spec fn count_stale(hs: Seq<Holding>) -> nat
    decreases hs.len(),
{
    if hs.len() == 0 {
        0
    } else {
        count_stale(hs.drop_last()) + if hs.last().days_stale matches Some(d) && d >= 7 {
            1nat
        } else {
            0nat
        }
    }
}

/// How many holdings have an outlying last seen price.
pub open spec fn count_outliers(hs: Seq<Holding>) -> nat
    decreases hs.len(),
{
    if hs.len() == 0 {
        0
    } else {
        count_outliers(hs.drop_last()) + if is_outlier(hs.last().unit_price, hs.last().typical_price) {
            1nat
        } else {
            0nat
        }
    }
}

/// Some holding is in this market.
pub open spec fn market_held(hs: Seq<Holding>, k: Seq<char>) -> bool {
    exists|i: int| 0 <= i < hs.len() && market_view((#[trigger] hs[i]).market) == Some(k)
}

/// The markets the holdings are in, once each and in order.
pub open spec fn held_markets(hs: Seq<Holding>) -> Seq<Seq<char>> {
    choose|ks: Seq<Seq<char>>|
        ascending_keys(ks) && forall|k: Seq<char>| #[trigger] ks.contains(k) <==> market_held(hs, k)
}

/// The markets the roster trades in that the price database has no scan for,
/// once each and in order.
pub open spec fn unscanned_markets(entries: Seq<RosterEntry>, prices: PriceDb) -> Seq<Seq<char>> {
    choose|ks: Seq<Seq<char>>|
        ascending_keys(ks) && forall|k: Seq<char>| #[trigger]
            ks.contains(k) <==> market_used(entries, k) && !has_key(prices.realms@, k)
}

pub open spec fn last_caveat() -> Seq<char> {
    "Only what is in bags is counted. The collector cannot read a bank it has not been standing in front of."@
}

/// What qualifies a survey, in the order it is reported: what is missing
/// from it, then how far its prices can be trusted.
pub open spec fn caveat_texts(
    counted: nat,
    unscanned: Seq<Seq<char>>,
    bags: Seq<Seq<char>>,
    holdings: Seq<Holding>,
    unpriced: Seq<Holding>,
    holdings_value: u64,
) -> Seq<Seq<char>> {
    if counted == 0 {
        seq!["No characters were counted."@]
    } else {
        missing_caveats(unscanned, bags, holdings, unpriced) + price_caveats(
            holdings,
            unpriced,
            holdings_value,
        )
    }
}

/// What the survey could not see: markets with no scan, characters whose
/// bags were not captured, items with no name, items never priced.
pub open spec fn missing_caveats(
    unscanned: Seq<Seq<char>>,
    bags: Seq<Seq<char>>,
    holdings: Seq<Holding>,
    unpriced: Seq<Holding>,
) -> Seq<Seq<char>> {
    let nameless = count_nameless(holdings + unpriced);
    only_if(
        unscanned.len() > 0,
        "No Auctionator scan data for "@ + comma_joined(unscanned)
            + " — run an auction house scan there to value what it holds."@,
    ) + only_if(
        bags.len() > 0,
        "Bag contents were not captured for "@ + comma_joined(bags)
            + ", so nothing they hold is counted."@,
    ) + only_if(
        nameless > 0,
        decimal(nameless)
            + " item type(s) have no name yet — the client had not loaded them when the capture ran. Their ids are still correct."@,
    ) + only_if(
        unpriced.len() > 0,
        decimal(unpriced.len())
            + " item type(s) have never been seen on the auction house and are listed unpriced rather than counted as worthless."@,
    )
}

/// How far the prices can be trusted: stale prices, several markets,
/// outlying prices, what a value is, and what is never counted.
pub open spec fn price_caveats(holdings: Seq<Holding>, unpriced: Seq<Holding>, holdings_value: u64) -> Seq<
    Seq<char>,
> {
    let markets = held_markets(holdings + unpriced);
    let stale = count_stale(holdings);
    let outliers = count_outliers(holdings);
    only_if(
        stale > 0,
        decimal(stale)
            + " of the priced item type(s) were last seen on the auction house a week or more before your latest scan, so those prices are old."@,
    ) + only_if(
        markets.len() > 1,
        "Your roster spans "@ + decimal(markets.len()) + " separate auction houses ("@
            + comma_joined(markets)
            + "). The same item can differ by more than double between them, so each is counted and priced on its own."@,
    ) + only_if(
        outliers > 0,
        decimal(outliers)
            + " item type(s) have a last seen price more than 100x away from what they usually go for, marked ? above — one odd listing is carrying that figure, not a market."@,
    ) + only_if(
        holdings_value > 0,
        "Values are the last minimum buyout Auctionator saw, before the auction house's cut, and assume the stock would actually sell."@,
    ) + seq![last_caveat()]
}

fn join_comma(names: &Vec<String>, text: &mut String)
    ensures
        final(text)@ == old(text)@ + comma_joined(texts_of(names@)),
{
    let ghost lead = text@;
    let ghost all = texts_of(names@);
    let mut i: usize = 0;
    while i < names.len()
        invariant
            0 <= i <= names@.len(),
            all == texts_of(names@),
            text@ == lead + comma_joined(all.take(i as int)),
        decreases names@.len() - i,
    {
        proof {
            assert(all.take(i + 1).drop_last() =~= all.take(i as int));
            if i == 0 {
                assert(all.take(1) =~= seq![all[0]]);
            }
        }
        if i > 0 {
            push_str(text, ", ");
        }
        push_str(text, names[i].as_str());
        proof {
            assert(text@ =~= lead + comma_joined(all.take(i + 1)));
        }
        i = i + 1;
    }
    proof {
        assert(all.take(all.len() as int) =~= all);
    }
}

fn counts_of(hs: &Vec<Holding>) -> (counts: (usize, usize, usize))
    ensures
        counts.0 <= hs@.len(),
        counts.0 == count_nameless(hs@),
        counts.1 == count_stale(hs@),
        counts.2 == count_outliers(hs@),
{
    let mut nameless: usize = 0;
    let mut stale: usize = 0;
    let mut outliers: usize = 0;
    let mut i: usize = 0;
    while i < hs.len()
        invariant
            0 <= i <= hs@.len(),
            nameless == count_nameless(hs@.take(i as int)),
            stale == count_stale(hs@.take(i as int)),
            outliers == count_outliers(hs@.take(i as int)),
            nameless <= i && stale <= i && outliers <= i,
        decreases hs@.len() - i,
    {
        proof {
            assert(hs@.take(i + 1).drop_last() =~= hs@.take(i as int));
        }
        let h = &hs[i];
        if h.name.is_none() {
            nameless = nameless + 1;
        }
        if let Some(d) = h.days_stale {
            if d >= 7 {
                stale = stale + 1;
            }
        }
        if h.price_looks_like_an_outlier() {
            outliers = outliers + 1;
        }
        i = i + 1;
    }
    proof {
        assert(hs@.take(hs@.len() as int) =~= hs@);
    }
    (nameless, stale, outliers)
}

proof fn lemma_count_nameless_concat(a: Seq<Holding>, b: Seq<Holding>)
    ensures
        count_nameless(a + b) == count_nameless(a) + count_nameless(b),
    decreases b.len(),
{
    if b.len() == 0 {
        assert(a + b =~= a);
    } else {
        lemma_count_nameless_concat(a, b.drop_last());
        assert((a + b).drop_last() =~= a + b.drop_last());
    }
}

/// Note the markets of `hs` in `seen`.
fn add_markets(seen: &mut StrMap<bool>, hs: &Vec<Holding>, Ghost(prefix): Ghost<Seq<Holding>>)
    requires
        sorted_by_key(old(seen)@),
        forall|e: (Seq<char>, bool)| #[trigger] old(seen)@.contains(e) ==> e.1,
        forall|k: Seq<char>| #[trigger] old(seen)@.contains((k, true)) <==> market_held(prefix, k),
    ensures
        sorted_by_key(final(seen)@),
        forall|e: (Seq<char>, bool)| #[trigger] final(seen)@.contains(e) ==> e.1,
        forall|k: Seq<char>| #[trigger] final(seen)@.contains((k, true)) <==> market_held(prefix + hs@, k),
{
    let mut i: usize = 0;
    while i < hs.len()
        invariant
            0 <= i <= hs@.len(),
            sorted_by_key(seen@),
            forall|e: (Seq<char>, bool)| #[trigger] seen@.contains(e) ==> e.1,
            forall|k: Seq<char>| #[trigger] seen@.contains((k, true)) <==> market_held(prefix + hs@.take(i as int), k),
        decreases hs@.len() - i,
    {
        let h = &hs[i];
        let ghost before = prefix + hs@.take(i as int);
        let ghost next = prefix + hs@.take(i + 1);
        proof {
            assert(next =~= before.push(*h));
        }
        if let Some(market) = &h.market {
            seen.insert(market.clone(), true);
        }
        proof {
            assert forall|k: Seq<char>| #[trigger] seen@.contains((k, true)) <==> market_held(next, k) by {
                if market_held(next, k) {
                    let x = choose|x: int| 0 <= x < next.len() && market_view((#[trigger] next[x]).market) == Some(k);
                    if x < before.len() {
                        assert(before[x] == next[x]);
                    }
                }
                if market_held(before, k) {
                    let x = choose|x: int| 0 <= x < before.len() && market_view((#[trigger] before[x]).market) == Some(k);
                    assert(next[x] == before[x]);
                }
                if market_view(h.market) == Some(k) {
                    assert(next[before.len() as int] == *h);
                }
            }
        }
        i = i + 1;
    }
    proof {
        assert(hs@.take(hs@.len() as int) =~= hs@);
    }
}

/// The markets the holdings are in, once each and in order.
fn markets_of(holdings: &Vec<Holding>, unpriced: &Vec<Holding>) -> (markets: Vec<String>)
    ensures
        texts_of(markets@) == held_markets(holdings@ + unpriced@),
{
    let ghost all = holdings@ + unpriced@;
    let mut seen: StrMap<bool> = StrMap::new();
    add_markets(&mut seen, holdings, Ghost(Seq::empty()));
    proof {
        assert(Seq::<Holding>::empty() + holdings@ =~= holdings@);
    }
    add_markets(&mut seen, unpriced, Ghost(holdings@));
    let keys = seen.keys();
    let mut markets: Vec<String> = Vec::new();
    let mut x: usize = 0;
    while x < keys.len()
        invariant
            0 <= x <= keys@.len(),
            keys@.len() == seen@.len(),
            forall|y: int| 0 <= y < keys@.len() ==> (#[trigger] keys@[y])@ == seen@[y].0,
            markets@.len() == x,
            forall|y: int| 0 <= y < x ==> (#[trigger] markets@[y])@ == seen@[y].0,
        decreases keys@.len() - x,
    {
        markets.push(keys[x].clone());
        x = x + 1;
    }
    proof {
        let t = texts_of(markets@);
        assert forall|a: int, b: int| 0 <= a < b < t.len() implies key_lt(#[trigger] t[a], #[trigger] t[b]) by {
            assert(t[a] == seen@[a].0 && t[b] == seen@[b].0);
        }
        assert forall|k: Seq<char>| #[trigger] t.contains(k) <==> market_held(all, k) by {
            if t.contains(k) {
                let y = choose|y: int| 0 <= y < t.len() && t[y] == k;
                assert(seen@.contains(seen@[y]));
                assert(seen@[y] == (k, true));
            }
            if market_held(all, k) {
                assert(seen@.contains((k, true)));
                let y = choose|y: int| 0 <= y < seen@.len() && seen@[y] == (k, true);
                assert(t[y] == k);
            }
        }
        let ks = held_markets(all);
        assert(ascending_keys(t));
        assert(ascending_keys(ks) && forall|k: Seq<char>| #[trigger] ks.contains(k) <==> market_held(all, k));
        lemma_ascending_keys_unique(t, ks);
    }
    markets
}

fn add_caveat(caveats: &mut Vec<String>, text: String)
    ensures
        texts_of(final(caveats)@) == texts_of(old(caveats)@).push(text@),
{
    caveats.push(text);
    proof {
        assert(texts_of(final(caveats)@) =~= texts_of(old(caveats)@).push(text@));
    }
}

fn missing(
    found: &mut Vec<String>,
    unscanned: &Vec<String>,
    bags: &Vec<String>,
    holdings: &Vec<Holding>,
    unpriced: &Vec<Holding>,
)
    requires
        holdings@.len() + unpriced@.len() <= usize::MAX,
    ensures
        texts_of(final(found)@) == texts_of(old(found)@) + missing_caveats(
            texts_of(unscanned@),
            texts_of(bags@),
            holdings@,
            unpriced@,
        ),
{
    let ghost acc0 = texts_of(found@);
    if unscanned.len() > 0 {
        let mut text = to_owned_string("No Auctionator scan data for ");
        join_comma(unscanned, &mut text);
        push_str(&mut text, " — run an auction house scan there to value what it holds.");
        add_caveat(found, text);
    }
    let ghost acc1 = texts_of(found@);
    if bags.len() > 0 {
        let mut text = to_owned_string("Bag contents were not captured for ");
        join_comma(bags, &mut text);
        push_str(&mut text, ", so nothing they hold is counted.");
        add_caveat(found, text);
    }
    let ghost acc2 = texts_of(found@);
    let (nameless_held, _, _) = counts_of(holdings);
    let (nameless_unpriced, _, _) = counts_of(unpriced);
    proof {
        lemma_count_nameless_concat(holdings@, unpriced@);
    }
    let nameless: u64 = (nameless_held + nameless_unpriced) as u64;
    if nameless > 0 {
        let mut text = String::new();
        push_decimal(&mut text, nameless);
        push_str(
            &mut text,
            " item type(s) have no name yet — the client had not loaded them when the capture ran. Their ids are still correct.",
        );
        add_caveat(found, text);
    }
    let ghost acc3 = texts_of(found@);
    if unpriced.len() > 0 {
        let mut text = String::new();
        push_decimal(&mut text, unpriced.len() as u64);
        push_str(
            &mut text,
            " item type(s) have never been seen on the auction house and are listed unpriced rather than counted as worthless.",
        );
        add_caveat(found, text);
    }
    proof {
        assert(acc1 =~= acc0 + only_if(
            texts_of(unscanned@).len() > 0,
            "No Auctionator scan data for "@ + comma_joined(texts_of(unscanned@))
                + " — run an auction house scan there to value what it holds."@,
        ));
        assert(acc2 =~= acc1 + only_if(
            texts_of(bags@).len() > 0,
            "Bag contents were not captured for "@ + comma_joined(texts_of(bags@))
                + ", so nothing they hold is counted."@,
        ));
        assert(texts_of(found@) =~= texts_of(old(found)@) + missing_caveats(
            texts_of(unscanned@),
            texts_of(bags@),
            holdings@,
            unpriced@,
        ));
    }
}

fn trust(found: &mut Vec<String>, holdings: &Vec<Holding>, unpriced: &Vec<Holding>, holdings_value: u64)
    ensures
        texts_of(final(found)@) == texts_of(old(found)@) + price_caveats(
            holdings@,
            unpriced@,
            holdings_value,
        ),
{
    let ghost acc0 = texts_of(found@);
    let (_, stale, outliers) = counts_of(holdings);
    if stale > 0 {
        let mut text = String::new();
        push_decimal(&mut text, stale as u64);
        push_str(
            &mut text,
            " of the priced item type(s) were last seen on the auction house a week or more before your latest scan, so those prices are old.",
        );
        add_caveat(found, text);
    }
    let ghost acc1 = texts_of(found@);
    let markets = markets_of(holdings, unpriced);
    if markets.len() > 1 {
        let mut text = to_owned_string("Your roster spans ");
        push_decimal(&mut text, markets.len() as u64);
        push_str(&mut text, " separate auction houses (");
        join_comma(&markets, &mut text);
        push_str(
            &mut text,
            "). The same item can differ by more than double between them, so each is counted and priced on its own.",
        );
        add_caveat(found, text);
    }
    let ghost acc2 = texts_of(found@);
    if outliers > 0 {
        let mut text = String::new();
        push_decimal(&mut text, outliers as u64);
        push_str(
            &mut text,
            " item type(s) have a last seen price more than 100x away from what they usually go for, marked ? above — one odd listing is carrying that figure, not a market.",
        );
        add_caveat(found, text);
    }
    let ghost acc3 = texts_of(found@);
    if holdings_value > 0 {
        add_caveat(
            found,
            to_owned_string(
                "Values are the last minimum buyout Auctionator saw, before the auction house's cut, and assume the stock would actually sell.",
            ),
        );
    }
    let ghost acc4 = texts_of(found@);
    add_caveat(
        found,
        to_owned_string(
            "Only what is in bags is counted. The collector cannot read a bank it has not been standing in front of.",
        ),
    );
    proof {
        let markets_spec = held_markets(holdings@ + unpriced@);
        assert(texts_of(markets@).len() == markets@.len());
        assert(acc2 =~= acc1 + only_if(
            markets_spec.len() > 1,
            "Your roster spans "@ + decimal(markets_spec.len()) + " separate auction houses ("@
                + comma_joined(markets_spec)
                + "). The same item can differ by more than double between them, so each is counted and priced on its own."@,
        ));
        assert(texts_of(found@) =~= texts_of(old(found)@) + price_caveats(
            holdings@,
            unpriced@,
            holdings_value,
        ));
    }
}

fn caveats(
    counted: usize,
    unscanned: &Vec<String>,
    bags: &Vec<String>,
    holdings: &Vec<Holding>,
    unpriced: &Vec<Holding>,
    holdings_value: u64,
) -> (found: Vec<String>)
    requires
        holdings@.len() + unpriced@.len() <= usize::MAX,
    ensures
        texts_of(found@) == caveat_texts(
            counted as nat,
            texts_of(unscanned@),
            texts_of(bags@),
            holdings@,
            unpriced@,
            holdings_value,
        ),
{
    let mut found: Vec<String> = Vec::new();
    if counted == 0 {
        add_caveat(&mut found, to_owned_string("No characters were counted."));
        proof {
            assert(texts_of(found@) =~= seq!["No characters were counted."@]);
        }
        return found;
    }
    proof {
        assert(texts_of(found@) =~= Seq::<Seq<char>>::empty());
    }
    missing(&mut found, unscanned, bags, holdings, unpriced);
    trust(&mut found, holdings, unpriced, holdings_value);
    proof {
        assert(texts_of(found@) =~= caveat_texts(
            counted as nat,
            texts_of(unscanned@),
            texts_of(bags@),
            holdings@,
            unpriced@,
            holdings_value,
        ));
    }
    found
}

proof fn lemma_split_lengths(all: Seq<Holding>)
    ensures
        with_price(all).len() + without_price(all).len() == all.len(),
    decreases all.len(),
{
    if all.len() > 0 {
        lemma_split_lengths(all.drop_last());
    }
}

/// `out` holds, in profession order, a holder for each profession of each
/// character.
pub open spec fn professions_from(out: Seq<ProfessionHolder>, entries: Seq<RosterEntry>) -> bool {
    exists|d: Seq<ProfessionHolder>|
        #[trigger] holders_sorted(out, d) && d.len() == profession_sources(entries).len() && forall|k: int|
            0 <= k < d.len() ==> holder_is(#[trigger] d[k], profession_sources(entries)[k])
}

/// `out` is `d` in profession order.
pub open spec fn holders_sorted(out: Seq<ProfessionHolder>, d: Seq<ProfessionHolder>) -> bool {
    stable_sorted(out, d, |a: ProfessionHolder, b: ProfessionHolder| holder_order(a, b))
}

/// `out` is `d` in priced order.
pub open spec fn priced_sorted(out: Seq<Holding>, d: Seq<Holding>) -> bool {
    stable_sorted(out, d, |a: Holding, b: Holding| priced_order(a, b))
}

/// `out` is `d` in unpriced order.
pub open spec fn unpriced_sorted(out: Seq<Holding>, d: Seq<Holding>) -> bool {
    stable_sorted(out, d, |a: Holding, b: Holding| unpriced_order(a, b))
}

/// The markets the roster trades in that have no scan, in key order.
fn unscanned_list(markets: &StrMap<bool>, Ghost(entries): Ghost<Seq<RosterEntry>>, prices: &PriceDb) -> (list: Vec<String>)
    requires
        markets_match(markets@, entries, *prices),
    ensures
        texts_of(list@) == unscanned_markets(entries, *prices),
{
    let mut list: Vec<String> = Vec::new();
    let mut i: usize = 0;
    while i < markets.len()
        invariant
            0 <= i <= markets@.len(),
            markets_match(markets@, entries, *prices),
            forall|a: int, b: int| 0 <= a < b < list@.len() ==> key_lt(#[trigger] list@[a]@, #[trigger] list@[b]@),
            forall|a: int| 0 <= a < list@.len() ==> exists|x: int| 0 <= x < i && (#[trigger] list@[a])@ == markets@[x].0,
            forall|k: Seq<char>| #[trigger] texts_of(list@).contains(k) <==> exists|x: int|
                0 <= x < i && markets@[x].0 == k && !markets@[x].1,
        decreases markets@.len() - i,
    {
        let (key, priced) = markets.entry(i);
        if !*priced {
            let ghost before = list@;
            proof {
                assert forall|a: int| 0 <= a < before.len() implies key_lt(before[a]@, key@) by {
                    let x = choose|x: int| 0 <= x < i && before[a]@ == markets@[x].0;
                }
            }
            list.push(key.clone());
            proof {
                assert forall|k: Seq<char>| #[trigger] texts_of(list@).contains(k) <==> exists|x: int|
                    0 <= x < i + 1 && markets@[x].0 == k && !markets@[x].1 by {
                    if texts_of(list@).contains(k) {
                        let y = choose|y: int| 0 <= y < texts_of(list@).len() && texts_of(list@)[y] == k;
                        if y < before.len() {
                            assert(texts_of(before).contains(k)) by {
                                assert(texts_of(before)[y] == k);
                            }
                        }
                    }
                    if exists|x: int| 0 <= x < i + 1 && markets@[x].0 == k && !markets@[x].1 {
                        let x = choose|x: int| 0 <= x < i + 1 && markets@[x].0 == k && !markets@[x].1;
                        if x < i {
                            assert(texts_of(before).contains(k));
                            let y = choose|y: int| 0 <= y < texts_of(before).len() && texts_of(before)[y] == k;
                            assert(texts_of(list@)[y] == k);
                        } else {
                            assert(texts_of(list@)[before.len() as int] == k);
                        }
                    }
                }
            }
        } else {
            proof {
                assert forall|k: Seq<char>| #[trigger] texts_of(list@).contains(k) <==> exists|x: int|
                    0 <= x < i + 1 && markets@[x].0 == k && !markets@[x].1 by {
                    if exists|x: int| 0 <= x < i + 1 && markets@[x].0 == k && !markets@[x].1 {
                        let x = choose|x: int| 0 <= x < i + 1 && markets@[x].0 == k && !markets@[x].1;
                        assert(x != i);
                    }
                }
            }
        }
        i = i + 1;
    }
    proof {
        let t = texts_of(list@);
        assert forall|a: int, b: int| 0 <= a < b < t.len() implies key_lt(#[trigger] t[a], #[trigger] t[b]) by {
            assert(t[a] == list@[a]@ && t[b] == list@[b]@);
        }
        assert forall|k: Seq<char>| #[trigger] t.contains(k) <==> market_used(entries, k) && !has_key(prices.realms@, k) by {
            if t.contains(k) {
                let x = choose|x: int| 0 <= x < markets@.len() && markets@[x].0 == k && !markets@[x].1;
                assert(has_key(markets@, k));
            }
            if market_used(entries, k) && !has_key(prices.realms@, k) {
                assert(has_key(markets@, k));
                let x = choose|x: int| 0 <= x < markets@.len() && #[trigger] markets@[x].0 == k;
                assert(!markets@[x].1);
            }
        }
        let ks = unscanned_markets(entries, *prices);
        assert(ascending_keys(t));
        assert(ascending_keys(ks) && forall|k: Seq<char>| #[trigger]
            ks.contains(k) <==> market_used(entries, k) && !has_key(prices.realms@, k));
        lemma_ascending_keys_unique(t, ks);
    }
    list
}

proof fn lemma_capped_step(total: nat, v: nat)
    ensures
        capped(capped(total) + v) == capped(total + v),
{
}

/// Build the roster-wide view.
///
/// Every character counts, whatever its role: its coin, its professions from
/// the recipe cache, and each stack in its bags, totalled per item and per
/// market. Each item in each market is valued at that market's prices;
/// priced holdings come most valuable first, unpriced ones most held first.
/// `prices` may be empty: the professions and holdings are still worth seeing
/// without a valuation, and saying so beats refusing to answer.
pub fn survey(entries: &[RosterEntry<'_>], prices: &PriceDb) -> (economy: Economy)
    requires
        totals_fit(contributions(entries@)),
        staleness_fits(*prices, contributions(entries@)),
    ensures
        economy.gold_copper == capped(total_money(entries@)),
        professions_from(economy.professions@, entries@),
        exists|all: Seq<Holding>|
            #[trigger] holdings_from(all, contributions(entries@), *prices) && priced_sorted(
                economy.holdings@,
                with_price(all),
            ) && unpriced_sorted(economy.unpriced@, without_price(all)),
        forall|i: int, j: int|
            0 <= i < j < economy.holdings@.len() ==> economy.holdings@[i].value.unwrap_or(0)
                >= economy.holdings@[j].value.unwrap_or(0),
        economy.holdings_value == capped(value_total(economy.holdings@)),
        economy.holdings_value_typical == capped(typical_total(economy.holdings@)),
        texts_of(economy.caveats@) == caveat_texts(
            entries@.len(),
            unscanned_markets(entries@, *prices),
            uncaptured_bags(entries@),
            economy.holdings@,
            economy.unpriced@,
            economy.holdings_value,
        ),
{
    let gathered = gather(entries, prices);
    let Gathered { professions, groups, names, markets, bags_missing, gold } = gathered;
    let ghost cs = contributions(entries@);
    proof {
        lemma_holder_order();
        lemma_holding_orders();
    }
    let ghost unsorted_holders = professions@;
    let professions = sort_stable(
        professions,
        Ghost(|a: ProfessionHolder, b: ProfessionHolder| holder_order(a, b)),
        holder_earlier,
    );
    proof {
        assert(holders_sorted(professions@, unsorted_holders));
    }
    // Value each item in each market, keeping the order of the groups.
    let ghost keys = group_keys(groups@);
    let ghost total = groups@.len();
    let mut rest = groups;
    let group_count = rest.len();
    let ghost mut all: Seq<Holding> = Seq::empty();
    let mut priced: Vec<Holding> = Vec::new();
    let mut unpriced: Vec<Holding> = Vec::new();
    let ghost orig = rest@;
    while rest.len() > 0
        invariant
            orig.len() == total,
            total == group_count,
            keys == group_keys(orig),
            tallied(orig, cs),
            names_match(names@, cs),
            staleness_fits(*prices, cs),
            all.len() + rest@.len() == total,
            rest@ == orig.subrange(all.len() as int, total as int),
            forall|k: int| 0 <= k < all.len() ==> holding_is(#[trigger] all[k], cs, *prices, keys[k]),
            priced@ == with_price(all),
            unpriced@ == without_price(all),
        decreases rest@.len(),
    {
        let g = rest.remove(0);
        let ghost k = all.len() as int;
        proof {
            assert(g == orig[k]);
            assert(counts(g, cs));
            assert(keys[k] == (market_view(g.market), g.item_id));
            assert(keys.contains(keys[k]));
        }
        let h = holding_for(g, &names, prices, Ghost(cs));
        let ghost before = all;
        proof {
            all = all.push(h);
            assert(all.drop_last() =~= before);
            assert(rest@ =~= orig.subrange(all.len() as int, total as int));
        }
        if h.value.is_some() {
            priced.push(h);
        } else {
            unpriced.push(h);
        }
    }
    proof {
        let hk = all.map_values(|h: Holding| (market_view(h.market), h.item_id));
        assert(hk =~= keys) by {
            assert forall|k: int| 0 <= k < hk.len() implies hk[k] == keys[k] by {
                assert(holding_is(all[k], cs, *prices, keys[k]));
            }
        }
        assert(holdings_from(all, cs, *prices));
        lemma_split_lengths(all);
    }
    let ghost unsorted_priced = priced@;
    let ghost unsorted_unpriced = unpriced@;
    let holdings = sort_stable(priced, Ghost(|a: Holding, b: Holding| priced_order(a, b)), priced_earlier);
    let unpriced = sort_stable(unpriced, Ghost(|a: Holding, b: Holding| unpriced_order(a, b)), unpriced_earlier);
    proof {
        assert(priced_sorted(holdings@, unsorted_priced));
        assert(unpriced_sorted(unpriced@, unsorted_unpriced));
        assert forall|i: int, j: int| 0 <= i < j < holdings@.len() implies holdings@[i].value.unwrap_or(
            0,
        ) >= holdings@[j].value.unwrap_or(0) by {
            most_valuable_holdings_come_first(holdings@, unsorted_priced, i, j);
        }
        assert(holdings@.len() == unsorted_priced.len());
        assert(unpriced@.len() == unsorted_unpriced.len());
        assert(holdings@.len() + unpriced@.len() == group_count);
    }
    // Every holding contributes to both totals, so they cover the same stock
    // and differ only where a price was called implausible.
    let mut holdings_value: u64 = 0;
    let mut holdings_value_typical: u64 = 0;
    let mut i: usize = 0;
    while i < holdings.len()
        invariant
            0 <= i <= holdings@.len(),
            holdings_value == capped(value_total(holdings@.take(i as int))),
            holdings_value_typical == capped(typical_total(holdings@.take(i as int))),
        decreases holdings@.len() - i,
    {
        let h = &holdings[i];
        proof {
            assert(holdings@.take(i + 1).drop_last() =~= holdings@.take(i as int));
            lemma_capped_step(value_total(holdings@.take(i as int)), h.value.unwrap_or(0) as nat);
            lemma_capped_step(typical_total(holdings@.take(i as int)), typical_part(*h));
        }
        let value: u64 = match h.value {
            Some(v) => v,
            None => 0,
        };
        let typical: u64 = if h.price_looks_like_an_outlier() {
            match h.typical_value {
                Some(t) => t,
                None => value,
            }
        } else {
            value
        };
        holdings_value = holdings_value.saturating_add(value);
        holdings_value_typical = holdings_value_typical.saturating_add(typical);
        i = i + 1;
    }
    proof {
        assert(holdings@.take(holdings@.len() as int) =~= holdings@);
    }
    let unscanned = unscanned_list(&markets, Ghost(entries@), prices);
    let caveats = caveats(entries.len(), &unscanned, &bags_missing, &holdings, &unpriced, holdings_value);
    proof {
        assert(unsorted_holders.len() == profession_sources(entries@).len());
        assert(forall|k: int|
            0 <= k < unsorted_holders.len() ==> holder_is(
                #[trigger] unsorted_holders[k],
                profession_sources(entries@)[k],
            ));
        assert(holders_sorted(professions@, unsorted_holders));
        assert(professions_from(professions@, entries@));
    }
    Economy {
        professions,
        holdings,
        unpriced,
        gold_copper: gold,
        holdings_value,
        holdings_value_typical,
        caveats,
    }
}

/// The two totals differ only where a price was called implausible: with no
/// outlying price among the holdings, they are the same sum.
pub proof fn totals_agree_without_outliers(hs: Seq<Holding>)
    requires
        count_outliers(hs) == 0,
    ensures
        typical_total(hs) == value_total(hs),
    decreases hs.len(),
{
    if hs.len() > 0 {
        totals_agree_without_outliers(hs.drop_last());
    }
}

/// Priced holdings come most valuable first: in a holding list sorted for
/// display, no holding is worth more than one ahead of it.
pub proof fn most_valuable_holdings_come_first(out: Seq<Holding>, d: Seq<Holding>, i: int, j: int)
    requires
        priced_sorted(out, d),
        0 <= i < j < out.len(),
    ensures
        out[i].value.unwrap_or(0) >= out[j].value.unwrap_or(0),
{
    let order = |a: Holding, b: Holding| priced_order(a, b);
    let p = choose|p: Seq<int>| crate::order::stable_arrangement(out, d, p, order);
    assert(order(out[i], out[j]));
}

/// Coin splits the way the game shows it: the parts put back together are
/// the copper, and silver and copper each stay below a hundred.
pub proof fn coin_parts_recombine(copper: u64)
    ensures
        (copper / 10_000) * 10_000 + ((copper % 10_000) / 100) * 100 + copper % 100 == copper,
        (copper % 10_000) / 100 < 100,
        copper % 100 < 100,
{
    assert((copper / 10_000) * 10_000 + copper % 10_000 == copper) by (nonlinear_arith);
    assert(((copper % 10_000) / 100) * 100 + (copper % 10_000) % 100 == copper % 10_000) by (nonlinear_arith);
    assert((copper % 10_000) % 100 == copper % 100) by (nonlinear_arith);
}

/// Roles decide the play rotation, not the economy: two rosters that differ
/// only in the roles their characters carry hold the same stacks and the
/// same coin.
pub proof fn every_role_counts_in_the_economy<'a>(a: Seq<RosterEntry<'a>>, b: Seq<RosterEntry<'a>>)
    requires
        a.len() == b.len(),
        forall|i: int| 0 <= i < a.len() ==> (#[trigger] a[i]).key == b[i].key && a[i].record == b[i].record,
    ensures
        contributions(a) == contributions(b),
        total_money(a) == total_money(b),
        uncaptured_bags(a) == uncaptured_bags(b),
    decreases a.len(),
{
    if a.len() > 0 {
        every_role_counts_in_the_economy(a.drop_last(), b.drop_last());
        assert(a.last().key == b.last().key && a.last().record == b.last().record);
    }
}

} // verus!
