//! How the command line writes figures and reads the player's answers.
//!
//! Money as the game writes it, roles and XP in words, columns cut to width,
//! and the few words a player types back. The rules live here so that every
//! frontend writes a figure the same way.

use vstd::prelude::*;
use vstd::string::*;

use crate::economy::{coin, Holding};
use crate::gap::comma_joined;
use crate::history::XpGain;
use crate::identity::{trim, trim_str};
use crate::roster::Role;
use crate::text::{
    ascii_ci_eq, ascii_lower_text, decimal, eq_ignore_ascii_case, push_char, push_decimal, push_str,
    same_ignoring_ascii_case, signed_decimal, str_eq, to_owned_string,
};

verus! {

/// `copper` as `"{g}g {s}s {c}c"`, with a leading `-` when it is a loss.
pub open spec fn gold_text(copper: int) -> Seq<char> {
    let magnitude = if copper < 0 {
        -copper
    } else {
        copper
    };
    (if copper < 0 {
        "-"@
    } else {
        Seq::<char>::empty()
    }) + decimal((magnitude / 10_000) as nat) + "g "@ + decimal(((magnitude / 100) % 100) as nat)
        + "s "@ + decimal((magnitude % 100) as nat) + "c"@
}

/// A signed amount of copper in gold, silver and copper.
pub fn gold(copper: i64) -> (text: String)
    ensures
        text@ == gold_text(copper as int),
{
    let magnitude: u64 = if copper < 0 {
        if copper == i64::MIN {
            9_223_372_036_854_775_808u64
        } else {
            (-copper) as u64
        }
    } else {
        copper as u64
    };
    let mut text = String::new();
    if copper < 0 {
        push_str(&mut text, "-");
    }
    push_decimal(&mut text, magnitude / 10_000);
    push_str(&mut text, "g ");
    push_decimal(&mut text, (magnitude / 100) % 100);
    push_str(&mut text, "s ");
    push_decimal(&mut text, magnitude % 100);
    push_str(&mut text, "c");
    proof {
        assert(text@ =~= gold_text(copper as int));
    }
    text
}

/// Copper as the game writes it, dropping the units that are zero so a column
/// of prices stays readable.
pub open spec fn money_text(copper: u64) -> Seq<char> {
    let gold = copper / 10_000;
    let silver = (copper % 10_000) / 100;
    let rest = copper % 100;
    if gold > 0 {
        decimal(gold as nat) + "g "@ + decimal(silver as nat) + "s"@
    } else if silver > 0 {
        decimal(silver as nat) + "s "@ + decimal(rest as nat) + "c"@
    } else {
        decimal(rest as nat) + "c"@
    }
}

pub fn money(copper: u64) -> (text: String)
    ensures
        text@ == money_text(copper),
{
    let (gold, silver, copper_left) = coin(copper);
    let mut text = String::new();
    if gold > 0 {
        push_decimal(&mut text, gold);
        push_str(&mut text, "g ");
        push_decimal(&mut text, silver);
        push_str(&mut text, "s");
    } else if silver > 0 {
        push_decimal(&mut text, silver);
        push_str(&mut text, "s ");
        push_decimal(&mut text, copper_left);
        push_str(&mut text, "c");
    } else {
        push_decimal(&mut text, copper_left);
        push_str(&mut text, "c");
    }
    proof {
        assert(text@ =~= money_text(copper));
    }
    text
}

/// An XP gain in words: a figure, a floor, or that it is not known.
pub open spec fn xp_text(gain: XpGain) -> Seq<char> {
    match gain {
        XpGain::Exact(amount) => if amount == 0 {
            "no XP"@
        } else {
            decimal(amount as nat) + " XP"@
        },
        XpGain::AtLeast(amount) => "at least "@ + decimal(amount as nat) + " XP"@,
        XpGain::Unknown => "XP not known"@,
    }
}

pub fn describe_xp(gain: &XpGain) -> (text: String)
    ensures
        text@ == xp_text(*gain),
{
    match gain {
        XpGain::Exact(0) => to_owned_string("no XP"),
        XpGain::Exact(amount) => {
            let mut text = String::new();
            push_decimal(&mut text, *amount);
            push_str(&mut text, " XP");
            proof {
                assert(text@ =~= xp_text(*gain));
            }
            text
        },
        XpGain::AtLeast(amount) => {
            let mut text = to_owned_string("at least ");
            push_decimal(&mut text, *amount);
            push_str(&mut text, " XP");
            proof {
                assert(text@ =~= xp_text(*gain));
            }
            text
        },
        XpGain::Unknown => to_owned_string("XP not known"),
    }
}

/// A text cut to `width` characters: whole if it fits, otherwise its first
/// `width - 1` characters and an ellipsis.
pub open spec fn truncated(text: Seq<char>, width: nat) -> Seq<char> {
    if text.len() <= width {
        text
    } else {
        let keep = if width == 0 {
            0
        } else {
            width - 1
        };
        text.subrange(0, keep) + seq!['…']
    }
}

pub fn truncate(text: &str, width: usize) -> (cut: String)
    ensures
        cut@ == truncated(text@, width as nat),
{
    let n = text.unicode_len();
    if n <= width {
        return to_owned_string(text);
    }
    let keep = if width == 0 {
        0
    } else {
        width - 1
    };
    let mut cut = to_owned_string(text.substring_char(0, keep));
    push_char(&mut cut, '…');
    cut
}

/// A role as a sentence names it.
pub open spec fn role_words(role: Role) -> Seq<char> {
    match role {
        Role::Active => "active"@,
        Role::Bank => "a bank alt"@,
        Role::Parked => "parked"@,
    }
}

pub fn describe_role(role: Role) -> (text: &'static str)
    ensures
        text@ == role_words(role),
{
    match role {
        Role::Active => "active",
        Role::Bank => "a bank alt",
        Role::Parked => "parked",
    }
}

/// A role as a column names it.
pub open spec fn role_word(role: Role) -> Seq<char> {
    match role {
        Role::Active => "active"@,
        Role::Bank => "bank"@,
        Role::Parked => "parked"@,
    }
}

pub fn describe_role_short(role: Role) -> (text: &'static str)
    ensures
        text@ == role_word(role),
{
    match role {
        Role::Active => "active",
        Role::Bank => "bank",
        Role::Parked => "parked",
    }
}

/// What a holding is called: the client's name for it, or its id.
pub open spec fn label_of(holding: Holding) -> Seq<char> {
    match holding.name {
        Some(name) => name@,
        None => "item "@ + decimal(holding.item_id as nat),
    }
}

pub fn item_label(holding: &Holding) -> (label: String)
    ensures
        label@ == label_of(*holding),
{
    match &holding.name {
        Some(name) => name.clone(),
        None => {
            let mut label = to_owned_string("item ");
            push_decimal(&mut label, holding.item_id as u64);
            proof {
                assert(label@ =~= label_of(*holding));
            }
            label
        },
    }
}

/// Who holds a holding: `"{name} {count}"` for each holder, in name order,
/// joined by commas.
pub open spec fn holder_parts(held_by: Seq<(Seq<char>, u32)>) -> Seq<Seq<char>> {
    held_by.map_values(|e: (Seq<char>, u32)| e.0 + " "@ + decimal(e.1 as nat))
}

pub fn holders(holding: &Holding) -> (text: String)
    ensures
        text@ == comma_joined(holder_parts(holding.held_by@)),
{
    let ghost parts = holder_parts(holding.held_by@);
    let mut text = String::new();
    let mut i: usize = 0;
    while i < holding.held_by.len()
        invariant
            i <= holding.held_by@.len(),
            parts == holder_parts(holding.held_by@),
            text@ == comma_joined(parts.subrange(0, i as int)),
        decreases holding.held_by@.len() - i,
    {
        let (name, count) = holding.held_by.entry(i);
        let ghost before = text@;
        if i > 0 {
            push_str(&mut text, ", ");
        }
        push_str(&mut text, name.as_str());
        push_str(&mut text, " ");
        push_decimal(&mut text, *count as u64);
        proof {
            let s = parts.subrange(0, i + 1);
            assert(s.drop_last() =~= parts.subrange(0, i as int));
            assert(s.last() == parts[i as int]);
            if i == 0 {
                assert(text@ =~= comma_joined(s));
            } else {
                assert(text@ =~= comma_joined(s));
            }
        }
        i = i + 1;
    }
    assert(parts.subrange(0, i as int) =~= parts);
    text
}

/// Where the last space in a text is, if there is one.
pub open spec fn last_space(text: Seq<char>) -> Option<int> {
    if exists|i: int| 0 <= i < text.len() && text[i] == ' ' {
        Some(
            choose|i: int|
                0 <= i < text.len() && text[i] == ' ' && forall|j: int|
                    i < j < text.len() ==> text[j] != ' ',
        )
    } else {
        None
    }
}

/// The faction half of a market key: what follows its last space, or `?`.
/// A column of it appears only when the roster spans two auction houses.
pub open spec fn market_tag_of(market: Option<String>) -> Seq<char> {
    match market {
        Some(m) => match last_space(m@) {
            Some(i) => m@.subrange(i + 1, m@.len() as int),
            None => "?"@,
        },
        None => "?"@,
    }
}

pub fn market_tag(holding: &Holding) -> (tag: String)
    ensures
        tag@ == market_tag_of(holding.market),
{
    match &holding.market {
        Some(market) => {
            let text = market.as_str();
            let n = text.unicode_len();
            let mut i = n;
            while i > 0 && text.get_char(i - 1) != ' '
                invariant
                    i <= n,
                    n == text@.len(),
                    forall|j: int| i <= j < n ==> text@[j] != ' ',
                decreases i,
            {
                i = i - 1;
            }
            if i == 0 {
                proof {
                    assert(!(exists|k: int| 0 <= k < n && text@[k] == ' '));
                }
                to_owned_string("?")
            } else {
                let at = i - 1;
                proof {
                    assert(text@[at as int] == ' ');
                    let chosen = choose|k: int|
                        0 <= k < text@.len() && text@[k] == ' ' && forall|j: int|
                            k < j < text@.len() ==> text@[j] != ' ';
                    assert(0 <= at < text@.len() && text@[at as int] == ' ' && forall|j: int|
                        at < j < text@.len() ==> text@[j] != ' ');
                    if chosen != at {
                        if chosen < at {
                            assert(text@[at as int] != ' ');
                        } else {
                            assert(text@[chosen] != ' ');
                        }
                    }
                }
                to_owned_string(text.substring_char(i, n))
            }
        },
        None => to_owned_string("?"),
    }
}

/// How long ago a time was, in days, as the history view says it. No date
/// arithmetic: days elapsed is what the reader wants, and it needs no time
/// zone to be right.
pub open spec fn days_ago_text(now: int, then: int) -> Seq<char> {
    let elapsed = now - then;
    if elapsed < 86_400 {
        "today"@
    } else if elapsed / 86_400 == 1 {
        "yesterday"@
    } else {
        decimal((elapsed / 86_400) as nat) + " days ago"@
    }
}

pub fn days_ago(now: i64, then: i64) -> (text: String)
    requires
        i64::MIN <= now - then <= i64::MAX,
    ensures
        text@ == days_ago_text(now as int, then as int),
{
    let elapsed = now - then;
    if elapsed < 86_400 {
        return to_owned_string("today");
    }
    let days = elapsed / 86_400;
    if days == 1 {
        return to_owned_string("yesterday");
    }
    let mut text = String::new();
    push_decimal(&mut text, days as u64);
    push_str(&mut text, " days ago");
    proof {
        assert(text@ =~= days_ago_text(now as int, then as int));
    }
    text
}

/// What the player asked `set-role` for: a role, or to undo a decision.
/// `unset` is not a role: it removes the decision entirely, where setting
/// `active` would still count as having decided.
#[derive(Debug, Clone, Copy, PartialEq, Eq, Structural)]
pub enum RoleChange {
    Assign(Role),
    Clear,
}

/// The lower-case spelling of a text, for a message that repeats it.
fn ascii_lower_string(text: &str) -> (lower: String)
    ensures
        lower@ == ascii_lower_text(text@),
{
    let n = text.unicode_len();
    let mut lower = String::new();
    let mut i: usize = 0;
    while i < n
        invariant
            i <= n,
            n == text@.len(),
            lower@ == ascii_lower_text(text@.subrange(0, i as int)),
        decreases n - i,
    {
        let c = text.get_char(i);
        let l = if 'A' <= c && c <= 'Z' {
            ((c as u32 + 32) as u8) as char
        } else {
            c
        };
        push_char(&mut lower, l);
        proof {
            assert(ascii_lower_text(text@.subrange(0, i + 1)) =~= ascii_lower_text(
                text@.subrange(0, i as int),
            ).push(l));
        }
        i = i + 1;
    }
    assert(text@.subrange(0, n as int) =~= text@);
    lower
}

/// Whether a text is `word`, whatever the case of its ASCII letters.
pub open spec fn is_word(text: Seq<char>, word: Seq<char>) -> bool {
    same_ignoring_ascii_case(text, word)
}

/// The change `set-role` was asked for, or the message that refuses it.
pub open spec fn role_change_of(text: Seq<char>) -> Result<RoleChange, Seq<char>> {
    if is_word(text, "unset"@) || is_word(text, "none"@) || is_word(text, "clear"@) {
        Ok(RoleChange::Clear)
    } else if is_word(text, "active"@) {
        Ok(RoleChange::Assign(Role::Active))
    } else if is_word(text, "bank"@) {
        Ok(RoleChange::Assign(Role::Bank))
    } else if is_word(text, "parked"@) {
        Ok(RoleChange::Assign(Role::Parked))
    } else {
        Err(ascii_lower_text(text) + " is not a role; use active, bank, parked, or unset to undo"@)
    }
}

pub fn parse_role_change(text: &str) -> (change: Result<RoleChange, String>)
    ensures
        match change {
            Ok(c) => role_change_of(text@) == Ok::<RoleChange, Seq<char>>(c),
            Err(message) => role_change_of(text@) == Err::<RoleChange, Seq<char>>(message@),
        },
{
    if eq_ignore_ascii_case(text, "unset") || eq_ignore_ascii_case(text, "none")
        || eq_ignore_ascii_case(text, "clear") {
        Ok(RoleChange::Clear)
    } else if eq_ignore_ascii_case(text, "active") {
        Ok(RoleChange::Assign(Role::Active))
    } else if eq_ignore_ascii_case(text, "bank") {
        Ok(RoleChange::Assign(Role::Bank))
    } else if eq_ignore_ascii_case(text, "parked") {
        Ok(RoleChange::Assign(Role::Parked))
    } else {
        let mut message = ascii_lower_string(text);
        push_str(&mut message, " is not a role; use active, bank, parked, or unset to undo");
        Err(message)
    }
}

/// What the player answered when asked about a suggested role.
#[derive(Debug, Clone, Copy, PartialEq, Eq, Structural)]
pub enum Answer {
    /// Take this role.
    Take(Role),
    /// Leave the character undecided.
    Skip,
    /// Stop asking.
    Quit,
}

/// An answer, read after trimming: nothing or a yes takes the suggestion, a
/// role's initial or name takes that role, `q` stops, and anything else
/// leaves the character undecided.
pub open spec fn answer_of(text: Seq<char>, suggested: Role) -> Answer {
    let t = trim(text);
    if t.len() == 0 || is_word(t, "accept"@) || is_word(t, "y"@) || is_word(t, "yes"@) {
        Answer::Take(suggested)
    } else if is_word(t, "a"@) || is_word(t, "active"@) {
        Answer::Take(Role::Active)
    } else if is_word(t, "b"@) || is_word(t, "bank"@) {
        Answer::Take(Role::Bank)
    } else if is_word(t, "p"@) || is_word(t, "parked"@) {
        Answer::Take(Role::Parked)
    } else if is_word(t, "q"@) || is_word(t, "quit"@) {
        Answer::Quit
    } else {
        Answer::Skip
    }
}

pub fn read_answer(text: &str, suggested: Role) -> (answer: Answer)
    ensures
        answer == answer_of(text@, suggested),
{
    let trimmed = trim_str(text);
    let t = trimmed.as_str();
    if t.unicode_len() == 0 || eq_ignore_ascii_case(t, "accept") || eq_ignore_ascii_case(t, "y")
        || eq_ignore_ascii_case(t, "yes") {
        Answer::Take(suggested)
    } else if eq_ignore_ascii_case(t, "a") || eq_ignore_ascii_case(t, "active") {
        Answer::Take(Role::Active)
    } else if eq_ignore_ascii_case(t, "b") || eq_ignore_ascii_case(t, "bank") {
        Answer::Take(Role::Bank)
    } else if eq_ignore_ascii_case(t, "p") || eq_ignore_ascii_case(t, "parked") {
        Answer::Take(Role::Parked)
    } else if eq_ignore_ascii_case(t, "q") || eq_ignore_ascii_case(t, "quit") {
        Answer::Quit
    } else {
        Answer::Skip
    }
}

/// An addon the tool cares about, in one installation, and whether it is
/// there.
#[derive(Debug, Clone)]
pub struct AddonStatus {
    pub flavor: String,
    pub name: &'static str,
    pub installed: bool,
    pub required: bool,
    pub purpose: &'static str,
}

/// Whether an installation has the collector.
pub open spec fn has_collector(all: Seq<AddonStatus>, flavor: Seq<char>) -> bool {
    exists|j: int|
        0 <= j < all.len() && (#[trigger] all[j]).flavor@ == flavor && all[j].name@
            == "WoWCoachCollector"@ && all[j].installed
}

/// Whether a status is worth a word: Auctionator missing from an installation
/// that has the collector. An installation the tool does not read is none of
/// its business.
pub open spec fn wants_auctionator(status: AddonStatus, all: Seq<AddonStatus>) -> bool {
    status.name@ == "Auctionator"@ && !status.installed && has_collector(all, status.flavor@)
}

/// The installations that lack Auctionator beside the collector, in order.
pub open spec fn missing_auctionator(s: Seq<AddonStatus>, all: Seq<AddonStatus>) -> Seq<Seq<char>>
    decreases s.len(),
{
    if s.len() == 0 {
        Seq::empty()
    } else {
        missing_auctionator(s.drop_last(), all) + if wants_auctionator(s.last(), all) {
            seq![s.last().flavor@]
        } else {
            Seq::empty()
        }
    }
}

/// The advice about Auctionator: prices are the one thing better taken from
/// an established addon, so its absence disables a feature rather than
/// breaking the tool, and is worth saying.
pub open spec fn auctionator_advice_text(statuses: Seq<AddonStatus>) -> Option<Seq<char>> {
    let flavors = missing_auctionator(statuses, statuses);
    if flavors.len() == 0 {
        None
    } else {
        Some(
            "Auctionator is not installed ("@ + comma_joined(flavors)
                + "). It is optional, but without it there are no auction prices, so nothing can say what is worth crafting or selling. Install it from CurseForge or https://github.com/Auctionator/Auctionator."@,
        )
    }
}

fn collector_installed(statuses: &[AddonStatus], flavor: &str) -> (found: bool)
    ensures
        found == has_collector(statuses@, flavor@),
{
    let mut j: usize = 0;
    while j < statuses.len()
        invariant
            j <= statuses@.len(),
            forall|k: int|
                0 <= k < j ==> !((#[trigger] statuses@[k]).flavor@ == flavor@ && statuses@[k].name@
                    == "WoWCoachCollector"@ && statuses@[k].installed),
        decreases statuses@.len() - j,
    {
        let status = &statuses[j];
        if str_eq(status.flavor.as_str(), flavor) && str_eq(status.name, "WoWCoachCollector")
            && status.installed {
            return true;
        }
        j = j + 1;
    }
    false
}

pub fn auctionator_advice(statuses: &[AddonStatus]) -> (advice: Option<String>)
    ensures
        match advice {
            Some(text) => auctionator_advice_text(statuses@) == Some(text@),
            None => auctionator_advice_text(statuses@) is None,
        },
{
    let mut flavors: Vec<String> = Vec::new();
    let mut joined = String::new();
    let mut i: usize = 0;
    while i < statuses.len()
        invariant
            i <= statuses@.len(),
            flavors@.map_values(|f: String| f@) == missing_auctionator(
                statuses@.subrange(0, i as int),
                statuses@,
            ),
            joined@ == comma_joined(flavors@.map_values(|f: String| f@)),
        decreases statuses@.len() - i,
    {
        let status = &statuses[i];
        let ghost before = flavors@.map_values(|f: String| f@);
        let wanted = str_eq(status.name, "Auctionator") && !status.installed
            && collector_installed(statuses, status.flavor.as_str());
        if wanted {
            if flavors.len() > 0 {
                push_str(&mut joined, ", ");
            }
            push_str(&mut joined, status.flavor.as_str());
            flavors.push(status.flavor.clone());
        }
        proof {
            let s = statuses@.subrange(0, i + 1);
            assert(s.drop_last() =~= statuses@.subrange(0, i as int));
            assert(s.last() == statuses@[i as int]);
            let after = flavors@.map_values(|f: String| f@);
            if wanted {
                assert(after =~= before.push(statuses@[i as int].flavor@));
                assert(after.drop_last() =~= before);
            } else {
                assert(after =~= before);
            }
        }
        i = i + 1;
    }
    assert(statuses@.subrange(0, i as int) =~= statuses@);
    if flavors.len() == 0 {
        return None;
    }
    let mut text = to_owned_string("Auctionator is not installed (");
    push_str(&mut text, joined.as_str());
    push_str(
        &mut text,
        "). It is optional, but without it there are no auction prices, so nothing can say what is worth crafting or selling. Install it from CurseForge or https://github.com/Auctionator/Auctionator.",
    );
    Some(text)
}

} // verus!
