//! Deciding which character to play next, and saying why.
//!
//! The rule that matters: **rank by what is being lost, not by whose turn it
//! is.** Rested XP stops accruing at the cap, so a character sitting at the cap
//! is wasting every hour it stays parked, while one still filling is doing
//! exactly its job by being left alone.
//!
//! Every suggestion carries its arithmetic. A recommendation that cannot say
//! which numbers produced it is indistinguishable from a guess, and the reader
//! has no way to tell when it is wrong.
//!
//! Where the rested model is not established — Forever, where the Legacy
//! "Well Rested" perk changes both the cap and the fill rate and neither is
//! readable — this says so rather than ranking on a number it invented.
//!
//! The thresholds are fractions of the cap, compared in exact integer
//! arithmetic: at the cap from 99% on, near it from 85% on.

use vstd::prelude::*;

use crate::collector::{display_name_of, is_forever, rested_cap_of, CharacterRecord, Quest, QuestState, Skill};
use crate::order::{sort_stable, stable_sorted, total_preorder};
use crate::roster::{Role, RosterEntry};
use crate::text::{
    decimal, has_key, key_lt, key_order, lemma_key_lt_transitive, lemma_key_order, opt_str_is,
    push_decimal, push_str, to_owned_string, KeyOrder,
};

verus! {

/// What the rested bar is doing, and whether we can say.
#[derive(Debug, Clone, PartialEq)]
pub enum Rested {
    /// Rest has stopped accruing. Every parked hour from here is wasted.
    AtCap { rested: u64, cap: u64 },
    /// Will cap soon.
    NearCap { rested: u64, cap: u64 },
    /// Still filling, and therefore doing its job while parked.
    Filling { rested: u64, cap: u64 },
    /// Not in an inn or city, so it is not accruing at all.
    NotResting { rested: u64 },
    /// The model is not established for this client, or nothing was captured.
    Unknown { why: String },
}

/// Why a Forever character cannot be ranked on rest.
pub open spec fn model_unknown_reason() -> Seq<char> {
    "the rested cap and fill rate are not established on this client — the Legacy \"Well Rested\" perk changes both and neither is readable"@
}

/// Why a character with nothing captured cannot be ranked on rest.
pub open spec fn nothing_captured_reason() -> Seq<char> {
    "no rested XP was captured"@
}

/// Rest has effectively stopped: 99% of the cap or more. The last fraction of
/// a percent is rounding in the client's whole-XP figures, not headroom.
pub open spec fn at_cap(rested: u64, cap: u64) -> bool {
    cap > 0 && 100 * rested >= 99 * cap
}

/// Close enough to cap shortly: 85% of the cap or more.
pub open spec fn near_cap(rested: u64, cap: u64) -> bool {
    cap > 0 && 100 * rested >= 85 * cap
}

/// Reading the rested state needs the cap, 1.5 levels of XP, to fit a `u64`.
pub open spec fn rested_readable(record: CharacterRecord) -> bool {
    !is_forever(record) ==> (record.max_xp matches Some(max) ==> max * 3 <= u64::MAX)
}

/// The rested state of a record.
pub open spec fn rested_state_is(state: Rested, record: CharacterRecord) -> bool {
    if is_forever(record) {
        state matches Rested::Unknown { why } && why@ == model_unknown_reason()
    } else {
        match (record.rested_xp, record.max_xp) {
            (Some(rested), Some(max)) => {
                let cap = rested_cap_of(max) as u64;
                if record.is_resting == Some(false) {
                    state matches Rested::NotResting { rested: r } && r == rested
                } else if at_cap(rested, cap) {
                    state matches Rested::AtCap { rested: r, cap: c } && r == rested && c == cap
                } else if near_cap(rested, cap) {
                    state matches Rested::NearCap { rested: r, cap: c } && r == rested && c == cap
                } else {
                    state matches Rested::Filling { rested: r, cap: c } && r == rested && c == cap
                }
            },
            _ => state matches Rested::Unknown { why } && why@ == nothing_captured_reason(),
        }
    }
}

/// How urgent a rested state is. Higher ranks first.
pub open spec fn weight_of(state: Rested) -> int {
    match state {
        Rested::AtCap { .. } => 3,
        Rested::NearCap { .. } => 2,
        Rested::Filling { .. } => 1,
        _ => 0,
    }
}

impl Rested {
    /// Order for ranking. Higher sorts first.
    fn weight(&self) -> (w: u8)
        ensures
            w == weight_of(*self),
    {
        match self {
            Rested::AtCap { .. } => 3,
            Rested::NearCap { .. } => 2,
            Rested::Filling { .. } => 1,
            Rested::NotResting { .. } => 0,
            Rested::Unknown { .. } => 0,
        }
    }
}

/// Whether a record's rested state can be read: where its rested cap is
/// known, that cap fits a `u64`.
pub fn readable(record: &CharacterRecord) -> (ok: bool)
    ensures
        ok == rested_readable(*record),
{
    if !record.rested_cap_is_known() {
        return true;
    }
    match record.max_xp {
        Some(max) => max <= u64::MAX / 3,
        None => true,
    }
}

/// Whether every record of a roster can be read.
pub fn roster_is_readable(entries: &[RosterEntry<'_>]) -> (ok: bool)
    ensures
        ok == roster_readable(entries@),
{
    let mut i: usize = 0;
    while i < entries.len()
        invariant
            0 <= i <= entries@.len(),
            forall|k: int| 0 <= k < i ==> rested_readable(*(#[trigger] entries@[k]).record),
        decreases entries@.len() - i,
    {
        if !readable(entries[i].record) {
            return false;
        }
        i += 1;
    }
    true
}

/// Read the rested state of one character.
pub fn rested_state(record: &CharacterRecord) -> (state: Rested)
    requires
        rested_readable(*record),
    ensures
        rested_state_is(state, *record),
{
    if !record.rested_cap_is_known() {
        return Rested::Unknown {
            why: to_owned_string(
                "the rested cap and fill rate are not established on this client — the Legacy \"Well Rested\" perk changes both and neither is readable",
            ),
        };
    }
    let (rested, cap) = match (record.rested_xp, record.rested_cap()) {
        (Some(rested), Some(cap)) => (rested, cap),
        _ => {
            return Rested::Unknown { why: to_owned_string("no rested XP was captured") };
        },
    };
    if record.is_resting == Some(false) {
        return Rested::NotResting { rested };
    }
    let scaled: u128 = rested as u128 * 100;
    if cap > 0 && scaled >= cap as u128 * 99 {
        Rested::AtCap { rested, cap }
    } else if cap > 0 && scaled >= cap as u128 * 85 {
        Rested::NearCap { rested, cap }
    } else {
        Rested::Filling { rested, cap }
    }
}

/// How full a quest log has to be before it blocks picking anything up.
/// Forever raised the cap well above the Classic and TBC 25.
pub open spec fn quest_log_capacity_of(record: CharacterRecord) -> nat {
    if is_forever(record) {
        40
    } else {
        25
    }
}

fn quest_log_capacity(record: &CharacterRecord) -> (capacity: usize)
    ensures
        capacity == quest_log_capacity_of(*record),
{
    if opt_str_is(&record.game_flavor, "forever") {
        40
    } else {
        25
    }
}

/// Something a single session could clear. These break ties: given two equally
/// rested characters, play the one where an hour fixes more.
#[derive(Debug, Clone, PartialEq)]
pub struct Friction {
    pub summary: String,
}

/// How many quests are complete and waiting to be turned in.
pub open spec fn complete_count(quests: Seq<Quest>) -> nat
    decreases quests.len(),
{
    if quests.len() == 0 {
        0
    } else {
        complete_count(quests.drop_last()) + if quests.last().state == Some(QuestState::Complete) {
            1nat
        } else {
            0nat
        }
    }
}

/// A single-element list when `keep` holds, else an empty one.
pub open spec fn only_if(keep: bool, text: Seq<char>) -> Seq<Seq<char>> {
    if keep {
        seq![text]
    } else {
        Seq::empty()
    }
}

pub open spec fn quest_log_text(held: nat, capacity: nat) -> Seq<char> {
    "quest log is "@ + decimal(held) + "/"@ + decimal(capacity)
        + ", so it can take almost nothing new"@
}

pub open spec fn turn_in_text(complete: nat) -> Seq<char> {
    decimal(complete) + " quest(s) ready to turn in"@
}

pub open spec fn talent_text(unspent: nat) -> Seq<char> {
    decimal(unspent) + " unspent talent point(s)"@
}

pub open spec fn training_text(name: Seq<char>, rank: nat, max: nat) -> Seq<char> {
    name + " is at its cap ("@ + decimal(rank) + "/"@ + decimal(max)
        + ") and needs training to go further"@
}

pub open spec fn bag_text(free: nat) -> Seq<char> {
    "only "@ + decimal(free) + " free bag slot(s)"@
}

/// Quest-log pressure: within two of the cap it starts refusing quests, a
/// blocker rather than a tidiness issue. Then quests ready to turn in.
pub open spec fn quest_frictions(record: CharacterRecord) -> Seq<Seq<char>> {
    match record.quests {
        Some(quests) => {
            let capacity = quest_log_capacity_of(record);
            let complete = complete_count(quests@);
            only_if(quests@.len() + 2 >= capacity, quest_log_text(quests@.len(), capacity))
                + only_if(complete > 0, turn_in_text(complete))
        },
        None => Seq::empty(),
    }
}

pub open spec fn talent_frictions(record: CharacterRecord) -> Seq<Seq<char>> {
    match record.talents {
        Some(talents) => match talents.unspent_points {
            Some(unspent) => only_if(unspent > 0, talent_text(unspent as nat)),
            None => Seq::empty(),
        },
        None => Seq::empty(),
    }
}

/// A skill the recipe cache proves is a trade skill: it was read out of a
/// trade skill window.
pub open spec fn is_trade_skill(record: CharacterRecord, name: Seq<char>) -> bool {
    record.recipes matches Some(recipes) && has_key(recipes@, name)
}

/// Professions at their cap, which only a trainer can raise. The client's
/// skill list also holds talent tabs, weapon skills and languages that sit
/// permanently at cap; only a skill the recipe cache knows is a profession.
pub open spec fn training_frictions(record: CharacterRecord, skills: Seq<Skill>) -> Seq<Seq<char>>
    decreases skills.len(),
{
    if skills.len() == 0 {
        Seq::empty()
    } else {
        let rest = training_frictions(record, skills.drop_last());
        let skill = skills.last();
        match (skill.name, skill.rank, skill.max_rank) {
            (Some(name), Some(rank), Some(max)) => rest + only_if(
                is_trade_skill(record, name@) && max > 0 && rank >= max,
                training_text(name@, rank as nat, max as nat),
            ),
            _ => rest,
        }
    }
}

pub open spec fn bag_frictions(record: CharacterRecord) -> Seq<Seq<char>> {
    match record.inventory {
        Some(inventory) => match inventory.free_slots {
            Some(free) => only_if(free <= 4, bag_text(free as nat)),
            None => Seq::empty(),
        },
        None => Seq::empty(),
    }
}

/// Everything a session on this character could clear, in the order it is
/// reported: quest log, talents, trainers, bags.
pub open spec fn friction_texts(record: CharacterRecord) -> Seq<Seq<char>> {
    quest_frictions(record) + talent_frictions(record) + training_frictions(
        record,
        match record.skills {
            Some(skills) => skills@,
            None => Seq::empty(),
        },
    ) + bag_frictions(record)
}

/// The summaries of a list of frictions.
pub open spec fn summaries(found: Seq<Friction>) -> Seq<Seq<char>> {
    found.map_values(|f: Friction| f.summary@)
}

fn add_friction(found: &mut Vec<Friction>, summary: String)
    ensures
        summaries(final(found)@) == summaries(old(found)@).push(summary@),
{
    found.push(Friction { summary });
    proof {
        assert(summaries(final(found)@) =~= summaries(old(found)@).push(summary@));
    }
}

fn frictions(record: &CharacterRecord) -> (found: Vec<Friction>)
    ensures
        summaries(found@) == friction_texts(*record),
{
    let mut found: Vec<Friction> = Vec::new();
    let ghost expected = Seq::<Seq<char>>::empty();
    proof {
        assert(summaries(found@) =~= expected);
    }
    if let Some(quests) = &record.quests {
        let capacity = quest_log_capacity(record);
        if quests.len() >= capacity - 2 {
            let mut text = to_owned_string("quest log is ");
            push_decimal(&mut text, quests.len() as u64);
            push_str(&mut text, "/");
            push_decimal(&mut text, capacity as u64);
            push_str(&mut text, ", so it can take almost nothing new");
            proof {
                assert(text@ =~= quest_log_text(quests@.len(), capacity as nat));
            }
            add_friction(&mut found, text);
        }
        let mut complete: usize = 0;
        let mut i: usize = 0;
        while i < quests.len()
            invariant
                0 <= i <= quests@.len(),
                complete == complete_count(quests@.take(i as int)),
                complete <= i,
            decreases quests@.len() - i,
        {
            proof {
                assert(quests@.take(i + 1).drop_last() =~= quests@.take(i as int));
            }
            if matches!(quests[i].state, Some(QuestState::Complete)) {
                complete = complete + 1;
            }
            i = i + 1;
        }
        proof {
            assert(quests@.take(quests@.len() as int) =~= quests@);
        }
        if complete > 0 {
            let mut text = String::new();
            push_decimal(&mut text, complete as u64);
            push_str(&mut text, " quest(s) ready to turn in");
            proof {
                assert(text@ =~= turn_in_text(complete as nat));
            }
            add_friction(&mut found, text);
        }
    }
    proof {
        assert(summaries(found@) =~= quest_frictions(*record));
    }
    let ghost after_quests = summaries(found@);
    if let Some(talents) = &record.talents {
        if let Some(unspent) = talents.unspent_points {
            if unspent > 0 {
                let mut text = String::new();
                push_decimal(&mut text, unspent as u64);
                push_str(&mut text, " unspent talent point(s)");
                proof {
                    assert(text@ =~= talent_text(unspent as nat));
                }
                add_friction(&mut found, text);
            }
        }
    }
    proof {
        assert(summaries(found@) =~= after_quests + talent_frictions(*record));
    }
    let ghost before_skills = summaries(found@);
    if let Some(skills) = &record.skills {
        let mut i: usize = 0;
        while i < skills.len()
            invariant
                0 <= i <= skills@.len(),
                record.skills == Some(*skills),
                summaries(found@) == before_skills + training_frictions(
                    *record,
                    skills@.take(i as int),
                ),
            decreases skills@.len() - i,
        {
            let skill = &skills[i];
            proof {
                assert(skills@.take(i + 1).drop_last() =~= skills@.take(i as int));
            }
            match (&skill.name, skill.rank, skill.max_rank) {
                (Some(name), Some(rank), Some(max)) => {
                    let trade = match &record.recipes {
                        Some(recipes) => recipes.contains_key(name.as_str()),
                        None => false,
                    };
                    if trade && max > 0 && rank >= max {
                        let mut text = to_owned_string(name.as_str());
                        push_str(&mut text, " is at its cap (");
                        push_decimal(&mut text, rank as u64);
                        push_str(&mut text, "/");
                        push_decimal(&mut text, max as u64);
                        push_str(&mut text, ") and needs training to go further");
                        proof {
                            assert(text@ =~= training_text(name@, rank as nat, max as nat));
                        }
                        add_friction(&mut found, text);
                    }
                    proof {
                        assert(summaries(found@) =~= before_skills + training_frictions(
                            *record,
                            skills@.take(i + 1),
                        ));
                    }
                },
                _ => {
                    proof {
                        assert(summaries(found@) =~= before_skills + training_frictions(
                            *record,
                            skills@.take(i + 1),
                        ));
                    }
                },
            }
            i = i + 1;
        }
        proof {
            assert(skills@.take(skills@.len() as int) =~= skills@);
        }
    } else {
        proof {
            assert(summaries(found@) =~= before_skills + training_frictions(
                *record,
                Seq::empty(),
            ));
        }
    }
    let ghost before_bags = summaries(found@);
    if let Some(free) = record.free_bag_slots() {
        if free <= 4 {
            let mut text = to_owned_string("only ");
            push_decimal(&mut text, free as u64);
            push_str(&mut text, " free bag slot(s)");
            proof {
                assert(text@ =~= bag_text(free as nat));
            }
            add_friction(&mut found, text);
        }
    }
    proof {
        assert(summaries(found@) =~= before_bags + bag_frictions(*record));
        assert(summaries(found@) =~= friction_texts(*record));
    }
    found
}

/// A fraction of the cap as a whole percentage, rounded to the nearest and
/// ties to even; zero against a zero cap.
pub open spec fn percent_of(rested: u64, cap: u64) -> nat {
    if cap == 0 {
        0
    } else {
        let scaled = 100 * rested as nat;
        let q = scaled / cap as nat;
        let r = scaled % cap as nat;
        if 2 * r > cap {
            q + 1
        } else if 2 * r < cap {
            q
        } else if q % 2 == 0 {
            q
        } else {
            q + 1
        }
    }
}

fn percent(rested: u64, cap: u64) -> (pct: u64)
    requires
        cap == 0 || rested <= cap,
    ensures
        pct == percent_of(rested, cap),
{
    if cap == 0 {
        return 0;
    }
    let scaled: u128 = rested as u128 * 100;
    let c: u128 = cap as u128;
    let q: u128 = scaled / c;
    let r: u128 = scaled % c;
    assert(q <= 100) by (nonlinear_arith)
        requires
            q == scaled / c,
            c >= 1,
            scaled == 100 * rested,
            rested <= c,
    ;
    let rounded: u128 = if 2 * r > c {
        q + 1
    } else if 2 * r < c {
        q
    } else if q % 2 == 0 {
        q
    } else {
        q + 1
    };
    assert(rounded <= u64::MAX);
    rounded as u64
}

/// How a level is named in a reason.
pub open spec fn level_text(level: Option<u16>) -> Seq<char> {
    match level {
        Some(level) => "Level "@ + decimal(level as nat),
        None => "This character"@,
    }
}

/// The one-line reason a rested state gives, in terms of its own numbers.
pub open spec fn describe_text(state: Rested, level: Option<u16>) -> Seq<char> {
    let lead = level_text(level);
    match state {
        Rested::AtCap { rested, cap } => lead + ", rested XP is at the cap ("@ + decimal(
            rested as nat,
        ) + " of "@ + decimal(cap as nat)
            + "), so it has stopped accruing and every hour parked is wasted."@,
        Rested::NearCap { rested, cap } => lead + ", rested XP is "@ + decimal(rested as nat)
            + " of "@ + decimal(cap as nat) + " ("@ + decimal(percent_of(rested, cap))
            + "%) and will cap soon."@,
        Rested::Filling { rested, cap } => lead + ", rested XP is "@ + decimal(rested as nat)
            + " of "@ + decimal(cap as nat) + " ("@ + decimal(percent_of(rested, cap))
            + "%) and still filling, so leaving it parked is working."@,
        Rested::NotResting { rested } => lead
            + ", not in an inn or city, so it is accruing no rest at all (currently "@ + decimal(
            rested as nat,
        ) + "). Park it rather than play it."@,
        Rested::Unknown { why } => lead + ": "@ + why@ + "."@,
    }
}

fn push_level(text: &mut String, level: Option<u16>)
    ensures
        final(text)@ == old(text)@ + level_text(level),
{
    match level {
        Some(level) => {
            push_str(text, "Level ");
            push_decimal(text, level as u64);
            proof {
                assert(final(text)@ =~= old(text)@ + level_text(Some(level)));
            }
        },
        None => {
            push_str(text, "This character");
        },
    }
}

/// A partly filled bar is below its cap.
pub open spec fn below_cap(state: Rested) -> bool {
    match state {
        Rested::NearCap { rested, cap } => cap == 0 || rested <= cap,
        Rested::Filling { rested, cap } => cap == 0 || rested <= cap,
        _ => true,
    }
}

fn describe(state: &Rested, level: Option<u16>) -> (reasons: Vec<String>)
    requires
        below_cap(*state),
    ensures
        reasons@.len() == 1,
        reasons@[0]@ == describe_text(*state, level),
{
    let mut text = String::new();
    push_level(&mut text, level);
    let ghost lead = text@;
    match state {
        Rested::AtCap { rested, cap } => {
            push_str(&mut text, ", rested XP is at the cap (");
            push_decimal(&mut text, *rested);
            push_str(&mut text, " of ");
            push_decimal(&mut text, *cap);
            push_str(&mut text, "), so it has stopped accruing and every hour parked is wasted.");
        },
        Rested::NearCap { rested, cap } => {
            push_str(&mut text, ", rested XP is ");
            push_decimal(&mut text, *rested);
            push_str(&mut text, " of ");
            push_decimal(&mut text, *cap);
            push_str(&mut text, " (");
            push_decimal(&mut text, percent(*rested, *cap));
            push_str(&mut text, "%) and will cap soon.");
        },
        Rested::Filling { rested, cap } => {
            push_str(&mut text, ", rested XP is ");
            push_decimal(&mut text, *rested);
            push_str(&mut text, " of ");
            push_decimal(&mut text, *cap);
            push_str(&mut text, " (");
            push_decimal(&mut text, percent(*rested, *cap));
            push_str(&mut text, "%) and still filling, so leaving it parked is working.");
        },
        Rested::NotResting { rested } => {
            push_str(&mut text, ", not in an inn or city, so it is accruing no rest at all (currently ");
            push_decimal(&mut text, *rested);
            push_str(&mut text, "). Park it rather than play it.");
        },
        Rested::Unknown { why } => {
            push_str(&mut text, ": ");
            push_str(&mut text, why.as_str());
            push_str(&mut text, ".");
        },
    }
    proof {
        assert(text@ =~= describe_text(*state, level));
    }
    let mut reasons: Vec<String> = Vec::new();
    reasons.push(text);
    reasons
}

#[derive(Debug, Clone, PartialEq)]
pub struct Suggestion {
    pub key: String,
    pub name: String,
    pub level: Option<u16>,
    pub rested: Rested,
    /// Why this character sits where it does, in terms of its own numbers.
    pub reasons: Vec<String>,
    pub frictions: Vec<Friction>,
}

/// Texts joined with single spaces.
pub open spec fn joined(texts: Seq<Seq<char>>) -> Seq<char>
    decreases texts.len(),
{
    if texts.len() == 0 {
        Seq::empty()
    } else if texts.len() == 1 {
        texts[0]
    } else {
        joined(texts.drop_last()) + " "@ + texts.last()
    }
}

/// The views of a list of strings.
pub open spec fn texts_of(strings: Seq<String>) -> Seq<Seq<char>> {
    strings.map_values(|s: String| s@)
}

/// The line a suggestion is acted on by: its reasons, then its first
/// friction, if any.
pub open spec fn headline_text(s: Suggestion) -> Seq<char> {
    joined(texts_of(s.reasons@)) + if s.frictions@.len() > 0 {
        " Also: "@ + s.frictions@[0].summary@ + "."@
    } else {
        Seq::empty()
    }
}

impl Suggestion {
    /// One line a person can act on.
    pub fn headline(&self) -> (line: String)
        ensures
            line@ == headline_text(*self),
    {
        let mut text = String::new();
        let mut i: usize = 0;
        while i < self.reasons.len()
            invariant
                0 <= i <= self.reasons@.len(),
                text@ == joined(texts_of(self.reasons@.take(i as int))),
            decreases self.reasons@.len() - i,
        {
            proof {
                assert(texts_of(self.reasons@.take(i + 1)).drop_last() =~= texts_of(
                    self.reasons@.take(i as int),
                ));
            }
            if i > 0 {
                push_str(&mut text, " ");
            }
            push_str(&mut text, self.reasons[i].as_str());
            proof {
                let t = texts_of(self.reasons@.take(i + 1));
                assert(t.last() == self.reasons@[i as int]@);
                if i == 0 {
                    assert(t =~= seq![self.reasons@[0]@]);
                }
            }
            i = i + 1;
        }
        proof {
            assert(self.reasons@.take(self.reasons@.len() as int) =~= self.reasons@);
        }
        let ghost reasons = text@;
        assert(reasons == joined(texts_of(self.reasons@)));
        if self.frictions.len() > 0 {
            push_str(&mut text, " Also: ");
            push_str(&mut text, self.frictions[0].summary.as_str());
            push_str(&mut text, ".");
            proof {
                assert(text@ =~= reasons + (" Also: "@ + self.frictions@[0].summary@ + "."@));
            }
        } else {
            proof {
                assert(text@ =~= reasons + Seq::<char>::empty());
            }
        }
        text
    }
}

#[derive(Debug, Clone, Default, PartialEq)]
pub struct Advice {
    /// Ranked, most worth playing first. Only characters in the rotation.
    pub play: Vec<Suggestion>,
    /// Not resting, so accruing nothing. The fix is to park them, not play them.
    pub park: Vec<Suggestion>,
    /// Anything that qualifies the advice — an incomplete roster, a client
    /// whose rested model is unknown.
    pub caveats: Vec<String>,
}

impl Advice {
    pub fn play_next(&self) -> (next: Option<&Suggestion>)
        ensures
            next == (if self.play@.len() > 0 {
                Some(&self.play@[0])
            } else {
                None
            }),
    {
        if self.play.len() > 0 {
            Some(&self.play[0])
        } else {
            None
        }
    }
}

/// `s` is the suggestion the engine makes for `entry`: its own numbers, its
/// reason, and — unless it was deliberately set down — what a session on it
/// would clear.
pub open spec fn suggests(s: Suggestion, entry: RosterEntry) -> bool {
    &&& s.key@ == entry.key@
    &&& s.name@ == display_name_of(*entry.record, entry.key@)
    &&& s.level == entry.record.level
    &&& rested_state_is(s.rested, *entry.record)
    &&& texts_of(s.reasons@) == seq![describe_text(s.rested, s.level)]
    &&& summaries(s.frictions@) == if entry.role == Role::Active {
        friction_texts(*entry.record)
    } else {
        Seq::empty()
    }
}

/// Not in an inn or city, so accruing nothing.
pub open spec fn standing(record: CharacterRecord) -> bool {
    &&& !is_forever(record)
    &&& record.rested_xp is Some
    &&& record.max_xp is Some
    &&& record.is_resting == Some(false)
}

/// The rested state cannot be read.
pub open spec fn rest_unreadable(record: CharacterRecord) -> bool {
    is_forever(record) || record.rested_xp is None || record.max_xp is None
}

/// The entries the engine ranks for play: in the rotation and resting.
pub open spec fn play_entries<'a>(entries: Seq<RosterEntry<'a>>) -> Seq<RosterEntry<'a>>
    decreases entries.len(),
{
    if entries.len() == 0 {
        Seq::empty()
    } else {
        let rest = play_entries(entries.drop_last());
        let e = entries.last();
        if e.role == Role::Active && !standing(*e.record) {
            rest.push(e)
        } else {
            rest
        }
    }
}

/// The entries the engine tells to park: in the rotation and not resting.
pub open spec fn park_entries<'a>(entries: Seq<RosterEntry<'a>>) -> Seq<RosterEntry<'a>>
    decreases entries.len(),
{
    if entries.len() == 0 {
        Seq::empty()
    } else {
        let rest = park_entries(entries.drop_last());
        let e = entries.last();
        if e.role == Role::Active && standing(*e.record) {
            rest.push(e)
        } else {
            rest
        }
    }
}

/// `a` outranks `b`: rest being lost first, then the higher level (rested XP
/// is worth more per point there), then more that a session would fix, then
/// name.
pub open spec fn outranks(a: Suggestion, b: Suggestion) -> bool {
    let (wa, wb) = (weight_of(a.rested), weight_of(b.rested));
    let (la, lb) = (a.level.unwrap_or(0) as int, b.level.unwrap_or(0) as int);
    let (fa, fb) = (a.frictions@.len(), b.frictions@.len());
    ||| wa > wb
    ||| wa == wb && la > lb
    ||| wa == wb && la == lb && fa > fb
    ||| wa == wb && la == lb && fa == fb && key_lt(a.name@, b.name@)
}

/// Play order: `a` may come before `b`.
pub open spec fn play_order(a: Suggestion, b: Suggestion) -> bool {
    !outranks(b, a)
}

/// Name order: `a` may come before `b`.
pub open spec fn name_order(a: Suggestion, b: Suggestion) -> bool {
    !key_lt(b.name@, a.name@)
}

pub open spec fn incomplete_caveat() -> Seq<char> {
    "Part of the roster has never been captured, so this ranks only what it can see."@
}

pub open spec fn unranked_caveat() -> Seq<char> {
    "Some characters could not be ranked on rest, so they are listed without a position."@
}

pub open spec fn no_rotation_caveat() -> Seq<char> {
    "No character is in the play rotation."@
}

/// What qualifies the advice: an incomplete roster, characters whose rest
/// cannot be read, a roster with nobody in the rotation.
pub open spec fn caveat_texts(entries: Seq<RosterEntry>, roster_is_complete: bool) -> Seq<
    Seq<char>,
> {
    only_if(!roster_is_complete, incomplete_caveat()) + only_if(
        exists|i: int| 0 <= i < entries.len() && rest_unreadable(*(#[trigger] entries[i]).record),
        unranked_caveat(),
    ) + only_if(
        entries.len() > 0 && forall|i: int|
            0 <= i < entries.len() ==> (#[trigger] entries[i]).role != Role::Active,
        no_rotation_caveat(),
    )
}

/// `out` ranks the suggestions for `entries` under `order`, stably.
pub open spec fn ranks<'a>(
    out: Seq<Suggestion>,
    entries: Seq<RosterEntry<'a>>,
    order: spec_fn(Suggestion, Suggestion) -> bool,
) -> bool {
    exists|d: Seq<Suggestion>|
        #[trigger] stable_sorted(out, d, order) && d.len() == entries.len() && forall|k: int|
            0 <= k < d.len() ==> suggests(#[trigger] d[k], entries[k])
}

/// Every entry's rested state can be read.
pub open spec fn roster_readable(entries: Seq<RosterEntry>) -> bool {
    forall|i: int| 0 <= i < entries.len() ==> rested_readable(*(#[trigger] entries[i]).record)
}

proof fn lemma_play_order()
    ensures
        total_preorder(|a: Suggestion, b: Suggestion| play_order(a, b)),
{
    assert forall|a: Suggestion| #[trigger] play_order(a, a) by {
        lemma_key_order(a.name@, a.name@);
    }
    assert forall|a: Suggestion, b: Suggestion| #[trigger]
        play_order(a, b) || play_order(b, a) by {
        lemma_key_order(a.name@, b.name@);
    }
    assert forall|a: Suggestion, b: Suggestion, c: Suggestion|
        #[trigger] play_order(a, b) && #[trigger] play_order(b, c) implies play_order(a, c) by {
        lemma_key_order(a.name@, b.name@);
        lemma_key_order(b.name@, c.name@);
        lemma_key_order(a.name@, c.name@);
        if key_lt(a.name@, b.name@) && key_lt(b.name@, c.name@) {
            lemma_key_lt_transitive(a.name@, b.name@, c.name@);
        }
        if key_lt(c.name@, a.name@) && key_lt(a.name@, b.name@) {
            lemma_key_lt_transitive(c.name@, a.name@, b.name@);
        }
        if key_lt(b.name@, c.name@) && key_lt(c.name@, a.name@) {
            lemma_key_lt_transitive(b.name@, c.name@, a.name@);
        }
    }
}

proof fn lemma_name_order()
    ensures
        total_preorder(|a: Suggestion, b: Suggestion| name_order(a, b)),
{
    assert forall|a: Suggestion| #[trigger] name_order(a, a) by {
        lemma_key_order(a.name@, a.name@);
    }
    assert forall|a: Suggestion, b: Suggestion| #[trigger]
        name_order(a, b) || name_order(b, a) by {
        lemma_key_order(a.name@, b.name@);
    }
    assert forall|a: Suggestion, b: Suggestion, c: Suggestion|
        #[trigger] name_order(a, b) && #[trigger] name_order(b, c) implies name_order(a, c) by {
        lemma_key_order(a.name@, b.name@);
        lemma_key_order(b.name@, c.name@);
        lemma_key_order(a.name@, c.name@);
        if key_lt(c.name@, a.name@) && key_lt(a.name@, b.name@) {
            lemma_key_lt_transitive(c.name@, a.name@, b.name@);
        }
        if key_lt(b.name@, c.name@) && key_lt(c.name@, a.name@) {
            lemma_key_lt_transitive(b.name@, c.name@, a.name@);
        }
    }
}

fn outranks_exec(a: &Suggestion, b: &Suggestion) -> (first: bool)
    ensures
        first == outranks(*a, *b),
{
    let (wa, wb) = (a.rested.weight(), b.rested.weight());
    if wa != wb {
        return wa > wb;
    }
    let la: u16 = match a.level {
        Some(level) => level,
        None => 0,
    };
    let lb: u16 = match b.level {
        Some(level) => level,
        None => 0,
    };
    if la != lb {
        return la > lb;
    }
    let (fa, fb) = (a.frictions.len(), b.frictions.len());
    if fa != fb {
        return fa > fb;
    }
    key_order(a.name.as_str(), b.name.as_str()) == KeyOrder::Less
}

fn name_before(a: &Suggestion, b: &Suggestion) -> (first: bool)
    ensures
        first == key_lt(a.name@, b.name@),
{
    key_order(a.name.as_str(), b.name.as_str()) == KeyOrder::Less
}

fn suggestion_for(entry: &RosterEntry) -> (s: Suggestion)
    requires
        rested_readable(*entry.record),
    ensures
        suggests(s, *entry),
{
    let rested = rested_state(entry.record);
    let reasons = describe(&rested, entry.record.level);
    proof {
        assert(texts_of(reasons@) =~= seq![describe_text(rested, entry.record.level)]);
    }
    let frictions = if entry.role.wants_reminders() {
        frictions(entry.record)
    } else {
        // A character deliberately set down should not be nagged about
        // talent points it is never going to spend.
        let none: Vec<Friction> = Vec::new();
        proof {
            assert(summaries(none@) =~= Seq::<Seq<char>>::empty());
        }
        none
    };
    Suggestion {
        key: to_owned_string(entry.key),
        name: to_owned_string(entry.name()),
        level: entry.record.level,
        rested,
        reasons,
        frictions,
    }
}

/// Rank the roster.
///
/// `roster_is_complete` says whether every character is accounted for. When it
/// is not, the advice says so — ranking three of eighteen characters and
/// presenting the winner without qualification is how a ranking manages to be
/// confidently wrong.
pub fn advise(entries: &[RosterEntry<'_>], roster_is_complete: bool) -> (advice: Advice)
    requires
        roster_readable(entries@),
    ensures
        ranks(advice.play@, play_entries(entries@), |a: Suggestion, b: Suggestion| play_order(a, b)),
        forall|i: int, j: int|
            0 <= i < j < advice.play@.len() ==> {
                &&& advice.play@[j].rested is AtCap ==> advice.play@[i].rested is AtCap
                &&& advice.play@[j].rested is NearCap ==> advice.play@[i].rested is AtCap
                    || advice.play@[i].rested is NearCap
                &&& advice.play@[j].rested is Filling ==> !(advice.play@[i].rested is NotResting
                    || advice.play@[i].rested is Unknown)
            },
        ranks(advice.park@, park_entries(entries@), |a: Suggestion, b: Suggestion| name_order(a, b)),
        texts_of(advice.caveats@) == caveat_texts(entries@, roster_is_complete),
{
    let mut play: Vec<Suggestion> = Vec::new();
    let mut park: Vec<Suggestion> = Vec::new();
    let mut any_unreadable = false;
    let mut any_active = false;
    let mut i: usize = 0;
    while i < entries.len()
        invariant
            0 <= i <= entries@.len(),
            roster_readable(entries@),
            play@.len() == play_entries(entries@.take(i as int)).len(),
            forall|k: int|
                0 <= k < play@.len() ==> suggests(
                    #[trigger] play@[k],
                    play_entries(entries@.take(i as int))[k],
                ),
            park@.len() == park_entries(entries@.take(i as int)).len(),
            forall|k: int|
                0 <= k < park@.len() ==> suggests(
                    #[trigger] park@[k],
                    park_entries(entries@.take(i as int))[k],
                ),
            any_unreadable == exists|j: int|
                0 <= j < i && rest_unreadable(*(#[trigger] entries@[j]).record),
            any_active == exists|j: int| 0 <= j < i && (#[trigger] entries@[j]).role == Role::Active,
        decreases entries@.len() - i,
    {
        let entry = &entries[i];
        let ghost before_play = play_entries(entries@.take(i as int));
        let ghost before_park = park_entries(entries@.take(i as int));
        proof {
            assert(entries@.take(i + 1).drop_last() =~= entries@.take(i as int));
            assert(entries@.take(i + 1).last() == entries@[i as int]);
        }
        let suggestion = suggestion_for(entry);
        let unreadable = match suggestion.rested {
            Rested::Unknown { .. } => true,
            _ => false,
        };
        let standing_now = match suggestion.rested {
            Rested::NotResting { .. } => true,
            _ => false,
        };
        any_unreadable = any_unreadable || unreadable;
        if entry.role.in_play_rotation() {
            any_active = true;
            if standing_now {
                park.push(suggestion);
                proof {
                    assert forall|k: int| 0 <= k < park@.len() implies suggests(
                        #[trigger] park@[k],
                        park_entries(entries@.take(i + 1))[k],
                    ) by {
                        if k < park@.len() - 1 {
                            assert(park_entries(entries@.take(i + 1))[k] == before_park[k]);
                        }
                    }
                }
            } else {
                play.push(suggestion);
                proof {
                    assert forall|k: int| 0 <= k < play@.len() implies suggests(
                        #[trigger] play@[k],
                        play_entries(entries@.take(i + 1))[k],
                    ) by {
                        if k < play@.len() - 1 {
                            assert(play_entries(entries@.take(i + 1))[k] == before_play[k]);
                        }
                    }
                }
            }
        }
        proof {
            assert(any_unreadable == exists|j: int|
                0 <= j < i + 1 && rest_unreadable(*(#[trigger] entries@[j]).record)) by {
                if rest_unreadable(*entries@[i as int].record) {
                    assert(unreadable);
                }
            }
        }
        i = i + 1;
    }
    proof {
        assert(entries@.take(entries@.len() as int) =~= entries@);
        lemma_play_order();
        lemma_name_order();
    }
    let ghost unsorted_play = play@;
    let ghost unsorted_park = park@;
    let play = sort_stable(play, Ghost(|a: Suggestion, b: Suggestion| play_order(a, b)), outranks_exec);
    let park = sort_stable(park, Ghost(|a: Suggestion, b: Suggestion| name_order(a, b)), name_before);
    let mut caveats: Vec<String> = Vec::new();
    if !roster_is_complete {
        caveats.push(
            to_owned_string(
                "Part of the roster has never been captured, so this ranks only what it can see.",
            ),
        );
    }
    if any_unreadable {
        caveats.push(
            to_owned_string(
                "Some characters could not be ranked on rest, so they are listed without a position.",
            ),
        );
    }
    if !any_active && entries.len() > 0 {
        caveats.push(to_owned_string("No character is in the play rotation."));
    }
    proof {
        assert(texts_of(caveats@) =~= caveat_texts(entries@, roster_is_complete));
        let order = |a: Suggestion, b: Suggestion| play_order(a, b);
        let d = choose|d: Seq<Suggestion>| #[trigger] stable_sorted(play@, d, order);
        assert forall|i: int, j: int| 0 <= i < j < play@.len() implies {
            &&& play@[j].rested is AtCap ==> play@[i].rested is AtCap
            &&& play@[j].rested is NearCap ==> play@[i].rested is AtCap || play@[i].rested is NearCap
            &&& play@[j].rested is Filling ==> !(play@[i].rested is NotResting
                || play@[i].rested is Unknown)
        } by {
            rest_being_lost_ranks_first(play@, d, i, j);
        }
    }
    Advice { play, park, caveats }
}

/// Ranking is by what is being lost first: in a ranked play list, a
/// character never sits below one whose rested state is less urgent.
pub proof fn rest_being_lost_ranks_first(out: Seq<Suggestion>, d: Seq<Suggestion>, i: int, j: int)
    requires
        stable_sorted(out, d, |a: Suggestion, b: Suggestion| play_order(a, b)),
        0 <= i < j < out.len(),
    ensures
        weight_of(out[i].rested) >= weight_of(out[j].rested),
        out[j].rested is AtCap ==> out[i].rested is AtCap,
        out[j].rested is NearCap ==> out[i].rested is AtCap || out[i].rested is NearCap,
        out[j].rested is Filling ==> !(out[i].rested is NotResting || out[i].rested is Unknown),
{
    assert(play_order(out[i], out[j]));
}

/// Only the play rotation is ranked or told to park: a bank alt or a parked
/// character is never a play suggestion, and a character standing outside an
/// inn is told to park rather than ranked for play.
pub proof fn only_the_rotation_is_advised<'a>(entries: Seq<RosterEntry<'a>>)
    ensures
        forall|k: int|
            0 <= k < play_entries(entries).len() ==> (#[trigger] play_entries(entries)[k]).role
                == Role::Active && !standing(*play_entries(entries)[k].record),
        forall|k: int|
            0 <= k < park_entries(entries).len() ==> (#[trigger] park_entries(entries)[k]).role
                == Role::Active && standing(*park_entries(entries)[k].record),
    decreases entries.len(),
{
    if entries.len() > 0 {
        only_the_rotation_is_advised(entries.drop_last());
        let rest_play = play_entries(entries.drop_last());
        let rest_park = park_entries(entries.drop_last());
        assert forall|k: int| 0 <= k < rest_play.len() implies play_entries(entries)[k]
            == rest_play[k] by {}
        assert forall|k: int| 0 <= k < rest_park.len() implies park_entries(entries)[k]
            == rest_park[k] by {}
    }
}

} // verus!
