//! Proposing roles, so nobody has to tag eighteen characters blind.
//!
//! Marking a roster by hand is a chore people do not do, and an untagged
//! roster makes every rotation suggestion worse — a bank alt sitting at the
//! rested cap will be recommended forever. The tool already holds the evidence
//! to guess: level, quest log, whether it is resting, and whether it has
//! actually gained anything over time.
//!
//! **Inference proposes, the player disposes.** Nothing here writes a role.
//! Every suggestion carries the evidence that produced it and a confidence,
//! because a guess presented as a fact is worse than no guess at all.

use vstd::prelude::*;

use crate::collector::{display_name_of, CharacterRecord};
use crate::coaching::texts_of;
use crate::history::{
    delta, delta_computable, delta_defined, is_newest, is_oldest, quiet_between, snapshots_of,
    History, Snapshot,
};
use crate::order::{sort_stable, stable_sorted, total_preorder};
use crate::roster::{Role, RosterConfig, RosterEntry};
use crate::text::{
    decimal, has_key, key_lt, key_order, lemma_key_lt_transitive, lemma_key_order, push_decimal,
    push_str, to_owned_string, KeyOrder,
};

verus! {

/// A character at or below this level with nothing in its quest log is far
/// more likely to be storage than a character somebody is levelling.
pub const STORAGE_LEVEL: u16 = 5;

/// How long a character has to be observably idle before silence means
/// anything. Shorter than this and it is a quiet week, not a decision.
pub const IDLE_SECONDS: i64 = 14 * 86_400;

#[derive(Debug, Clone, Copy, PartialEq, Eq, Structural)]
pub enum Confidence {
    /// Backed by observed history: captured across a period and gained nothing.
    Observed,
    /// Consistent with the current snapshot, but nothing confirms it.
    Possible,
}

#[derive(Debug, Clone, PartialEq)]
pub struct RoleSuggestion {
    pub key: String,
    pub name: String,
    pub current: Role,
    pub suggested: Role,
    pub confidence: Confidence,
    /// What led here, in the character's own numbers.
    pub evidence: Vec<String>,
}

/// How long a character has observably been idle: the span from its oldest
/// capture to its newest, when that span is at least [`IDLE_SECONDS`] and
/// nothing was gained across it.
pub open spec fn idle_span(s: Seq<Snapshot>, key: Seq<char>) -> Option<int> {
    let own = snapshots_of(s, key);
    if exists|i: int, j: int| is_oldest(own, i) && is_newest(own, j) {
        let (i, j) = choose|i: int, j: int| is_oldest(own, i) && is_newest(own, j);
        let span = own[j].captured_at - own[i].captured_at;
        if own[i].captured_at != own[j].captured_at && span >= IDLE_SECONDS && quiet_between(
            own[i],
            own[j],
        ) {
            Some(span)
        } else {
            None
        }
    } else {
        None
    }
}

/// A character's history can be judged: the span from its oldest capture to
/// its newest fits an `i64`, and where that span is long enough to be
/// evidence, the two captures can be compared.
pub open spec fn history_judgeable(s: Seq<Snapshot>, key: Seq<char>) -> bool {
    let own = snapshots_of(s, key);
    forall|i: int, j: int|
        #![trigger is_oldest(own, i), is_newest(own, j)]
        is_oldest(own, i) && is_newest(own, j) ==> own[j].captured_at - own[i].captured_at
            <= i64::MAX && (own[j].captured_at - own[i].captured_at >= IDLE_SECONDS
            ==> delta_defined(own[i], own[j]))
}

fn idle_for(history: &History, key: &str, now: i64) -> (idle: Option<i64>)
    requires
        history_judgeable(history@, key@),
    ensures
        match idle {
            Some(span) => idle_span(history@, key@) == Some(span as int),
            None => idle_span(history@, key@) is None,
        },
{
    let snapshots = history.for_character(key);
    let ghost own = snapshots_of(history@, key@);
    if snapshots.len() == 0 {
        proof {
            assert(snapshots@.map_values(|s: &Snapshot| *s).len() == 0);
            assert(own.len() == 0);
        }
        return None;
    }
    let first = snapshots[0];
    let last = snapshots[snapshots.len() - 1];
    proof {
        crate::history::lemma_run_ends(snapshots@, own);
    }
    let ghost i = choose|i: int| is_oldest(own, i) && own[i] == *first;
    let ghost j = choose|j: int| is_newest(own, j) && own[j] == *last;
    proof {
        let (a, b) = choose|a: int, b: int| is_oldest(own, a) && is_newest(own, b);
        crate::history::lemma_ends_unique(own, a, i);
        crate::history::lemma_ends_unique(own, b, j);
        assert(is_oldest(own, i) && is_newest(own, j));
    }
    if first.captured_at == last.captured_at {
        return None;
    }
    let span = last.captured_at - first.captured_at;
    if span < IDLE_SECONDS {
        return None;
    }
    // Only silence across a real span counts. A character captured twice in an
    // hour has not been abandoned, it is simply new.
    let _ = now;
    let change = delta(first, last);
    proof {
        crate::history::lemma_idle_iff_quiet(change, own[i], own[j]);
    }
    if change.is_idle() {
        Some(span)
    } else {
        None
    }
}

/// The character looks like storage: low level and an empty quest log.
pub open spec fn looks_like_storage_spec(record: CharacterRecord) -> bool {
    &&& record.level matches Some(level) && level <= STORAGE_LEVEL
    &&& match record.quests {
        Some(quests) => quests@.len() == 0,
        None => true,
    }
}

pub open spec fn storage_evidence(level: u16) -> Seq<char> {
    "level "@ + decimal(level as nat)
        + " with an empty quest log, which is what a storage character looks like"@
}

pub open spec fn idle_evidence(span: int) -> Seq<char> {
    "captured across "@ + decimal((span / 86_400) as nat)
        + " days and gained no XP, levels, gold or skill in that time"@
}

pub open spec fn standing_evidence() -> Seq<char> {
    "not parked in an inn or city, so it is banking no rest"@
}

fn looks_like_storage(record: &CharacterRecord) -> (reasons: Option<Vec<String>>)
    ensures
        match reasons {
            Some(r) => looks_like_storage_spec(*record) && texts_of(r@) == seq![
                storage_evidence(record.level->0),
            ],
            None => !looks_like_storage_spec(*record),
        },
{
    let level = match record.level {
        Some(level) => level,
        None => return None,
    };
    if level > STORAGE_LEVEL {
        return None;
    }
    let quests: usize = match &record.quests {
        Some(quests) => quests.len(),
        None => 0,
    };
    if quests > 0 {
        return None;
    }
    let mut text = to_owned_string("level ");
    push_decimal(&mut text, level as u64);
    push_str(&mut text, " with an empty quest log, which is what a storage character looks like");
    let mut reasons: Vec<String> = Vec::new();
    reasons.push(text);
    proof {
        assert(texts_of(reasons@) =~= seq![storage_evidence(level)]);
    }
    Some(reasons)
}

/// The role the evidence points at: storage is a bank alt whether or not it
/// has been observed idle; a real character observed idle has been set down.
pub open spec fn role_pointed_at(storage: bool) -> Role {
    if storage {
        Role::Bank
    } else {
        Role::Parked
    }
}

/// Observed over time, or only consistent with the current snapshot.
pub open spec fn confidence_of(observed: bool) -> Confidence {
    if observed {
        Confidence::Observed
    } else {
        Confidence::Possible
    }
}

/// The evidence a suggestion for `entry` quotes, in order.
pub open spec fn evidence_for(entry: RosterEntry, s: Seq<Snapshot>) -> Seq<Seq<char>> {
    let record = *entry.record;
    (match idle_span(s, entry.key@) {
        Some(span) => seq![idle_evidence(span)],
        None => Seq::empty(),
    }) + (if looks_like_storage_spec(record) {
        seq![storage_evidence(record.level->0)]
    } else {
        Seq::empty()
    }) + (if record.is_resting == Some(false) {
        seq![standing_evidence()]
    } else {
        Seq::empty()
    })
}

/// Whether the evidence points anywhere other than where the character
/// already is.
pub open spec fn has_suggestion(entry: RosterEntry, s: Seq<Snapshot>) -> bool {
    let idle = idle_span(s, entry.key@) is Some;
    let storage = looks_like_storage_spec(*entry.record);
    (idle || storage) && role_pointed_at(storage) != entry.role
}

/// `r` is the suggestion the evidence makes for `entry`.
pub open spec fn suggestion_is(r: RoleSuggestion, entry: RosterEntry, s: Seq<Snapshot>) -> bool {
    let idle = idle_span(s, entry.key@) is Some;
    let storage = looks_like_storage_spec(*entry.record);
    &&& r.key@ == entry.key@
    &&& r.name@ == display_name_of(*entry.record, entry.key@)
    &&& r.current == entry.role
    &&& r.suggested == role_pointed_at(storage)
    &&& r.confidence == confidence_of(idle)
    &&& texts_of(r.evidence@) == evidence_for(entry, s)
}

/// Only an empty quest log looks like storage: a bank alt is only ever
/// proposed for a character at level 5 or below whose captured quest log is
/// empty, and a character with quests in its log and no idle history is not
/// proposed anything.
pub proof fn only_an_empty_quest_log_looks_like_storage(entry: RosterEntry, s: Seq<Snapshot>)
    ensures
        forall|r: RoleSuggestion|
            #[trigger] suggestion_is(r, entry, s) && r.suggested == Role::Bank ==> (
            entry.record.level matches Some(level) && level <= 5 && (entry.record.quests matches Some(
                q,
            ) ==> q@.len() == 0)),
        entry.record.quests matches Some(q) && q@.len() > 0 && idle_span(s, entry.key@) is None
            ==> !has_suggestion(entry, s),
{
}

/// Suggest a role for one character, or nothing when it looks active or
/// already has the role the evidence points at.
pub fn suggest(entry: &RosterEntry<'_>, history: &History, now: i64) -> (suggestion: Option<
    RoleSuggestion,
>)
    requires
        history_judgeable(history@, entry.key@),
    ensures
        match suggestion {
            Some(r) => has_suggestion(*entry, history@) && suggestion_is(r, *entry, history@),
            None => !has_suggestion(*entry, history@),
        },
        suggestion matches Some(r) && r.suggested == Role::Bank ==> (entry.record.level matches Some(
            level,
        ) && level <= 5 && (entry.record.quests matches Some(q) ==> q@.len() == 0)),
        entry.record.quests matches Some(q) && q@.len() > 0 && idle_span(history@, entry.key@)
            is None ==> suggestion is None,
{
    proof {
        only_an_empty_quest_log_looks_like_storage(*entry, history@);
    }
    let record = entry.record;
    let mut evidence: Vec<String> = Vec::new();
    proof {
        assert(texts_of(evidence@) =~= Seq::<Seq<char>>::empty());
    }
    let idle = idle_for(history, entry.key, now);
    if let Some(span) = idle {
        let mut text = to_owned_string("captured across ");
        push_decimal(&mut text, (span / 86_400) as u64);
        push_str(&mut text, " days and gained no XP, levels, gold or skill in that time");
        proof {
            assert(text@ =~= idle_evidence(span as int));
        }
        evidence.push(text);
    }
    let ghost after_idle = texts_of(evidence@);
    proof {
        assert(after_idle =~= match idle_span(history@, entry.key@) {
            Some(span) => seq![idle_evidence(span)],
            None => Seq::<Seq<char>>::empty(),
        });
    }
    let storage = looks_like_storage(record);
    if let Some(reasons) = &storage {
        let mut i: usize = 0;
        while i < reasons.len()
            invariant
                0 <= i <= reasons@.len(),
                texts_of(evidence@) == after_idle + texts_of(reasons@.take(i as int)),
            decreases reasons@.len() - i,
        {
            let ghost old_evidence = evidence@;
            evidence.push(to_owned_string(reasons[i].as_str()));
            proof {
                assert(texts_of(evidence@) =~= texts_of(old_evidence).push(reasons@[i as int]@));
                assert(texts_of(reasons@.take(i + 1)) =~= texts_of(reasons@.take(i as int)).push(
                    reasons@[i as int]@,
                ));
                assert(texts_of(evidence@) =~= after_idle + texts_of(reasons@.take(i + 1)));
            }
            i = i + 1;
        }
        proof {
            assert(reasons@.take(reasons@.len() as int) =~= reasons@);
        }
    }
    let ghost after_storage = texts_of(evidence@);
    if record.is_resting == Some(false) {
        evidence.push(to_owned_string("not parked in an inn or city, so it is banking no rest"));
    }
    proof {
        assert(texts_of(evidence@) =~= evidence_for(*entry, history@));
    }
    let (suggested, confidence) = match (idle.is_some(), storage.is_some()) {
        // Quiet and looks like storage: a bank alt.
        (true, true) => (Role::Bank, Confidence::Observed),
        // Quiet but a real character: set down rather than stored.
        (true, false) => (Role::Parked, Confidence::Observed),
        // Looks like storage, but nothing confirms it is not being levelled
        // right now. Worth asking about; not worth assuming.
        (false, true) => (Role::Bank, Confidence::Possible),
        (false, false) => return None,
    };
    if suggested == entry.role {
        return None;
    }
    Some(
        RoleSuggestion {
            key: to_owned_string(entry.key),
            name: to_owned_string(entry.name()),
            current: entry.role,
            suggested,
            confidence,
            evidence,
        },
    )
}

/// Where a confidence lists: observed before possible.
pub open spec fn listing_rank(c: Confidence) -> int {
    match c {
        Confidence::Observed => 0,
        Confidence::Possible => 1,
    }
}

impl Confidence {
    fn listing_order(&self) -> (rank: u8)
        ensures
            rank == listing_rank(*self),
    {
        match self {
            Confidence::Observed => 0,
            Confidence::Possible => 1,
        }
    }

    pub fn describe(&self) -> (text: &'static str)
        ensures
            text@ == match *self {
                Confidence::Observed => "observed over time"@,
                Confidence::Possible => "possible, not confirmed"@,
            },
    {
        match self {
            Confidence::Observed => "observed over time",
            Confidence::Possible => "possible, not confirmed",
        }
    }
}

/// The entries that get a suggestion: not yet classified by the player, and
/// with evidence pointing somewhere new.
pub open spec fn suggested_entries<'a>(
    entries: Seq<RosterEntry<'a>>,
    roles: Seq<(Seq<char>, Role)>,
    s: Seq<Snapshot>,
) -> Seq<RosterEntry<'a>>
    decreases entries.len(),
{
    if entries.len() == 0 {
        Seq::empty()
    } else {
        let rest = suggested_entries(entries.drop_last(), roles, s);
        let e = entries.last();
        if !has_key(roles, e.key@) && has_suggestion(e, s) {
            rest.push(e)
        } else {
            rest
        }
    }
}

/// Listing order: observed before possible, then by name.
pub open spec fn listed_before(a: RoleSuggestion, b: RoleSuggestion) -> bool {
    ||| listing_rank(a.confidence) < listing_rank(b.confidence)
    ||| listing_rank(a.confidence) == listing_rank(b.confidence) && key_lt(a.name@, b.name@)
}

pub open spec fn listing(a: RoleSuggestion, b: RoleSuggestion) -> bool {
    !listed_before(b, a)
}

/// `out` is `d` stably sorted into listing order.
pub open spec fn listed_as(out: Seq<RoleSuggestion>, d: Seq<RoleSuggestion>) -> bool {
    stable_sorted(out, d, |a: RoleSuggestion, b: RoleSuggestion| listing(a, b))
}

/// `out` lists, in listing order and stably, the suggestions for `entries`.
pub open spec fn lists<'a>(out: Seq<RoleSuggestion>, entries: Seq<RosterEntry<'a>>, s: Seq<Snapshot>) -> bool {
    exists|d: Seq<RoleSuggestion>|
        #[trigger] listed_as(out, d) && d.len() == entries.len() && forall|k: int|
            0 <= k < d.len() ==> suggestion_is(#[trigger] d[k], entries[k], s)
}

proof fn lemma_listing_order()
    ensures
        total_preorder(|a: RoleSuggestion, b: RoleSuggestion| listing(a, b)),
{
    assert forall|a: RoleSuggestion| #[trigger] listing(a, a) by {
        lemma_key_order(a.name@, a.name@);
    }
    assert forall|a: RoleSuggestion, b: RoleSuggestion| #[trigger]
        listing(a, b) || listing(b, a) by {
        lemma_key_order(a.name@, b.name@);
    }
    assert forall|a: RoleSuggestion, b: RoleSuggestion, c: RoleSuggestion|
        #[trigger] listing(a, b) && #[trigger] listing(b, c) implies listing(a, c) by {
        lemma_key_order(a.name@, b.name@);
        lemma_key_order(b.name@, c.name@);
        lemma_key_order(a.name@, c.name@);
        if key_lt(c.name@, a.name@) && key_lt(a.name@, b.name@) {
            lemma_key_lt_transitive(c.name@, a.name@, b.name@);
        }
        if key_lt(b.name@, c.name@) && key_lt(c.name@, a.name@) {
            lemma_key_lt_transitive(b.name@, c.name@, a.name@);
        }
    }
}

fn listed_earlier(a: &RoleSuggestion, b: &RoleSuggestion) -> (earlier: bool)
    ensures
        earlier == listed_before(*a, *b),
{
    let (ra, rb) = (a.confidence.listing_order(), b.confidence.listing_order());
    if ra != rb {
        return ra < rb;
    }
    key_order(a.name.as_str(), b.name.as_str()) == KeyOrder::Less
}

/// The history of every entry the player has not yet given a role can be
/// judged.
pub open spec fn roster_judgeable(
    entries: Seq<RosterEntry>,
    roles: Seq<(Seq<char>, Role)>,
    s: Seq<Snapshot>,
) -> bool {
    forall|i: int|
        0 <= i < entries.len() && !has_key(roles, (#[trigger] entries[i]).key@) ==> history_judgeable(
            s,
            entries[i].key@,
        )
}

/// Whether a character's history can be judged.
pub fn judgeable(history: &History, key: &str) -> (ok: bool)
    ensures
        ok == history_judgeable(history@, key@),
{
    let snapshots = history.for_character(key);
    let ghost own = snapshots_of(history@, key@);
    if snapshots.len() == 0 {
        proof {
            assert(snapshots@.map_values(|s: &Snapshot| *s).len() == 0);
            assert(own.len() == 0);
        }
        return true;
    }
    let first = snapshots[0];
    let last = snapshots[snapshots.len() - 1];
    proof {
        crate::history::lemma_run_ends(snapshots@, own);
    }
    let ghost i = choose|i: int| is_oldest(own, i) && own[i] == *first;
    let ghost j = choose|j: int| is_newest(own, j) && own[j] == *last;
    let span: i128 = last.captured_at as i128 - first.captured_at as i128;
    let ok = span <= i64::MAX as i128 && (span < IDLE_SECONDS as i128 || delta_computable(
        first,
        last,
    ));
    proof {
        assert forall|a: int, b: int|
            #![trigger is_oldest(own, a), is_newest(own, b)]
            is_oldest(own, a) && is_newest(own, b) implies a == i && b == j by {
            crate::history::lemma_ends_unique(own, a, i);
            crate::history::lemma_ends_unique(own, b, j);
        }
        if !ok {
            assert(is_oldest(own, i) && is_newest(own, j));
        }
    }
    ok
}

/// Whether every character of a roster that the player has not yet given a
/// role can be judged.
pub fn roster_is_judgeable(
    entries: &[RosterEntry<'_>],
    config: &RosterConfig,
    history: &History,
) -> (ok: bool)
    ensures
        ok == roster_judgeable(entries@, config.roles@, history@),
{
    let mut i: usize = 0;
    while i < entries.len()
        invariant
            0 <= i <= entries@.len(),
            forall|k: int|
                0 <= k < i && !has_key(config.roles@, (#[trigger] entries@[k]).key@)
                    ==> history_judgeable(history@, entries@[k].key@),
        decreases entries@.len() - i,
    {
        if !config.roles.contains_key(entries[i].key) && !judgeable(history, entries[i].key) {
            return false;
        }
        i += 1;
    }
    true
}

/// Suggest roles for every character that has not been classified yet.
///
/// A character the player has already decided about is left alone, whatever
/// the evidence says. Re-proposing a decision somebody already made is how a
/// helpful tool becomes a nagging one. Observed suggestions come first: those
/// are the ones worth reading carefully.
pub fn suggest_all(
    entries: &[RosterEntry<'_>],
    config: &RosterConfig,
    history: &History,
    now: i64,
) -> (suggestions: Vec<RoleSuggestion>)
    requires
        roster_judgeable(entries@, config.roles@, history@),
    ensures
        lists(suggestions@, suggested_entries(entries@, config.roles@, history@), history@),
{
    let mut found: Vec<RoleSuggestion> = Vec::new();
    let mut i: usize = 0;
    while i < entries.len()
        invariant
            0 <= i <= entries@.len(),
            roster_judgeable(entries@, config.roles@, history@),
            found@.len() == suggested_entries(entries@.take(i as int), config.roles@, history@).len(),
            forall|k: int|
                0 <= k < found@.len() ==> suggestion_is(
                    #[trigger] found@[k],
                    suggested_entries(entries@.take(i as int), config.roles@, history@)[k],
                    history@,
                ),
        decreases entries@.len() - i,
    {
        let entry = &entries[i];
        let ghost before = suggested_entries(entries@.take(i as int), config.roles@, history@);
        proof {
            assert(entries@.take(i + 1).drop_last() =~= entries@.take(i as int));
            assert(entries@.take(i + 1).last() == entries@[i as int]);
        }
        if !config.roles.contains_key(entry.key) {
            if let Some(suggestion) = suggest(entry, history, now) {
                found.push(suggestion);
                proof {
                    assert forall|k: int| 0 <= k < found@.len() implies suggestion_is(
                        #[trigger] found@[k],
                        suggested_entries(entries@.take(i + 1), config.roles@, history@)[k],
                        history@,
                    ) by {
                        if k < found@.len() - 1 {
                            assert(suggested_entries(entries@.take(i + 1), config.roles@, history@)[k]
                                == before[k]);
                        }
                    }
                }
            }
        }
        i = i + 1;
    }
    proof {
        assert(entries@.take(entries@.len() as int) =~= entries@);
        lemma_listing_order();
    }
    let ghost unsorted = found@;
    let sorted = sort_stable(
        found,
        Ghost(|a: RoleSuggestion, b: RoleSuggestion| listing(a, b)),
        listed_earlier,
    );
    proof {
        assert(listed_as(sorted@, unsorted));
    }
    sorted
}

/// A decision already made is never re-proposed: no character the player has
/// given a role, whatever role that is, gets a suggestion.
pub proof fn decisions_are_never_reproposed<'a>(
    entries: Seq<RosterEntry<'a>>,
    roles: Seq<(Seq<char>, Role)>,
    s: Seq<Snapshot>,
)
    ensures
        forall|k: int|
            0 <= k < suggested_entries(entries, roles, s).len() ==> !has_key(
                roles,
                (#[trigger] suggested_entries(entries, roles, s)[k]).key@,
            ),
    decreases entries.len(),
{
    if entries.len() > 0 {
        decisions_are_never_reproposed(entries.drop_last(), roles, s);
        let rest = suggested_entries(entries.drop_last(), roles, s);
        assert forall|k: int| 0 <= k < rest.len() implies suggested_entries(entries, roles, s)[k]
            == rest[k] by {}
    }
}

/// Inference proposes, the player disposes: a suggestion only ever points
/// somewhere the character is not, and a guess is only called observed when
/// history shows the character idle.
pub proof fn suggestions_point_somewhere_new(r: RoleSuggestion, entry: RosterEntry, s: Seq<Snapshot>)
    requires
        has_suggestion(entry, s),
        suggestion_is(r, entry, s),
    ensures
        r.suggested != r.current,
        r.confidence == Confidence::Observed <==> idle_span(s, entry.key@) is Some,
        texts_of(r.evidence@).len() > 0,
{
}

/// Observed suggestions are listed before guesses.
pub proof fn observations_are_listed_before_guesses(
    out: Seq<RoleSuggestion>,
    d: Seq<RoleSuggestion>,
    i: int,
    j: int,
)
    requires
        listed_as(out, d),
        0 <= i < j < out.len(),
    ensures
        listing_rank(out[i].confidence) <= listing_rank(out[j].confidence),
{
    assert(listing(out[i], out[j]));
}

} // verus!
