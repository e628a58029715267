//! Character roles, and what they do and do not affect.
//!
//! A role is **user configuration, not game data**: it is stated by the player
//! and stored beside the history. A role decides which rules apply to a
//! character, not whether it appears. A bank alt leaves the play rotation but
//! keeps its professions, its bags and its gold.

use vstd::prelude::*;

use crate::collector::{display_name_of, CharacterRecord};
use crate::text::{
    eq_ignore_ascii_case, has_key, lemma_unique_key, value_of, same_ignoring_ascii_case, sorted_by_key,
    to_owned_string, StrMap,
};

verus! {

#[derive(Debug, Clone, Copy, PartialEq, Eq, Default, Structural)]
pub enum Role {
    /// In the rotation and in every view.
    #[default]
    Active,
    /// Storage and crafting. Out of the play rotation; still counted for
    /// professions, materials and gold.
    Bank,
    /// Deliberately set aside for now. Out of the rotation, and not nagged
    /// about, but still visible.
    Parked,
}

impl Role {
    /// Whether "what should I play next" should consider this character.
    pub fn in_play_rotation(&self) -> (yes: bool)
        ensures
            yes == (*self == Role::Active),
    {
        matches!(self, Role::Active)
    }

    /// Whether professions, materials and gold should count this character.
    /// Every role does — a bank alt is mostly economy.
    pub fn in_economy(&self) -> (yes: bool)
        ensures
            yes,
    {
        true
    }

    /// Whether to raise reminders (unspent talents, full quest log, trainer).
    /// Pointless for a character the player has deliberately set down.
    pub fn wants_reminders(&self) -> (yes: bool)
        ensures
            yes == (*self == Role::Active),
    {
        matches!(self, Role::Active)
    }
}

/// Player-stated configuration, keyed by the collector's character key.
#[derive(Debug, Clone, Default, PartialEq)]
pub struct RosterConfig {
    pub roles: StrMap<Role>,
    /// Explicit play order. Empty means no preference, and the engine ranks by
    /// its own rules rather than by a list.
    pub rotation: Vec<String>,
}

/// The role that applies to a key: the stated one, or active.
pub open spec fn role_of(roles: Seq<(Seq<char>, Role)>, key: Seq<char>) -> Role {
    match value_of(roles, key) {
        Some(role) => role,
        None => Role::Active,
    }
}

impl RosterConfig {
    pub fn role_for(&self, key: &str) -> (role: Role)
        ensures
            role == role_of(self.roles@, key@),
    {
        self.roles.lemma_sorted();
        match self.roles.get(key) {
            Some(role) => {
                proof {
                    let i = choose|i: int|
                        0 <= i < self.roles@.len() && self.roles@[i] == (key@, *role);
                    lemma_unique_key(self.roles@, i, key@);
                }
                *role
            },
            None => Role::Active,
        }
    }

    pub fn set_role(&mut self, key: &str, role: Role)
        ensures
            final(self).rotation == old(self).rotation,
            sorted_by_key(final(self).roles@),
            forall|e: (Seq<char>, Role)|
                #![trigger final(self).roles@.contains(e)]
                final(self).roles@.contains(e) <==> (e == (key@, role) || (old(
                    self,
                ).roles@.contains(e) && e.0 != key@)),
    {
        self.roles.insert(to_owned_string(key), role);
    }

    /// Forget a decision, returning the character to unclassified.
    ///
    /// This is not the same as setting it active. An explicit role — even
    /// `active` — means the player has decided, so suggestions stop for that
    /// character. Undoing has to remove the entry rather than overwrite it, or
    /// there is no way back from a mistaken choice.
    pub fn clear_role(&mut self, key: &str) -> (was_set: bool)
        ensures
            was_set == has_key(old(self).roles@, key@),
            final(self).rotation == old(self).rotation,
            !has_key(final(self).roles@, key@),
            forall|e: (Seq<char>, Role)|
                #![trigger final(self).roles@.contains(e)]
                final(self).roles@.contains(e) <==> (old(self).roles@.contains(e) && e.0
                    != key@),
    {
        let removed = self.roles.remove(key);
        proof {
            if has_key(self.roles@, key@) {
                let i = choose|i: int| 0 <= i < self.roles@.len() && #[trigger] self.roles@[i].0 == key@;
                assert(self.roles@.contains(self.roles@[i]));
            }
            if has_key(old(self).roles@, key@) {
                let i = choose|i: int|
                    0 <= i < old(self).roles@.len() && #[trigger] old(self).roles@[i].0 == key@;
                assert(old(self).roles@.contains(old(self).roles@[i]));
            }
        }
        removed.is_some()
    }

    /// Whether the player has decided about this character at all.
    pub fn is_classified(&self, key: &str) -> (decided: bool)
        ensures
            decided == has_key(self.roles@, key@),
    {
        self.roles.contains_key(key)
    }

    /// Resolve a player-typed name to a character key, so configuration can be
    /// written in terms of names while staying keyed by identity. Matching is
    /// case-insensitive because players do not type their own capitalisation
    /// consistently. The first match in key order wins.
    pub fn resolve<'a>(characters: &'a StrMap<CharacterRecord>, name: &str) -> (key: Option<
        &'a str,
    >)
        ensures
            match key {
                Some(k) => exists|i: int|
                    0 <= i < characters@.len() && #[trigger] characters@[i].0 == k@ && name_matches(
                        characters@[i].1,
                        name@,
                    ) && forall|j: int|
                        0 <= j < i ==> !name_matches(#[trigger] characters@[j].1, name@),
                None => forall|j: int|
                    0 <= j < characters@.len() ==> !name_matches(
                        #[trigger] characters@[j].1,
                        name@,
                    ),
            },
    {
        let mut i: usize = 0;
        while i < characters.len()
            invariant
                0 <= i <= characters@.len(),
                forall|j: int| 0 <= j < i ==> !name_matches(#[trigger] characters@[j].1, name@),
            decreases characters@.len() - i,
        {
            let (key, record) = characters.entry(i);
            let matched = match &record.name {
                Some(candidate) => eq_ignore_ascii_case(candidate.as_str(), name),
                None => false,
            };
            if matched {
                return Some(key.as_str());
            }
            i = i + 1;
        }
        None
    }
}

/// A record's own name matches a typed name, ignoring ASCII case.
pub open spec fn name_matches(record: CharacterRecord, name: Seq<char>) -> bool {
    record.name matches Some(candidate) && same_ignoring_ascii_case(candidate@, name)
}

/// A character paired with its role, which is how the rest of the engine wants
/// to see it.
#[derive(Debug, Clone, PartialEq)]
pub struct RosterEntry<'a> {
    pub key: &'a str,
    pub record: &'a CharacterRecord,
    pub role: Role,
}

impl<'a> RosterEntry<'a> {
    pub fn name(&self) -> (name: &'a str)
        ensures
            name@ == display_name_of(*self.record, self.key@),
    {
        self.record.display_name(self.key)
    }
}

/// Pair every character with its role, in key order.
pub fn roster<'a>(characters: &'a StrMap<CharacterRecord>, config: &RosterConfig) -> (entries: Vec<
    RosterEntry<'a>,
>)
    ensures
        entries@.len() == characters@.len(),
        forall|i: int|
            0 <= i < entries@.len() ==> (#[trigger] entries@[i]).key@ == characters@[i].0
                && *entries@[i].record == characters@[i].1 && entries@[i].role == role_of(
                config.roles@,
                characters@[i].0,
            ),
{
    let mut entries: Vec<RosterEntry<'a>> = Vec::new();
    let mut i: usize = 0;
    while i < characters.len()
        invariant
            0 <= i <= characters@.len(),
            entries@.len() == i,
            forall|j: int|
                0 <= j < i ==> (#[trigger] entries@[j]).key@ == characters@[j].0
                    && *entries@[j].record == characters@[j].1 && entries@[j].role == role_of(
                    config.roles@,
                    characters@[j].0,
                ),
        decreases characters@.len() - i,
    {
        let (key, record) = characters.entry(i);
        let role = config.role_for(key.as_str());
        entries.push(RosterEntry { key: key.as_str(), record, role });
        i = i + 1;
    }
    entries
}

} // verus!
