//! Typed models for the collector's SavedVariables schema.
//!
//! Two rules from the schema shape everything here:
//!
//! - **Every field is optional.** An absent field means "not captured" — the
//!   API was unavailable, or the client never reached the state that fills it.
//!   It never means zero or false.
//! - **A newer schema version is read, not rejected.** A player who updates the
//!   addon before this reader should still see their characters.

use vstd::prelude::*;

use crate::lua::{
    lemma_table_model, line_of, list_model, map_model, model_of, parse_lua, parse_saved_variables, LuaModel, LuaTable, LuaValue,
    ParseError,
};
use crate::schema::{
    field, item_fits, item_is, read_item, flag_field, flag_fits, flag_val, i64_field, int_fits, int_val, list_field, list_fits,
    list_is, lookup, map_field, map_fits, map_is, o16, o32, o64, o8, oi64, opt_map_field, opt_map_is,
    otext, record_field, record_fits, record_is, text_field, text_fits, text_val, u16_field,
    u32_field, u64_field, u8_field, Schema,
};
use crate::text::{
    decimal, has_key, lemma_unique_key, lemma_value_decreases, merged_value, opt_str_is,
    push_decimal, push_str, str_eq, to_owned_string, value_of, StrMap,
};
use vstd::string::StringSliceAdditionalSpecFns;

verus! {

/// The global the addon writes.
pub const SAVED_VARIABLE: &'static str = "WoWCoachCollectorDB";

/// The schema version this reader was written against. Files declaring a newer
/// version are still read, for the fields that are recognised.
pub const KNOWN_SCHEMA_VERSION: u16 = 2;

#[derive(Debug, Clone, PartialEq, Default)]
pub struct CollectorDb {
    pub schema_version: Option<u16>,
    pub characters: StrMap<CharacterRecord>,
}

#[derive(Debug, Clone, PartialEq, Default)]
pub struct CharacterRecord {
    pub schema_version: Option<u16>,
    /// Unix epoch seconds.
    pub captured_at: Option<i64>,
    pub game_flavor: Option<String>,
    /// Stored raw so a flavor this reader predates can still be classified.
    pub interface_version: Option<u32>,
    pub realm: Option<String>,
    pub name: Option<String>,
    pub level: Option<u16>,
    /// Locale-independent file name, e.g. `MAGE`.
    pub class: Option<String>,
    pub class_id: Option<u8>,
    pub race: Option<String>,
    pub race_id: Option<u16>,
    pub faction: Option<String>,
    pub zone: Option<String>,
    pub sub_zone: Option<String>,
    pub bind_location: Option<String>,
    pub is_resting: Option<bool>,
    pub money_copper: Option<u64>,
    pub xp: Option<u64>,
    pub max_xp: Option<u64>,
    /// Zero when not rested; absent when not captured. The difference matters.
    pub rested_xp: Option<u64>,
    pub skills: Option<Vec<Skill>>,
    /// False when a collapsed header hid lines from enumeration.
    pub skills_complete: Option<bool>,
    pub talents: Option<Talents>,
    pub quests: Option<Vec<Quest>>,
    pub quests_complete: Option<bool>,
    pub inventory: Option<Inventory>,
    pub ruleset: Option<Ruleset>,
    pub pet: Option<Pet>,
    pub recipes: Option<StrMap<ProfessionRecipes>>,
}

#[derive(Debug, Clone, PartialEq, Default)]
pub struct Skill {
    pub name: Option<String>,
    pub rank: Option<u16>,
    pub max_rank: Option<u16>,
    /// Forever supplies a stable identifier; the Classic clients do not.
    pub skill_id: Option<u32>,
}

#[derive(Debug, Clone, PartialEq, Default)]
pub struct Talents {
    pub trees: Option<Vec<TalentTree>>,
    pub unspent_points: Option<u16>,
}

#[derive(Debug, Clone, PartialEq, Default)]
pub struct TalentTree {
    pub name: Option<String>,
    pub points_spent: Option<u16>,
}

#[derive(Debug, Clone, Copy, PartialEq, Eq, Default, Structural)]
pub enum QuestState {
    #[default]
    Active,
    Complete,
    Failed,
    /// A state this reader does not know. Kept rather than dropped so a newer
    /// addon does not make quests disappear.
    Unknown,
}

#[derive(Debug, Clone, PartialEq, Default)]
pub struct Quest {
    pub quest_id: Option<u32>,
    pub title: Option<String>,
    pub level: Option<u16>,
    pub header: Option<String>,
    pub state: Option<QuestState>,
}

#[derive(Debug, Clone, PartialEq, Default)]
pub struct Inventory {
    pub bags: Option<Vec<Bag>>,
    pub total_slots: Option<u32>,
    pub free_slots: Option<u32>,
    pub contents: Option<Vec<ItemStack>>,
}

#[derive(Debug, Clone, PartialEq, Default)]
pub struct Bag {
    pub bag_index: Option<u8>,
    pub item_id: Option<u32>,
    pub slots: Option<u32>,
    pub free_slots: Option<u32>,
}

#[derive(Debug, Clone, PartialEq, Default)]
pub struct ItemStack {
    pub item_id: Option<u32>,
    pub count: Option<u32>,
    /// The client's own name for the item, when it had loaded one. Display
    /// only; the id is the key.
    pub name: Option<String>,
}

/// Forever replaces realms with rulesets. Normal is the absence of all three,
/// not a value of its own, so `false` here is meaningful data.
#[derive(Debug, Clone, Copy, PartialEq, Eq, Default)]
pub struct Ruleset {
    pub hardcore: Option<bool>,
    pub pvp: Option<bool>,
    pub rp: Option<bool>,
    pub self_found: Option<bool>,
}

impl Ruleset {
    /// True only when every flag is known and false. An unknown flag means the
    /// ruleset cannot be called normal, because it might not be.
    pub fn is_normal(&self) -> (normal: bool)
        ensures
            normal == (self.hardcore == Some(false) && self.pvp == Some(false) && self.rp == Some(
                false,
            )),
    {
        matches!(
            (self.hardcore, self.pvp, self.rp),
            (Some(false), Some(false), Some(false))
        )
    }
}

#[derive(Debug, Clone, PartialEq, Default)]
pub struct Pet {
    pub name: Option<String>,
    pub happiness: Option<u8>,
    pub loyalty: Option<u8>,
    pub training_points_spent: Option<u32>,
    pub training_points_total: Option<u32>,
}

#[derive(Debug, Clone, PartialEq, Default)]
pub struct ProfessionRecipes {
    /// Recipes are a cache scraped when the profession window was open, not a
    /// live capture, so this can lag the record's own `captured_at`.
    pub captured_at: Option<i64>,
    pub rank: Option<u16>,
    pub max_rank: Option<u16>,
    pub recipes: Option<Vec<Recipe>>,
}

#[derive(Debug, Clone, PartialEq, Default)]
pub struct Recipe {
    pub name: Option<String>,
    /// The game's own classification: optimal, medium, easy, trivial.
    pub difficulty: Option<String>,
    pub spell_id: Option<u32>,
}

/// What went wrong reading a file.
#[derive(Debug, Clone, PartialEq)]
pub enum LoadError {
    /// The file is not the restricted subset.
    Syntax(ParseError),
    /// The addon's global is not in the file.
    MissingGlobal(String),
    /// The shape parsed but does not match the schema.
    Shape(String),
}

impl LoadError {
    /// What went wrong, for a reader.
    pub fn to_text(&self) -> (text: String)
        ensures
            text@ == match *self {
                LoadError::Syntax(e) => "line "@ + decimal(e.line as nat) + ": "@ + e.message@,
                LoadError::MissingGlobal(name) => name@
                    + " is not in this file — is it the collector's SavedVariables?"@,
                LoadError::Shape(message) => message@,
            },
    {
        match self {
            LoadError::Syntax(error) => error.to_text(),
            LoadError::MissingGlobal(name) => {
                let mut text = name.clone();
                push_str(&mut text, " is not in this file — is it the collector's SavedVariables?");
                text
            },
            LoadError::Shape(message) => message.clone(),
        }
    }
}

/// A loaded file, plus anything the reader wants to say about it.
#[derive(Debug, Clone, PartialEq)]
pub struct Loaded {
    pub db: CollectorDb,
    /// Non-fatal notes: a newer schema, a record that lost a field. These are
    /// surfaced rather than logged, because a silently degraded import is worse
    /// than a noisy one.
    pub notices: Vec<String>,
}

/// The rested cap for a level size: 1.5 levels' worth of XP.
pub open spec fn rested_cap_of(max_xp: u64) -> int {
    max_xp * 3 / 2
}

/// Whether the record was captured on the Forever client.
pub open spec fn is_forever(record: CharacterRecord) -> bool {
    record.game_flavor matches Some(f) && f@ == "forever"@
}

/// The name shown for a record: its own, or the key it is stored under.
pub open spec fn display_name_of(record: CharacterRecord, key: Seq<char>) -> Seq<char> {
    match record.name {
        Some(name) => name@,
        None => key,
    }
}

impl CharacterRecord {
    /// A name to show. Falls back to the storage key, which always exists.
    pub fn display_name<'a>(&'a self, key: &'a str) -> (name: &'a str)
        ensures
            name@ == display_name_of(*self, key@),
    {
        match &self.name {
            Some(name) => name.as_str(),
            None => key,
        }
    }

    /// The rested cap: 1.5 levels' worth of XP.
    ///
    /// Correct for the Classic clients. **Not established for Forever**, where
    /// the Legacy "Well Rested" perk changes both the cap and the accrual rate
    /// and nothing in the API exposes either. Callers must check
    /// [`Self::rested_cap_is_known`] before treating this as fact.
    pub fn rested_cap(&self) -> (cap: Option<u64>)
        requires
            self.max_xp matches Some(max) ==> max * 3 <= u64::MAX,
        ensures
            cap == match self.max_xp {
                Some(max) => Some(rested_cap_of(max) as u64),
                None => None,
            },
    {
        match self.max_xp {
            Some(max) => Some(max * 3 / 2),
            None => None,
        }
    }

    /// Whether the rested model is trustworthy for this character's client.
    pub fn rested_cap_is_known(&self) -> (known: bool)
        ensures
            known == !is_forever(*self),
    {
        proof {
            reveal_strlit("forever");
        }
        !opt_str_is(&self.game_flavor, "forever")
    }

    pub fn free_bag_slots(&self) -> (free: Option<u32>)
        ensures
            free == match self.inventory {
                Some(inventory) => inventory.free_slots,
                None => None,
            },
    {
        match &self.inventory {
            Some(inventory) => inventory.free_slots,
            None => None,
        }
    }

    pub fn quest_count(&self) -> (count: Option<usize>)
        ensures
            count == match self.quests {
                Some(quests) => Some(quests@.len() as usize),
                None => None,
            },
    {
        match &self.quests {
            Some(quests) => Some(quests.len()),
            None => None,
        }
    }

    /// Whole gold carried, rounding the silver and copper away.
    pub fn gold(&self) -> (gold: Option<u64>)
        ensures
            gold == match self.money_copper {
                Some(copper) => Some((copper / 10_000) as u64),
                None => None,
            },
    {
        match self.money_copper {
            Some(copper) => Some(copper / 10_000),
            None => None,
        }
    }
}

/// What a quest's state reads as: a state this reader does not know is kept
/// as `Unknown` rather than dropped, so a newer addon does not make quests
/// disappear.
pub open spec fn quest_state_of(text: Seq<char>) -> QuestState {
    if text == "active"@ {
        QuestState::Active
    } else if text == "complete"@ {
        QuestState::Complete
    } else if text == "failed"@ {
        QuestState::Failed
    } else {
        QuestState::Unknown
    }
}

pub open spec fn state_val(x: Option<LuaModel>) -> Option<QuestState> {
    match x {
        Some(LuaModel::Str(text)) => Some(quest_state_of(text)),
        _ => None,
    }
}

fn state_field(t: &LuaTable, key: &str) -> (r: Option<Option<QuestState>>)
    ensures
        r is Some <==> text_fits(field(map_model(t.map), key@)),
        r matches Some(v) ==> v == state_val(field(map_model(t.map), key@)),
{
    match lookup(t, key) {
        None => Some(None),
        Some(LuaValue::String(text)) => {
            let state = if str_eq(text.as_str(), "active") {
                QuestState::Active
            } else if str_eq(text.as_str(), "complete") {
                QuestState::Complete
            } else if str_eq(text.as_str(), "failed") {
                QuestState::Failed
            } else {
                QuestState::Unknown
            };
            Some(Some(state))
        },
        Some(_) => None,
    }
}

impl Schema for Skill {
    open spec fn fits(m: Map<Seq<char>, LuaModel>) -> bool {
        &&& text_fits(field(m, "name"@))
        &&& int_fits(field(m, "rank"@), 0, u16::MAX as int)
        &&& int_fits(field(m, "maxRank"@), 0, u16::MAX as int)
        &&& int_fits(field(m, "skillID"@), 0, u32::MAX as int)
    }

    open spec fn read_as(m: Map<Seq<char>, LuaModel>, value: Self) -> bool {
        &&& otext(value.name) == text_val(field(m, "name"@))
        &&& o16(value.rank) == int_val(field(m, "rank"@))
        &&& o16(value.max_rank) == int_val(field(m, "maxRank"@))
        &&& o32(value.skill_id) == int_val(field(m, "skillID"@))
    }

    fn read(t: &LuaTable) -> (r: Option<Self>) {
        let name = text_field(t, "name")?;
        let rank = u16_field(t, "rank")?;
        let max_rank = u16_field(t, "maxRank")?;
        let skill_id = u32_field(t, "skillID")?;
        Some(Skill { name, rank, max_rank, skill_id })
    }
}

impl Schema for Talents {
    open spec fn fits(m: Map<Seq<char>, LuaModel>) -> bool {
        &&& list_fits::<TalentTree>(field(m, "trees"@))
        &&& int_fits(field(m, "unspentPoints"@), 0, u16::MAX as int)
    }

    open spec fn read_as(m: Map<Seq<char>, LuaModel>, value: Self) -> bool {
        &&& list_is::<TalentTree>(field(m, "trees"@), value.trees)
        &&& o16(value.unspent_points) == int_val(field(m, "unspentPoints"@))
    }

    fn read(t: &LuaTable) -> (r: Option<Self>) {
        let trees = list_field::<TalentTree>(t, "trees")?;
        let unspent_points = u16_field(t, "unspentPoints")?;
        Some(Talents { trees, unspent_points })
    }
}

impl Schema for TalentTree {
    open spec fn fits(m: Map<Seq<char>, LuaModel>) -> bool {
        &&& text_fits(field(m, "name"@))
        &&& int_fits(field(m, "pointsSpent"@), 0, u16::MAX as int)
    }

    open spec fn read_as(m: Map<Seq<char>, LuaModel>, value: Self) -> bool {
        &&& otext(value.name) == text_val(field(m, "name"@))
        &&& o16(value.points_spent) == int_val(field(m, "pointsSpent"@))
    }

    fn read(t: &LuaTable) -> (r: Option<Self>) {
        let name = text_field(t, "name")?;
        let points_spent = u16_field(t, "pointsSpent")?;
        Some(TalentTree { name, points_spent })
    }
}

impl Schema for Quest {
    open spec fn fits(m: Map<Seq<char>, LuaModel>) -> bool {
        &&& int_fits(field(m, "questID"@), 0, u32::MAX as int)
        &&& text_fits(field(m, "title"@))
        &&& int_fits(field(m, "level"@), 0, u16::MAX as int)
        &&& text_fits(field(m, "header"@))
        &&& text_fits(field(m, "state"@))
    }

    open spec fn read_as(m: Map<Seq<char>, LuaModel>, value: Self) -> bool {
        &&& o32(value.quest_id) == int_val(field(m, "questID"@))
        &&& otext(value.title) == text_val(field(m, "title"@))
        &&& o16(value.level) == int_val(field(m, "level"@))
        &&& otext(value.header) == text_val(field(m, "header"@))
        &&& value.state == state_val(field(m, "state"@))
    }

    fn read(t: &LuaTable) -> (r: Option<Self>) {
        let quest_id = u32_field(t, "questID")?;
        let title = text_field(t, "title")?;
        let level = u16_field(t, "level")?;
        let header = text_field(t, "header")?;
        let state = state_field(t, "state")?;
        Some(Quest { quest_id, title, level, header, state })
    }
}

impl Schema for Inventory {
    open spec fn fits(m: Map<Seq<char>, LuaModel>) -> bool {
        &&& list_fits::<Bag>(field(m, "bags"@))
        &&& int_fits(field(m, "totalSlots"@), 0, u32::MAX as int)
        &&& int_fits(field(m, "freeSlots"@), 0, u32::MAX as int)
        &&& list_fits::<ItemStack>(field(m, "contents"@))
    }

    open spec fn read_as(m: Map<Seq<char>, LuaModel>, value: Self) -> bool {
        &&& list_is::<Bag>(field(m, "bags"@), value.bags)
        &&& o32(value.total_slots) == int_val(field(m, "totalSlots"@))
        &&& o32(value.free_slots) == int_val(field(m, "freeSlots"@))
        &&& list_is::<ItemStack>(field(m, "contents"@), value.contents)
    }

    fn read(t: &LuaTable) -> (r: Option<Self>) {
        let bags = list_field::<Bag>(t, "bags")?;
        let total_slots = u32_field(t, "totalSlots")?;
        let free_slots = u32_field(t, "freeSlots")?;
        let contents = list_field::<ItemStack>(t, "contents")?;
        Some(Inventory { bags, total_slots, free_slots, contents })
    }
}

impl Schema for Bag {
    open spec fn fits(m: Map<Seq<char>, LuaModel>) -> bool {
        &&& int_fits(field(m, "bagIndex"@), 0, u8::MAX as int)
        &&& int_fits(field(m, "itemID"@), 0, u32::MAX as int)
        &&& int_fits(field(m, "slots"@), 0, u32::MAX as int)
        &&& int_fits(field(m, "freeSlots"@), 0, u32::MAX as int)
    }

    open spec fn read_as(m: Map<Seq<char>, LuaModel>, value: Self) -> bool {
        &&& o8(value.bag_index) == int_val(field(m, "bagIndex"@))
        &&& o32(value.item_id) == int_val(field(m, "itemID"@))
        &&& o32(value.slots) == int_val(field(m, "slots"@))
        &&& o32(value.free_slots) == int_val(field(m, "freeSlots"@))
    }

    fn read(t: &LuaTable) -> (r: Option<Self>) {
        let bag_index = u8_field(t, "bagIndex")?;
        let item_id = u32_field(t, "itemID")?;
        let slots = u32_field(t, "slots")?;
        let free_slots = u32_field(t, "freeSlots")?;
        Some(Bag { bag_index, item_id, slots, free_slots })
    }
}

impl Schema for ItemStack {
    open spec fn fits(m: Map<Seq<char>, LuaModel>) -> bool {
        &&& int_fits(field(m, "itemID"@), 0, u32::MAX as int)
        &&& int_fits(field(m, "count"@), 0, u32::MAX as int)
        &&& text_fits(field(m, "name"@))
    }

    open spec fn read_as(m: Map<Seq<char>, LuaModel>, value: Self) -> bool {
        &&& o32(value.item_id) == int_val(field(m, "itemID"@))
        &&& o32(value.count) == int_val(field(m, "count"@))
        &&& otext(value.name) == text_val(field(m, "name"@))
    }

    fn read(t: &LuaTable) -> (r: Option<Self>) {
        let item_id = u32_field(t, "itemID")?;
        let count = u32_field(t, "count")?;
        let name = text_field(t, "name")?;
        Some(ItemStack { item_id, count, name })
    }
}

impl Schema for Ruleset {
    open spec fn fits(m: Map<Seq<char>, LuaModel>) -> bool {
        &&& flag_fits(field(m, "hardcore"@))
        &&& flag_fits(field(m, "pvp"@))
        &&& flag_fits(field(m, "rp"@))
        &&& flag_fits(field(m, "selfFound"@))
    }

    open spec fn read_as(m: Map<Seq<char>, LuaModel>, value: Self) -> bool {
        &&& value.hardcore == flag_val(field(m, "hardcore"@))
        &&& value.pvp == flag_val(field(m, "pvp"@))
        &&& value.rp == flag_val(field(m, "rp"@))
        &&& value.self_found == flag_val(field(m, "selfFound"@))
    }

    fn read(t: &LuaTable) -> (r: Option<Self>) {
        let hardcore = flag_field(t, "hardcore")?;
        let pvp = flag_field(t, "pvp")?;
        let rp = flag_field(t, "rp")?;
        let self_found = flag_field(t, "selfFound")?;
        Some(Ruleset { hardcore, pvp, rp, self_found })
    }
}

impl Schema for Pet {
    open spec fn fits(m: Map<Seq<char>, LuaModel>) -> bool {
        &&& text_fits(field(m, "name"@))
        &&& int_fits(field(m, "happiness"@), 0, u8::MAX as int)
        &&& int_fits(field(m, "loyalty"@), 0, u8::MAX as int)
        &&& int_fits(field(m, "trainingPointsSpent"@), 0, u32::MAX as int)
        &&& int_fits(field(m, "trainingPointsTotal"@), 0, u32::MAX as int)
    }

    open spec fn read_as(m: Map<Seq<char>, LuaModel>, value: Self) -> bool {
        &&& otext(value.name) == text_val(field(m, "name"@))
        &&& o8(value.happiness) == int_val(field(m, "happiness"@))
        &&& o8(value.loyalty) == int_val(field(m, "loyalty"@))
        &&& o32(value.training_points_spent) == int_val(field(m, "trainingPointsSpent"@))
        &&& o32(value.training_points_total) == int_val(field(m, "trainingPointsTotal"@))
    }

    fn read(t: &LuaTable) -> (r: Option<Self>) {
        let name = text_field(t, "name")?;
        let happiness = u8_field(t, "happiness")?;
        let loyalty = u8_field(t, "loyalty")?;
        let training_points_spent = u32_field(t, "trainingPointsSpent")?;
        let training_points_total = u32_field(t, "trainingPointsTotal")?;
        Some(Pet { name, happiness, loyalty, training_points_spent, training_points_total })
    }
}

impl Schema for ProfessionRecipes {
    open spec fn fits(m: Map<Seq<char>, LuaModel>) -> bool {
        &&& int_fits(field(m, "capturedAt"@), i64::MIN as int, i64::MAX as int)
        &&& int_fits(field(m, "rank"@), 0, u16::MAX as int)
        &&& int_fits(field(m, "maxRank"@), 0, u16::MAX as int)
        &&& list_fits::<Recipe>(field(m, "recipes"@))
    }

    open spec fn read_as(m: Map<Seq<char>, LuaModel>, value: Self) -> bool {
        &&& oi64(value.captured_at) == int_val(field(m, "capturedAt"@))
        &&& o16(value.rank) == int_val(field(m, "rank"@))
        &&& o16(value.max_rank) == int_val(field(m, "maxRank"@))
        &&& list_is::<Recipe>(field(m, "recipes"@), value.recipes)
    }

    fn read(t: &LuaTable) -> (r: Option<Self>) {
        let captured_at = i64_field(t, "capturedAt")?;
        let rank = u16_field(t, "rank")?;
        let max_rank = u16_field(t, "maxRank")?;
        let recipes = list_field::<Recipe>(t, "recipes")?;
        Some(ProfessionRecipes { captured_at, rank, max_rank, recipes })
    }
}

impl Schema for Recipe {
    open spec fn fits(m: Map<Seq<char>, LuaModel>) -> bool {
        &&& text_fits(field(m, "name"@))
        &&& text_fits(field(m, "difficulty"@))
        &&& int_fits(field(m, "spellID"@), 0, u32::MAX as int)
    }

    open spec fn read_as(m: Map<Seq<char>, LuaModel>, value: Self) -> bool {
        &&& otext(value.name) == text_val(field(m, "name"@))
        &&& otext(value.difficulty) == text_val(field(m, "difficulty"@))
        &&& o32(value.spell_id) == int_val(field(m, "spellID"@))
    }

    fn read(t: &LuaTable) -> (r: Option<Self>) {
        let name = text_field(t, "name")?;
        let difficulty = text_field(t, "difficulty")?;
        let spell_id = u32_field(t, "spellID")?;
        Some(Recipe { name, difficulty, spell_id })
    }
}

impl Schema for CharacterRecord {
    open spec fn fits(m: Map<Seq<char>, LuaModel>) -> bool {
        &&& int_fits(field(m, "schemaVersion"@), 0, u16::MAX as int)
        &&& int_fits(field(m, "capturedAt"@), i64::MIN as int, i64::MAX as int)
        &&& text_fits(field(m, "gameFlavor"@))
        &&& int_fits(field(m, "interfaceVersion"@), 0, u32::MAX as int)
        &&& text_fits(field(m, "realm"@))
        &&& text_fits(field(m, "name"@))
        &&& int_fits(field(m, "level"@), 0, u16::MAX as int)
        &&& text_fits(field(m, "class"@))
        &&& int_fits(field(m, "classID"@), 0, u8::MAX as int)
        &&& text_fits(field(m, "race"@))
        &&& int_fits(field(m, "raceID"@), 0, u16::MAX as int)
        &&& text_fits(field(m, "faction"@))
        &&& text_fits(field(m, "zone"@))
        &&& text_fits(field(m, "subZone"@))
        &&& text_fits(field(m, "bindLocation"@))
        &&& flag_fits(field(m, "isResting"@))
        &&& int_fits(field(m, "moneyCopper"@), 0, i64::MAX as int)
        &&& int_fits(field(m, "xp"@), 0, i64::MAX as int)
        &&& int_fits(field(m, "maxXP"@), 0, i64::MAX as int)
        &&& int_fits(field(m, "restedXP"@), 0, i64::MAX as int)
        &&& list_fits::<Skill>(field(m, "skills"@))
        &&& flag_fits(field(m, "skillsComplete"@))
        &&& record_fits::<Talents>(field(m, "talents"@))
        &&& list_fits::<Quest>(field(m, "quests"@))
        &&& flag_fits(field(m, "questsComplete"@))
        &&& record_fits::<Inventory>(field(m, "inventory"@))
        &&& record_fits::<Ruleset>(field(m, "ruleset"@))
        &&& record_fits::<Pet>(field(m, "pet"@))
        &&& map_fits::<ProfessionRecipes>(field(m, "recipes"@))
    }

    open spec fn read_as(m: Map<Seq<char>, LuaModel>, value: Self) -> bool {
        &&& o16(value.schema_version) == int_val(field(m, "schemaVersion"@))
        &&& oi64(value.captured_at) == int_val(field(m, "capturedAt"@))
        &&& otext(value.game_flavor) == text_val(field(m, "gameFlavor"@))
        &&& o32(value.interface_version) == int_val(field(m, "interfaceVersion"@))
        &&& otext(value.realm) == text_val(field(m, "realm"@))
        &&& otext(value.name) == text_val(field(m, "name"@))
        &&& o16(value.level) == int_val(field(m, "level"@))
        &&& otext(value.class) == text_val(field(m, "class"@))
        &&& o8(value.class_id) == int_val(field(m, "classID"@))
        &&& otext(value.race) == text_val(field(m, "race"@))
        &&& o16(value.race_id) == int_val(field(m, "raceID"@))
        &&& otext(value.faction) == text_val(field(m, "faction"@))
        &&& otext(value.zone) == text_val(field(m, "zone"@))
        &&& otext(value.sub_zone) == text_val(field(m, "subZone"@))
        &&& otext(value.bind_location) == text_val(field(m, "bindLocation"@))
        &&& value.is_resting == flag_val(field(m, "isResting"@))
        &&& o64(value.money_copper) == int_val(field(m, "moneyCopper"@))
        &&& o64(value.xp) == int_val(field(m, "xp"@))
        &&& o64(value.max_xp) == int_val(field(m, "maxXP"@))
        &&& o64(value.rested_xp) == int_val(field(m, "restedXP"@))
        &&& list_is::<Skill>(field(m, "skills"@), value.skills)
        &&& value.skills_complete == flag_val(field(m, "skillsComplete"@))
        &&& record_is::<Talents>(field(m, "talents"@), value.talents)
        &&& list_is::<Quest>(field(m, "quests"@), value.quests)
        &&& value.quests_complete == flag_val(field(m, "questsComplete"@))
        &&& record_is::<Inventory>(field(m, "inventory"@), value.inventory)
        &&& record_is::<Ruleset>(field(m, "ruleset"@), value.ruleset)
        &&& record_is::<Pet>(field(m, "pet"@), value.pet)
        &&& opt_map_is::<ProfessionRecipes>(field(m, "recipes"@), value.recipes)
    }

    fn read(t: &LuaTable) -> (r: Option<Self>) {
        let schema_version = u16_field(t, "schemaVersion")?;
        let captured_at = i64_field(t, "capturedAt")?;
        let game_flavor = text_field(t, "gameFlavor")?;
        let interface_version = u32_field(t, "interfaceVersion")?;
        let realm = text_field(t, "realm")?;
        let name = text_field(t, "name")?;
        let level = u16_field(t, "level")?;
        let class = text_field(t, "class")?;
        let class_id = u8_field(t, "classID")?;
        let race = text_field(t, "race")?;
        let race_id = u16_field(t, "raceID")?;
        let faction = text_field(t, "faction")?;
        let zone = text_field(t, "zone")?;
        let sub_zone = text_field(t, "subZone")?;
        let bind_location = text_field(t, "bindLocation")?;
        let is_resting = flag_field(t, "isResting")?;
        let money_copper = u64_field(t, "moneyCopper")?;
        let xp = u64_field(t, "xp")?;
        let max_xp = u64_field(t, "maxXP")?;
        let rested_xp = u64_field(t, "restedXP")?;
        let skills = list_field::<Skill>(t, "skills")?;
        let skills_complete = flag_field(t, "skillsComplete")?;
        let talents = record_field::<Talents>(t, "talents")?;
        let quests = list_field::<Quest>(t, "quests")?;
        let quests_complete = flag_field(t, "questsComplete")?;
        let inventory = record_field::<Inventory>(t, "inventory")?;
        let ruleset = record_field::<Ruleset>(t, "ruleset")?;
        let pet = record_field::<Pet>(t, "pet")?;
        let recipes = opt_map_field::<ProfessionRecipes>(t, "recipes")?;
        Some(CharacterRecord { schema_version, captured_at, game_flavor, interface_version, realm, name, level, class, class_id, race, race_id, faction, zone, sub_zone, bind_location, is_resting, money_copper, xp, max_xp, rested_xp, skills, skills_complete, talents, quests, quests_complete, inventory, ruleset, pet, recipes })
    }
}

impl Schema for CollectorDb {
    open spec fn fits(m: Map<Seq<char>, LuaModel>) -> bool {
        &&& int_fits(field(m, "schemaVersion"@), 0, u16::MAX as int)
        &&& map_fits::<CharacterRecord>(field(m, "characters"@))
    }

    open spec fn read_as(m: Map<Seq<char>, LuaModel>, value: Self) -> bool {
        &&& o16(value.schema_version) == int_val(field(m, "schemaVersion"@))
        &&& map_is::<CharacterRecord>(field(m, "characters"@), value.characters)
    }

    fn read(t: &LuaTable) -> (r: Option<Self>) {
        let schema_version = u16_field(t, "schemaVersion")?;
        let characters = map_field::<CharacterRecord>(t, "characters")?;
        Some(CollectorDb { schema_version, characters })
    }
}

/// Whether some table in a value has both named entries and a list. The
/// collector never writes one, and it would be ambiguous as either a record
/// or a list, so it is an error rather than a guess.
pub open spec fn mixed(v: LuaModel) -> bool
    decreases v,
{
    match v {
        LuaModel::Table(m, l) => (m.dom() != Set::<Seq<char>>::empty() && l.len() > 0) || (exists|
            k: Seq<char>,
        | #[trigger] m.dom().contains(k) && mixed(m[k])) || (exists|i: int|
            0 <= i < l.len() && mixed(#[trigger] l[i])),
        _ => false,
    }
}

proof fn lemma_mixed_item(m: Map<Seq<char>, LuaModel>, l: Seq<LuaModel>, i: int)
    requires
        0 <= i < l.len(),
        mixed(l[i]),
    ensures
        mixed(LuaModel::Table(m, l)),
{
    let v = LuaModel::Table(m, l);
    assert(decreases_to!(v => v->Table_1));
    assert(decreases_to!(l => l[i]));
    assert(decreases_to!(v => l[i]));
}

/// Whether some table in a value mixes named entries and a list.
fn has_mixed(v: &LuaValue) -> (found: bool)
    ensures
        found == mixed(model_of(*v)),
    decreases v,
{
    match v {
        LuaValue::Table(t) => {
            proof {
                lemma_table_model(*t);
            }
            let ghost m = map_model(t.map);
            let ghost l = list_model(t.array@);
            if !t.map.is_empty() && t.array.len() > 0 {
                assert(m.dom().contains(t.map@[0].0));
                return true;
            }
            t.map.lemma_sorted();
            let mut i: usize = 0;
            while i < t.map.len()
                invariant
                    i <= t.map@.len(),
                    *v == LuaValue::Table(*t),
                    model_of(*v) == LuaModel::Table(m, l),
                    m == map_model(t.map),
                    crate::text::sorted_by_key(t.map@),
                    forall|j: int| 0 <= j < i ==> !mixed(model_of(#[trigger] t.map@[j].1)),
                decreases t.map@.len() - i,
            {
                let (name, value) = t.map.entry(i);
                proof {
                    lemma_value_decreases(t.map, i as int);
                    lemma_unique_key(t.map@, i as int, name@);
                    assert(m[name@] == model_of(*value));
                    assert(decreases_to!(*v => *t));
                    assert(decreases_to!(*t => t.map));
                    assert(decreases_to!(*v => *value));
                }
                if has_mixed(value) {
                    assert(m.dom().contains(name@));
                    assert(mixed(m[name@]));
                    assert(mixed(LuaModel::Table(m, l)));
                    return true;
                }
                i = i + 1;
            }
            let mut i: usize = 0;
            while i < t.array.len()
                invariant
                    i <= t.array@.len(),
                    *v == LuaValue::Table(*t),
                    model_of(*v) == LuaModel::Table(m, l),
                    l == list_model(t.array@),
                    forall|j: int| 0 <= j < i ==> !mixed(#[trigger] l[j]),
                decreases t.array@.len() - i,
            {
                assert(l[i as int] == model_of(t.array@[i as int]));
                assert(decreases_to!(*v => *t));
                assert(decreases_to!(*t => t.array));
                assert(decreases_to!(t.array => t.array@));
                assert(decreases_to!(t.array@ => t.array@[i as int]));
                if has_mixed(&t.array[i]) {
                    assert(mixed(l[i as int]));
                    assert(0 <= i < l.len());
                    proof {
                        lemma_mixed_item(m, l, i as int);
                    }
                    return true;
                }
                i = i + 1;
            }
            proof {
                assert forall|k: Seq<char>| m.dom().contains(k) implies !#[trigger] mixed(m[k]) by {
                    let j = choose|j: int| 0 <= j < t.map@.len() && #[trigger] t.map@[j].0 == k;
                    lemma_unique_key(t.map@, j, k);
                }
                if t.map@.len() == 0 {
                    assert(m.dom() =~= Set::<Seq<char>>::empty());
                }
            }
            false
        },
        _ => false,
    }
}

/// The notice about the file's schema version: a newer one is read for the
/// fields this reader knows, and a missing one is said.
pub open spec fn version_notices(version: Option<u16>) -> Seq<Seq<char>> {
    match version {
        Some(v) => if v > KNOWN_SCHEMA_VERSION {
            seq![
                "file declares schema v"@ + decimal(v as nat)
                    + "; this reader knows v2, so newer fields were ignored"@,
            ]
        } else {
            Seq::empty()
        },
        None => seq!["file declares no schema version"@],
    }
}

/// The notices about one record: no name, or skills or quests that a
/// collapsed header hid from the capture.
pub open spec fn record_notices(key: Seq<char>, record: CharacterRecord) -> Seq<Seq<char>> {
    (if record.name is None {
        seq!["character "@ + key + " has no name"@]
    } else {
        Seq::empty()
    }) + (if record.skills_complete == Some(false) {
        seq![
            display_name_of(record, key)
                + ": skills were only partly captured (a collapsed header hid some)"@,
        ]
    } else {
        Seq::empty()
    }) + (if record.quests_complete == Some(false) {
        seq![
            display_name_of(record, key)
                + ": quests were only partly captured (a collapsed header hid some)"@,
        ]
    } else {
        Seq::empty()
    })
}

/// The notices about records, in the order the records are stored.
pub open spec fn records_notices(records: Seq<(Seq<char>, CharacterRecord)>) -> Seq<Seq<char>>
    decreases records.len(),
{
    if records.len() == 0 {
        Seq::empty()
    } else {
        records_notices(records.drop_last()) + record_notices(
            records.last().0,
            records.last().1,
        )
    }
}

/// Everything the reader says about a file it read.
pub open spec fn notices_of(db: CollectorDb) -> Seq<Seq<char>> {
    version_notices(db.schema_version) + records_notices(db.characters@)
}

pub open spec fn texts(v: Seq<String>) -> Seq<Seq<char>> {
    v.map_values(|s: String| s@)
}

fn push_text(notices: &mut Vec<String>, text: String)
    ensures
        texts(final(notices)@) == texts(old(notices)@).push(text@),
{
    let ghost before = notices@;
    notices.push(text);
    assert(texts(notices@) =~= texts(before).push(text@));
}

fn record_notes(notices: &mut Vec<String>, key: &str, record: &CharacterRecord)
    ensures
        texts(final(notices)@) == texts(old(notices)@) + record_notices(key@, *record),
{
    let ghost start = texts(notices@);
    let ghost k = key@;
    if record.name.is_none() {
        let mut text = to_owned_string("character ");
        push_str(&mut text, key);
        push_str(&mut text, " has no name");
        push_text(notices, text);
    }
    let ghost after_name = texts(notices@);
    if record.skills_complete == Some(false) {
        let mut text = to_owned_string(record.display_name(key));
        push_str(&mut text, ": skills were only partly captured (a collapsed header hid some)");
        push_text(notices, text);
    }
    let ghost after_skills = texts(notices@);
    if record.quests_complete == Some(false) {
        let mut text = to_owned_string(record.display_name(key));
        push_str(&mut text, ": quests were only partly captured (a collapsed header hid some)");
        push_text(notices, text);
    }
    proof {
        assert(texts(notices@) =~= start + record_notices(k, *record));
    }
}

/// The notices for a database that was read.
fn notices_for(db: &CollectorDb) -> (notices: Vec<String>)
    ensures
        texts(notices@) == notices_of(*db),
{
    let mut notices: Vec<String> = Vec::new();
    match db.schema_version {
        Some(version) => {
            if version > KNOWN_SCHEMA_VERSION {
                let mut text = to_owned_string("file declares schema v");
                push_decimal(&mut text, version as u64);
                push_str(&mut text, "; this reader knows v2, so newer fields were ignored");
                push_text(&mut notices, text);
            }
        },
        None => {
            push_text(&mut notices, to_owned_string("file declares no schema version"));
        },
    }
    assert(texts(notices@) =~= version_notices(db.schema_version));
    let mut i: usize = 0;
    while i < db.characters.len()
        invariant
            i <= db.characters@.len(),
            texts(notices@) == version_notices(db.schema_version) + records_notices(
                db.characters@.subrange(0, i as int),
            ),
        decreases db.characters@.len() - i,
    {
        let (key, record) = db.characters.entry(i);
        record_notes(&mut notices, key.as_str(), record);
        proof {
            let s = db.characters@.subrange(0, i + 1);
            assert(s.drop_last() =~= db.characters@.subrange(0, i as int));
            assert(s.last() == db.characters@[i as int]);
        }
        i = i + 1;
    }
    assert(db.characters@.subrange(0, i as int) =~= db.characters@);
    notices
}

/// What the saved variable's value reads as: an error when a table in it
/// mixes named entries and a list, or when it does not fit the schema;
/// otherwise the database and the notices about it.
/// Where a value that does not fit the schema first goes wrong, at the top
/// of the file's table.
pub open spec fn mismatch_detail(v: LuaModel) -> Seq<char> {
    match v {
        LuaModel::Table(m, l) => if l.len() > 0 {
            "it is a list, not a record"@
        } else if !int_fits(field(m, "schemaVersion"@), 0, u16::MAX as int) {
            "schemaVersion is not a whole number from 0 to 65535"@
        } else if field(m, "characters"@) matches Some(c) && !(c matches LuaModel::Table(
            _,
            cl,
        ) && cl.len() == 0) {
            "characters is not a table of records"@
        } else {
            "a character record does not fit"@
        },
        _ => "it is not a table"@,
    }
}

pub open spec fn loads_as(v: LuaModel, r: Result<Loaded, LoadError>) -> bool {
    if mixed(v) {
        r matches Err(LoadError::Shape(m)) && m@ == "table mixes named keys and array entries"@
    } else if !item_fits::<CollectorDb>(v) {
        r matches Err(LoadError::Shape(m)) && m@
            == "WoWCoachCollectorDB does not match the schema: "@ + mismatch_detail(v)
    } else {
        r matches Ok(loaded) && item_is::<CollectorDb>(v, loaded.db) && texts(loaded.notices@)
            == notices_of(loaded.db)
    }
}

fn mismatch_of(value: &LuaValue) -> (detail: &'static str)
    ensures
        detail@ == mismatch_detail(model_of(*value)),
{
    proof {
        reveal_strlit("it is a list, not a record");
        reveal_strlit("schemaVersion is not a whole number from 0 to 65535");
        reveal_strlit("characters is not a table of records");
        reveal_strlit("a character record does not fit");
        reveal_strlit("it is not a table");
        reveal_strlit("schemaVersion");
        reveal_strlit("characters");
    }
    match value {
        LuaValue::Table(t) => {
            proof {
                lemma_table_model(*t);
            }
            if t.array.len() > 0 {
                "it is a list, not a record"
            } else if u16_field(t, "schemaVersion").is_none() {
                "schemaVersion is not a whole number from 0 to 65535"
            } else {
                match lookup(t, "characters") {
                    Some(LuaValue::Table(c)) => {
                        proof {
                            lemma_table_model(*c);
                        }
                        if c.array.len() == 0 {
                            "a character record does not fit"
                        } else {
                            "characters is not a table of records"
                        }
                    },
                    Some(_) => "characters is not a table of records",
                    None => "a character record does not fit",
                }
            }
        },
        _ => "it is not a table",
    }
}

fn load_value(value: &LuaValue) -> (r: Result<Loaded, LoadError>)
    ensures
        loads_as(model_of(*value), r),
{
    if has_mixed(value) {
        return Err(LoadError::Shape(to_owned_string("table mixes named keys and array entries")));
    }
    let db = match read_item::<CollectorDb>(value) {
        Some(db) => db,
        None => {
            let mut message = to_owned_string("WoWCoachCollectorDB does not match the schema: ");
            push_str(&mut message, mismatch_of(value));
            return Err(LoadError::Shape(message));
        },
    };
    let notices = notices_for(&db);
    Ok(Loaded { db, notices })
}

/// Read a collector SavedVariables file.
///
/// A file outside the Lua subset is a syntax error; a file without the addon's
/// global says so; otherwise the global's value is read against the schema.
pub fn load(input: &str) -> (r: Result<Loaded, LoadError>)
    requires
        input.spec_bytes().len() < i64::MAX,
        input.spec_bytes().len() < usize::MAX,
    ensures
        match parse_lua(input.spec_bytes()) {
            Err((message, offset)) => r matches Err(LoadError::Syntax(e)) && e.message@ == message
                && e.offset == offset && e.line == line_of(input.spec_bytes(), offset),
            Ok(globals) => match field(globals, "WoWCoachCollectorDB"@) {
                None => r matches Err(LoadError::MissingGlobal(name)) && name@
                    == "WoWCoachCollectorDB"@,
                Some(v) => loads_as(v, r),
            },
        },
{
    let globals = match parse_saved_variables(input) {
        Ok(globals) => globals,
        Err(e) => return Err(LoadError::Syntax(e)),
    };
    proof {
        reveal_strlit("WoWCoachCollectorDB");
    }
    match globals.get(SAVED_VARIABLE) {
        Some(value) => {
            assert(field(map_model(globals), "WoWCoachCollectorDB"@) == Some(model_of(*value)));
            load_value(value)
        },
        None => Err(LoadError::MissingGlobal(to_owned_string(SAVED_VARIABLE))),
    }
}

/// The names a character record reads.
pub open spec fn record_keys() -> Set<Seq<char>> {
    set![
        "schemaVersion"@,
        "capturedAt"@,
        "gameFlavor"@,
        "interfaceVersion"@,
        "realm"@,
        "name"@,
        "level"@,
        "class"@,
        "classID"@,
        "race"@,
        "raceID"@,
        "faction"@,
        "zone"@,
        "subZone"@,
        "bindLocation"@,
        "isResting"@,
        "moneyCopper"@,
        "xp"@,
        "maxXP"@,
        "restedXP"@,
        "skills"@,
        "skillsComplete"@,
        "talents"@,
        "quests"@,
        "questsComplete"@,
        "inventory"@,
        "ruleset"@,
        "pet"@,
        "recipes"@,
    ]
}

/// A record with nothing captured.
pub open spec fn blank_record() -> CharacterRecord {
    CharacterRecord {
        schema_version: None,
        captured_at: None,
        game_flavor: None,
        interface_version: None,
        realm: None,
        name: None,
        level: None,
        class: None,
        class_id: None,
        race: None,
        race_id: None,
        faction: None,
        zone: None,
        sub_zone: None,
        bind_location: None,
        is_resting: None,
        money_copper: None,
        xp: None,
        max_xp: None,
        rested_xp: None,
        skills: None,
        skills_complete: None,
        talents: None,
        quests: None,
        quests_complete: None,
        inventory: None,
        ruleset: None,
        pet: None,
        recipes: None,
    }
}

proof fn lemma_field_insert(m: Map<Seq<char>, LuaModel>, k: Seq<char>, v: LuaModel, key: Seq<char>)
    requires
        key != k,
    ensures
        field(m.insert(k, v), key) == field(m, key),
{
}

/// A name the reader does not know is ignored: adding one to a character's
/// table changes neither whether it reads nor what it reads as. A player who
/// updates the addon before this reader still sees their characters.
pub proof fn unknown_record_keys_are_ignored(
    m: Map<Seq<char>, LuaModel>,
    k: Seq<char>,
    v: LuaModel,
    record: CharacterRecord,
)
    requires
        !record_keys().contains(k),
    ensures
        CharacterRecord::fits(m.insert(k, v)) == CharacterRecord::fits(m),
        CharacterRecord::read_as(m.insert(k, v), record) == CharacterRecord::read_as(m, record),
{
    assert forall|key: Seq<char>| #[trigger] record_keys().contains(key) implies field(
        m.insert(k, v),
        key,
    ) == field(m, key) by {
        lemma_field_insert(m, k, v, key);
    }
    assert(CharacterRecord::fits(m.insert(k, v)) == CharacterRecord::fits(m));
}

/// A name the reader does not know is ignored at the top of the file too.
pub proof fn unknown_file_keys_are_ignored(
    m: Map<Seq<char>, LuaModel>,
    k: Seq<char>,
    v: LuaModel,
    db: CollectorDb,
)
    requires
        k != "schemaVersion"@,
        k != "characters"@,
    ensures
        CollectorDb::fits(m.insert(k, v)) == CollectorDb::fits(m),
        CollectorDb::read_as(m.insert(k, v), db) == CollectorDb::read_as(m, db),
{
    lemma_field_insert(m, k, v, "schemaVersion"@);
    lemma_field_insert(m, k, v, "characters"@);
}

/// Every field may be absent: a table with no entries is a record, with
/// nothing captured, not an error.
pub proof fn every_field_may_be_absent(record: CharacterRecord)
    ensures
        CharacterRecord::fits(Map::empty()),
        CharacterRecord::read_as(Map::empty(), record) <==> record == blank_record(),
{
    assert forall|key: Seq<char>| field(Map::<Seq<char>, LuaModel>::empty(), key) is None by {}
}

proof fn lemma_records_notices(records: Seq<(Seq<char>, CharacterRecord)>, i: int, text: Seq<char>)
    requires
        0 <= i < records.len(),
        record_notices(records[i].0, records[i].1).contains(text),
    ensures
        records_notices(records).contains(text),
    decreases records.len(),
{
    let before = records_notices(records.drop_last());
    let last = record_notices(records.last().0, records.last().1);
    if i == records.len() - 1 {
        let j = choose|j: int| 0 <= j < last.len() && last[j] == text;
        assert((before + last)[before.len() + j] == text);
    } else {
        assert(records.drop_last()[i] == records[i]);
        lemma_records_notices(records.drop_last(), i, text);
        let j = choose|j: int| 0 <= j < before.len() && before[j] == text;
        assert((before + last)[j] == text);
    }
}

/// Partial captures are surfaced, not swallowed: a record whose skills or
/// quests a collapsed header hid gets a notice that says so, by its name.
pub proof fn partial_captures_are_surfaced(db: CollectorDb, i: int)
    requires
        0 <= i < db.characters@.len(),
    ensures
        db.characters@[i].1.skills_complete == Some(false) ==> notices_of(db).contains(
            display_name_of(db.characters@[i].1, db.characters@[i].0)
                + ": skills were only partly captured (a collapsed header hid some)"@,
        ),
        db.characters@[i].1.quests_complete == Some(false) ==> notices_of(db).contains(
            display_name_of(db.characters@[i].1, db.characters@[i].0)
                + ": quests were only partly captured (a collapsed header hid some)"@,
        ),
{
    let (key, record) = db.characters@[i];
    let notes = record_notices(key, record);
    let name = display_name_of(record, key);
    let a = if record.name is None {
        seq!["character "@ + key + " has no name"@]
    } else {
        Seq::empty()
    };
    let skills = name + ": skills were only partly captured (a collapsed header hid some)"@;
    let quests = name + ": quests were only partly captured (a collapsed header hid some)"@;
    if record.skills_complete == Some(false) {
        assert(notes[a.len() as int] == skills);
        lemma_records_notices(db.characters@, i, skills);
        let v = version_notices(db.schema_version);
        let j = choose|j: int| 0 <= j < records_notices(db.characters@).len() && records_notices(db.characters@)[j] == skills;
        assert(notices_of(db)[v.len() + j] == skills);
    }
    if record.quests_complete == Some(false) {
        let b = if record.skills_complete == Some(false) { 1int } else { 0int };
        assert(notes[a.len() + b] == quests);
        lemma_records_notices(db.characters@, i, quests);
        let v = version_notices(db.schema_version);
        let j = choose|j: int| 0 <= j < records_notices(db.characters@).len() && records_notices(db.characters@)[j] == quests;
        assert(notices_of(db)[v.len() + j] == quests);
    }
}

/// Whether a capture replaces the one already held for a character: only a
/// later one does. An absent time counts as earlier than any known one.
pub open spec fn captured_later(incoming: Option<i64>, held: Option<i64>) -> bool {
    match (incoming, held) {
        (Some(a), Some(b)) => a > b,
        (Some(_), None) => true,
        _ => false,
    }
}

fn replaces(incoming: Option<i64>, held: Option<i64>) -> (later: bool)
    ensures
        later == captured_later(incoming, held),
{
    match (incoming, held) {
        (Some(a), Some(b)) => a > b,
        (Some(_), None) => true,
        _ => false,
    }
}

fn later_capture(incoming: &CharacterRecord, held: &CharacterRecord) -> (later: bool)
    ensures
        later == captured_later(incoming.captured_at, held.captured_at),
{
    replaces(incoming.captured_at, held.captured_at)
}

/// Merge the characters of another file into those already read.
///
/// The same character can appear in several files only if the same account
/// is installed twice; whichever record was captured later is kept, and the
/// one already held when the times tie.
pub fn merge_characters(into: &mut StrMap<CharacterRecord>, from: StrMap<CharacterRecord>)
    ensures
        forall|k: Seq<char>|
            #[trigger] value_of(final(into)@, k) == merged_value(
                value_of(old(into)@, k),
                value_of(from@, k),
                |n: CharacterRecord, o: CharacterRecord| captured_later(n.captured_at, o.captured_at),
            ),
{
    into.merge(
        from,
        Ghost(|n: CharacterRecord, o: CharacterRecord| captured_later(n.captured_at, o.captured_at)),
        later_capture,
    );
}

/// Which file is read first does not matter: merging two files' records for
/// a character, in either order, keeps the one captured later, unless the two
/// were captured at the same moment and nothing tells them apart.
pub proof fn file_order_does_not_matter(a: Option<CharacterRecord>, b: Option<CharacterRecord>)
    requires
        a matches Some(x) && b matches Some(y) ==> captured_later(x.captured_at, y.captured_at)
            || captured_later(y.captured_at, x.captured_at),
    ensures
        ({
            let later = |n: CharacterRecord, o: CharacterRecord| captured_later(n.captured_at, o.captured_at);
            merged_value(merged_value(None, a, later), b, later) == merged_value(
                merged_value(None, b, later),
                a,
                later,
            )
        }),
{
}

/// Reading the same file twice is reading it once: merging its records again
/// changes nothing.
pub proof fn merging_twice_is_merging_once(held: Option<CharacterRecord>, incoming: Option<CharacterRecord>)
    ensures
        ({
            let later = |n: CharacterRecord, o: CharacterRecord| captured_later(n.captured_at, o.captured_at);
            merged_value(merged_value(held, incoming, later), incoming, later) == merged_value(
                held,
                incoming,
                later,
            )
        }),
{
}

} // verus!
