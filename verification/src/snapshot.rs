//! The parts of a versioned character snapshot and of the legacy report that
//! hold no time, and the identity check a history entry makes.

use vstd::prelude::*;

use crate::identity::{CharacterIdentity, GameFlavor};
use crate::text::str_eq;

verus! {

#[derive(Debug, Clone, PartialEq, Eq)]
pub struct ProfessionSnapshot {
    pub rank: u16,
    pub maximum_rank: Option<u16>,
}

/// Whether two flavors are the same: the same built-in one, or custom ones of
/// the same text.
pub open spec fn same_flavor(a: GameFlavor, b: GameFlavor) -> bool {
    match (a, b) {
        (GameFlavor::Anniversary, GameFlavor::Anniversary) => true,
        (GameFlavor::TbcClassic, GameFlavor::TbcClassic) => true,
        (GameFlavor::ClassicEra, GameFlavor::ClassicEra) => true,
        (GameFlavor::Retail, GameFlavor::Retail) => true,
        (GameFlavor::Other(x), GameFlavor::Other(y)) => x@ == y@,
        _ => false,
    }
}

/// Whether two identities are field for field the same.
pub open spec fn same_identity(a: CharacterIdentity, b: CharacterIdentity) -> bool {
    &&& a.account.installation_id@ == b.account.installation_id@
    &&& a.account.account_id@ == b.account.account_id@
    &&& same_flavor(a.game_flavor, b.game_flavor)
    &&& a.region@ == b.region@
    &&& a.realm@ == b.realm@
    &&& a.character_name@ == b.character_name@
}

fn flavors_match(a: &GameFlavor, b: &GameFlavor) -> (same: bool)
    ensures
        same == same_flavor(*a, *b),
{
    match (a, b) {
        (GameFlavor::Anniversary, GameFlavor::Anniversary) => true,
        (GameFlavor::TbcClassic, GameFlavor::TbcClassic) => true,
        (GameFlavor::ClassicEra, GameFlavor::ClassicEra) => true,
        (GameFlavor::Retail, GameFlavor::Retail) => true,
        (GameFlavor::Other(x), GameFlavor::Other(y)) => str_eq(x.as_str(), y.as_str()),
        _ => false,
    }
}

impl CharacterIdentity {
    /// Whether two identities name the same character, field for field.
    pub fn same_as(&self, other: &CharacterIdentity) -> (same: bool)
        ensures
            same == same_identity(*self, *other),
    {
        str_eq(self.account.installation_id.as_str(), other.account.installation_id.as_str())
            && str_eq(self.account.account_id.as_str(), other.account.account_id.as_str())
            && flavors_match(&self.game_flavor, &other.game_flavor) && str_eq(
            self.region.as_str(),
            other.region.as_str(),
        ) && str_eq(self.realm.as_str(), other.realm.as_str()) && str_eq(
            self.character_name.as_str(),
            other.character_name.as_str(),
        )
    }
}

#[derive(Debug, Clone)]
pub struct LegacyAccountV3 {
    pub account: String,
    pub source_path: String,
    pub characters: Vec<LegacyCharacterV3>,
}

#[derive(Debug, Clone)]
pub struct LegacyCharacterV3 {
    pub name: String,
    pub realm: Option<String>,
    pub faction: Option<String>,
    pub race: Option<String>,
    pub character_class: Option<String>,
    pub level: Option<u16>,
    pub money_copper: Option<u64>,
    pub zone: Option<String>,
}

} // verus!
