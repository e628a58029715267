//! Parser, models and coaching rules for the WoW Coach companion.

pub mod auctionator;
pub mod coaching;
pub mod classify;
pub mod collector;
pub mod economy;
pub mod gap;
pub mod history;
pub mod literal;
pub mod lua;
pub mod order;
pub mod present;
pub mod roster;
pub mod schema;
pub mod snapshot;
pub mod text;
pub mod identity;

pub use identity::{AccountIdentity, CharacterIdentity, GameFlavor};
pub use snapshot::{LegacyAccountV3, LegacyCharacterV3, ProfessionSnapshot};
