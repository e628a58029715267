//! Tests for the collector reader and the restricted Lua subset it reads.

use std::collections::BTreeMap;

use wow_coach_core::collector::{self, LoadError};
use wow_coach_core::lua;
use wow_coach_core::roster::{self, Role, RosterConfig};

#[test]
fn a_ruleset_with_an_unknown_flag_is_not_called_normal() {
    let partly_known = collector::Ruleset {
        hardcore: Some(false),
        pvp: None,
        rp: Some(false),
        self_found: None,
    };
    assert!(
        !partly_known.is_normal(),
        "an unknown flag must not be read as absence of that ruleset"
    );
}

#[test]
fn every_field_may_be_absent() {
    let minimal = r#"WoWCoachCollectorDB = { ["characters"] = { ["k"] = { } } }"#;
    let loaded = collector::load(minimal).expect("a record with nothing in it is still a record");
    let record = loaded.db.characters.get("k").unwrap();
    assert!(record.level.is_none());
    assert!(record.skills.is_none());
    assert_eq!(record.display_name("k"), "k", "falls back to the key");
    assert!(loaded
        .notices
        .iter()
        .any(|notice| notice.contains("no schema version")));
}

#[test]
fn a_newer_schema_is_read_not_rejected() {
    let newer = r#"
        WoWCoachCollectorDB = {
            ["schemaVersion"] = 99,
            ["characters"] = {
                ["k"] = { ["name"] = "Future", ["level"] = 60, ["somethingNew"] = 1 },
            },
        }
    "#;
    let loaded = collector::load(newer).expect("a player who updates the addon first still counts");
    assert_eq!(
        loaded.db.characters.get("k").unwrap().name.as_deref(),
        Some("Future")
    );
    assert!(loaded
        .notices
        .iter()
        .any(|notice| notice.contains("schema v99")));
}

#[test]
fn partial_captures_are_surfaced_not_swallowed() {
    let partial = r#"
        WoWCoachCollectorDB = {
            ["schemaVersion"] = 2,
            ["characters"] = {
                ["k"] = { ["name"] = "Half", ["skillsComplete"] = false,
                          ["questsComplete"] = false },
            },
        }
    "#;
    let loaded = collector::load(partial).unwrap();
    assert!(loaded
        .notices
        .iter()
        .any(|notice| notice.contains("skills were only partly captured")));
    assert!(loaded
        .notices
        .iter()
        .any(|notice| notice.contains("quests were only partly captured")));
}

#[test]
fn rejects_anything_outside_the_subset() {
    // The whole point is that this is not an interpreter.
    for (source, description) in [
        (r#"X = os.time()"#, "a function call"),
        (r#"X = { ["a"] = nil }"#, "a stored nil"),
        (r#"X = { ["a"] = 1 + 2 }"#, "an expression"),
        (r#"X = { ["a"] = 1 "#, "an unterminated table"),
        (r#"X = { [{}] = 1 }"#, "a table used as a key"),
        (r#"X = "unterminated"#, "an unterminated string"),
    ] {
        assert!(
            collector::load(source).is_err() || lua::parse_saved_variables(source).is_err(),
            "{description} should be rejected"
        );
    }
}

#[test]
fn reports_where_the_problem_is() {
    let broken = "WoWCoachCollectorDB = {\n  [\"a\"] = 1,\n  [\"b\"] = @,\n}\n";
    match collector::load(broken) {
        Err(LoadError::Syntax(error)) => {
            assert_eq!(error.line, 3, "the error should name the offending line");
            assert!(error.message.contains('@'));
        }
        other => panic!("expected a syntax error, got {other:?}"),
    }
}

#[test]
fn a_file_without_the_addon_global_says_so() {
    let wrong = r#"SomeOtherAddonDB = { ["a"] = 1 }"#;
    match collector::load(wrong) {
        Err(LoadError::MissingGlobal(name)) => assert_eq!(name, "WoWCoachCollectorDB"),
        other => panic!("expected a missing-global error, got {other:?}"),
    }
}

#[test]
fn array_entries_must_be_in_order() {
    // WoW's writer always emits arrays in order. Anything else came from
    // somewhere else, and quietly reordering it would hide that.
    let shuffled = r#"X = { [2] = "b", [1] = "a" }"#;
    assert!(lua::parse_saved_variables(shuffled).is_err());
}

#[test]
fn parses_the_strings_wow_actually_writes() {
    let source = r#"X = { ["quoted"] = "say \"hi\"", ["path"] = "a\\b",
                          ["newline"] = "one\ntwo", ["byte"] = "\65\66" }"#;
    let globals = lua::parse_saved_variables(source).expect("should parse");
    let table = globals.get("X").unwrap().as_table().unwrap();
    assert_eq!(table.get("quoted").unwrap().as_str(), Some("say \"hi\""));
    assert_eq!(table.get("path").unwrap().as_str(), Some("a\\b"));
    assert_eq!(table.get("newline").unwrap().as_str(), Some("one\ntwo"));
    assert_eq!(table.get("byte").unwrap().as_str(), Some("AB"));
}

#[test]
fn handles_non_ascii_names() {
    // Realm and character names are not all ASCII.
    let source = r#"X = { ["name"] = "Sylvanas Windläufer" }"#;
    let globals = lua::parse_saved_variables(source).expect("should parse");
    let table = globals.get("X").unwrap().as_table().unwrap();
    assert_eq!(
        table.get("name").unwrap().as_str(),
        Some("Sylvanas Windläufer")
    );
}

#[test]
fn an_empty_character_list_is_not_an_error() {
    let empty = r#"WoWCoachCollectorDB = { ["schemaVersion"] = 2, ["characters"] = { } }"#;
    let loaded = collector::load(empty).expect("a fresh install has no characters yet");
    assert!(loaded.db.characters.is_empty());
    let entries = roster::roster(&loaded.db.characters, &RosterConfig::default());
    assert!(entries.is_empty());
}

#[test]
fn keys_stay_distinct_across_flavors() {
    // The same character name on two clients must not collide, which is what
    // the length-prefixed key is for.
    let both = r#"
        WoWCoachCollectorDB = {
            ["characters"] = {
                ["11:tbc_classic|5:Realm|4:Same"] = { ["name"] = "Same", ["level"] = 30 },
                ["7:forever|5:Realm|4:Same"] = { ["name"] = "Same", ["level"] = 12 },
            },
        }
    "#;
    let loaded = collector::load(both).unwrap();
    assert_eq!(loaded.db.characters.len(), 2);
    let mut levels = BTreeMap::new();
    for i in 0..loaded.db.characters.len() {
        let (key, record) = loaded.db.characters.entry(i);
        levels.insert(key.clone(), record.level);
    }
    assert_eq!(levels.len(), 2);
}

#[test]
fn roles_default_to_active_and_resolve_by_name() {
    let source = r#"WoWCoachCollectorDB = { ["schemaVersion"] = 2, ["characters"] = {
        ["Testrealm-TestHero"] = { ["name"] = "TestHero", ["realm"] = "Testrealm", ["level"] = 60 },
    } }"#;
    let loaded = collector::load(source).unwrap();
    let config = RosterConfig::default();
    let keys = loaded.db.characters.keys();
    let key = keys[0];
    assert_eq!(config.role_for(key), Role::Active);

    // Players type names, not storage keys, and not consistently capitalised.
    let resolved = RosterConfig::resolve(&loaded.db.characters, "testhero");
    assert_eq!(resolved, Some(key.as_str()));
    assert_eq!(RosterConfig::resolve(&loaded.db.characters, "nobody"), None);
}
