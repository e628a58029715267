//! Tests for what loading a collector file says about it.

use wow_coach_core::collector::{self, LoadError};

fn notices_of(input: &str) -> Vec<String> {
    collector::load(input).expect("the file loads").notices
}

#[test]
fn a_file_without_a_schema_version_says_so() {
    let notices = notices_of(r#"WoWCoachCollectorDB = { ["characters"] = { } }"#);
    assert_eq!(notices, vec!["file declares no schema version".to_string()]);
}

#[test]
fn a_known_schema_version_raises_nothing() {
    let notices = notices_of(r#"WoWCoachCollectorDB = { ["schemaVersion"] = 2 }"#);
    assert!(notices.is_empty());
}

#[test]
fn a_newer_schema_version_names_both_versions() {
    let notices = notices_of(r#"WoWCoachCollectorDB = { ["schemaVersion"] = 7 }"#);
    assert_eq!(
        notices,
        vec!["file declares schema v7; this reader knows v2, so newer fields were ignored".to_string()]
    );
}

#[test]
fn notices_follow_the_order_of_the_records() {
    let input = r#"WoWCoachCollectorDB = { ["schemaVersion"] = 2, ["characters"] = {
        ["b"] = { ["name"] = "Bee", ["quests_unused"] = 1, ["questsComplete"] = false },
        ["a"] = { ["skillsComplete"] = false, ["questsComplete"] = false },
    } }"#;
    assert_eq!(
        notices_of(input),
        vec![
            "character a has no name".to_string(),
            "a: skills were only partly captured (a collapsed header hid some)".to_string(),
            "a: quests were only partly captured (a collapsed header hid some)".to_string(),
            "Bee: quests were only partly captured (a collapsed header hid some)".to_string(),
        ]
    );
}

#[test]
fn a_table_mixing_names_and_entries_is_a_shape_error() {
    let input = r#"WoWCoachCollectorDB = { ["schemaVersion"] = 2, 1 }"#;
    assert_eq!(
        collector::load(input),
        Err(LoadError::Shape("table mixes named keys and array entries".to_string()))
    );
}

#[test]
fn a_value_of_the_wrong_kind_is_a_shape_error() {
    let input = r#"WoWCoachCollectorDB = { ["schemaVersion"] = "two" }"#;
    match collector::load(input) {
        Err(LoadError::Shape(message)) => {
            assert_eq!(
                message,
                "WoWCoachCollectorDB does not match the schema: \
                 schemaVersion is not a whole number from 0 to 65535"
            )
        }
        other => panic!("expected a shape error, got {other:?}"),
    }
}

#[test]
fn a_number_out_of_its_range_is_a_shape_error() {
    let input = r#"WoWCoachCollectorDB = { ["characters"] = { ["k"] = { ["level"] = -1 } } }"#;
    assert!(matches!(collector::load(input), Err(LoadError::Shape(_))));
    let input = r#"WoWCoachCollectorDB = { ["characters"] = { ["k"] = { ["level"] = 2.5 } } }"#;
    assert_eq!(
        collector::load(input),
        Err(LoadError::Shape(
            "WoWCoachCollectorDB does not match the schema: a character record does not fit"
                .to_string()
        ))
    );
    let input = r#"WoWCoachCollectorDB = { ["characters"] = "none" }"#;
    assert_eq!(
        collector::load(input),
        Err(LoadError::Shape(
            "WoWCoachCollectorDB does not match the schema: characters is not a table of records"
                .to_string()
        ))
    );
    let input = r#"WoWCoachCollectorDB = 7"#;
    assert_eq!(
        collector::load(input),
        Err(LoadError::Shape(
            "WoWCoachCollectorDB does not match the schema: it is not a table".to_string()
        ))
    );
}

#[test]
fn record_fields_are_read_by_their_stored_names() {
    let input = r#"WoWCoachCollectorDB = { ["schemaVersion"] = 2, ["characters"] = { ["k"] = {
        ["name"] = "Kay", ["level"] = 60, ["maxXP"] = 1000, ["restedXP"] = 250,
        ["moneyCopper"] = 1234567, ["isResting"] = true, ["gameFlavor"] = "era",
    } } }"#;
    let loaded = collector::load(input).unwrap();
    let record = loaded.db.characters.get("k").unwrap();
    assert_eq!(record.display_name("k"), "Kay");
    assert_eq!(record.level, Some(60));
    assert_eq!(record.rested_xp, Some(250));
    assert_eq!(record.is_resting, Some(true));
    assert_eq!(record.gold(), Some(123));
    assert!(record.rested_cap_is_known());
    assert_eq!(record.rested_cap(), Some(1500));
}

#[test]
fn the_rested_cap_is_not_known_on_forever() {
    let input = r#"WoWCoachCollectorDB = { ["characters"] = { ["k"] = {
        ["maxXP"] = 1000, ["gameFlavor"] = "forever",
    } } }"#;
    let loaded = collector::load(input).unwrap();
    let record = loaded.db.characters.get("k").unwrap();
    assert!(!record.rested_cap_is_known());
}

#[test]
fn load_errors_read_as_sentences() {
    let missing = collector::load(r#"Other = { }"#).unwrap_err();
    assert_eq!(
        missing.to_text(),
        "WoWCoachCollectorDB is not in this file — is it the collector's SavedVariables?"
    );
    let syntax = collector::load("WoWCoachCollectorDB = {\n nil }").unwrap_err();
    assert_eq!(syntax.to_text(), "line 2: nil is not part of the collector's subset");
    let shape = LoadError::Shape("the shape".to_string());
    assert_eq!(shape.to_text(), "the shape");
}
