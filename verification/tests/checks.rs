//! Tests for the checks that say when a figure can be worked out.

use wow_coach_core::classify::{judgeable, roster_is_judgeable};
use wow_coach_core::coaching::{readable, roster_is_readable};
use wow_coach_core::collector::CharacterRecord;
use wow_coach_core::history::{delta_computable, spans_computable, History, Snapshot};
use wow_coach_core::roster::{Role, RosterConfig, RosterEntry};

fn snapshot(at: i64, level: u16, xp: u64, max_xp: u64, copper: u64) -> Snapshot {
    Snapshot {
        key: "k:Alt".to_string(),
        name: "Alt".to_string(),
        captured_at: at,
        level: Some(level),
        xp: Some(xp),
        max_xp: Some(max_xp),
        rested_xp: Some(0),
        money_copper: Some(copper),
        zone: None,
        quest_count: None,
        free_bag_slots: None,
        skills: Default::default(),
    }
}

#[test]
fn ordinary_snapshots_can_be_compared() {
    let before = snapshot(1_000, 20, 18_000, 20_000, 5);
    let after = snapshot(2_000, 21, 1_500, 22_000, 50);
    assert!(delta_computable(&before, &after));
}

#[test]
fn a_change_in_copper_beyond_an_i64_cannot_be_compared() {
    // Copper is compared as an i64, as the change is reported.
    let before = snapshot(1_000, 20, 0, 20_000, 1 << 63);
    let after = snapshot(2_000, 20, 0, 20_000, 1);
    assert!(!delta_computable(&before, &after));
    let after = snapshot(2_000, 20, 0, 20_000, 1 << 63);
    assert!(delta_computable(&before, &after));
}

#[test]
fn xp_across_a_level_beyond_a_u64_cannot_be_compared() {
    let before = snapshot(1_000, 20, 0, u64::MAX, 0);
    let after = snapshot(2_000, 21, 10, 30_000, 0);
    assert!(!delta_computable(&before, &after));
    let within = snapshot(2_000, 20, 10, u64::MAX, 0);
    assert!(delta_computable(&before, &within));
}

#[test]
fn a_history_is_judged_by_its_oldest_and_newest_captures() {
    let mut history = History::default();
    assert!(spans_computable(&history, "k:Alt"), "no captures, nothing to compare");
    assert!(judgeable(&history, "k:Alt"));
    history.record(snapshot(1_000, 20, 0, 20_000, 1 << 63));
    history.record(snapshot(2_000, 20, 0, 20_000, 1 << 63));
    assert!(spans_computable(&history, "k:Alt"));
    assert!(judgeable(&history, "k:Alt"));
    history.record(snapshot(3_000, 20, 0, 20_000, 1));
    assert!(!spans_computable(&history, "k:Alt"));
    assert!(
        judgeable(&history, "k:Alt"),
        "a span under a fortnight is never compared, so it need not be comparable"
    );
    history.record(snapshot(3_000 + 14 * 86_400, 20, 0, 20_000, 1));
    assert!(!judgeable(&history, "k:Alt"));
}

#[test]
fn a_span_longer_than_an_i64_cannot_be_judged() {
    let mut history = History::default();
    history.record(snapshot(i64::MIN, 20, 0, 20_000, 0));
    history.record(snapshot(i64::MAX, 20, 0, 20_000, 0));
    assert!(spans_computable(&history, "k:Alt"));
    assert!(!judgeable(&history, "k:Alt"));
}

#[test]
fn a_rested_cap_beyond_a_u64_cannot_be_read() {
    let mut record = CharacterRecord::default();
    assert!(readable(&record));
    record.max_xp = Some(u64::MAX / 3);
    assert!(readable(&record));
    record.max_xp = Some(u64::MAX / 3 + 1);
    assert!(!readable(&record));
    record.game_flavor = Some("forever".to_string());
    assert!(readable(&record), "no cap is worked out where the model is not known");
}

#[test]
fn a_roster_is_readable_and_judgeable_when_every_entry_is() {
    let fine = CharacterRecord::default();
    let mut huge = CharacterRecord::default();
    huge.max_xp = Some(u64::MAX);
    let history = History::default();
    let entries = vec![
        RosterEntry { key: "a", record: &fine, role: Role::Active },
        RosterEntry { key: "b", record: &huge, role: Role::Bank },
    ];
    assert!(!roster_is_readable(&entries));
    assert!(roster_is_readable(&entries[..1]));
    let mut config = RosterConfig::default();
    assert!(roster_is_judgeable(&entries, &config, &history));
    let mut long = History::default();
    long.record(Snapshot { key: "b".to_string(), ..snapshot(i64::MIN, 1, 0, 1, 0) });
    long.record(Snapshot { key: "b".to_string(), ..snapshot(i64::MAX, 1, 0, 1, 0) });
    assert!(!roster_is_judgeable(&entries, &config, &long));
    config.set_role("b", Role::Bank);
    assert!(
        roster_is_judgeable(&entries, &config, &long),
        "a character with a role is never judged"
    );
    assert!(roster_is_readable(&[]));
}
