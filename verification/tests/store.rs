//! Tests for reading the history store's lines and merging what several
//! files hold.

use std::collections::BTreeMap;

use wow_coach_core::auctionator::{merge_prices, ItemPrices, PriceDb, RealmPrices};
use wow_coach_core::collector::{merge_characters, CharacterRecord};
use wow_coach_core::history::store_lines;
use wow_coach_core::text::StrMap;

#[test]
fn store_lines_skip_blanks_and_keep_their_numbers() {
    let lines = store_lines("{\"a\":1}\n\n  {\"b\":2} \r\n\n");
    assert_eq!(
        lines,
        vec![(1, "{\"a\":1}".to_string()), (3, "{\"b\":2}".to_string())]
    );
}

#[test]
fn a_last_line_without_a_break_is_read() {
    assert_eq!(store_lines("x\ny"), vec![(1, "x".to_string()), (2, "y".to_string())]);
    assert!(store_lines("").is_empty());
    assert!(store_lines("\n \n\t").is_empty());
}

fn record(name: &str, at: Option<i64>) -> CharacterRecord {
    CharacterRecord { name: Some(name.to_string()), captured_at: at, ..Default::default() }
}

#[test]
fn the_later_capture_of_a_character_wins_a_merge() {
    let mut held = StrMap::new();
    held.insert("a".to_string(), record("old a", Some(100)));
    held.insert("b".to_string(), record("old b", Some(100)));
    held.insert("c".to_string(), record("old c", None));
    held.insert("d".to_string(), record("old d", Some(100)));
    let mut incoming = StrMap::new();
    incoming.insert("a".to_string(), record("new a", Some(200)));
    incoming.insert("b".to_string(), record("new b", Some(100)));
    incoming.insert("c".to_string(), record("new c", Some(1)));
    incoming.insert("d".to_string(), record("new d", None));
    incoming.insert("e".to_string(), record("new e", None));
    merge_characters(&mut held, incoming);
    let name = |k: &str| held.get(k).unwrap().name.clone().unwrap();
    assert_eq!(name("a"), "new a");
    assert_eq!(name("b"), "old b", "a tie keeps what was held");
    assert_eq!(name("c"), "new c", "a known time is later than none");
    assert_eq!(name("d"), "old d");
    assert_eq!(name("e"), "new e");
    assert_eq!(held.len(), 5);
}

fn realm(items: &[&str]) -> RealmPrices {
    let mut map = StrMap::new();
    for item in items {
        map.insert(item.to_string(), ItemPrices::default());
    }
    RealmPrices { items: map }
}

#[test]
fn the_realm_scan_that_saw_more_items_wins_a_merge() {
    let mut held = PriceDb::default();
    held.realms.insert("R Horde".to_string(), realm(&["1", "2"]));
    held.realms.insert("R Alliance".to_string(), realm(&["1", "2"]));
    held.vendor.insert(1, 10);
    held.vendor.insert(2, 20);
    held.notes.push("kept".to_string());
    let mut loaded = PriceDb::default();
    loaded.realms.insert("R Horde".to_string(), realm(&["1", "2", "3"]));
    loaded.realms.insert("R Alliance".to_string(), realm(&["9", "8"]));
    loaded.realms.insert("S Horde".to_string(), realm(&[]));
    loaded.vendor.insert(2, 25);
    loaded.vendor.insert(3, 30);
    loaded.notes.push("left to the caller".to_string());
    merge_prices(&mut held, loaded);
    assert_eq!(held.realms.get("R Horde").unwrap().items.len(), 3);
    assert!(held.realms.get("R Alliance").unwrap().items.get("1").is_some(), "a tie keeps what was held");
    assert!(held.realms.get("S Horde").is_some());
    assert_eq!(held.vendor, BTreeMap::from([(1, 10), (2, 25), (3, 30)]));
    assert_eq!(held.notes, vec!["kept".to_string()]);
}

fn file(records: &[(&str, &str, Option<i64>)]) -> StrMap<CharacterRecord> {
    let mut map = StrMap::new();
    for (key, name, at) in records {
        map.insert(key.to_string(), record(name, *at));
    }
    map
}

fn names(map: &StrMap<CharacterRecord>) -> Vec<(String, String)> {
    (0..map.len())
        .map(|i| {
            let (key, record) = map.entry(i);
            (key.clone(), record.name.clone().unwrap_or_default())
        })
        .collect()
}

#[test]
fn files_merge_to_the_same_roster_in_either_order() {
    let a = || file(&[("x", "x from a", Some(5)), ("y", "y from a", Some(1))]);
    let b = || file(&[("x", "x from b", Some(3)), ("z", "z from b", None)]);
    let mut first = StrMap::new();
    merge_characters(&mut first, a());
    merge_characters(&mut first, b());
    let mut second = StrMap::new();
    merge_characters(&mut second, b());
    merge_characters(&mut second, a());
    assert_eq!(names(&first), names(&second));
    assert_eq!(
        names(&first),
        vec![
            ("x".to_string(), "x from a".to_string()),
            ("y".to_string(), "y from a".to_string()),
            ("z".to_string(), "z from b".to_string()),
        ]
    );
    merge_characters(&mut first, a());
    assert_eq!(names(&first), names(&second), "reading a file again changes nothing");
}
