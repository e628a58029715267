//! Tests for how figures are written and answers are read.

use wow_coach_core::economy::Holding;
use wow_coach_core::history::XpGain;
use wow_coach_core::present::{
    auctionator_advice, days_ago, describe_role, describe_role_short, describe_xp, gold, holders,
    item_label, market_tag, money, parse_role_change, read_answer, truncate, AddonStatus,
    Answer, RoleChange,
};
use wow_coach_core::roster::Role;
use wow_coach_core::text::StrMap;

fn holding(market: Option<&str>, name: Option<&str>, held_by: &[(&str, u32)]) -> Holding {
    let mut by = StrMap::new();
    for (who, count) in held_by {
        by.insert(who.to_string(), *count);
    }
    Holding {
        market: market.map(str::to_string),
        item_id: 2589,
        name: name.map(str::to_string),
        count: held_by.iter().map(|(_, c)| c).sum(),
        held_by: by,
        unit_price: None,
        typical_price: None,
        value: None,
        typical_value: None,
        days_stale: None,
    }
}

#[test]
fn gold_splits_copper_and_keeps_the_sign_of_a_loss() {
    assert_eq!(gold(1_234_567), "123g 45s 67c");
    assert_eq!(gold(-380_000), "-38g 0s 0c");
    assert_eq!(gold(0), "0g 0s 0c");
    assert_eq!(gold(-5), "-0g 0s 5c");
    assert_eq!(gold(i64::MIN), "-922337203685477g 58s 8c");
}

#[test]
fn money_drops_the_units_that_are_zero() {
    assert_eq!(money(1_234_567), "123g 45s");
    assert_eq!(money(4_567), "45s 67c");
    assert_eq!(money(7), "7c");
    assert_eq!(money(0), "0c");
    assert_eq!(money(10_000), "1g 0s");
}

#[test]
fn xp_is_described_as_exact_a_floor_or_unknown() {
    assert_eq!(describe_xp(&XpGain::Exact(0)), "no XP");
    assert_eq!(describe_xp(&XpGain::Exact(1500)), "1500 XP");
    assert_eq!(describe_xp(&XpGain::AtLeast(20)), "at least 20 XP");
    assert_eq!(describe_xp(&XpGain::Unknown), "XP not known");
}

#[test]
fn truncation_counts_characters_and_marks_the_cut() {
    assert_eq!(truncate("Stormwind", 20), "Stormwind");
    assert_eq!(truncate("Stormwind", 9), "Stormwind");
    assert_eq!(truncate("Stormwind", 6), "Storm…");
    assert_eq!(truncate("Zoë Ærith", 4), "Zoë…");
    assert_eq!(truncate("abc", 0), "…");
    assert_eq!(truncate("", 0), "");
}

#[test]
fn roles_have_a_long_and_a_short_name() {
    assert_eq!(describe_role(Role::Active), "active");
    assert_eq!(describe_role(Role::Bank), "a bank alt");
    assert_eq!(describe_role(Role::Parked), "parked");
    assert_eq!(describe_role_short(Role::Active), "active");
    assert_eq!(describe_role_short(Role::Bank), "bank");
    assert_eq!(describe_role_short(Role::Parked), "parked");
}

#[test]
fn an_item_is_labelled_by_name_or_by_id() {
    assert_eq!(item_label(&holding(None, Some("Linen Cloth"), &[])), "Linen Cloth");
    assert_eq!(item_label(&holding(None, None, &[])), "item 2589");
}

#[test]
fn holders_are_listed_by_name_with_their_counts() {
    let h = holding(None, None, &[("Zed", 3), ("Ann", 20)]);
    assert_eq!(holders(&h), "Ann 20, Zed 3");
    assert_eq!(holders(&holding(None, None, &[])), "");
}

#[test]
fn the_market_tag_is_the_faction_half_of_the_key() {
    assert_eq!(market_tag(&holding(Some("Dreamscythe Horde"), None, &[])), "Horde");
    assert_eq!(market_tag(&holding(Some("Living Flame Alliance"), None, &[])), "Alliance");
    assert_eq!(market_tag(&holding(Some("Nospace"), None, &[])), "?");
    assert_eq!(market_tag(&holding(None, None, &[])), "?");
}

#[test]
fn days_are_counted_in_whole_days() {
    let day = 86_400;
    assert_eq!(days_ago(10 * day, 10 * day), "today");
    assert_eq!(days_ago(10 * day, 10 * day + 5), "today");
    assert_eq!(days_ago(10 * day + day - 1, 10 * day), "today");
    assert_eq!(days_ago(11 * day, 10 * day), "yesterday");
    assert_eq!(days_ago(12 * day + 100, 10 * day), "2 days ago");
}

#[test]
fn a_role_is_read_from_a_word_in_any_case() {
    assert_eq!(parse_role_change("BANK"), Ok(RoleChange::Assign(Role::Bank)));
    assert_eq!(parse_role_change("Active"), Ok(RoleChange::Assign(Role::Active)));
    assert_eq!(parse_role_change("parked"), Ok(RoleChange::Assign(Role::Parked)));
    assert_eq!(parse_role_change("unset"), Ok(RoleChange::Clear));
    assert_eq!(parse_role_change("None"), Ok(RoleChange::Clear));
    assert_eq!(parse_role_change("CLEAR"), Ok(RoleChange::Clear));
    assert_eq!(
        parse_role_change("Banker"),
        Err("banker is not a role; use active, bank, parked, or unset to undo".to_string())
    );
}

#[test]
fn an_answer_defaults_to_the_suggestion() {
    assert_eq!(read_answer("\n", Role::Bank), Answer::Take(Role::Bank));
    assert_eq!(read_answer(" Yes \n", Role::Parked), Answer::Take(Role::Parked));
    assert_eq!(read_answer("accept", Role::Bank), Answer::Take(Role::Bank));
    assert_eq!(read_answer("a", Role::Bank), Answer::Take(Role::Active));
    assert_eq!(read_answer("BANK\n", Role::Parked), Answer::Take(Role::Bank));
    assert_eq!(read_answer("p", Role::Bank), Answer::Take(Role::Parked));
    assert_eq!(read_answer("q\n", Role::Bank), Answer::Quit);
    assert_eq!(read_answer("quit", Role::Bank), Answer::Quit);
    assert_eq!(read_answer("s", Role::Bank), Answer::Skip);
    assert_eq!(read_answer("maybe", Role::Bank), Answer::Skip);
}

fn status(flavor: &str, name: &'static str, installed: bool) -> AddonStatus {
    AddonStatus {
        flavor: flavor.to_string(),
        name,
        installed,
        required: name == "WoWCoachCollector",
        purpose: "",
    }
}

#[test]
fn auctionator_is_advised_only_where_the_collector_is_installed() {
    let statuses = vec![
        status("_classic_era_", "WoWCoachCollector", true),
        status("_classic_era_", "Auctionator", false),
        status("_retail_", "WoWCoachCollector", false),
        status("_retail_", "Auctionator", false),
        status("_anniversary_", "WoWCoachCollector", true),
        status("_anniversary_", "Auctionator", false),
    ];
    assert_eq!(
        auctionator_advice(&statuses),
        Some(
            "Auctionator is not installed (_classic_era_, _anniversary_). It is optional, but \
             without it there are no auction prices, so nothing can say what is worth crafting \
             or selling. Install it from CurseForge or https://github.com/Auctionator/Auctionator."
                .to_string()
        )
    );
    let fine = vec![
        status("_classic_era_", "WoWCoachCollector", true),
        status("_classic_era_", "Auctionator", true),
    ];
    assert_eq!(auctionator_advice(&fine), None);
    assert_eq!(auctionator_advice(&[]), None);
}
