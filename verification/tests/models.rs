use wow_coach_core::{AccountIdentity, CharacterIdentity, GameFlavor};

#[test]
fn character_keys_do_not_collide_when_components_contain_separators() {
    let left = CharacterIdentity::new(
        AccountIdentity::new("install:a", "account"),
        GameFlavor::Anniversary,
        "US",
        "Realm:One",
        "Hero",
    );
    let right = CharacterIdentity::new(
        AccountIdentity::new("install", "a:account"),
        GameFlavor::Anniversary,
        "US",
        "Realm",
        "One:Hero",
    );

    assert_ne!(left.storage_key(), right.storage_key());
}

#[test]
fn identity_normalizes_case_and_surrounding_whitespace() {
    let first = CharacterIdentity::new(
        AccountIdentity::new(" Local Install ", " Example Account "),
        GameFlavor::TbcClassic,
        " us ",
        " Example Realm ",
        " Examplemage ",
    );
    let second = CharacterIdentity::new(
        AccountIdentity::new("local install", "example account"),
        GameFlavor::TbcClassic,
        "US",
        "example realm",
        "examplemage",
    );

    assert_eq!(first.storage_key(), second.storage_key());
}

#[test]
fn custom_flavor_keys_are_namespaced_from_every_builtin_flavor() {
    let builtins = [
        (GameFlavor::Anniversary, "anniversary"),
        (GameFlavor::TbcClassic, "tbc_classic"),
        (GameFlavor::ClassicEra, "classic_era"),
        (GameFlavor::Retail, "retail"),
    ];

    for (builtin, reserved_name) in builtins {
        let builtin_identity = CharacterIdentity::new(
            AccountIdentity::new("install", "account"),
            builtin,
            "us",
            "realm",
            "hero",
        );
        let custom_identity = CharacterIdentity::new(
            AccountIdentity::new("install", "account"),
            GameFlavor::Other(reserved_name.into()),
            "us",
            "realm",
            "hero",
        );

        assert_ne!(
            builtin_identity.storage_key(),
            custom_identity.storage_key()
        );
    }
}

#[test]
fn custom_flavor_keys_normalize_case_and_surrounding_whitespace() {
    let first = CharacterIdentity::new(
        AccountIdentity::new("install", "account"),
        GameFlavor::Other("  Season Of Discovery  ".into()),
        "us",
        "realm",
        "hero",
    );
    let second = CharacterIdentity::new(
        AccountIdentity::new("install", "account"),
        GameFlavor::Other("season of discovery".into()),
        "us",
        "realm",
        "hero",
    );

    assert_eq!(first.storage_key(), second.storage_key());
}

#[test]
fn a_history_entry_needs_the_snapshot_s_own_character() {
    let first = CharacterIdentity::new(
        AccountIdentity::new("local", "one"),
        GameFlavor::Anniversary,
        "US",
        "Example Realm",
        "Examplemage",
    );
    let second = CharacterIdentity::new(
        AccountIdentity::new("local", "two"),
        GameFlavor::Anniversary,
        "US",
        "Example Realm",
        "Examplemage",
    );
    assert!(!first.same_as(&second));
    assert!(first.same_as(&first.clone()));
    let custom = CharacterIdentity::new(
        AccountIdentity::new("local", "one"),
        GameFlavor::Other("Beta".to_string()),
        "US",
        "Example Realm",
        "Examplemage",
    );
    assert!(!first.same_as(&custom));
    let mut renamed = custom.clone();
    renamed.game_flavor = GameFlavor::Other("beta ".to_string());
    assert!(!custom.same_as(&renamed), "identities compare field for field");
}
