use sts_edit::cache::{
    card_file_allowed, card_folder_allowed, is_source_extension, relic_file_allowed,
    relic_folder_allowed, BuildError, FormatError, STSCache,
};
use sts_edit::cache_enums::{CardColor, CardRarity, CardType, RelicTier};
use sts_edit::extract::ParseError;

fn card_text(id: &str, tokens: &str) -> String {
    format!("class X {{\n    ID = \"{}\";\n    // {}\n}}\n", id, tokens)
}

fn relic_text(id: &str, tier: &str) -> String {
    format!("class R {{\n    ID = \"{}\";\n    // {}\n}}\n", id, tier)
}

fn two_card_cache() -> STSCache {
    let cards = vec![
        card_text("Strike", "BASIC RED ATTACK"),
        card_text("Demon Form", "RARE PURPLE POWER"),
    ];
    let relics = vec![
        relic_text("Anchor", "COMMON"),
        String::from("class Helper { ID = \"Helper\"; }"),
        relic_text("Burning Blood", "STARTER"),
    ];
    STSCache::build_from_sources(&cards, &relics).expect("a well-formed tree builds")
}

#[test]
fn build_extracts_cards_and_relics_in_order() {
    let cache = two_card_cache();
    assert_eq!(cache.cards.len(), 2);
    assert_eq!(cache.cards[0].id, "Strike");
    assert!(matches!(cache.cards[0].rarity, CardRarity::BASIC));
    assert!(matches!(cache.cards[0].color, CardColor::RED));
    assert!(matches!(cache.cards[0].type_, CardType::ATTACK));
    assert_eq!(cache.cards[1].id, "Demon Form");
    // the tier-less file is skipped, not an error
    assert_eq!(cache.relics.len(), 2);
    assert_eq!(cache.relics[0].id, "Anchor");
    assert!(matches!(cache.relics[0].tier, RelicTier::COMMON));
    assert_eq!(cache.relics[1].id, "Burning Blood");
    assert!(matches!(cache.relics[1].tier, RelicTier::STARTER));
}

#[test]
fn build_rejects_a_card_file_without_id() {
    let cards = vec![String::from("no identifier BASIC RED ATTACK")];
    let relics: Vec<String> = Vec::new();
    let err = STSCache::build_from_sources(&cards, &relics).unwrap_err();
    assert_eq!(err, BuildError::Parse(ParseError::NoId));
}

#[test]
fn build_rejects_duplicate_identifiers() {
    let cards = vec![
        card_text("Strike", "BASIC RED ATTACK"),
        card_text("Strike", "RARE PURPLE POWER"),
    ];
    let relics: Vec<String> = Vec::new();
    let err = STSCache::build_from_sources(&cards, &relics).unwrap_err();
    assert_eq!(err, BuildError::DuplicateCard);

    let cards2: Vec<String> = Vec::new();
    let relics2 = vec![relic_text("Anchor", "COMMON"), relic_text("Anchor", "BOSS")];
    let err2 = STSCache::build_from_sources(&cards2, &relics2).unwrap_err();
    assert_eq!(err2, BuildError::DuplicateRelic);
}

#[test]
fn built_caches_have_unique_identifiers() {
    let cache = two_card_cache();
    for i in 0..cache.cards.len() {
        for j in 0..cache.cards.len() {
            if i != j {
                assert_ne!(cache.cards[i].id, cache.cards[j].id);
            }
        }
    }
    for i in 0..cache.relics.len() {
        for j in 0..cache.relics.len() {
            if i != j {
                assert_ne!(cache.relics[i].id, cache.relics[j].id);
            }
        }
    }
}

#[test]
fn cache_round_trips_through_its_binary_form() {
    let cache = two_card_cache();
    let bytes = cache.to_bytes();
    let loaded = STSCache::from_bytes(&bytes).expect("a saved cache loads");
    assert_eq!(loaded.cards.len(), cache.cards.len());
    for (a, b) in loaded.cards.iter().zip(cache.cards.iter()) {
        assert_eq!(a.id, b.id);
    }
    assert_eq!(loaded.relics.len(), cache.relics.len());
    for (a, b) in loaded.relics.iter().zip(cache.relics.iter()) {
        assert_eq!(a.id, b.id);
    }
    assert!(matches!(loaded.cards[0].rarity, CardRarity::BASIC));
    assert!(matches!(loaded.relics[1].tier, RelicTier::STARTER));
}

#[test]
fn load_rejects_wrong_magic() {
    let mut bytes = two_card_cache().to_bytes();
    bytes[0] = bytes[0].wrapping_add(1);
    assert_eq!(STSCache::from_bytes(&bytes).unwrap_err(), FormatError::BadMagic);
    assert_eq!(STSCache::from_bytes(b"").unwrap_err(), FormatError::BadMagic);
    assert_eq!(STSCache::from_bytes(b"zzzzzzzzzz").unwrap_err(), FormatError::BadMagic);
}

#[test]
fn load_rejects_wrong_version() {
    let mut bytes = two_card_cache().to_bytes();
    bytes[4] = 2;
    assert_eq!(STSCache::from_bytes(&bytes).unwrap_err(), FormatError::BadVersion);
    // a file cut off inside the version field
    assert_eq!(
        STSCache::from_bytes(&[5, 14, 14, 5, 1]).unwrap_err(),
        FormatError::BadVersion
    );
}

#[test]
fn load_rejects_a_damaged_payload() {
    let cache = two_card_cache();
    let bytes = cache.to_bytes();
    // cut off in the middle of the payload
    let cut = &bytes[..bytes.len() - 3];
    assert_eq!(STSCache::from_bytes(cut).unwrap_err(), FormatError::Corrupt);
    // a card count the data cannot honor
    let mut huge = bytes.clone();
    huge[8] = 0xff;
    assert_eq!(STSCache::from_bytes(&huge).unwrap_err(), FormatError::Corrupt);
    // trailing garbage after a complete payload
    let mut long = bytes.clone();
    long.push(0);
    assert_eq!(STSCache::from_bytes(&long).unwrap_err(), FormatError::Corrupt);
}

#[test]
fn scanner_name_filters() {
    assert!(card_folder_allowed("attack"));
    assert!(!card_folder_allowed("deprecated"));
    assert!(!card_folder_allowed("tempCards"));
    assert!(card_file_allowed("Strike.java"));
    assert!(!card_file_allowed("AbstractCard.java"));
    assert!(relic_folder_allowed("common"));
    assert!(!relic_folder_allowed("deprecated"));
    assert!(relic_file_allowed("Anchor.java"));
    assert!(!relic_file_allowed("Test4.java"));
    assert!(is_source_extension("java"));
    assert!(is_source_extension("JAVA"));
    assert!(is_source_extension("Java"));
    assert!(!is_source_extension("class"));
}
