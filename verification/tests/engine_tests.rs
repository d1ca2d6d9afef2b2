use sts_edit::cache::STSCache;
use sts_edit::cache_enums::CardColor;
use sts_edit::codec::SaveDocument;
use sts_edit::engine::{
    add_card_by_name, add_gold, add_random_cards, clear_cards, parse_command, remove_card_by_name,
    resolve_name, CardFilter, Command, EngineError, Resolution,
};

fn card_text(id: &str, tokens: &str) -> String {
    format!("class X {{\n    ID = \"{}\";\n    // {}\n}}\n", id, tokens)
}

fn small_cache() -> STSCache {
    let cards = vec![
        card_text("Strike", "BASIC RED ATTACK"),
        card_text("Demon Form", "RARE PURPLE POWER"),
        card_text("Twin Strike", "COMMON RED ATTACK"),
    ];
    let relics: Vec<String> = Vec::new();
    STSCache::build_from_sources(&cards, &relics).expect("builds")
}

#[test]
fn end_to_end_minimal_session() {
    // a minimal two-file source tree and an empty save
    let cards = vec![
        card_text("Strike", "BASIC RED ATTACK"),
        card_text("Demon Form", "RARE PURPLE POWER"),
    ];
    let relics: Vec<String> = Vec::new();
    let cache = STSCache::build_from_sources(&cards, &relics).expect("builds");
    let mut doc = SaveDocument::new();
    assert_eq!(doc.gold, 0);
    assert_eq!(doc.gold_gained, 0);

    add_gold(&mut doc, 100);
    assert_eq!(doc.gold, 100);
    assert_eq!(doc.gold_gained, 100);

    add_card_by_name(&mut doc, &cache, "Strike");
    assert_eq!(doc.cards.len(), 1);
    assert_eq!(doc.cards[0].id, "Strike");
    assert_eq!(doc.cards[0].misc, 0);
    assert_eq!(doc.cards[0].upgrades, 0);

    clear_cards(&mut doc);
    assert!(doc.cards.is_empty());
}

#[test]
fn add_gold_accumulates() {
    let mut doc = SaveDocument::new();
    add_gold(&mut doc, 100);
    add_gold(&mut doc, 25);
    assert_eq!(doc.gold, 125);
    assert_eq!(doc.gold_gained, 125);
}

#[test]
fn add_card_by_name_ignores_unknown_names() {
    let cache = small_cache();
    let mut doc = SaveDocument::new();
    add_card_by_name(&mut doc, &cache, "Defend");
    assert!(doc.cards.is_empty());
    // the match is exact, not fuzzy
    add_card_by_name(&mut doc, &cache, "strike");
    assert!(doc.cards.is_empty());
}

#[test]
fn remove_card_by_name_removes_all_copies() {
    let cache = small_cache();
    let mut doc = SaveDocument::new();
    add_card_by_name(&mut doc, &cache, "Strike");
    add_card_by_name(&mut doc, &cache, "Demon Form");
    add_card_by_name(&mut doc, &cache, "Strike");
    assert_eq!(doc.cards.len(), 3);
    remove_card_by_name(&mut doc, "Strike");
    assert_eq!(doc.cards.len(), 1);
    assert_eq!(doc.cards[0].id, "Demon Form");
}

#[test]
fn random_cards_respect_count_and_filter() {
    let cache = small_cache();
    let mut doc = SaveDocument::new();
    add_random_cards(&mut doc, &cache, 10, CardFilter::Any).expect("the filter matches");
    assert_eq!(doc.cards.len(), 10);
    for c in &doc.cards {
        assert!(c.id == "Strike" || c.id == "Demon Form" || c.id == "Twin Strike");
        assert_eq!(c.misc, 0);
        assert_eq!(c.upgrades, 0);
    }
    let mut doc2 = SaveDocument::new();
    add_random_cards(&mut doc2, &cache, 5, CardFilter::OfColor(CardColor::RED))
        .expect("red cards exist");
    assert_eq!(doc2.cards.len(), 5);
    for c in &doc2.cards {
        assert!(c.id == "Strike" || c.id == "Twin Strike");
    }
}

#[test]
fn random_cards_fail_fast_on_an_empty_filter() {
    let cache = small_cache();
    let mut doc = SaveDocument::new();
    let err = add_random_cards(&mut doc, &cache, 5, CardFilter::OfColor(CardColor::GREEN))
        .unwrap_err();
    assert_eq!(err, EngineError::NoMatchingCard);
    assert!(doc.cards.is_empty());
}

#[test]
fn resolve_name_outcomes() {
    let names = vec![
        String::from("Strike"),
        String::from("Twin Strike"),
        String::from("Demon Form"),
    ];
    match resolve_name("demon", &names) {
        Resolution::Unique(s) => assert_eq!(s, "Demon Form"),
        _ => panic!("one candidate matches"),
    }
    match resolve_name("strike", &names) {
        Resolution::Ambiguous(v) => {
            assert_eq!(v, vec![String::from("Strike"), String::from("Twin Strike")])
        },
        _ => panic!("two candidates match"),
    }
    match resolve_name("xyzzy", &names) {
        Resolution::NoMatch => {},
        _ => panic!("nothing matches"),
    }
    // the search ignores ASCII case on both sides
    match resolve_name("TWIN", &names) {
        Resolution::Unique(s) => assert_eq!(s, "Twin Strike"),
        _ => panic!("case-insensitive match"),
    }
}

#[test]
fn parse_command_recognizes_the_menu() {
    assert!(matches!(parse_command("g"), Some(Command::GiveGold)));
    assert!(matches!(parse_command("f"), Some(Command::AddCardByName)));
    assert!(matches!(parse_command("r"), Some(Command::RemoveCardByName)));
    assert!(matches!(parse_command("z"), Some(Command::ClearCards)));
    assert!(matches!(parse_command("x"), Some(Command::RandomCards)));
    assert!(matches!(parse_command("v"), Some(Command::RedCards)));
    assert!(matches!(parse_command("b"), Some(Command::GreenCards)));
    assert!(matches!(parse_command("n"), Some(Command::BlueCards)));
    assert!(matches!(parse_command("m"), Some(Command::PurpleCards)));
    assert!(matches!(parse_command("c"), Some(Command::ColorlessCards)));
    assert!(matches!(parse_command("q"), Some(Command::Quit)));
    assert!(parse_command("Q").is_none());
    assert!(parse_command("").is_none());
    assert!(parse_command("gg").is_none());
}
