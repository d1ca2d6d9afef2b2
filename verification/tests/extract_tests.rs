use sts_edit::cache_enums::{CardColor, CardRarity, CardType, RelicTier};
use sts_edit::extract::{parse_card, parse_relic, ParseError};

fn strike_text() -> String {
    String::from(
        "package cards;\npublic class Strike {\n    public static final String ID = \"Strike\";\n    // BASIC RED ATTACK\n}\n",
    )
}

#[test]
fn parse_card_reads_id_and_classification() {
    let card = parse_card(&strike_text()).expect("a well-formed card file parses");
    assert_eq!(card.id, "Strike");
    assert!(matches!(card.rarity, CardRarity::BASIC));
    assert!(matches!(card.color, CardColor::RED));
    assert!(matches!(card.type_, CardType::ATTACK));
}

#[test]
fn parse_card_takes_the_last_recognized_token() {
    let text = "COMMON GREEN SKILL\nID = \"Survey\";\nRARE PURPLE POWER\n";
    let card = parse_card(text).expect("parses");
    assert!(matches!(card.rarity, CardRarity::RARE));
    assert!(matches!(card.color, CardColor::PURPLE));
    assert!(matches!(card.type_, CardType::POWER));
}

#[test]
fn parse_card_matches_whole_tokens_only() {
    // UNCOMMON is one token: it must not be read as COMMON
    let text = "ID = \"Sample\"; UNCOMMON BLUE SKILL";
    let card = parse_card(text).expect("parses");
    assert!(matches!(card.rarity, CardRarity::UNCOMMON));
}

#[test]
fn parse_card_capture_is_greedy_to_the_last_quote() {
    let text = "ID = \"Say \"hi\"\"; BASIC RED ATTACK";
    let card = parse_card(text).expect("parses");
    assert_eq!(card.id, "Say \"hi\"");
}

#[test]
fn parse_card_uses_the_leftmost_id_assignment() {
    let text = "ID = \"First\";\nID = \"Second\";\nBASIC RED ATTACK";
    let card = parse_card(text).expect("parses");
    assert_eq!(card.id, "First");
}

#[test]
fn parse_card_reports_each_missing_piece() {
    assert!(matches!(parse_card("no identifier here BASIC RED ATTACK"), Err(ParseError::NoId)));
    assert!(matches!(parse_card("ID = \"X\"; RED ATTACK"), Err(ParseError::NoRarity)));
    assert!(matches!(parse_card("ID = \"X\"; BASIC ATTACK"), Err(ParseError::NoColor)));
    assert!(matches!(parse_card("ID = \"X\"; BASIC RED"), Err(ParseError::NoType)));
}

#[test]
fn parse_card_id_needs_a_closing_quote_on_the_same_line() {
    assert!(matches!(parse_card("ID = \"Unterminated\nBASIC RED ATTACK"), Err(ParseError::NoId)));
}

#[test]
fn parse_relic_reads_tier() {
    let text = "public class Anchor {\n    ID = \"Anchor\";\n    // COMMON\n}\n";
    let relic = parse_relic(text).expect("a relic file parses");
    assert_eq!(relic.id, "Anchor");
    assert!(matches!(relic.tier, RelicTier::COMMON));
}

#[test]
fn parse_relic_skips_files_without_tier_or_id() {
    assert!(parse_relic("ID = \"Helper\"; // just AB constants").is_none());
    assert!(parse_relic("no identifier, only BOSS").is_none());
}

#[test]
fn rarity_from_str_recognizes_each_value() {
    assert!(matches!(CardRarity::from_str("BASIC"), Some(CardRarity::BASIC)));
    assert!(matches!(CardRarity::from_str("SPECIAL"), Some(CardRarity::SPECIAL)));
    assert!(matches!(CardRarity::from_str("COMMON"), Some(CardRarity::COMMON)));
    assert!(matches!(CardRarity::from_str("UNCOMMON"), Some(CardRarity::UNCOMMON)));
    assert!(matches!(CardRarity::from_str("RARE"), Some(CardRarity::RARE)));
    assert!(matches!(CardRarity::from_str("CURSE"), Some(CardRarity::CURSE)));
    assert!(CardRarity::from_str("BASICS").is_none());
    assert!(CardRarity::from_str("basic").is_none());
}

#[test]
fn color_and_type_and_tier_from_str() {
    assert!(matches!(CardColor::from_str("COLORLESS"), Some(CardColor::COLORLESS)));
    assert!(CardColor::from_str("YELLOW").is_none());
    assert!(matches!(CardType::from_str("STATUS"), Some(CardType::STATUS)));
    assert!(CardType::from_str("").is_none());
    assert!(matches!(RelicTier::from_str("SHOP"), Some(RelicTier::SHOP)));
    assert!(matches!(RelicTier::from_str("STARTER"), Some(RelicTier::STARTER)));
    assert!(RelicTier::from_str("SHOPS").is_none());
}
