//! The classification lexicon: closed enumerations for card rarity, color
//! and type and for relic tier, each recognized from an uppercase token of
//! source text.

use vstd::prelude::*;

use crate::text::str_eq;

verus! {

#[derive(Debug, PartialEq, Eq, Structural, Clone, Copy)]
pub enum CardRarity {
    BASIC,
    SPECIAL,
    COMMON,
    UNCOMMON,
    RARE,
    CURSE,
}

#[derive(Debug, PartialEq, Eq, Structural, Clone, Copy)]
pub enum CardColor {
    RED,
    GREEN,
    BLUE,
    PURPLE,
    COLORLESS,
    CURSE,
}

#[derive(Debug, PartialEq, Eq, Structural, Clone, Copy)]
pub enum CardType {
    ATTACK,
    SKILL,
    POWER,
    STATUS,
    CURSE,
}

#[derive(Debug, PartialEq, Eq, Structural, Clone, Copy)]
pub enum RelicTier {
    DEPRECATED,
    STARTER,
    COMMON,
    UNCOMMON,
    RARE,
    SPECIAL,
    BOSS,
    SHOP,
}

/// The rarity a token denotes, `None` for an unrecognized token.
pub open spec fn rarity_of(s: Seq<char>) -> Option<CardRarity> {
    if s == "BASIC"@ {
        Some(CardRarity::BASIC)
    } else if s == "SPECIAL"@ {
        Some(CardRarity::SPECIAL)
    } else if s == "COMMON"@ {
        Some(CardRarity::COMMON)
    } else if s == "UNCOMMON"@ {
        Some(CardRarity::UNCOMMON)
    } else if s == "RARE"@ {
        Some(CardRarity::RARE)
    } else if s == "CURSE"@ {
        Some(CardRarity::CURSE)
    } else {
        None
    }
}

/// The color a token denotes, `None` for an unrecognized token.
pub open spec fn color_of(s: Seq<char>) -> Option<CardColor> {
    if s == "RED"@ {
        Some(CardColor::RED)
    } else if s == "GREEN"@ {
        Some(CardColor::GREEN)
    } else if s == "BLUE"@ {
        Some(CardColor::BLUE)
    } else if s == "PURPLE"@ {
        Some(CardColor::PURPLE)
    } else if s == "COLORLESS"@ {
        Some(CardColor::COLORLESS)
    } else if s == "CURSE"@ {
        Some(CardColor::CURSE)
    } else {
        None
    }
}

/// The card type a token denotes, `None` for an unrecognized token.
pub open spec fn card_type_of(s: Seq<char>) -> Option<CardType> {
    if s == "ATTACK"@ {
        Some(CardType::ATTACK)
    } else if s == "SKILL"@ {
        Some(CardType::SKILL)
    } else if s == "POWER"@ {
        Some(CardType::POWER)
    } else if s == "STATUS"@ {
        Some(CardType::STATUS)
    } else if s == "CURSE"@ {
        Some(CardType::CURSE)
    } else {
        None
    }
}

/// The relic tier a token denotes, `None` for an unrecognized token.
pub open spec fn tier_of(s: Seq<char>) -> Option<RelicTier> {
    if s == "DEPRECATED"@ {
        Some(RelicTier::DEPRECATED)
    } else if s == "STARTER"@ {
        Some(RelicTier::STARTER)
    } else if s == "COMMON"@ {
        Some(RelicTier::COMMON)
    } else if s == "UNCOMMON"@ {
        Some(RelicTier::UNCOMMON)
    } else if s == "RARE"@ {
        Some(RelicTier::RARE)
    } else if s == "SPECIAL"@ {
        Some(RelicTier::SPECIAL)
    } else if s == "BOSS"@ {
        Some(RelicTier::BOSS)
    } else if s == "SHOP"@ {
        Some(RelicTier::SHOP)
    } else {
        None
    }
}

impl CardRarity {
    /// Recognizes a rarity token.
    pub fn from_str(s: &str) -> (r: Option<CardRarity>)
        ensures
            r == rarity_of(s@),
    {
        if str_eq(s, "BASIC") {
            Some(CardRarity::BASIC)
        } else if str_eq(s, "SPECIAL") {
            Some(CardRarity::SPECIAL)
        } else if str_eq(s, "COMMON") {
            Some(CardRarity::COMMON)
        } else if str_eq(s, "UNCOMMON") {
            Some(CardRarity::UNCOMMON)
        } else if str_eq(s, "RARE") {
            Some(CardRarity::RARE)
        } else if str_eq(s, "CURSE") {
            Some(CardRarity::CURSE)
        } else {
            None
        }
    }
}

impl CardColor {
    /// Recognizes a color token.
    pub fn from_str(s: &str) -> (r: Option<CardColor>)
        ensures
            r == color_of(s@),
    {
        if str_eq(s, "RED") {
            Some(CardColor::RED)
        } else if str_eq(s, "GREEN") {
            Some(CardColor::GREEN)
        } else if str_eq(s, "BLUE") {
            Some(CardColor::BLUE)
        } else if str_eq(s, "PURPLE") {
            Some(CardColor::PURPLE)
        } else if str_eq(s, "COLORLESS") {
            Some(CardColor::COLORLESS)
        } else if str_eq(s, "CURSE") {
            Some(CardColor::CURSE)
        } else {
            None
        }
    }
}

impl CardType {
    /// Recognizes a card-type token.
    pub fn from_str(s: &str) -> (r: Option<CardType>)
        ensures
            r == card_type_of(s@),
    {
        if str_eq(s, "ATTACK") {
            Some(CardType::ATTACK)
        } else if str_eq(s, "SKILL") {
            Some(CardType::SKILL)
        } else if str_eq(s, "POWER") {
            Some(CardType::POWER)
        } else if str_eq(s, "STATUS") {
            Some(CardType::STATUS)
        } else if str_eq(s, "CURSE") {
            Some(CardType::CURSE)
        } else {
            None
        }
    }
}

impl RelicTier {
    /// Recognizes a relic-tier token.
    pub fn from_str(s: &str) -> (r: Option<RelicTier>)
        ensures
            r == tier_of(s@),
    {
        if str_eq(s, "DEPRECATED") {
            Some(RelicTier::DEPRECATED)
        } else if str_eq(s, "STARTER") {
            Some(RelicTier::STARTER)
        } else if str_eq(s, "COMMON") {
            Some(RelicTier::COMMON)
        } else if str_eq(s, "UNCOMMON") {
            Some(RelicTier::UNCOMMON)
        } else if str_eq(s, "RARE") {
            Some(RelicTier::RARE)
        } else if str_eq(s, "SPECIAL") {
            Some(RelicTier::SPECIAL)
        } else if str_eq(s, "BOSS") {
            Some(RelicTier::BOSS)
        } else if str_eq(s, "SHOP") {
            Some(RelicTier::SHOP)
        } else {
            None
        }
    }
}

} // verus!
