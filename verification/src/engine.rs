//! The mutation engine: discrete, named edits to a decoded save document,
//! validated against the cache, plus the fuzzy identifier search and the
//! keystroke commands of the interactive editor.

use vstd::pervasive::unreached;
use vstd::prelude::*;

use crate::cache::{Card, STSCache};
use crate::cache_enums::CardColor;
use crate::codec::{SaveCard, SaveDocument};
use crate::text::{contains_chars, contains_seq, lower_chars_of, lower_seq, str_eq};

verus! {

/// The one failure an edit can hit: a random draw whose filter matches no
/// cache card at all, which would otherwise retry forever.
#[derive(Debug, PartialEq, Eq, Structural, Clone, Copy)]
pub enum EngineError {
    NoMatchingCard,
}

/// Grants gold: the current and the lifetime totals both grow by `amount`.
pub fn add_gold(doc: &mut SaveDocument, amount: u64)
    requires
        old(doc).gold + amount <= u64::MAX,
        old(doc).gold_gained + amount <= u64::MAX,
    ensures
        final(doc).gold == old(doc).gold + amount,
        final(doc).gold_gained == old(doc).gold_gained + amount,
        final(doc).cards@ == old(doc).cards@,
        final(doc).relics@ == old(doc).relics@,
        final(doc).extra == old(doc).extra,
{
    doc.gold = doc.gold + amount;
    doc.gold_gained = doc.gold_gained + amount;
}

/// Replaces the deck with an empty one; nothing else changes.
pub fn clear_cards(doc: &mut SaveDocument)
    ensures
        final(doc).cards@.len() == 0,
        final(doc).gold == old(doc).gold,
        final(doc).gold_gained == old(doc).gold_gained,
        final(doc).relics@ == old(doc).relics@,
        final(doc).extra == old(doc).extra,
{
    doc.cards = Vec::new();
}

/// The predicate a random draw selects under: every card, or one color.
#[derive(Debug, PartialEq, Eq, Structural, Clone, Copy)]
pub enum CardFilter {
    Any,
    OfColor(CardColor),
}

pub open spec fn filter_matches(c: Card, f: CardFilter) -> bool {
    match f {
        CardFilter::Any => true,
        CardFilter::OfColor(col) => c.color == col,
    }
}

fn filter_matches_exec(c: &Card, f: CardFilter) -> (r: bool)
    ensures
        r == filter_matches(*c, f),
{
    match f {
        CardFilter::Any => true,
        CardFilter::OfColor(col) => c.color == col,
    }
}

/// Relies on rand's `random_range` over `0..n`: the draw lies below `n`
/// (the crate panics on an empty range, which the precondition rules out).
/// Nothing else is assumed of the outcome.
#[verifier::external_body]
fn random_below(n: usize) -> (r: usize)
    requires
        n > 0,
    ensures
        r < n,
{
    rand::random_range(0..n)
}

/// Appends `count` randomly drawn cache cards that satisfy the filter,
/// each entering the deck unupgraded and with cleared auxiliary data.
/// When no cache card matches at all the edit fails fast and changes
/// nothing — drawing would retry forever.
#[verifier::loop_isolation(false)]
pub fn add_random_cards(
    doc: &mut SaveDocument,
    cache: &STSCache,
    count: usize,
    filter: CardFilter,
) -> (r: Result<(), EngineError>)
    ensures
        r is Ok <==> exists|i: int|
            0 <= i < cache.cards@.len() && filter_matches(#[trigger] cache.cards@[i], filter),
        r is Err ==> *final(doc) == *old(doc),
        r is Ok ==> {
            &&& final(doc).cards@.len() == old(doc).cards@.len() + count
            &&& final(doc).cards@.subrange(0, old(doc).cards@.len() as int) == old(doc).cards@
            &&& (forall|j: int|
                old(doc).cards@.len() <= j < final(doc).cards@.len() ==> exists|i: int|
                    0 <= i < cache.cards@.len() && filter_matches(#[trigger] cache.cards@[i], filter)
                        && (#[trigger] final(doc).cards@[j])@ == (cache.cards@[i].id@, 0u32, 0u32))
            &&& final(doc).gold == old(doc).gold
            &&& final(doc).gold_gained == old(doc).gold_gained
            &&& final(doc).relics@ == old(doc).relics@
            &&& final(doc).extra == old(doc).extra
        },
{
    let mut picks: Vec<usize> = Vec::new();
    let mut i: usize = 0;
    while i < cache.cards.len()
        invariant
            i <= cache.cards@.len(),
            forall|m: int|
                0 <= m < picks@.len() ==> (#[trigger] picks@[m]) < cache.cards@.len()
                    && filter_matches(cache.cards@[picks@[m] as int], filter),
            picks@.len() == 0 ==> forall|x: int|
                0 <= x < i ==> !filter_matches(#[trigger] cache.cards@[x], filter),
        decreases cache.cards@.len() - i,
    {
        if filter_matches_exec(&cache.cards[i], filter) {
            picks.push(i);
        }
        i = i + 1;
    }
    if picks.len() == 0 {
        return Err(EngineError::NoMatchingCard);
    }
    let ghost base = doc.cards@.len();
    let mut added: usize = 0;
    while added < count
        invariant
            added <= count,
            picks@.len() > 0,
            forall|m: int|
                0 <= m < picks@.len() ==> (#[trigger] picks@[m]) < cache.cards@.len()
                    && filter_matches(cache.cards@[picks@[m] as int], filter),
            base == old(doc).cards@.len(),
            doc.cards@.len() == base + added,
            doc.cards@.subrange(0, base as int) == old(doc).cards@,
            forall|j: int|
                base <= j < doc.cards@.len() ==> exists|i2: int|
                    0 <= i2 < cache.cards@.len() && filter_matches(#[trigger] cache.cards@[i2], filter)
                        && (#[trigger] doc.cards@[j])@ == (cache.cards@[i2].id@, 0u32, 0u32),
            doc.gold == old(doc).gold,
            doc.gold_gained == old(doc).gold_gained,
            doc.relics == old(doc).relics,
            doc.extra == old(doc).extra,
        decreases count - added,
    {
        let mi = random_below(picks.len());
        let ci = picks[mi];
        let ghost before = doc.cards@;
        let entry = SaveCard { id: cache.cards[ci].id.clone(), misc: 0, upgrades: 0 };
        doc.cards.push(entry);
        proof {
            assert(doc.cards@.subrange(0, base as int) =~= before.subrange(0, base as int));
        }
        added = added + 1;
    }
    proof {
        assert(filter_matches(cache.cards@[picks@[0] as int], filter));
    }
    Ok(())
}

/// Appends to the deck the cache entries whose identifier equals `name`
/// exactly — with a well-formed cache that is at most one entry, and zero
/// where the name is unknown.
#[verifier::loop_isolation(false)]
pub fn add_card_by_name(doc: &mut SaveDocument, cache: &STSCache, name: &str)
    ensures
        final(doc).cards@.map_values(|c: SaveCard| c@) == old(doc).cards@.map_values(
            |c: SaveCard| c@,
        ) + cache.cards@.filter(|c: Card| c.id@ == name@).map_values(
            |c: Card| (c.id@, 0u32, 0u32),
        ),
        final(doc).gold == old(doc).gold,
        final(doc).gold_gained == old(doc).gold_gained,
        final(doc).relics@ == old(doc).relics@,
        final(doc).extra == old(doc).extra,
{
    let ghost pred = |c: Card| c.id@ == name@;
    let ghost f = |c: Card| (c.id@, 0u32, 0u32);
    let ghost cv = |c: SaveCard| c@;
    let ghost orig = doc.cards@;
    let mut i: usize = 0;
    while i < cache.cards.len()
        invariant
            i <= cache.cards@.len(),
            orig == old(doc).cards@,
            doc.cards@.map_values(cv) == orig.map_values(cv) + cache.cards@.take(
                i as int,
            ).filter(pred).map_values(f),
            doc.gold == old(doc).gold,
            doc.gold_gained == old(doc).gold_gained,
            doc.relics == old(doc).relics,
            doc.extra == old(doc).extra,
        decreases cache.cards@.len() - i,
    {
        let ghost prefix = cache.cards@.take(i as int);
        let ghost next = cache.cards@.take(i + 1);
        proof {
            reveal(Seq::filter);
            assert(next.drop_last() =~= prefix);
            assert(next.last() == cache.cards@[i as int]);
        }
        let c = &cache.cards[i];
        if str_eq(c.id.as_str(), name) {
            let ghost before = doc.cards@;
            doc.cards.push(SaveCard { id: c.id.clone(), misc: 0, upgrades: 0 });
            proof {
                reveal(Seq::filter);
                assert(next.drop_last() =~= prefix);
                assert(doc.cards@.map_values(cv) =~= before.map_values(cv).push(
                    (c.id@, 0u32, 0u32),
                ));
                assert(next.filter(pred).map_values(f) =~= prefix.filter(pred).map_values(f).push(
                    (c.id@, 0u32, 0u32),
                ));
                assert(doc.cards@.map_values(cv) =~= orig.map_values(cv) + next.filter(
                    pred,
                ).map_values(f));
            }
        } else {
            proof {
                reveal(Seq::filter);
                assert(next.drop_last() =~= prefix);
                assert(next.filter(pred) =~= prefix.filter(pred));
            }
        }
        i = i + 1;
    }
    proof {
        assert(cache.cards@.take(cache.cards@.len() as int) =~= cache.cards@);
    }
}

/// Removes every deck entry whose identifier equals `name` exactly; the
/// rest keep their order.
#[verifier::loop_isolation(false)]
pub fn remove_card_by_name(doc: &mut SaveDocument, name: &str)
    ensures
        final(doc).cards@ == old(doc).cards@.filter(|c: SaveCard| c.id@ != name@),
        final(doc).gold == old(doc).gold,
        final(doc).gold_gained == old(doc).gold_gained,
        final(doc).relics@ == old(doc).relics@,
        final(doc).extra == old(doc).extra,
{
    let ghost pred = |c: SaveCard| c.id@ != name@;
    let ghost orig = doc.cards@;
    let mut kept: Vec<SaveCard> = Vec::new();
    let mut i: usize = 0;
    while i < doc.cards.len()
        invariant
            i <= doc.cards@.len(),
            orig == doc.cards@,
            kept@ == orig.take(i as int).filter(pred),
        decreases doc.cards@.len() - i,
    {
        let ghost prefix = orig.take(i as int);
        let ghost next = orig.take(i + 1);
        proof {
            reveal(Seq::filter);
            assert(next.drop_last() =~= prefix);
            assert(next.last() == orig[i as int]);
        }
        let c = &doc.cards[i];
        let keep = !str_eq(c.id.as_str(), name);
        if keep {
            kept.push(SaveCard { id: c.id.clone(), misc: c.misc, upgrades: c.upgrades });
            proof {
                reveal(Seq::filter);
                assert(next.drop_last() =~= prefix);
                assert(kept@.last() == orig[i as int]);
                assert(kept@ =~= next.filter(pred));
            }
        }
        i = i + 1;
    }
    proof {
        assert(orig.take(orig.len() as int) =~= orig);
    }
    doc.cards = kept;
}

/// A candidate matches when its ASCII-lowercased text contains the
/// lowercased query as a substring.
pub open spec fn name_matches(cand: Seq<char>, query: Seq<char>) -> bool {
    contains_seq(lower_seq(cand), lower_seq(query))
}

/// The candidates matching a query, in their original order.
pub open spec fn matching_names(cands: Seq<String>, query: Seq<char>) -> Seq<String> {
    cands.filter(|c: String| name_matches(c@, query))
}

/// The outcome of a fuzzy identifier search.
#[derive(Debug)]
pub enum Resolution {
    NoMatch,
    Unique(String),
    Ambiguous(Vec<String>),
}

/// Case-insensitive substring search over candidate identifiers: no match
/// means "ask again", exactly one match is accepted, several are handed
/// back for disambiguation.
#[verifier::loop_isolation(false)]
pub fn resolve_name(query: &str, candidates: &Vec<String>) -> (r: Resolution)
    ensures
        (match r {
            Resolution::NoMatch => matching_names(candidates@, query@).len() == 0,
            Resolution::Unique(s) => matching_names(candidates@, query@) == seq![s],
            Resolution::Ambiguous(v) => v@ == matching_names(candidates@, query@) && v@.len() >= 2,
        }),
{
    let ghost pred = |c: String| name_matches(c@, query@);
    let lq = lower_chars_of(query);
    let mut found: Vec<String> = Vec::new();
    let mut i: usize = 0;
    while i < candidates.len()
        invariant
            i <= candidates@.len(),
            lq@ == lower_seq(query@),
            found@ == candidates@.take(i as int).filter(pred),
        decreases candidates@.len() - i,
    {
        let ghost prefix = candidates@.take(i as int);
        let ghost next = candidates@.take(i + 1);
        proof {
            reveal(Seq::filter);
            assert(next.drop_last() =~= prefix);
            assert(next.last() == candidates@[i as int]);
        }
        let lc = lower_chars_of(candidates[i].as_str());
        if contains_chars(&lc, &lq) {
            found.push(candidates[i].clone());
            proof {
                reveal(Seq::filter);
                assert(next.drop_last() =~= prefix);
                assert(found@ =~= next.filter(pred));
            }
        } else {
            proof {
                reveal(Seq::filter);
                assert(next.drop_last() =~= prefix);
                assert(next.filter(pred) =~= prefix.filter(pred));
            }
        }
        i = i + 1;
    }
    proof {
        assert(candidates@.take(candidates@.len() as int) =~= candidates@);
    }
    if found.len() == 0 {
        Resolution::NoMatch
    } else if found.len() == 1 {
        let ghost whole = found@;
        match found.pop() {
            Some(s) => {
                proof {
                    assert(whole =~= seq![s]);
                }
                Resolution::Unique(s)
            },
            None => unreached(),
        }
    } else {
        Resolution::Ambiguous(found)
    }
}

/// One keystroke command of the interactive editor.
#[derive(Debug, PartialEq, Eq, Structural, Clone, Copy)]
pub enum Command {
    GiveGold,
    AddCardByName,
    RemoveCardByName,
    ClearCards,
    RandomCards,
    RedCards,
    GreenCards,
    BlueCards,
    PurpleCards,
    ColorlessCards,
    Quit,
}

/// The command a trimmed input line denotes, `None` for anything else.
pub open spec fn command_of(s: Seq<char>) -> Option<Command> {
    if s == "g"@ {
        Some(Command::GiveGold)
    } else if s == "f"@ {
        Some(Command::AddCardByName)
    } else if s == "r"@ {
        Some(Command::RemoveCardByName)
    } else if s == "z"@ {
        Some(Command::ClearCards)
    } else if s == "x"@ {
        Some(Command::RandomCards)
    } else if s == "v"@ {
        Some(Command::RedCards)
    } else if s == "b"@ {
        Some(Command::GreenCards)
    } else if s == "n"@ {
        Some(Command::BlueCards)
    } else if s == "m"@ {
        Some(Command::PurpleCards)
    } else if s == "c"@ {
        Some(Command::ColorlessCards)
    } else if s == "q"@ {
        Some(Command::Quit)
    } else {
        None
    }
}

/// Recognizes one keystroke command.
pub fn parse_command(s: &str) -> (r: Option<Command>)
    ensures
        r == command_of(s@),
{
    if str_eq(s, "g") {
        Some(Command::GiveGold)
    } else if str_eq(s, "f") {
        Some(Command::AddCardByName)
    } else if str_eq(s, "r") {
        Some(Command::RemoveCardByName)
    } else if str_eq(s, "z") {
        Some(Command::ClearCards)
    } else if str_eq(s, "x") {
        Some(Command::RandomCards)
    } else if str_eq(s, "v") {
        Some(Command::RedCards)
    } else if str_eq(s, "b") {
        Some(Command::GreenCards)
    } else if str_eq(s, "n") {
        Some(Command::BlueCards)
    } else if str_eq(s, "m") {
        Some(Command::PurpleCards)
    } else if str_eq(s, "c") {
        Some(Command::ColorlessCards)
    } else if str_eq(s, "q") {
        Some(Command::Quit)
    } else {
        None
    }
}

} // verus!
