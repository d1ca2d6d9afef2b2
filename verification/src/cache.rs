//! The metadata cache: the canonical list of the game's cards and relics
//! with their classification attributes, the invariants a cache keeps, its
//! construction from source text, and its binary on-disk format.

use vstd::bytes::{
    lemma_auto_spec_u32_to_from_le_bytes, lemma_auto_spec_u64_to_from_le_bytes,
    spec_u32_to_le_bytes, spec_u64_to_le_bytes, u32_from_le_bytes, u32_to_le_bytes,
    u64_from_le_bytes, u64_to_le_bytes,
};
use vstd::prelude::*;
use vstd::utf8::{decode_utf8, decode_utf8_encode_utf8, encode_utf8, valid_utf8};

use crate::cache_enums::{CardColor, CardRarity, CardType, RelicTier};
use crate::extract::{
    card_ok, has_id_match, lemma_card_id_unique, lemma_relic_id_unique, no_card_type, no_color,
    no_rarity, no_tier, parse_card, parse_relic, relic_ok, ParseError,
};
use crate::text::{lower_seq, lower_chars_of, str_eq};

verus! {

/// The card subtree's folders that hold no ordinary cards and are not
/// scanned.
pub open spec fn card_folder_skipped(name: Seq<char>) -> bool {
    ||| name == "curses"@
    ||| name == "deprecated"@
    ||| name == "optionCards"@
    ||| name == "status"@
    ||| name == "tempCards"@
}

/// The card subtree's files that declare no card: base classes and
/// bookkeeping types.
pub open spec fn card_file_skipped(name: Seq<char>) -> bool {
    ||| name == "AbstractCard.java"@
    ||| name == "CardGroup.java"@
    ||| name == "CardModUNUSED.java"@
    ||| name == "CardQueueItem.java"@
    ||| name == "CardSave.java"@
    ||| name == "DamageInfo.java"@
    ||| name == "DescriptionLine.java"@
    ||| name == "Soul.java"@
    ||| name == "SoulGroup.java"@
}

/// The relic subtree's folders that are not scanned.
pub open spec fn relic_folder_skipped(name: Seq<char>) -> bool {
    name == "deprecated"@
}

/// The relic subtree's files that declare no relic.
pub open spec fn relic_file_skipped(name: Seq<char>) -> bool {
    ||| name == "AbstractRelic.java"@
    ||| name == "Test1.java"@
    ||| name == "Test3.java"@
    ||| name == "Test4.java"@
    ||| name == "Test5.java"@
    ||| name == "Test6.java"@
}

/// The scanner descends into a card-subtree folder of this bare name.
pub fn card_folder_allowed(name: &str) -> (r: bool)
    ensures
        r == !card_folder_skipped(name@),
{
    !(str_eq(name, "curses") || str_eq(name, "deprecated") || str_eq(name, "optionCards")
        || str_eq(name, "status") || str_eq(name, "tempCards"))
}

/// The scanner reads a card-subtree file of this bare name.
pub fn card_file_allowed(name: &str) -> (r: bool)
    ensures
        r == !card_file_skipped(name@),
{
    !(str_eq(name, "AbstractCard.java") || str_eq(name, "CardGroup.java") || str_eq(
        name,
        "CardModUNUSED.java",
    ) || str_eq(name, "CardQueueItem.java") || str_eq(name, "CardSave.java") || str_eq(
        name,
        "DamageInfo.java",
    ) || str_eq(name, "DescriptionLine.java") || str_eq(name, "Soul.java") || str_eq(
        name,
        "SoulGroup.java",
    ))
}

/// The scanner descends into a relic-subtree folder of this bare name.
pub fn relic_folder_allowed(name: &str) -> (r: bool)
    ensures
        r == !relic_folder_skipped(name@),
{
    !str_eq(name, "deprecated")
}

/// The scanner reads a relic-subtree file of this bare name.
pub fn relic_file_allowed(name: &str) -> (r: bool)
    ensures
        r == !relic_file_skipped(name@),
{
    !(str_eq(name, "AbstractRelic.java") || str_eq(name, "Test1.java") || str_eq(
        name,
        "Test3.java",
    ) || str_eq(name, "Test4.java") || str_eq(name, "Test5.java") || str_eq(name, "Test6.java"))
}

/// A file extension the scanner accepts: `java`, compared without regard
/// to ASCII case.
pub open spec fn is_source_extension_spec(ext: Seq<char>) -> bool {
    lower_seq(ext) == "java"@
}

/// Recognizes the source extension, case-insensitively.
pub fn is_source_extension(ext: &str) -> (r: bool)
    ensures
        r == is_source_extension_spec(ext@),
{
    let lowered = lower_chars_of(ext);
    let expected = lower_chars_of("java");
    proof {
        reveal_strlit("java");
        assert(lower_seq("java"@) =~= "java"@);
    }
    let mut i: usize = 0;
    let n = lowered.len();
    let m = expected.len();
    if n != m {
        return false;
    }
    while i < n
        invariant
            n == lowered@.len(),
            m == expected@.len(),
            n == m,
            i <= n,
            lowered@ == lower_seq(ext@),
            expected@ == "java"@,
            forall|j: int| 0 <= j < i ==> lowered@[j] == expected@[j],
        decreases n - i,
    {
        if lowered[i] != expected[i] {
            return false;
        }
        i = i + 1;
    }
    proof {
        assert(lowered@ =~= expected@);
    }
    true
}

/// One card of the cache: a unique identifier and its classification.
#[derive(Debug)]
pub struct Card {
    pub rarity: CardRarity,
    pub color: CardColor,
    pub type_: CardType,
    pub id: String,
}

/// One relic of the cache: a unique identifier and its tier.
#[derive(Debug)]
pub struct Relic {
    pub tier: RelicTier,
    pub id: String,
}

/// The cache itself: the cards and relics extracted from the game's source
/// tree, held read-only once built.
#[derive(Debug)]
pub struct STSCache {
    pub cards: Vec<Card>,
    pub relics: Vec<Relic>,
}

impl STSCache {
    /// The cache invariant: every identifier is non-empty, and no two
    /// cards, nor two relics, share one.
    pub open spec fn wf(&self) -> bool {
        &&& forall|i: int| 0 <= i < self.cards@.len() ==> (#[trigger] self.cards@[i].id@).len() > 0
        &&& forall|i: int|
            0 <= i < self.relics@.len() ==> (#[trigger] self.relics@[i].id@).len() > 0
        &&& forall|i: int, j: int|
            0 <= i < j < self.cards@.len() ==> #[trigger] self.cards@[i].id@
                != #[trigger] self.cards@[j].id@
        &&& forall|i: int, j: int|
            0 <= i < j < self.relics@.len() ==> #[trigger] self.relics@[i].id@
                != #[trigger] self.relics@[j].id@
    }
}

/// Why building a cache from source text failed: a card file that does
/// not extract, or two files declaring one identifier.
#[derive(Debug, PartialEq, Eq, Structural, Clone, Copy)]
pub enum BuildError {
    Parse(ParseError),
    DuplicateCard,
    DuplicateRelic,
}

/// A card source file that extraction accepts.
pub open spec fn card_file_ok(t: Seq<char>) -> bool {
    has_id_match(t) && !no_rarity(t) && !no_color(t) && !no_card_type(t)
}

/// Every card source file extracts.
pub open spec fn card_files_ok(files: Seq<String>) -> bool {
    forall|i: int| 0 <= i < files.len() ==> card_file_ok(#[trigger] files[i]@)
}

/// A file of the relic subtree that actually declares a relic.
pub open spec fn is_relic_file(t: Seq<char>) -> bool {
    has_id_match(t) && !no_tier(t)
}

/// Two card files declare one identifier.
pub open spec fn has_dup_card(files: Seq<String>) -> bool {
    exists|i: int, j: int, a: Card, b: Card|
        0 <= i < j < files.len() && #[trigger] card_ok(files[i]@, a) && #[trigger] card_ok(
            files[j]@,
            b,
        ) && a.id@ == b.id@
}

/// Two relic files declare one identifier.
pub open spec fn has_dup_relic(files: Seq<String>) -> bool {
    exists|i: int, j: int, a: Relic, b: Relic|
        0 <= i < j < files.len() && #[trigger] relic_ok(files[i]@, a) && #[trigger] relic_ok(
            files[j]@,
            b,
        ) && a.id@ == b.id@
}

/// `sel` lists, in order, the indices of the relic files that declared the
/// relics of `relics`; every other file is not a relic.
pub open spec fn relic_selection(files: Seq<String>, sel: Seq<int>, relics: Seq<Relic>) -> bool {
    &&& relics.len() == sel.len()
    &&& (forall|j: int, j2: int| 0 <= j < j2 < sel.len() ==> #[trigger] sel[j] < #[trigger] sel[j2])
    &&& (forall|j: int| 0 <= j < sel.len() ==> 0 <= #[trigger] sel[j] < files.len())
    &&& (forall|j: int| 0 <= j < sel.len() ==> relic_ok(files[#[trigger] sel[j]]@, relics[j]))
    &&& (forall|j: int| 0 <= j < sel.len() ==> is_relic_file(files[#[trigger] sel[j]]@))
    &&& (forall|f: int|
        0 <= f < files.len() && is_relic_file(#[trigger] files[f]@) ==> exists|j: int|
            0 <= j < sel.len() && #[trigger] sel[j] == f)
}

impl STSCache {
    /// Builds the cache from the raw text of the card and relic source
    /// files. Each card file must extract; relic files that declare no
    /// relic are skipped; a duplicated identifier on either side is
    /// rejected, so a built cache always satisfies [`STSCache::wf`].
    pub fn build_from_sources(card_files: &Vec<String>, relic_files: &Vec<String>) -> (r: Result<
        STSCache,
        BuildError,
    >)
        ensures
            r matches Ok(c) ==> {
                &&& c.wf()
                &&& c.cards@.len() == card_files@.len()
                &&& (forall|i: int|
                    0 <= i < card_files@.len() ==> card_ok(
                        #[trigger] card_files@[i]@,
                        c.cards@[i],
                    ))
                &&& (exists|sel: Seq<int>| relic_selection(relic_files@, sel, c.relics@))
            },
            r is Ok <==> card_files_ok(card_files@) && !has_dup_card(card_files@) && !has_dup_relic(
                relic_files@,
            ),
            r matches Err(BuildError::Parse(pe)) ==> exists|i: int|
                0 <= i < card_files@.len() && !card_file_ok(#[trigger] card_files@[i]@),
            r == Err::<STSCache, BuildError>(BuildError::DuplicateCard) ==> has_dup_card(
                card_files@,
            ),
            r == Err::<STSCache, BuildError>(BuildError::DuplicateRelic) ==> has_dup_relic(
                relic_files@,
            ),
    {
        let ghost cfs = card_files@;
        let ghost rfs = relic_files@;
        let mut cards: Vec<Card> = Vec::new();
        let mut idx: usize = 0;
        while idx < card_files.len()
            invariant
                cfs == card_files@,
                idx <= cfs.len(),
                cards@.len() == idx,
                forall|i: int| 0 <= i < idx ==> card_ok(#[trigger] cfs[i]@, cards@[i]),
                forall|i: int| 0 <= i < idx ==> card_file_ok(#[trigger] cfs[i]@),
            decreases cfs.len() - idx,
        {
            match parse_card(card_files[idx].as_str()) {
                Ok(c) => {
                    cards.push(c);
                },
                Err(e) => {
                    return Err(BuildError::Parse(e));
                },
            }
            idx = idx + 1;
        }
        // no two card files may declare one identifier
        let mut i: usize = 1;
        while i < cards.len()
            invariant
                cfs == card_files@,
                cards@.len() == cfs.len(),
                i <= cards@.len() || cards@.len() == 0,
                forall|i2: int| 0 <= i2 < cfs.len() ==> card_ok(#[trigger] cfs[i2]@, cards@[i2]),
                forall|i2: int| 0 <= i2 < cfs.len() ==> card_file_ok(#[trigger] cfs[i2]@),
                forall|a: int, b: int|
                    0 <= a < b < i ==> #[trigger] cards@[a].id@ != #[trigger] cards@[b].id@,
            decreases cards@.len() - i,
        {
            let mut j: usize = 0;
            while j < i
                invariant
                    cfs == card_files@,
                    cards@.len() == cfs.len(),
                    j <= i < cards@.len(),
                    forall|i2: int|
                        0 <= i2 < cfs.len() ==> card_ok(#[trigger] cfs[i2]@, cards@[i2]),
                    forall|j2: int| 0 <= j2 < j ==> #[trigger] cards@[j2].id@ != cards@[i as int].id@,
                decreases i - j,
            {
                if cards[j].id == cards[i].id {
                    proof {
                        assert(card_ok(cfs[j as int]@, cards@[j as int]));
                        assert(card_ok(cfs[i as int]@, cards@[i as int]));
                    }
                    return Err(BuildError::DuplicateCard);
                }
                j = j + 1;
            }
            i = i + 1;
        }
        // gather the relics, remembering which files declared them
        let mut relics: Vec<Relic> = Vec::new();
        let ghost mut sel: Seq<int> = Seq::empty();
        let mut ridx: usize = 0;
        while ridx < relic_files.len()
            invariant
                rfs == relic_files@,
                ridx <= rfs.len(),
                relics@.len() == sel.len(),
                forall|j: int, j2: int|
                    0 <= j < j2 < sel.len() ==> #[trigger] sel[j] < #[trigger] sel[j2],
                forall|j: int| 0 <= j < sel.len() ==> 0 <= #[trigger] sel[j] < ridx,
                forall|j: int| 0 <= j < sel.len() ==> relic_ok(rfs[#[trigger] sel[j]]@, relics@[j]),
                forall|j: int| 0 <= j < sel.len() ==> is_relic_file(rfs[#[trigger] sel[j]]@),
                forall|f: int|
                    0 <= f < ridx && is_relic_file(#[trigger] rfs[f]@) ==> exists|j: int|
                        0 <= j < sel.len() && #[trigger] sel[j] == f,
            decreases rfs.len() - ridx,
        {
            match parse_relic(relic_files[ridx].as_str()) {
                Some(rel) => {
                    relics.push(rel);
                    proof {
                        let old_sel = sel;
                        sel = sel.push(ridx as int);
                        assert forall|f: int|
                            0 <= f < ridx + 1 && is_relic_file(#[trigger] rfs[f]@) implies exists|
                            j: int,
                        |
                            0 <= j < sel.len() && #[trigger] sel[j] == f by {
                            if f == ridx as int {
                                assert(sel[sel.len() - 1] == f);
                            } else {
                                let j = choose|j: int|
                                    0 <= j < old_sel.len() && #[trigger] old_sel[j] == f;
                                assert(sel[j] == f);
                            }
                        }
                    }
                },
                None => {
                    proof {
                        assert(!is_relic_file(rfs[ridx as int]@));
                    }
                },
            }
            ridx = ridx + 1;
        }
        // no two relic files may declare one identifier either
        let mut ri: usize = 1;
        while ri < relics.len()
            invariant
                rfs == relic_files@,
                relics@.len() == sel.len(),
                ri <= relics@.len() || relics@.len() == 0,
                relic_selection(rfs, sel, relics@),
                forall|a: int, b: int|
                    0 <= a < b < ri ==> #[trigger] relics@[a].id@ != #[trigger] relics@[b].id@,
            decreases relics@.len() - ri,
        {
            let mut rj: usize = 0;
            while rj < ri
                invariant
                    rfs == relic_files@,
                    relics@.len() == sel.len(),
                    rj <= ri < relics@.len(),
                    relic_selection(rfs, sel, relics@),
                    forall|j2: int|
                        0 <= j2 < rj ==> #[trigger] relics@[j2].id@ != relics@[ri as int].id@,
                decreases ri - rj,
            {
                if relics[rj].id == relics[ri].id {
                    proof {
                        assert(relic_ok(rfs[sel[rj as int]]@, relics@[rj as int]));
                        assert(relic_ok(rfs[sel[ri as int]]@, relics@[ri as int]));
                        assert(sel[rj as int] < sel[ri as int]);
                    }
                    return Err(BuildError::DuplicateRelic);
                }
                rj = rj + 1;
            }
            ri = ri + 1;
        }
        let cache = STSCache { cards, relics };
        proof {
            // a pinned identifier per file rules duplicates out
            if has_dup_card(cfs) {
                let (di, dj, a, b) = choose|i: int, j: int, a: Card, b: Card|
                    0 <= i < j < cfs.len() && #[trigger] card_ok(cfs[i]@, a) && #[trigger] card_ok(
                        cfs[j]@,
                        b,
                    ) && a.id@ == b.id@;
                lemma_card_id_unique(cfs[di]@, a, cache.cards@[di]);
                lemma_card_id_unique(cfs[dj]@, b, cache.cards@[dj]);
                assert(false);
            }
            if has_dup_relic(rfs) {
                let (di, dj, a, b) = choose|i: int, j: int, a: Relic, b: Relic|
                    0 <= i < j < rfs.len() && #[trigger] relic_ok(rfs[i]@, a)
                        && #[trigger] relic_ok(rfs[j]@, b) && a.id@ == b.id@;
                crate::extract::lemma_relic_ok_is_relic(rfs[di]@, a);
                crate::extract::lemma_relic_ok_is_relic(rfs[dj]@, b);
                let sa = choose|j: int| 0 <= j < sel.len() && #[trigger] sel[j] == di;
                let sb = choose|j: int| 0 <= j < sel.len() && #[trigger] sel[j] == dj;
                lemma_relic_id_unique(rfs[di]@, a, cache.relics@[sa]);
                lemma_relic_id_unique(rfs[dj]@, b, cache.relics@[sb]);
                if sa < sb {
                    assert(cache.relics@[sa].id@ != cache.relics@[sb].id@);
                } else if sb < sa {
                    assert(sel[sb] < sel[sa]);
                }
                assert(false);
            }
            // captured identifiers are never empty: the pattern demands at
            // least one character between the quotes
            assert forall|i2: int| 0 <= i2 < cache.cards@.len() implies (#[trigger] cache.cards@[
                i2
            ].id@).len() > 0 by {
                let (p, q) = choose|p: int, q: int|
                    #[trigger] crate::extract::id_capture_at(cfs[i2]@, p, q) && cache.cards@[i2].id@
                        == cfs[i2]@.subrange(p, q);
                crate::extract::lemma_capture_nonempty(cfs[i2]@, p, q);
            }
            assert forall|i2: int| 0 <= i2 < cache.relics@.len() implies (#[trigger] cache.relics@[
                i2
            ].id@).len() > 0 by {
                let (p, q) = choose|p: int, q: int|
                    #[trigger] crate::extract::id_capture_at(rfs[sel[i2]]@, p, q)
                        && cache.relics@[i2].id@ == rfs[sel[i2]]@.subrange(p, q);
                crate::extract::lemma_capture_nonempty(rfs[sel[i2]]@, p, q);
            }
        }
        Ok(cache)
    }
}

/// The four fixed bytes that open every cache file.
pub open spec fn magic_bytes() -> Seq<u8> {
    seq![5u8, 14u8, 14u8, 5u8]
}

/// The format revision this design writes and accepts.
pub open spec fn cache_version() -> u32 {
    1
}

/// A length-prefixed string: the byte count of its UTF-8 encoding as eight
/// little-endian bytes, then the encoding itself.
pub open spec fn str_block(s: Seq<char>) -> Seq<u8> {
    spec_u64_to_le_bytes(encode_utf8(s).len() as u64) + encode_utf8(s)
}

pub open spec fn rarity_tag(v: CardRarity) -> u8 {
    match v {
        CardRarity::BASIC => 0,
        CardRarity::SPECIAL => 1,
        CardRarity::COMMON => 2,
        CardRarity::UNCOMMON => 3,
        CardRarity::RARE => 4,
        CardRarity::CURSE => 5,
    }
}

pub open spec fn color_tag(v: CardColor) -> u8 {
    match v {
        CardColor::RED => 0,
        CardColor::GREEN => 1,
        CardColor::BLUE => 2,
        CardColor::PURPLE => 3,
        CardColor::COLORLESS => 4,
        CardColor::CURSE => 5,
    }
}

pub open spec fn type_tag(v: CardType) -> u8 {
    match v {
        CardType::ATTACK => 0,
        CardType::SKILL => 1,
        CardType::POWER => 2,
        CardType::STATUS => 3,
        CardType::CURSE => 4,
    }
}

pub open spec fn tier_tag(v: RelicTier) -> u8 {
    match v {
        RelicTier::DEPRECATED => 0,
        RelicTier::STARTER => 1,
        RelicTier::COMMON => 2,
        RelicTier::UNCOMMON => 3,
        RelicTier::RARE => 4,
        RelicTier::SPECIAL => 5,
        RelicTier::BOSS => 6,
        RelicTier::SHOP => 7,
    }
}

/// One card on disk: three classification tags, then the identifier.
pub open spec fn card_block(c: Card) -> Seq<u8> {
    seq![rarity_tag(c.rarity), color_tag(c.color), type_tag(c.type_)] + str_block(c.id@)
}

/// One relic on disk: its tier tag, then the identifier.
pub open spec fn relic_block(rel: Relic) -> Seq<u8> {
    seq![tier_tag(rel.tier)] + str_block(rel.id@)
}

pub open spec fn card_blocks(cards: Seq<Card>) -> Seq<u8>
    decreases cards.len(),
{
    if cards.len() == 0 {
        Seq::empty()
    } else {
        card_blocks(cards.drop_last()) + card_block(cards.last())
    }
}

pub open spec fn relic_blocks(relics: Seq<Relic>) -> Seq<u8>
    decreases relics.len(),
{
    if relics.len() == 0 {
        Seq::empty()
    } else {
        relic_blocks(relics.drop_last()) + relic_block(relics.last())
    }
}

/// The whole cache file: magic word, version, the cards with their count,
/// then the relics with theirs.
pub open spec fn cache_file_bytes(c: STSCache) -> Seq<u8> {
    magic_bytes() + spec_u32_to_le_bytes(cache_version()) + spec_u64_to_le_bytes(
        c.cards@.len() as u64,
    ) + card_blocks(c.cards@) + spec_u64_to_le_bytes(c.relics@.len() as u64) + relic_blocks(
        c.relics@,
    )
}

fn rarity_tag_exec(v: CardRarity) -> (r: u8)
    ensures
        r == rarity_tag(v),
{
    match v {
        CardRarity::BASIC => 0,
        CardRarity::SPECIAL => 1,
        CardRarity::COMMON => 2,
        CardRarity::UNCOMMON => 3,
        CardRarity::RARE => 4,
        CardRarity::CURSE => 5,
    }
}

fn color_tag_exec(v: CardColor) -> (r: u8)
    ensures
        r == color_tag(v),
{
    match v {
        CardColor::RED => 0,
        CardColor::GREEN => 1,
        CardColor::BLUE => 2,
        CardColor::PURPLE => 3,
        CardColor::COLORLESS => 4,
        CardColor::CURSE => 5,
    }
}

fn type_tag_exec(v: CardType) -> (r: u8)
    ensures
        r == type_tag(v),
{
    match v {
        CardType::ATTACK => 0,
        CardType::SKILL => 1,
        CardType::POWER => 2,
        CardType::STATUS => 3,
        CardType::CURSE => 4,
    }
}

fn tier_tag_exec(v: RelicTier) -> (r: u8)
    ensures
        r == tier_tag(v),
{
    match v {
        RelicTier::DEPRECATED => 0,
        RelicTier::STARTER => 1,
        RelicTier::COMMON => 2,
        RelicTier::UNCOMMON => 3,
        RelicTier::RARE => 4,
        RelicTier::SPECIAL => 5,
        RelicTier::BOSS => 6,
        RelicTier::SHOP => 7,
    }
}

fn push_bytes(out: &mut Vec<u8>, bs: &[u8])
    ensures
        final(out)@ == old(out)@ + bs@,
{
    let mut i: usize = 0;
    while i < bs.len()
        invariant
            i <= bs@.len(),
            out@ == old(out)@ + bs@.subrange(0, i as int),
        decreases bs@.len() - i,
    {
        proof {
            assert(old(out)@ + bs@.subrange(0, i + 1) =~= (old(out)@ + bs@.subrange(0, i as int)).push(bs@[i as int]));
        }
        out.push(bs[i]);
        i = i + 1;
    }
    proof {
        assert(bs@.subrange(0, bs@.len() as int) =~= bs@);
    }
}

fn push_str_block(out: &mut Vec<u8>, s: &String)
    ensures
        final(out)@ == old(out)@ + str_block(s@),
{
    let bs = s.as_str().as_bytes();
    let len_bytes = u64_to_le_bytes(bs.len() as u64);
    push_bytes(out, len_bytes.as_slice());
    push_bytes(out, bs);
    proof {
        assert(final(out)@ =~= old(out)@ + str_block(s@));
    }
}

/// A card reduced to what the file format stores.
pub open spec fn card_view(cd: Card) -> (CardRarity, CardColor, CardType, Seq<char>) {
    (cd.rarity, cd.color, cd.type_, cd.id@)
}

/// A relic reduced to what the file format stores.
pub open spec fn relic_view(rel: Relic) -> (RelicTier, Seq<char>) {
    (rel.tier, rel.id@)
}

/// The cache is small enough for the format's fixed-width counters and
/// length prefixes; every cache held in memory is.
pub open spec fn serializable(c: STSCache) -> bool {
    &&& c.cards@.len() < 0x1_0000_0000_0000_0000
    &&& c.relics@.len() < 0x1_0000_0000_0000_0000
    &&& (forall|i: int|
        0 <= i < c.cards@.len() ==> encode_utf8((#[trigger] c.cards@[i]).id@).len()
            < 0x1_0000_0000_0000_0000)
    &&& (forall|i: int|
        0 <= i < c.relics@.len() ==> encode_utf8((#[trigger] c.relics@[i]).id@).len()
            < 0x1_0000_0000_0000_0000)
}

/// `bytes` is the well-formed cache `c`, serialized.
pub open spec fn serializes_to(c: STSCache, bytes: Seq<u8>) -> bool {
    c.wf() && serializable(c) && bytes == cache_file_bytes(c)
}

/// Card blocks of a prefix are a prefix of the card blocks.
proof fn lemma_card_blocks_prefix(s: Seq<Card>, k: int)
    requires
        0 <= k <= s.len(),
    ensures
        card_blocks(s.take(k)).len() <= card_blocks(s).len(),
        card_blocks(s).subrange(0, card_blocks(s.take(k)).len() as int) == card_blocks(s.take(k)),
    decreases s.len() - k,
{
    if k == s.len() {
        assert(s.take(k) =~= s);
        assert(card_blocks(s).subrange(0, card_blocks(s.take(k)).len() as int) =~= card_blocks(
            s.take(k),
        ));
    } else {
        lemma_card_blocks_prefix(s, k + 1);
        assert(s.take(k + 1).drop_last() =~= s.take(k));
        assert(s.take(k + 1).last() == s[k]);
        assert(card_blocks(s.take(k + 1)) == card_blocks(s.take(k)) + card_block(s[k]));
        assert(card_blocks(s).subrange(0, card_blocks(s.take(k)).len() as int) =~= card_blocks(
            s,
        ).subrange(0, card_blocks(s.take(k + 1)).len() as int).subrange(
            0,
            card_blocks(s.take(k)).len() as int,
        ));
    }
}

/// Where card `k` sits inside the card blocks.
proof fn lemma_card_block_window(s: Seq<Card>, k: int)
    requires
        0 <= k < s.len(),
    ensures
        card_blocks(s.take(k)).len() + card_block(s[k]).len() <= card_blocks(s).len(),
        card_blocks(s).subrange(
            card_blocks(s.take(k)).len() as int,
            card_blocks(s.take(k)).len() + card_block(s[k]).len() as int,
        ) == card_block(s[k]),
{
    lemma_card_blocks_prefix(s, k + 1);
    assert(s.take(k + 1).drop_last() =~= s.take(k));
    assert(s.take(k + 1).last() == s[k]);
    assert(card_blocks(s.take(k + 1)) == card_blocks(s.take(k)) + card_block(s[k]));
    assert(card_blocks(s).subrange(
        card_blocks(s.take(k)).len() as int,
        card_blocks(s.take(k)).len() + card_block(s[k]).len() as int,
    ) =~= card_blocks(s).subrange(0, card_blocks(s.take(k + 1)).len() as int).subrange(
        card_blocks(s.take(k)).len() as int,
        card_blocks(s.take(k + 1)).len() as int,
    ));
}

/// Relic blocks of a prefix are a prefix of the relic blocks.
proof fn lemma_relic_blocks_prefix(s: Seq<Relic>, k: int)
    requires
        0 <= k <= s.len(),
    ensures
        relic_blocks(s.take(k)).len() <= relic_blocks(s).len(),
        relic_blocks(s).subrange(0, relic_blocks(s.take(k)).len() as int) == relic_blocks(
            s.take(k),
        ),
    decreases s.len() - k,
{
    if k == s.len() {
        assert(s.take(k) =~= s);
        assert(relic_blocks(s).subrange(0, relic_blocks(s.take(k)).len() as int) =~= relic_blocks(
            s.take(k),
        ));
    } else {
        lemma_relic_blocks_prefix(s, k + 1);
        assert(s.take(k + 1).drop_last() =~= s.take(k));
        assert(s.take(k + 1).last() == s[k]);
        assert(relic_blocks(s.take(k + 1)) == relic_blocks(s.take(k)) + relic_block(s[k]));
        assert(relic_blocks(s).subrange(0, relic_blocks(s.take(k)).len() as int) =~= relic_blocks(
            s,
        ).subrange(0, relic_blocks(s.take(k + 1)).len() as int).subrange(
            0,
            relic_blocks(s.take(k)).len() as int,
        ));
    }
}

/// Where relic `k` sits inside the relic blocks.
proof fn lemma_relic_block_window(s: Seq<Relic>, k: int)
    requires
        0 <= k < s.len(),
    ensures
        relic_blocks(s.take(k)).len() + relic_block(s[k]).len() <= relic_blocks(s).len(),
        relic_blocks(s).subrange(
            relic_blocks(s.take(k)).len() as int,
            relic_blocks(s.take(k)).len() + relic_block(s[k]).len() as int,
        ) == relic_block(s[k]),
{
    lemma_relic_blocks_prefix(s, k + 1);
    assert(s.take(k + 1).drop_last() =~= s.take(k));
    assert(s.take(k + 1).last() == s[k]);
    assert(relic_blocks(s.take(k + 1)) == relic_blocks(s.take(k)) + relic_block(s[k]));
    assert(relic_blocks(s).subrange(
        relic_blocks(s.take(k)).len() as int,
        relic_blocks(s.take(k)).len() + relic_block(s[k]).len() as int,
    ) =~= relic_blocks(s).subrange(0, relic_blocks(s.take(k + 1)).len() as int).subrange(
        relic_blocks(s.take(k)).len() as int,
        relic_blocks(s.take(k + 1)).len() as int,
    ));
}

/// How a serialized cache's bytes decompose into its fields.
proof fn lemma_cache_file_layout(c: STSCache, bytes: Seq<u8>)
    requires
        bytes == cache_file_bytes(c),
    ensures
        ({
            let cb = card_blocks(c.cards@).len() as int;
            let rb = relic_blocks(c.relics@).len() as int;
            &&& bytes.len() == 24 + cb + rb
            &&& bytes.subrange(0, 4) == magic_bytes()
            &&& bytes.subrange(4, 8) == spec_u32_to_le_bytes(cache_version())
            &&& bytes.subrange(8, 16) == spec_u64_to_le_bytes(c.cards@.len() as u64)
            &&& bytes.subrange(16, 16 + cb) == card_blocks(c.cards@)
            &&& bytes.subrange(16 + cb, 24 + cb) == spec_u64_to_le_bytes(c.relics@.len() as u64)
            &&& bytes.subrange(24 + cb, 24 + cb + rb) == relic_blocks(c.relics@)
        }),
{
    lemma_auto_spec_u32_to_from_le_bytes();
    lemma_auto_spec_u64_to_from_le_bytes();
    let cb = card_blocks(c.cards@).len() as int;
    let rb = relic_blocks(c.relics@).len() as int;
    assert(spec_u32_to_le_bytes(cache_version()).len() == 4);
    assert(spec_u64_to_le_bytes(c.cards@.len() as u64).len() == 8);
    assert(spec_u64_to_le_bytes(c.relics@.len() as u64).len() == 8);
    assert(bytes.subrange(0, 4) =~= magic_bytes());
    assert(bytes.subrange(4, 8) =~= spec_u32_to_le_bytes(cache_version()));
    assert(bytes.subrange(8, 16) =~= spec_u64_to_le_bytes(c.cards@.len() as u64));
    assert(bytes.subrange(16, 16 + cb) =~= card_blocks(c.cards@));
    assert(bytes.subrange(16 + cb, 24 + cb) =~= spec_u64_to_le_bytes(c.relics@.len() as u64));
    assert(bytes.subrange(24 + cb, 24 + cb + rb) =~= relic_blocks(c.relics@));
}

/// Reads the card list that starts right after the header and counter.
/// Succeeds on every byte stream a serialized cache could have put there.
#[verifier::loop_isolation(false)]
#[verifier::rlimit(100)]
#[verifier::spinoff_prover]
fn read_cards(bytes: &[u8], ncards: u64) -> (r: Result<(Vec<Card>, usize), FormatError>)
    requires
        16 <= bytes@.len(),
        forall|c: STSCache| #[trigger] serializes_to(c, bytes@) ==> ncards == c.cards@.len(),
    ensures
        match r {
            Ok(cp) => {
                &&& 16 <= cp.1 <= bytes@.len()
                &&& cp.0@.len() == ncards
                &&& bytes@.subrange(16, cp.1 as int) == card_blocks(cp.0@)
                &&& (forall|i: int|
                    0 <= i < cp.0@.len() ==> encode_utf8((#[trigger] cp.0@[i]).id@).len()
                        < 0x1_0000_0000_0000_0000)
                &&& (forall|c: STSCache|
                    #[trigger] serializes_to(c, bytes@) ==> cp.0@.map_values(
                        |cd: Card| card_view(cd),
                    ) == c.cards@.map_values(|cd: Card| card_view(cd)) && cp.1 == 16 + card_blocks(
                        c.cards@,
                    ).len())
            },
            Err(e) => e == FormatError::Corrupt && (forall|c: STSCache|
                !(#[trigger] serializes_to(c, bytes@))),
        },
{
    let n = bytes.len();
    let p2: usize = 16;
    let mut cards: Vec<Card> = Vec::new();
    let mut pos = p2;
    let mut k: u64 = 0;
    while k < ncards
        invariant
        p2 <= pos <= n,
        cards@.len() == k,
        k <= ncards,
        bytes@.subrange(p2 as int, pos as int) == card_blocks(cards@),
        forall|i: int|
            0 <= i < k ==> encode_utf8((#[trigger] cards@[i]).id@).len()
            < 0x1_0000_0000_0000_0000,
        forall|c: STSCache|
            #[trigger] serializes_to(c, bytes@) ==> cards@.map_values(|cd: Card| card_view(cd))
            == c.cards@.take(k as int).map_values(|cd: Card| card_view(cd)) && pos == 16 + card_blocks(
            c.cards@.take(k as int),
            ).len(),
        decreases ncards - k,
    {
        proof {
        // under any serialization hypothesis, card `k` sits at `pos`
        assert forall|c: STSCache| #[trigger] serializes_to(c, bytes@) implies ({
            let ck = c.cards@[k as int];
            &&& k < c.cards@.len()
            &&& pos + 3 + 8 + encode_utf8(ck.id@).len() <= n
            &&& bytes@[pos as int] == rarity_tag(ck.rarity)
            &&& bytes@[pos + 1] == color_tag(ck.color)
            &&& bytes@[pos + 2] == type_tag(ck.type_)
            &&& str_block_at(bytes@, pos + 3, ck.id@)
        }) by {
            lemma_cache_file_layout(c, bytes@);
            lemma_card_block_window(c.cards@, k as int);
            lemma_auto_spec_u64_to_from_le_bytes();
            let ck = c.cards@[k as int];
            let off = card_blocks(c.cards@.take(k as int)).len() as int;
            let bl = card_block(ck).len() as int;
            let cb = card_blocks(c.cards@).len() as int;
            assert(bytes@.subrange(16 + off, 16 + off + bl) =~= bytes@.subrange(
            16,
            16 + cb,
            ).subrange(off, off + bl));
            assert(bytes@.subrange(16 + off, 16 + off + bl) == card_block(ck));
            let enc = encode_utf8(ck.id@).len() as int;
            assert(card_block(ck)[0] == rarity_tag(ck.rarity));
            assert(card_block(ck)[1] == color_tag(ck.color));
            assert(card_block(ck)[2] == type_tag(ck.type_));
            assert(bytes@.subrange(pos + 3, pos + 3 + 8 + enc) =~= card_block(ck).subrange(
            3,
            3 + 8 + enc,
            ));
            assert(card_block(ck).subrange(3, 3 + 8 + enc) =~= str_block(ck.id@));
        }
        }
        if n - pos < 3 {
        proof {
            assert forall|c: STSCache| !serializes_to(c, bytes@) by {}
        }
        return Err(FormatError::Corrupt);
        }
        let rt = match read_rarity(bytes[pos]) {
        Some(v) => v,
        None => {
            proof {
            assert forall|c: STSCache| !serializes_to(c, bytes@) by {}
            }
            return Err(FormatError::Corrupt);
        },
        };
        let ct = match read_color(bytes[pos + 1]) {
        Some(v) => v,
        None => {
            proof {
            assert forall|c: STSCache| !serializes_to(c, bytes@) by {}
            }
            return Err(FormatError::Corrupt);
        },
        };
        let tt = match read_type(bytes[pos + 2]) {
        Some(v) => v,
        None => {
            proof {
            assert forall|c: STSCache| !serializes_to(c, bytes@) by {}
            }
            return Err(FormatError::Corrupt);
        },
        };
        let (id, npos) = match read_str(bytes, pos + 3) {
        Some(v) => v,
        None => {
            proof {
            assert forall|c: STSCache| !serializes_to(c, bytes@) by {}
            }
            return Err(FormatError::Corrupt);
        },
        };
        let card = Card { rarity: rt, color: ct, type_: tt, id };
        proof {
        assert(bytes@.subrange(pos as int, npos as int) =~= seq![
            rarity_tag(card.rarity),
            color_tag(card.color),
            type_tag(card.type_),
        ] + str_block(card.id@));
        assert(cards@.push(card).drop_last() =~= cards@);
        assert(bytes@.subrange(p2 as int, npos as int) =~= bytes@.subrange(
            p2 as int,
            pos as int,
        ) + bytes@.subrange(pos as int, npos as int));
        // the new entry's identifier fits the length prefix
        assert(spec_u64_to_le_bytes(encode_utf8(card.id@).len() as u64).len() == 8) by {
            lemma_auto_spec_u64_to_from_le_bytes();
        }
        assert(npos - pos - 11 == encode_utf8(card.id@).len());
        // under any hypothesis the parsed card is card `k`
        assert forall|c: STSCache| #[trigger] serializes_to(c, bytes@) implies ({
            &&& cards@.push(card).map_values(|cd: Card| card_view(cd)) == c.cards@.take(
            k + 1,
            ).map_values(|cd: Card| card_view(cd))
            &&& npos == 16 + card_blocks(c.cards@.take(k + 1)).len()
        }) by {
            let ck = c.cards@[k as int];
            assert(card_view(card) == card_view(ck));
            assert(cards@.push(card).map_values(|cd: Card| card_view(cd)) =~= cards@.map_values(|cd: Card| card_view(cd)).push(card_view(card)));
            assert(c.cards@.take(k + 1).drop_last() =~= c.cards@.take(k as int));
            assert(c.cards@.take(k + 1).last() == ck);
            assert(c.cards@.take(k + 1).map_values(|cd: Card| card_view(cd)) =~= c.cards@.take(
            k as int,
            ).map_values(|cd: Card| card_view(cd)).push(card_view(ck)));
            assert(card_blocks(c.cards@.take(k + 1)) == card_blocks(c.cards@.take(k as int))
            + card_block(ck));
        }
        }
        cards.push(card);
        pos = npos;
        k = k + 1;
    }
    proof {
        assert forall|c: STSCache| #[trigger] serializes_to(c, bytes@) implies ({
        &&& cards@.map_values(|cd: Card| card_view(cd)) == c.cards@.map_values(|cd: Card| card_view(cd))
        &&& pos + 8 <= n
        &&& bytes@.subrange(pos as int, pos + 8) == spec_u64_to_le_bytes(
            c.relics@.len() as u64,
        )
        }) by {
        lemma_cache_file_layout(c, bytes@);
        assert(c.cards@.take(ncards as int) =~= c.cards@);
        }
    }
    proof {
        assert forall|c: STSCache| #[trigger] serializes_to(c, bytes@) implies cards@.map_values(
            |cd: Card| card_view(cd),
        ) == c.cards@.map_values(|cd: Card| card_view(cd)) && pos == 16 + card_blocks(
            c.cards@,
        ).len() by {
            assert(c.cards@.take(ncards as int) =~= c.cards@);
        }
    }
    Ok((cards, pos))
}

/// Reads the relic list that starts at `p3`, after the cards and their
/// counter. Succeeds on every byte stream a serialized cache could have
/// put there.
#[verifier::loop_isolation(false)]
#[verifier::rlimit(100)]
#[verifier::spinoff_prover]
fn read_relics(bytes: &[u8], p3: usize, nrelics: u64) -> (r: Result<(Vec<Relic>, usize), FormatError>)
    requires
        p3 <= bytes@.len(),
        forall|c: STSCache| #[trigger] serializes_to(c, bytes@) ==> nrelics == c.relics@.len()
            && p3 == 24 + card_blocks(c.cards@).len(),
    ensures
        match r {
            Ok(rp) => {
                &&& p3 <= rp.1 <= bytes@.len()
                &&& rp.0@.len() == nrelics
                &&& bytes@.subrange(p3 as int, rp.1 as int) == relic_blocks(rp.0@)
                &&& (forall|i: int|
                    0 <= i < rp.0@.len() ==> encode_utf8((#[trigger] rp.0@[i]).id@).len()
                        < 0x1_0000_0000_0000_0000)
                &&& (forall|c: STSCache|
                    #[trigger] serializes_to(c, bytes@) ==> rp.0@.map_values(
                        |rl: Relic| relic_view(rl),
                    ) == c.relics@.map_values(|rl: Relic| relic_view(rl)) && rp.1 == p3
                        + relic_blocks(c.relics@).len())
            },
            Err(e) => e == FormatError::Corrupt && (forall|c: STSCache|
                !(#[trigger] serializes_to(c, bytes@))),
        },
{
    let n = bytes.len();
    let mut relics: Vec<Relic> = Vec::new();
    let mut rpos = p3;
    let mut rk: u64 = 0;
    while rk < nrelics
        invariant
        p3 <= rpos <= n,
        relics@.len() == rk,
        rk <= nrelics,
        bytes@.subrange(p3 as int, rpos as int) == relic_blocks(relics@),
        forall|i: int|
            0 <= i < rk ==> encode_utf8((#[trigger] relics@[i]).id@).len()
            < 0x1_0000_0000_0000_0000,
        forall|c: STSCache|
            #[trigger] serializes_to(c, bytes@) ==> relics@.map_values(|rl: Relic| relic_view(rl))
            == c.relics@.take(rk as int).map_values(|rl: Relic| relic_view(rl)) && rpos == p3
            + relic_blocks(c.relics@.take(rk as int)).len(),
        decreases nrelics - rk,
    {
        proof {
        assert forall|c: STSCache| #[trigger] serializes_to(c, bytes@) implies ({
            let rl = c.relics@[rk as int];
            &&& rk < c.relics@.len()
            &&& rpos + 1 + 8 + encode_utf8(rl.id@).len() <= n
            &&& bytes@[rpos as int] == tier_tag(rl.tier)
            &&& str_block_at(bytes@, rpos + 1, rl.id@)
        }) by {
            lemma_cache_file_layout(c, bytes@);
            lemma_relic_block_window(c.relics@, rk as int);
            lemma_auto_spec_u64_to_from_le_bytes();
            let rl = c.relics@[rk as int];
            let off = relic_blocks(c.relics@.take(rk as int)).len() as int;
            let bl = relic_block(rl).len() as int;
            let rb = relic_blocks(c.relics@).len() as int;
            let cb = card_blocks(c.cards@).len() as int;
            assert(p3 == 24 + cb);
            assert(bytes@.subrange(p3 + off, p3 + off + bl) =~= bytes@.subrange(
            24 + cb,
            24 + cb + rb,
            ).subrange(off, off + bl));
            assert(bytes@.subrange(p3 + off, p3 + off + bl) == relic_block(rl));
            let enc = encode_utf8(rl.id@).len() as int;
            assert(relic_block(rl)[0] == tier_tag(rl.tier));
            assert(bytes@.subrange(rpos + 1, rpos + 1 + 8 + enc) =~= relic_block(
            rl,
            ).subrange(1, 1 + 8 + enc));
            assert(relic_block(rl).subrange(1, 1 + 8 + enc) =~= str_block(rl.id@));
        }
        }
        if n - rpos < 1 {
        proof {
            assert forall|c: STSCache| !serializes_to(c, bytes@) by {}
        }
        return Err(FormatError::Corrupt);
        }
        let tt = match read_tier(bytes[rpos]) {
        Some(v) => v,
        None => {
            proof {
            assert forall|c: STSCache| !serializes_to(c, bytes@) by {}
            }
            return Err(FormatError::Corrupt);
        },
        };
        let (id, npos) = match read_str(bytes, rpos + 1) {
        Some(v) => v,
        None => {
            proof {
            assert forall|c: STSCache| !serializes_to(c, bytes@) by {}
            }
            return Err(FormatError::Corrupt);
        },
        };
        let rel = Relic { tier: tt, id };
        proof {
        assert(bytes@.subrange(rpos as int, npos as int) =~= seq![tier_tag(rel.tier)]
            + str_block(rel.id@));
        assert(relics@.push(rel).drop_last() =~= relics@);
        assert(bytes@.subrange(p3 as int, npos as int) =~= bytes@.subrange(
            p3 as int,
            rpos as int,
        ) + bytes@.subrange(rpos as int, npos as int));
        assert(spec_u64_to_le_bytes(encode_utf8(rel.id@).len() as u64).len() == 8) by {
            lemma_auto_spec_u64_to_from_le_bytes();
        }
        assert(npos - rpos - 9 == encode_utf8(rel.id@).len());
        assert forall|c: STSCache| #[trigger] serializes_to(c, bytes@) implies ({
            &&& relics@.push(rel).map_values(|rl: Relic| relic_view(rl)) == c.relics@.take(
            rk + 1,
            ).map_values(|rl: Relic| relic_view(rl))
            &&& npos == p3 + relic_blocks(c.relics@.take(rk + 1)).len()
        }) by {
            let rl = c.relics@[rk as int];
            assert(relic_view(rel) == relic_view(rl));
            assert(relics@.push(rel).map_values(|rl: Relic| relic_view(rl)) =~= relics@.map_values(|rl: Relic| relic_view(rl)).push(relic_view(rel)));
            assert(c.relics@.take(rk + 1).drop_last() =~= c.relics@.take(rk as int));
            assert(c.relics@.take(rk + 1).last() == rl);
            assert(c.relics@.take(rk + 1).map_values(|rl: Relic| relic_view(rl)) =~= c.relics@.take(
            rk as int,
            ).map_values(|rl: Relic| relic_view(rl)).push(relic_view(rl)));
            assert(relic_blocks(c.relics@.take(rk + 1)) == relic_blocks(
            c.relics@.take(rk as int),
            ) + relic_block(rl));
        }
        }
        relics.push(rel);
        rpos = npos;
        rk = rk + 1;
    }
    proof {
        assert forall|c: STSCache| #[trigger] serializes_to(c, bytes@) implies relics@.map_values(
            |rl: Relic| relic_view(rl),
        ) == c.relics@.map_values(|rl: Relic| relic_view(rl)) && rpos == p3 + relic_blocks(
            c.relics@,
        ).len() by {
            assert(c.relics@.take(nrelics as int) =~= c.relics@);
        }
    }
    Ok((relics, rpos))
}

/// Why loading a cache file failed: it is not a cache file at all, it was
/// written by an incompatible revision, or its payload is damaged. No
/// partially-populated cache ever escapes a failed load.
#[derive(Debug, PartialEq, Eq, Structural, Clone, Copy)]
pub enum FormatError {
    BadMagic,
    BadVersion,
    Corrupt,
}

/// Relies on `String::from_utf8`: it succeeds exactly on valid UTF-8 and
/// returns the characters those bytes encode, stated in vstd's UTF-8
/// model.
#[verifier::external_body]
fn string_from_utf8(bytes: Vec<u8>) -> (r: Option<String>)
    ensures
        match r {
            Some(s) => valid_utf8(bytes@) && s@ == decode_utf8(bytes@),
            None => !valid_utf8(bytes@),
        },
{
    String::from_utf8(bytes).ok()
}

fn copy_range(bytes: &[u8], pos: usize, len: usize) -> (r: Vec<u8>)
    requires
        pos + len <= bytes@.len(),
    ensures
        r@ == bytes@.subrange(pos as int, pos + len),
{
    let n = bytes.len();
    let mut out: Vec<u8> = Vec::new();
    let mut i: usize = 0;
    while i < len
        invariant
            n == bytes@.len(),
            pos + len <= n,
            i <= len,
            out@.len() == i,
            forall|m: int| 0 <= m < i ==> out@[m] == bytes@[pos + m],
        decreases len - i,
    {
        out.push(bytes[pos + i]);
        i = i + 1;
    }
    proof {
        assert(out@ =~= bytes@.subrange(pos as int, pos + len));
    }
    out
}

fn read_u32(bytes: &[u8], pos: usize) -> (r: Option<(u32, usize)>)
    ensures
        match r {
            Some(vp) => pos + 4 <= bytes@.len() && vp.1 == pos + 4 && bytes@.subrange(
                pos as int,
                pos + 4,
            ) == spec_u32_to_le_bytes(vp.0),
            None => bytes@.len() < pos + 4,
        },
{
    if bytes.len() < 4 || pos > bytes.len() - 4 {
        return None;
    }
    let w = copy_range(bytes, pos, 4);
    let x = u32_from_le_bytes(w.as_slice());
    proof {
        lemma_auto_spec_u32_to_from_le_bytes();
        assert(spec_u32_to_le_bytes(x) == w@);
    }
    Some((x, pos + 4))
}

fn read_u64(bytes: &[u8], pos: usize) -> (r: Option<(u64, usize)>)
    ensures
        match r {
            Some(vp) => pos + 8 <= bytes@.len() && vp.1 == pos + 8 && bytes@.subrange(
                pos as int,
                pos + 8,
            ) == spec_u64_to_le_bytes(vp.0),
            None => bytes@.len() < pos + 8,
        },
{
    if bytes.len() < 8 || pos > bytes.len() - 8 {
        return None;
    }
    let w = copy_range(bytes, pos, 8);
    let x = u64_from_le_bytes(w.as_slice());
    proof {
        lemma_auto_spec_u64_to_from_le_bytes();
        assert(spec_u64_to_le_bytes(x) == w@);
    }
    Some((x, pos + 8))
}

/// A length-prefixed string starts at `pos`, encoding the characters `s`.
pub open spec fn str_block_at(bytes: Seq<u8>, pos: int, s: Seq<char>) -> bool {
    &&& encode_utf8(s).len() < 0x1_0000_0000_0000_0000
    &&& pos + 8 + encode_utf8(s).len() <= bytes.len()
    &&& bytes.subrange(pos, pos + 8 + encode_utf8(s).len()) == str_block(s)
}

fn read_str(bytes: &[u8], pos: usize) -> (r: Option<(String, usize)>)
    ensures
        r matches Some(sp) ==> pos <= sp.1 <= bytes@.len() && bytes@.subrange(
            pos as int,
            sp.1 as int,
        ) == str_block(sp.0@),
        forall|s2: Seq<char>|
            str_block_at(bytes@, pos as int, s2) ==> (r matches Some(sp) && sp.0@ == s2 && sp.1
                == pos + 8 + (#[trigger] encode_utf8(s2)).len()),
{
    let ghost n = bytes@.len() as int;
    let (len, p8) = match read_u64(bytes, pos) {
        Some(v) => v,
        None => {
            return None;
        },
    };
    proof {
        lemma_auto_spec_u64_to_from_le_bytes();
        // any string block here carries this very length prefix
        assert forall|s2: Seq<char>| str_block_at(bytes@, pos as int, s2) implies encode_utf8(
            s2,
        ).len() as u64 == len by {
            let l2 = encode_utf8(s2).len() as int;
            assert(bytes@.subrange(pos as int, pos + 8 + l2).subrange(0, 8) =~= bytes@.subrange(
                pos as int,
                pos + 8,
            ));
            assert(str_block(s2).subrange(0, 8) =~= spec_u64_to_le_bytes(
                encode_utf8(s2).len() as u64,
            ));
        }
    }
    if len > (bytes.len() - p8) as u64 {
        return None;
    }
    let nl = len as usize;
    let sb = copy_range(bytes, p8, nl);
    let ghost sbv = sb@;
    proof {
        // any string block here holds this very byte run after the prefix
        assert forall|s2: Seq<char>| str_block_at(bytes@, pos as int, s2) implies encode_utf8(s2)
            == sbv by {
            let l2 = encode_utf8(s2).len() as int;
            assert(bytes@.subrange(pos as int, pos + 8 + l2).subrange(8, 8 + l2) =~= bytes@.subrange(
                p8 as int,
                p8 + nl,
            ));
            assert(str_block(s2).subrange(8, 8 + l2) =~= encode_utf8(s2));
        }
    }
    let s = match string_from_utf8(sb) {
        Some(s) => s,
        None => {
            proof {
                assert forall|s2: Seq<char>| !str_block_at(bytes@, pos as int, s2) by {
                    if str_block_at(bytes@, pos as int, s2) {
                        vstd::utf8::encode_utf8_valid_utf8(s2);
                    }
                }
            }
            return None;
        },
    };
    proof {
        decode_utf8_encode_utf8(sbv);
        assert(encode_utf8(s@) == sbv);
        assert(bytes@.subrange(pos as int, p8 + nl) =~= spec_u64_to_le_bytes(len) + sbv);
        assert forall|s2: Seq<char>| str_block_at(bytes@, pos as int, s2) implies s2 == s@ by {
            vstd::utf8::encode_utf8_decode_utf8(s2);
        }
    }
    Some((s, p8 + nl))
}

fn read_rarity(b: u8) -> (r: Option<CardRarity>)
    ensures
        r matches Some(v) ==> rarity_tag(v) == b,
        r matches Some(v) ==> (forall|w: CardRarity| rarity_tag(w) == b ==> w == v),
        r is None ==> (forall|w: CardRarity| rarity_tag(w) != b),
{
    match b {
        0 => Some(CardRarity::BASIC),
        1 => Some(CardRarity::SPECIAL),
        2 => Some(CardRarity::COMMON),
        3 => Some(CardRarity::UNCOMMON),
        4 => Some(CardRarity::RARE),
        5 => Some(CardRarity::CURSE),
        _ => None,
    }
}

fn read_color(b: u8) -> (r: Option<CardColor>)
    ensures
        r matches Some(v) ==> color_tag(v) == b,
        r matches Some(v) ==> (forall|w: CardColor| color_tag(w) == b ==> w == v),
        r is None ==> (forall|w: CardColor| color_tag(w) != b),
{
    match b {
        0 => Some(CardColor::RED),
        1 => Some(CardColor::GREEN),
        2 => Some(CardColor::BLUE),
        3 => Some(CardColor::PURPLE),
        4 => Some(CardColor::COLORLESS),
        5 => Some(CardColor::CURSE),
        _ => None,
    }
}

fn read_type(b: u8) -> (r: Option<CardType>)
    ensures
        r matches Some(v) ==> type_tag(v) == b,
        r matches Some(v) ==> (forall|w: CardType| type_tag(w) == b ==> w == v),
        r is None ==> (forall|w: CardType| type_tag(w) != b),
{
    match b {
        0 => Some(CardType::ATTACK),
        1 => Some(CardType::SKILL),
        2 => Some(CardType::POWER),
        3 => Some(CardType::STATUS),
        4 => Some(CardType::CURSE),
        _ => None,
    }
}

fn read_tier(b: u8) -> (r: Option<RelicTier>)
    ensures
        r matches Some(v) ==> tier_tag(v) == b,
        r matches Some(v) ==> (forall|w: RelicTier| tier_tag(w) == b ==> w == v),
        r is None ==> (forall|w: RelicTier| tier_tag(w) != b),
{
    match b {
        0 => Some(RelicTier::DEPRECATED),
        1 => Some(RelicTier::STARTER),
        2 => Some(RelicTier::COMMON),
        3 => Some(RelicTier::UNCOMMON),
        4 => Some(RelicTier::RARE),
        5 => Some(RelicTier::SPECIAL),
        6 => Some(RelicTier::BOSS),
        7 => Some(RelicTier::SHOP),
        _ => None,
    }
}

impl STSCache {
    /// Serializes the cache in its binary on-disk format.
    pub fn to_bytes(&self) -> (r: Vec<u8>)
        ensures
            r@ == cache_file_bytes(*self),
    {
        let ghost me = *self;
        let mut out: Vec<u8> = Vec::new();
        out.push(5);
        out.push(14);
        out.push(14);
        out.push(5);
        proof {
            assert(out@ =~= magic_bytes());
        }
        let vb = u32_to_le_bytes(1);
        push_bytes(&mut out, vb.as_slice());
        let ghost header = magic_bytes() + spec_u32_to_le_bytes(cache_version());
        let cb = u64_to_le_bytes(self.cards.len() as u64);
        push_bytes(&mut out, cb.as_slice());
        let ghost pre_cards = header + spec_u64_to_le_bytes(me.cards@.len() as u64);
        proof {
            assert(out@ =~= pre_cards + card_blocks(me.cards@.take(0)));
        }
        let mut i: usize = 0;
        while i < self.cards.len()
            invariant
                me == *self,
                i <= me.cards@.len(),
                out@ == pre_cards + card_blocks(me.cards@.take(i as int)),
            decreases me.cards@.len() - i,
        {
            let ghost before = out@;
            let c = &self.cards[i];
            out.push(rarity_tag_exec(c.rarity));
            out.push(color_tag_exec(c.color));
            out.push(type_tag_exec(c.type_));
            push_str_block(&mut out, &c.id);
            proof {
                assert(me.cards@.take(i + 1).drop_last() =~= me.cards@.take(i as int));
                assert(out@ =~= before + card_block(me.cards@.take(i + 1).last()));
                assert(out@ =~= pre_cards + card_blocks(me.cards@.take(i + 1)));
            }
            i = i + 1;
        }
        proof {
            assert(me.cards@.take(me.cards@.len() as int) =~= me.cards@);
        }
        let rb = u64_to_le_bytes(self.relics.len() as u64);
        push_bytes(&mut out, rb.as_slice());
        let ghost pre_relics = pre_cards + card_blocks(me.cards@) + spec_u64_to_le_bytes(
            me.relics@.len() as u64,
        );
        proof {
            assert(out@ =~= pre_relics + relic_blocks(me.relics@.take(0)));
        }
        let mut j: usize = 0;
        while j < self.relics.len()
            invariant
                me == *self,
                j <= me.relics@.len(),
                out@ == pre_relics + relic_blocks(me.relics@.take(j as int)),
            decreases me.relics@.len() - j,
        {
            let ghost before = out@;
            let rel = &self.relics[j];
            out.push(tier_tag_exec(rel.tier));
            push_str_block(&mut out, &rel.id);
            proof {
                assert(me.relics@.take(j + 1).drop_last() =~= me.relics@.take(j as int));
                assert(out@ =~= before + relic_block(me.relics@.take(j + 1).last()));
                assert(out@ =~= pre_relics + relic_blocks(me.relics@.take(j + 1)));
            }
            j = j + 1;
        }
        proof {
            assert(me.relics@.take(me.relics@.len() as int) =~= me.relics@);
            assert(out@ =~= cache_file_bytes(me));
        }
        out
    }

    /// Loads a cache from the bytes of a cache file. A wrong magic word or
    /// a wrong version is reported as such, exactly; any other damage is a
    /// corrupt payload. Loading succeeds exactly on the serializations of
    /// well-formed caches, and the result re-serializes to the very input
    /// bytes.
    #[verifier::loop_isolation(false)]
    #[verifier::rlimit(100)]
    #[verifier::spinoff_prover]
    pub fn from_bytes(bytes: &[u8]) -> (r: Result<STSCache, FormatError>)
        ensures
            r matches Ok(c) ==> c.wf() && bytes@ == cache_file_bytes(c),
            (r is Ok <==> exists|c: STSCache| #[trigger] serializes_to(c, bytes@)),
            r == Err::<STSCache, FormatError>(FormatError::BadMagic) <==> (bytes@.len() < 4
                || bytes@.subrange(0, 4) != magic_bytes()),
            r == Err::<STSCache, FormatError>(FormatError::BadVersion) <==> (bytes@.len() >= 4
                && bytes@.subrange(0, 4) == magic_bytes() && (bytes@.len() < 8 || bytes@.subrange(
                4,
                8,
            ) != spec_u32_to_le_bytes(cache_version()))),
            r == Err::<STSCache, FormatError>(FormatError::Corrupt) ==> bytes@.len() >= 8
                && bytes@.subrange(0, 4) == magic_bytes() && bytes@.subrange(4, 8)
                == spec_u32_to_le_bytes(cache_version()),
    {
        proof {
            // a serialized cache is at least a header and two counters long
            assert forall|c: STSCache| #[trigger] serializes_to(c, bytes@) implies bytes@.len()
                >= 24 by {
                lemma_cache_file_layout(c, bytes@);
            }
        }
        let n = bytes.len();
        if n < 4 {
            return Err(FormatError::BadMagic);
        }
        if !(bytes[0] == 5 && bytes[1] == 14 && bytes[2] == 14 && bytes[3] == 5) {
            proof {
                if bytes@.subrange(0, 4) == magic_bytes() {
                    assert(bytes@.subrange(0, 4)[0] == 5u8 && bytes@.subrange(0, 4)[1] == 14u8
                        && bytes@.subrange(0, 4)[2] == 14u8 && bytes@.subrange(0, 4)[3] == 5u8);
                }
                assert forall|c: STSCache| !serializes_to(c, bytes@) by {
                    if serializes_to(c, bytes@) {
                        lemma_cache_file_layout(c, bytes@);
                    }
                }
            }
            return Err(FormatError::BadMagic);
        }
        proof {
            assert(bytes@.subrange(0, 4) =~= magic_bytes());
        }
        let (ver, p1) = match read_u32(bytes, 4) {
            Some(v) => v,
            None => {
                return Err(FormatError::BadVersion);
            },
        };
        if ver != 1 {
            proof {
                lemma_auto_spec_u32_to_from_le_bytes();
                if bytes@.subrange(4, 8) == spec_u32_to_le_bytes(cache_version()) {
                    assert(spec_u32_to_le_bytes(ver).len() == 4);
                    assert(spec_u32_to_le_bytes(cache_version()).len() == 4);
                }
                assert forall|c: STSCache| !serializes_to(c, bytes@) by {
                    if serializes_to(c, bytes@) {
                        lemma_cache_file_layout(c, bytes@);
                    }
                }
            }
            return Err(FormatError::BadVersion);
        }
        let (ncards, p2) = match read_u64(bytes, p1) {
            Some(v) => v,
            None => {
                return Err(FormatError::Corrupt);
            },
        };
        proof {
            // every cache these bytes could serialize holds this many cards
            assert forall|c: STSCache| #[trigger] serializes_to(c, bytes@) implies ncards
                == c.cards@.len() by {
                lemma_cache_file_layout(c, bytes@);
                lemma_auto_spec_u64_to_from_le_bytes();
                assert(spec_u64_to_le_bytes(ncards).len() == 8);
                assert(spec_u64_to_le_bytes(c.cards@.len() as u64).len() == 8);
            }
        }
        let (cards, pos) = match read_cards(bytes, ncards) {
            Ok(v) => v,
            Err(e) => {
                return Err(e);
            },
        };
        proof {
            // the relic counter follows the card blocks
            assert forall|c: STSCache| #[trigger] serializes_to(c, bytes@) implies pos + 8 <= n
                && bytes@.subrange(pos as int, pos + 8) == spec_u64_to_le_bytes(
                c.relics@.len() as u64,
            ) by {
                lemma_cache_file_layout(c, bytes@);
            }
        }
        let (nrelics, p3) = match read_u64(bytes, pos) {
            Some(v) => v,
            None => {
                proof {
                    assert forall|c: STSCache| !serializes_to(c, bytes@) by {}
                }
                return Err(FormatError::Corrupt);
            },
        };
        proof {
            assert forall|c: STSCache| #[trigger] serializes_to(c, bytes@) implies nrelics
                == c.relics@.len() && p3 == 24 + card_blocks(c.cards@).len() by {
                lemma_auto_spec_u64_to_from_le_bytes();
                assert(spec_u64_to_le_bytes(nrelics).len() == 8);
                assert(spec_u64_to_le_bytes(c.relics@.len() as u64).len() == 8);
            }
        }
        let ghost cards_end = pos as int;
        let (relics, rpos) = match read_relics(bytes, p3, nrelics) {
            Ok(v) => v,
            Err(e) => {
                return Err(e);
            },
        };
        proof {
            assert forall|c: STSCache| #[trigger] serializes_to(c, bytes@) implies rpos == n by {
                lemma_cache_file_layout(c, bytes@);
            }
        }
        if rpos != n {
            proof {
                assert forall|c: STSCache| !serializes_to(c, bytes@) by {}
            }
            return Err(FormatError::Corrupt);
        }
        proof {
            // under any hypothesis every parsed field agrees with the cache
            assert forall|c: STSCache, i: int|
                #[trigger] serializes_to(c, bytes@) && 0 <= i < cards@.len() implies cards@[i].id@
                == #[trigger] c.cards@[i].id@ by {
                assert(cards@.map_values(|cd: Card| card_view(cd))[i] == card_view(cards@[i]));
                assert(c.cards@.map_values(|cd: Card| card_view(cd))[i] == card_view(c.cards@[i]));
            }
            assert forall|c: STSCache, i: int|
                #[trigger] serializes_to(c, bytes@) && 0 <= i < relics@.len() implies relics@[i].id@
                == #[trigger] c.relics@[i].id@ by {
                assert(relics@.map_values(|rl: Relic| relic_view(rl))[i] == relic_view(relics@[i]));
                assert(c.relics@.map_values(|rl: Relic| relic_view(rl))[i] == relic_view(c.relics@[i]));
            }
        }
        // the loaded cache must satisfy the invariant a built one does
        let mut x: usize = 0;
        while x < cards.len()
            invariant
                x <= cards@.len(),
                forall|i: int| 0 <= i < x ==> (#[trigger] cards@[i].id@).len() > 0,
            decreases cards@.len() - x,
        {
            if cards[x].id.as_str().is_empty() {
                proof {
                    assert forall|c: STSCache| !serializes_to(c, bytes@) by {
                        if serializes_to(c, bytes@) {
                            assert(c.cards@[x as int].id@.len() > 0);
                        }
                    }
                }
                return Err(FormatError::Corrupt);
            }
            x = x + 1;
        }
        let mut y: usize = 0;
        while y < relics.len()
            invariant
                y <= relics@.len(),
                forall|i: int| 0 <= i < y ==> (#[trigger] relics@[i].id@).len() > 0,
            decreases relics@.len() - y,
        {
            if relics[y].id.as_str().is_empty() {
                proof {
                    assert forall|c: STSCache| !serializes_to(c, bytes@) by {
                        if serializes_to(c, bytes@) {
                            assert(c.relics@[y as int].id@.len() > 0);
                        }
                    }
                }
                return Err(FormatError::Corrupt);
            }
            y = y + 1;
        }
        let mut i: usize = 1;
        while i < cards.len()
            invariant
                i <= cards@.len() || cards@.len() == 0,
                forall|a: int, b: int|
                    0 <= a < b < i ==> #[trigger] cards@[a].id@ != #[trigger] cards@[b].id@,
            decreases cards@.len() - i,
        {
            let mut j: usize = 0;
            while j < i
                invariant
                    j <= i < cards@.len(),
                    forall|j2: int| 0 <= j2 < j ==> #[trigger] cards@[j2].id@ != cards@[i as int].id@,
                decreases i - j,
            {
                if cards[j].id == cards[i].id {
                    proof {
                        assert forall|c: STSCache| !serializes_to(c, bytes@) by {
                            if serializes_to(c, bytes@) {
                                assert(c.cards@[j as int].id@ != c.cards@[i as int].id@);
                            }
                        }
                    }
                    return Err(FormatError::Corrupt);
                }
                j = j + 1;
            }
            i = i + 1;
        }
        let mut ri: usize = 1;
        while ri < relics.len()
            invariant
                ri <= relics@.len() || relics@.len() == 0,
                forall|a: int, b: int|
                    0 <= a < b < ri ==> #[trigger] relics@[a].id@ != #[trigger] relics@[b].id@,
            decreases relics@.len() - ri,
        {
            let mut rj: usize = 0;
            while rj < ri
                invariant
                    rj <= ri < relics@.len(),
                    forall|j2: int|
                        0 <= j2 < rj ==> #[trigger] relics@[j2].id@ != relics@[ri as int].id@,
                decreases ri - rj,
            {
                if relics[rj].id == relics[ri].id {
                    proof {
                        assert forall|c: STSCache| !serializes_to(c, bytes@) by {
                            if serializes_to(c, bytes@) {
                                assert(c.relics@[rj as int].id@ != c.relics@[ri as int].id@);
                            }
                        }
                    }
                    return Err(FormatError::Corrupt);
                }
                rj = rj + 1;
            }
            ri = ri + 1;
        }
        let cache = STSCache { cards, relics };
        proof {
            assert(cache.cards@.len() as u64 == ncards);
            assert(cache.relics@.len() as u64 == nrelics);
            assert(bytes@ =~= bytes@.subrange(0, 4) + bytes@.subrange(4, 8) + bytes@.subrange(
                8,
                16,
            ) + bytes@.subrange(16, cards_end) + bytes@.subrange(cards_end, p3 as int)
                + bytes@.subrange(p3 as int, n as int));
            assert(bytes@ == cache_file_bytes(cache));
            assert(serializes_to(cache, bytes@));
        }
        Ok(cache)
    }
}

} // verus!
