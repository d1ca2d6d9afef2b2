//! The attribute extractor: finds the identifier assignment `ID = "..."`
//! in one source file's text and classifies the file from its uppercase
//! tokens, taking the last recognized token of each enumeration.

use vstd::prelude::*;
use vstd::string::StrSliceExecFns;

use crate::cache::{Card, Relic};
use crate::cache_enums::{
    card_type_of, color_of, rarity_of, tier_of, CardColor, CardRarity, CardType, RelicTier,
};
use crate::text::{chars_of, is_upper, is_upper_char, range_eq_str};

verus! {

/// The identifier pattern's fixed part starting at `i`: the letters `ID`,
/// `j` spaces, an equals sign, `k` spaces, and an opening double quote.
pub open spec fn header_shape(t: Seq<char>, i: int, j: int, k: int) -> bool {
    &&& 0 <= i && 0 <= j && 0 <= k
    &&& i + 4 + j + k <= t.len()
    &&& t[i] == 'I'
    &&& t[i + 1] == 'D'
    &&& (forall|m: int| 0 <= m < j ==> #[trigger] t[i + 2 + m] == ' ')
    &&& t[i + 2 + j] == '='
    &&& (forall|m: int| 0 <= m < k ==> #[trigger] t[i + 3 + j + m] == ' ')
    &&& t[i + 3 + j + k] == '"'
}

/// `e` is where the line holding position `p` ends: the first newline at
/// or after `p`, or the end of the text.
pub open spec fn line_end_at(t: Seq<char>, p: int, e: int) -> bool {
    &&& 0 <= p <= e <= t.len()
    &&& (forall|m: int| p <= m < e ==> #[trigger] t[m] != '\n')
    &&& (e == t.len() || t[e] == '\n')
}

/// A greedy capture starting at `p`: `q` is the last double quote on the
/// line, strictly after `p`, and the captured text is `t[p..q]`.
pub open spec fn capture_shape(t: Seq<char>, p: int, q: int) -> bool {
    exists|e: int|
        {
            &&& #[trigger] line_end_at(t, p, e)
            &&& p < q < e
            &&& t[q] == '"'
            &&& (forall|m: int| q < m < e ==> #[trigger] t[m] != '"')
        }
}

/// The identifier pattern matches at position `i`, capturing `t[p..q]`.
pub open spec fn id_match_at(t: Seq<char>, i: int, p: int, q: int) -> bool {
    &&& (exists|j: int, k: int| #[trigger] header_shape(t, i, j, k) && p == i + 4 + j + k)
    &&& capture_shape(t, p, q)
}

pub open spec fn has_id_match_at(t: Seq<char>, i: int) -> bool {
    exists|p: int, q: int| #[trigger] id_match_at(t, i, p, q)
}

/// An identifier assignment occurs somewhere in the text.
pub open spec fn has_id_match(t: Seq<char>) -> bool {
    exists|i: int| #[trigger] has_id_match_at(t, i)
}

/// `t[p..q]` is the identifier captured by the leftmost match of the
/// pattern, the one extraction uses.
pub open spec fn id_capture_at(t: Seq<char>, p: int, q: int) -> bool {
    exists|i: int|
        #[trigger] id_match_at(t, i, p, q) && (forall|i2: int|
            0 <= i2 < i ==> !has_id_match_at(t, i2))
}

/// Line ends are unique: the first newline at or after `p` is one position.
proof fn lemma_line_end_unique(t: Seq<char>, p: int, e1: int, e2: int)
    requires
        line_end_at(t, p, e1),
        line_end_at(t, p, e2),
    ensures
        e1 == e2,
{
    if e1 < e2 {
        assert(t[e1] != '\n');
    }
    if e2 < e1 {
        assert(t[e2] != '\n');
    }
}

/// A captured identifier is never empty and lies within the text: the
/// pattern demands at least one character between the quotes.
pub proof fn lemma_capture_nonempty(t: Seq<char>, p: int, q: int)
    requires
        id_capture_at(t, p, q),
    ensures
        0 <= p < q <= t.len(),
        t.subrange(p, q).len() > 0,
{
    let i = choose|i: int|
        #[trigger] id_match_at(t, i, p, q) && (forall|i2: int|
            0 <= i2 < i ==> !has_id_match_at(t, i2));
    let e = choose|e: int|
        {
            &&& #[trigger] line_end_at(t, p, e)
            &&& p < q < e
            &&& t[q] == '"'
            &&& (forall|m: int| q < m < e ==> #[trigger] t[m] != '"')
        };
}

/// The leftmost match of the identifier pattern is one capture: two
/// captures of the same text coincide.
pub proof fn lemma_id_capture_unique(t: Seq<char>, p1: int, q1: int, p2: int, q2: int)
    requires
        id_capture_at(t, p1, q1),
        id_capture_at(t, p2, q2),
    ensures
        p1 == p2,
        q1 == q2,
{
    let i1 = choose|i: int|
        #[trigger] id_match_at(t, i, p1, q1) && (forall|i2: int|
            0 <= i2 < i ==> !has_id_match_at(t, i2));
    let i2 = choose|i: int|
        #[trigger] id_match_at(t, i, p2, q2) && (forall|i3: int|
            0 <= i3 < i ==> !has_id_match_at(t, i3));
    let (ja, ka) = choose|j: int, k: int| #[trigger] header_shape(t, i1, j, k) && p1 == i1 + 4 + j + k;
    let (jb, kb) = choose|j: int, k: int| #[trigger] header_shape(t, i2, j, k) && p2 == i2 + 4 + j + k;
    if i1 < i2 {
        assert(has_id_match_at(t, i1));
        assert(false);
    }
    if i2 < i1 {
        assert(has_id_match_at(t, i2));
        assert(false);
    }
    // one start, so one header: the space runs around `=` are determined
    if ja < jb {
        assert(t[i1 + 2 + ja] == ' ');
        assert(false);
    }
    if jb < ja {
        assert(t[i1 + 2 + jb] == ' ');
        assert(false);
    }
    if ka < kb {
        assert(t[i1 + 3 + ja + ka] == ' ');
        assert(false);
    }
    if kb < ka {
        assert(t[i1 + 3 + ja + kb] == ' ');
        assert(false);
    }
    // one capture start, and the last quote of one line is one position
    let ea = choose|e: int|
        {
            &&& #[trigger] line_end_at(t, p1, e)
            &&& p1 < q1 < e
            &&& t[q1] == '"'
            &&& (forall|m: int| q1 < m < e ==> #[trigger] t[m] != '"')
        };
    let eb = choose|e: int|
        {
            &&& #[trigger] line_end_at(t, p2, e)
            &&& p2 < q2 < e
            &&& t[q2] == '"'
            &&& (forall|m: int| q2 < m < e ==> #[trigger] t[m] != '"')
        };
    lemma_line_end_unique(t, p1, ea, eb);
    if q1 < q2 {
        assert(t[q2] != '"');
        assert(false);
    }
    if q2 < q1 {
        assert(t[q1] != '"');
        assert(false);
    }
}

/// Tries the identifier pattern at one start position.
fn try_match_at(cs: &Vec<char>, i: usize) -> (r: Option<(usize, usize)>)
    requires
        i < cs@.len(),
    ensures
        match r {
            Some(pq) => id_match_at(cs@, i as int, pq.0 as int, pq.1 as int),
            None => !has_id_match_at(cs@, i as int),
        },
{
    let ghost t = cs@;
    let n = cs.len();
    if cs[i] != 'I' {
        proof {
            assert forall|p: int, q: int| !id_match_at(t, i as int, p, q) by {
                if id_match_at(t, i as int, p, q) {
                    let (j, k) = choose|j: int, k: int|
                        #[trigger] header_shape(t, i as int, j, k) && p == i + 4 + j + k;
                    assert(t[i as int] == 'I');
                }
            }
        }
        return None;
    }
    if i + 1 >= n || cs[i + 1] != 'D' {
        proof {
            assert forall|p: int, q: int| !id_match_at(t, i as int, p, q) by {
                if id_match_at(t, i as int, p, q) {
                    let (j, k) = choose|j: int, k: int|
                        #[trigger] header_shape(t, i as int, j, k) && p == i + 4 + j + k;
                    assert(i + 4 <= n);
                    assert(t[i + 1] == 'D');
                }
            }
        }
        return None;
    }
    // skip the spaces between `ID` and `=`
    let mut a = i + 2;
    while a < n && cs[a] == ' '
        invariant
            t == cs@,
            n == t.len(),
            i + 2 <= a <= n,
            forall|m: int| i + 2 <= m < a ==> t[m] == ' ',
        decreases n - a,
    {
        a = a + 1;
    }
    if a >= n || cs[a] != '=' {
        proof {
            assert forall|p: int, q: int| !id_match_at(t, i as int, p, q) by {
                if id_match_at(t, i as int, p, q) {
                    let (j, k) = choose|j: int, k: int|
                        #[trigger] header_shape(t, i as int, j, k) && p == i + 4 + j + k;
                    if i + 2 + j < a {
                        // a space was required where the pattern wants `=`
                        assert(t[i + 2 + j] == ' ');
                    } else {
                        // the scan stopped before the pattern's `=`
                        assert(i + 2 + j < n);
                        if i + 2 + j > a {
                            assert(t[i + 2 + (a - i - 2)] == ' ');
                        }
                    }
                }
            }
        }
        return None;
    }
    // `t[a] == '='`; skip the spaces between `=` and the opening quote
    let ghost j0 = a - (i + 2);
    let mut b = a + 1;
    while b < n && cs[b] == ' '
        invariant
            t == cs@,
            n == t.len(),
            a + 1 <= b <= n,
            forall|m: int| a + 1 <= m < b ==> t[m] == ' ',
        decreases n - b,
    {
        b = b + 1;
    }
    proof {
        // the space runs on either side of `=` are of one length only
        assert forall|j: int, k: int| #[trigger] header_shape(t, i as int, j, k) implies j == j0 by {
            if j < j0 {
                assert(t[i + 2 + j] == ' ');
            }
            if j > j0 {
                assert(t[i + 2 + j0] == ' ');
            }
        }
    }
    if b >= n || cs[b] != '"' {
        proof {
            assert forall|p: int, q: int| !id_match_at(t, i as int, p, q) by {
                if id_match_at(t, i as int, p, q) {
                    let (j, k) = choose|j: int, k: int|
                        #[trigger] header_shape(t, i as int, j, k) && p == i + 4 + j + k;
                    assert(j == j0);
                    if i + 3 + j + k < b {
                        assert(t[i + 3 + j + k] == ' ');
                    } else {
                        assert(i + 3 + j + k < n);
                        if i + 3 + j + k > b {
                            assert(t[i + 3 + j + (b - a - 1)] == ' ');
                        }
                    }
                }
            }
        }
        return None;
    }
    let ghost k0 = b - (a + 1);
    proof {
        assert forall|j: int, k: int| #[trigger] header_shape(t, i as int, j, k) implies k == k0
            && j == j0 by {
            assert(j == j0);
            if k < k0 {
                assert(t[i + 3 + j + k] == ' ');
            }
            if k > k0 {
                assert(t[i + 3 + j + k0] == ' ');
            }
        }
    }
    // the capture starts after the quote; find the last quote on the line
    let p = b + 1;
    let mut m = p;
    let mut last_q: usize = 0;
    let mut have_q = false;
    while m < n && cs[m] != '\n'
        invariant
            t == cs@,
            n == t.len(),
            p <= m <= n,
            forall|l: int| p <= l < m ==> t[l] != '\n',
            have_q ==> p <= last_q < m && t[last_q as int] == '"' && (forall|l: int|
                last_q < l < m ==> t[l] != '"'),
            !have_q ==> forall|l: int| p <= l < m ==> t[l] != '"',
        decreases n - m,
    {
        if cs[m] == '"' {
            last_q = m;
            have_q = true;
        }
        m = m + 1;
    }
    proof {
        assert(line_end_at(t, p as int, m as int));
    }
    if have_q && last_q > p {
        proof {
            assert(header_shape(t, i as int, j0, k0));
            assert(capture_shape(t, p as int, last_q as int));
        }
        Some((p, last_q))
    } else {
        proof {
            assert forall|p2: int, q: int| !id_match_at(t, i as int, p2, q) by {
                if id_match_at(t, i as int, p2, q) {
                    assert(p2 == p);
                    let e = choose|e: int|
                        {
                            &&& #[trigger] line_end_at(t, p2, e)
                            &&& p2 < q < e
                            &&& t[q] == '"'
                            &&& (forall|l: int| q < l < e ==> #[trigger] t[l] != '"')
                        };
                    lemma_line_end_unique(t, p as int, e, m as int);
                    // a quote strictly inside the line contradicts the scan
                    assert(t[q] == '"');
                }
            }
        }
        None
    }
}

/// Finds the leftmost match of the identifier pattern and returns the
/// bounds of its captured identifier.
pub fn find_id(cs: &Vec<char>) -> (r: Option<(usize, usize)>)
    ensures
        match r {
            Some(pq) => id_capture_at(cs@, pq.0 as int, pq.1 as int),
            None => !has_id_match(cs@),
        },
{
    let ghost t = cs@;
    let n = cs.len();
    let mut i: usize = 0;
    while i < n
        invariant
            t == cs@,
            n == t.len(),
            i <= n,
            forall|i2: int| 0 <= i2 < i ==> !has_id_match_at(t, i2),
        decreases n - i,
    {
        match try_match_at(cs, i) {
            Some(pq) => {
                proof {
                    assert(id_match_at(t, i as int, pq.0 as int, pq.1 as int));
                }
                return Some(pq);
            },
            None => {
                i = i + 1;
            },
        }
    }
    proof {
        assert forall|i2: int| !has_id_match_at(t, i2) by {
            if has_id_match_at(t, i2) {
                let (p, q) = choose|p: int, q: int| #[trigger] id_match_at(t, i2, p, q);
                let (j, k) = choose|j: int, k: int|
                    #[trigger] header_shape(t, i2, j, k) && p == i2 + 4 + j + k;
                assert(0 <= i2 && i2 + 4 <= n);
            }
        }
    }
    None
}

/// A candidate classification token: a maximal run of two or more
/// uppercase letters, `t[s..e]`.
pub open spec fn token_at(t: Seq<char>, s: int, e: int) -> bool {
    &&& 0 <= s
    &&& s + 2 <= e <= t.len()
    &&& (forall|m: int| s <= m < e ==> is_upper(#[trigger] t[m]))
    &&& (s == 0 || !is_upper(t[s - 1]))
    &&& (e == t.len() || !is_upper(t[e]))
}

/// `t[s..e]` is the last token recognized as a rarity; later tokens are
/// all unrecognized by that enumeration.
pub open spec fn last_rarity_at(t: Seq<char>, s: int, e: int, v: CardRarity) -> bool {
    &&& token_at(t, s, e)
    &&& rarity_of(t.subrange(s, e)) == Some(v)
    &&& (forall|s2: int, e2: int|
        #[trigger] token_at(t, s2, e2) && s2 > s ==> rarity_of(t.subrange(s2, e2)) is None)
}

/// No token of the text is recognized as a rarity.
pub open spec fn no_rarity(t: Seq<char>) -> bool {
    forall|s: int, e: int| #[trigger] token_at(t, s, e) ==> rarity_of(t.subrange(s, e)) is None
}

/// `t[s..e]` is the last token recognized as a color.
pub open spec fn last_color_at(t: Seq<char>, s: int, e: int, v: CardColor) -> bool {
    &&& token_at(t, s, e)
    &&& color_of(t.subrange(s, e)) == Some(v)
    &&& (forall|s2: int, e2: int|
        #[trigger] token_at(t, s2, e2) && s2 > s ==> color_of(t.subrange(s2, e2)) is None)
}

/// No token of the text is recognized as a color.
pub open spec fn no_color(t: Seq<char>) -> bool {
    forall|s: int, e: int| #[trigger] token_at(t, s, e) ==> color_of(t.subrange(s, e)) is None
}

/// `t[s..e]` is the last token recognized as a card type.
pub open spec fn last_type_at(t: Seq<char>, s: int, e: int, v: CardType) -> bool {
    &&& token_at(t, s, e)
    &&& card_type_of(t.subrange(s, e)) == Some(v)
    &&& (forall|s2: int, e2: int|
        #[trigger] token_at(t, s2, e2) && s2 > s ==> card_type_of(t.subrange(s2, e2)) is None)
}

/// No token of the text is recognized as a card type.
pub open spec fn no_card_type(t: Seq<char>) -> bool {
    forall|s: int, e: int| #[trigger] token_at(t, s, e) ==> card_type_of(t.subrange(s, e)) is None
}

/// `t[s..e]` is the last token recognized as a relic tier.
pub open spec fn last_tier_at(t: Seq<char>, s: int, e: int, v: RelicTier) -> bool {
    &&& token_at(t, s, e)
    &&& tier_of(t.subrange(s, e)) == Some(v)
    &&& (forall|s2: int, e2: int|
        #[trigger] token_at(t, s2, e2) && s2 > s ==> tier_of(t.subrange(s2, e2)) is None)
}

/// No token of the text is recognized as a relic tier.
pub open spec fn no_tier(t: Seq<char>) -> bool {
    forall|s: int, e: int| #[trigger] token_at(t, s, e) ==> tier_of(t.subrange(s, e)) is None
}

/// A maximal uppercase run contains no token but itself.
proof fn lemma_run_token(t: Seq<char>, s: int, e: int)
    requires
        0 <= s <= e <= t.len(),
        forall|m: int| s <= m < e ==> is_upper(#[trigger] t[m]),
        s == 0 || !is_upper(t[s - 1]),
        e == t.len() || !is_upper(t[e]),
    ensures
        forall|s2: int, e2: int|
            #[trigger] token_at(t, s2, e2) && s <= s2 && e2 <= e ==> s2 == s && e2 == e,
{
    assert forall|s2: int, e2: int|
        #[trigger] token_at(t, s2, e2) && s <= s2 && e2 <= e implies s2 == s && e2 == e by {
        if s2 > s {
            assert(is_upper(t[s2 - 1]));
        }
        if e2 < e {
            assert(is_upper(t[e2]));
        }
    }
}

fn rarity_of_range(cs: &Vec<char>, s: usize, e: usize) -> (r: Option<CardRarity>)
    requires
        s <= e <= cs@.len(),
    ensures
        r == rarity_of(cs@.subrange(s as int, e as int)),
{
    if range_eq_str(cs, s, e, "BASIC") {
        Some(CardRarity::BASIC)
    } else if range_eq_str(cs, s, e, "SPECIAL") {
        Some(CardRarity::SPECIAL)
    } else if range_eq_str(cs, s, e, "COMMON") {
        Some(CardRarity::COMMON)
    } else if range_eq_str(cs, s, e, "UNCOMMON") {
        Some(CardRarity::UNCOMMON)
    } else if range_eq_str(cs, s, e, "RARE") {
        Some(CardRarity::RARE)
    } else if range_eq_str(cs, s, e, "CURSE") {
        Some(CardRarity::CURSE)
    } else {
        None
    }
}

fn color_of_range(cs: &Vec<char>, s: usize, e: usize) -> (r: Option<CardColor>)
    requires
        s <= e <= cs@.len(),
    ensures
        r == color_of(cs@.subrange(s as int, e as int)),
{
    if range_eq_str(cs, s, e, "RED") {
        Some(CardColor::RED)
    } else if range_eq_str(cs, s, e, "GREEN") {
        Some(CardColor::GREEN)
    } else if range_eq_str(cs, s, e, "BLUE") {
        Some(CardColor::BLUE)
    } else if range_eq_str(cs, s, e, "PURPLE") {
        Some(CardColor::PURPLE)
    } else if range_eq_str(cs, s, e, "COLORLESS") {
        Some(CardColor::COLORLESS)
    } else if range_eq_str(cs, s, e, "CURSE") {
        Some(CardColor::CURSE)
    } else {
        None
    }
}

fn type_of_range(cs: &Vec<char>, s: usize, e: usize) -> (r: Option<CardType>)
    requires
        s <= e <= cs@.len(),
    ensures
        r == card_type_of(cs@.subrange(s as int, e as int)),
{
    if range_eq_str(cs, s, e, "ATTACK") {
        Some(CardType::ATTACK)
    } else if range_eq_str(cs, s, e, "SKILL") {
        Some(CardType::SKILL)
    } else if range_eq_str(cs, s, e, "POWER") {
        Some(CardType::POWER)
    } else if range_eq_str(cs, s, e, "STATUS") {
        Some(CardType::STATUS)
    } else if range_eq_str(cs, s, e, "CURSE") {
        Some(CardType::CURSE)
    } else {
        None
    }
}

fn tier_of_range(cs: &Vec<char>, s: usize, e: usize) -> (r: Option<RelicTier>)
    requires
        s <= e <= cs@.len(),
    ensures
        r == tier_of(cs@.subrange(s as int, e as int)),
{
    if range_eq_str(cs, s, e, "DEPRECATED") {
        Some(RelicTier::DEPRECATED)
    } else if range_eq_str(cs, s, e, "STARTER") {
        Some(RelicTier::STARTER)
    } else if range_eq_str(cs, s, e, "COMMON") {
        Some(RelicTier::COMMON)
    } else if range_eq_str(cs, s, e, "UNCOMMON") {
        Some(RelicTier::UNCOMMON)
    } else if range_eq_str(cs, s, e, "RARE") {
        Some(RelicTier::RARE)
    } else if range_eq_str(cs, s, e, "SPECIAL") {
        Some(RelicTier::SPECIAL)
    } else if range_eq_str(cs, s, e, "BOSS") {
        Some(RelicTier::BOSS)
    } else if range_eq_str(cs, s, e, "SHOP") {
        Some(RelicTier::SHOP)
    } else {
        None
    }
}

/// One pass over the text: for each enumeration, the value of the last
/// recognized token, if any.
fn scan_tokens(cs: &Vec<char>) -> (r: (
    Option<CardRarity>,
    Option<CardColor>,
    Option<CardType>,
    Option<RelicTier>,
))
    ensures
        (match r.0 {
            Some(v) => exists|s: int, e: int| #[trigger] last_rarity_at(cs@, s, e, v),
            None => no_rarity(cs@),
        }),
        (match r.1 {
            Some(v) => exists|s: int, e: int| #[trigger] last_color_at(cs@, s, e, v),
            None => no_color(cs@),
        }),
        (match r.2 {
            Some(v) => exists|s: int, e: int| #[trigger] last_type_at(cs@, s, e, v),
            None => no_card_type(cs@),
        }),
        (match r.3 {
            Some(v) => exists|s: int, e: int| #[trigger] last_tier_at(cs@, s, e, v),
            None => no_tier(cs@),
        }),
{
    let ghost t = cs@;
    let n = cs.len();
    let mut rar: Option<CardRarity> = None;
    let mut col: Option<CardColor> = None;
    let mut typ: Option<CardType> = None;
    let mut tir: Option<RelicTier> = None;
    let ghost mut r_s: int = 0;
    let ghost mut c_s: int = 0;
    let ghost mut y_s: int = 0;
    let ghost mut i_s: int = 0;
    let ghost mut r_e: int = 0;
    let ghost mut c_e: int = 0;
    let ghost mut y_e: int = 0;
    let ghost mut i_e: int = 0;
    let mut pos: usize = 0;
    while pos < n
        invariant
            t == cs@,
            n == t.len(),
            pos <= n,
            pos == n || pos == 0 || !is_upper(t[pos - 1]) || !is_upper(t[pos as int]),
            forall|s2: int, e2: int| #[trigger] token_at(t, s2, e2) ==> e2 <= pos || s2 >= pos,
            (match rar {
                Some(v) => token_at(t, r_s, r_e) && r_e <= pos && rarity_of(t.subrange(r_s, r_e))
                    == Some(v) && (forall|s2: int, e2: int|
                    #[trigger] token_at(t, s2, e2) && e2 <= pos && s2 > r_s ==> rarity_of(
                        t.subrange(s2, e2),
                    ) is None),
                None => forall|s2: int, e2: int|
                    #[trigger] token_at(t, s2, e2) && e2 <= pos ==> rarity_of(
                        t.subrange(s2, e2),
                    ) is None,
            }),
            (match col {
                Some(v) => token_at(t, c_s, c_e) && c_e <= pos && color_of(t.subrange(c_s, c_e))
                    == Some(v) && (forall|s2: int, e2: int|
                    #[trigger] token_at(t, s2, e2) && e2 <= pos && s2 > c_s ==> color_of(
                        t.subrange(s2, e2),
                    ) is None),
                None => forall|s2: int, e2: int|
                    #[trigger] token_at(t, s2, e2) && e2 <= pos ==> color_of(
                        t.subrange(s2, e2),
                    ) is None,
            }),
            (match typ {
                Some(v) => token_at(t, y_s, y_e) && y_e <= pos && card_type_of(
                    t.subrange(y_s, y_e),
                ) == Some(v) && (forall|s2: int, e2: int|
                    #[trigger] token_at(t, s2, e2) && e2 <= pos && s2 > y_s ==> card_type_of(
                        t.subrange(s2, e2),
                    ) is None),
                None => forall|s2: int, e2: int|
                    #[trigger] token_at(t, s2, e2) && e2 <= pos ==> card_type_of(
                        t.subrange(s2, e2),
                    ) is None,
            }),
            (match tir {
                Some(v) => token_at(t, i_s, i_e) && i_e <= pos && tier_of(t.subrange(i_s, i_e))
                    == Some(v) && (forall|s2: int, e2: int|
                    #[trigger] token_at(t, s2, e2) && e2 <= pos && s2 > i_s ==> tier_of(
                        t.subrange(s2, e2),
                    ) is None),
                None => forall|s2: int, e2: int|
                    #[trigger] token_at(t, s2, e2) && e2 <= pos ==> tier_of(
                        t.subrange(s2, e2),
                    ) is None,
            }),
        decreases n - pos,
    {
        if !is_upper_char(cs[pos]) {
            proof {
                assert forall|s2: int, e2: int|
                    #[trigger] token_at(t, s2, e2) && e2 <= pos + 1 implies e2 <= pos by {
                    if e2 == pos + 1 {
                        assert(is_upper(t[pos as int]));
                    }
                }
            }
            pos = pos + 1;
        } else {
            let s = pos;
            let mut e = pos;
            while e < n && is_upper_char(cs[e])
                invariant
                    t == cs@,
                    n == t.len(),
                    s <= e <= n,
                    forall|m: int| s <= m < e ==> is_upper(#[trigger] t[m]),
                decreases n - e,
            {
                e = e + 1;
            }
            proof {
                lemma_run_token(t, s as int, e as int);
            }
            if e - s >= 2 {
                if let Some(v) = rarity_of_range(cs, s, e) {
                    rar = Some(v);
                    proof {
                        r_s = s as int;
                        r_e = e as int;
                    }
                }
                if let Some(v) = color_of_range(cs, s, e) {
                    col = Some(v);
                    proof {
                        c_s = s as int;
                        c_e = e as int;
                    }
                }
                if let Some(v) = type_of_range(cs, s, e) {
                    typ = Some(v);
                    proof {
                        y_s = s as int;
                        y_e = e as int;
                    }
                }
                if let Some(v) = tier_of_range(cs, s, e) {
                    tir = Some(v);
                    proof {
                        i_s = s as int;
                        i_e = e as int;
                    }
                }
            }
            pos = e;
        }
    }
    proof {
        assert forall|s2: int, e2: int| #[trigger] token_at(t, s2, e2) implies e2 <= n by {}
        match rar {
            Some(v) => {
                assert(last_rarity_at(t, r_s, r_e, v));
            },
            None => {
                assert(no_rarity(t));
            },
        }
        match col {
            Some(v) => {
                assert(last_color_at(t, c_s, c_e, v));
            },
            None => {
                assert(no_color(t));
            },
        }
        match typ {
            Some(v) => {
                assert(last_type_at(t, y_s, y_e, v));
            },
            None => {
                assert(no_card_type(t));
            },
        }
        match tir {
            Some(v) => {
                assert(last_tier_at(t, i_s, i_e, v));
            },
            None => {
                assert(no_tier(t));
            },
        }
    }
    (rar, col, typ, tir)
}

/// Why extracting a card from a source file failed: the identifier
/// assignment is missing, or a required classification never occurs.
#[derive(Debug, PartialEq, Eq, Structural, Clone, Copy)]
pub enum ParseError {
    NoId,
    NoRarity,
    NoColor,
    NoType,
}

/// What a successfully extracted card is: its identifier is the leftmost
/// pattern capture, and each classification is the last recognized token
/// of its enumeration.
pub open spec fn card_ok(t: Seq<char>, c: Card) -> bool {
    &&& (exists|p: int, q: int| #[trigger] id_capture_at(t, p, q) && c.id@ == t.subrange(p, q))
    &&& (exists|s: int, e: int| #[trigger] last_rarity_at(t, s, e, c.rarity))
    &&& (exists|s: int, e: int| #[trigger] last_color_at(t, s, e, c.color))
    &&& (exists|s: int, e: int| #[trigger] last_type_at(t, s, e, c.type_))
}

/// What a successfully extracted relic is.
pub open spec fn relic_ok(t: Seq<char>, rel: Relic) -> bool {
    &&& (exists|p: int, q: int| #[trigger] id_capture_at(t, p, q) && rel.id@ == t.subrange(p, q))
    &&& (exists|s: int, e: int| #[trigger] last_tier_at(t, s, e, rel.tier))
}

/// Two cards extracted from the same text carry the same identifier: the
/// extraction contract pins it.
pub proof fn lemma_card_id_unique(t: Seq<char>, a: Card, b: Card)
    requires
        card_ok(t, a),
        card_ok(t, b),
    ensures
        a.id@ == b.id@,
{
    let (pa, qa) = choose|p: int, q: int| #[trigger] id_capture_at(t, p, q) && a.id@ == t.subrange(p, q);
    let (pb, qb) = choose|p: int, q: int| #[trigger] id_capture_at(t, p, q) && b.id@ == t.subrange(p, q);
    lemma_id_capture_unique(t, pa, qa, pb, qb);
}

/// Two relics extracted from the same text carry the same identifier.
pub proof fn lemma_relic_id_unique(t: Seq<char>, a: Relic, b: Relic)
    requires
        relic_ok(t, a),
        relic_ok(t, b),
    ensures
        a.id@ == b.id@,
{
    let (pa, qa) = choose|p: int, q: int| #[trigger] id_capture_at(t, p, q) && a.id@ == t.subrange(p, q);
    let (pb, qb) = choose|p: int, q: int| #[trigger] id_capture_at(t, p, q) && b.id@ == t.subrange(p, q);
    lemma_id_capture_unique(t, pa, qa, pb, qb);
}

/// Tokens sharing a start share their end: a maximal uppercase run ends
/// at one position.
proof fn lemma_token_end_unique(t: Seq<char>, s: int, e1: int, e2: int)
    requires
        token_at(t, s, e1),
        token_at(t, s, e2),
    ensures
        e1 == e2,
{
    if e1 < e2 {
        assert(is_upper(t[e1]));
    }
    if e2 < e1 {
        assert(is_upper(t[e2]));
    }
}

/// Extraction is deterministic: two cards the contract admits for one text
/// agree in every field.
pub proof fn lemma_card_extraction_unique(t: Seq<char>, a: Card, b: Card)
    requires
        card_ok(t, a),
        card_ok(t, b),
    ensures
        a.id@ == b.id@,
        a.rarity == b.rarity,
        a.color == b.color,
        a.type_ == b.type_,
{
    lemma_card_id_unique(t, a, b);
    let (s1, e1) = choose|s: int, e: int| #[trigger] last_rarity_at(t, s, e, a.rarity);
    let (s2, e2) = choose|s: int, e: int| #[trigger] last_rarity_at(t, s, e, b.rarity);
    if s1 < s2 {
        assert(rarity_of(t.subrange(s2, e2)) is None);
    } else if s2 < s1 {
        assert(rarity_of(t.subrange(s1, e1)) is None);
    } else {
        lemma_token_end_unique(t, s1, e1, e2);
    }
    let (cs1, ce1) = choose|s: int, e: int| #[trigger] last_color_at(t, s, e, a.color);
    let (cs2, ce2) = choose|s: int, e: int| #[trigger] last_color_at(t, s, e, b.color);
    if cs1 < cs2 {
        assert(color_of(t.subrange(cs2, ce2)) is None);
    } else if cs2 < cs1 {
        assert(color_of(t.subrange(cs1, ce1)) is None);
    } else {
        lemma_token_end_unique(t, cs1, ce1, ce2);
    }
    let (ys1, ye1) = choose|s: int, e: int| #[trigger] last_type_at(t, s, e, a.type_);
    let (ys2, ye2) = choose|s: int, e: int| #[trigger] last_type_at(t, s, e, b.type_);
    if ys1 < ys2 {
        assert(card_type_of(t.subrange(ys2, ye2)) is None);
    } else if ys2 < ys1 {
        assert(card_type_of(t.subrange(ys1, ye1)) is None);
    } else {
        lemma_token_end_unique(t, ys1, ye1, ye2);
    }
}

/// A text some relic extracts from is a relic file: it has an identifier
/// match and a recognized tier token.
pub proof fn lemma_relic_ok_is_relic(t: Seq<char>, rel: Relic)
    requires
        relic_ok(t, rel),
    ensures
        has_id_match(t),
        !no_tier(t),
{
    let (p, q) = choose|p: int, q: int|
        #[trigger] id_capture_at(t, p, q) && rel.id@ == t.subrange(p, q);
    let i = choose|i: int|
        #[trigger] id_match_at(t, i, p, q) && (forall|i2: int|
            0 <= i2 < i ==> !has_id_match_at(t, i2));
    assert(has_id_match_at(t, i));
    let (s, e) = choose|s: int, e: int| #[trigger] last_tier_at(t, s, e, rel.tier);
    assert(token_at(t, s, e));
}

/// Extracts a card from one source file's text. Fails exactly where the
/// identifier pattern never matches or where one of rarity, color and card
/// type has no recognized token; the first such gap, in that order, names
/// the error.
pub fn parse_card(contents: &str) -> (r: Result<Card, ParseError>)
    ensures
        r matches Ok(c) ==> card_ok(contents@, c),
        r is Ok <==> has_id_match(contents@) && !no_rarity(contents@) && !no_color(contents@)
            && !no_card_type(contents@),
        r == Err::<Card, ParseError>(ParseError::NoId) <==> !has_id_match(contents@),
        r == Err::<Card, ParseError>(ParseError::NoRarity) <==> has_id_match(contents@) && no_rarity(contents@),
        r == Err::<Card, ParseError>(ParseError::NoColor) <==> has_id_match(contents@) && !no_rarity(contents@)
            && no_color(contents@),
        r == Err::<Card, ParseError>(ParseError::NoType) <==> has_id_match(contents@) && !no_rarity(contents@)
            && !no_color(contents@) && no_card_type(contents@),
{
    let ghost t = contents@;
    let cs = chars_of(contents);
    let (p, q) = match find_id(&cs) {
        Some(pq) => pq,
        None => {
            return Err(ParseError::NoId);
        },
    };
    proof {
        let i = choose|i: int|
            #[trigger] id_match_at(t, i, p as int, q as int) && (forall|i2: int|
                0 <= i2 < i ==> !has_id_match_at(t, i2));
        assert(has_id_match_at(t, i));
    }
    let (rar, col, typ, _) = scan_tokens(&cs);
    let rv = match rar {
        Some(v) => v,
        None => {
            return Err(ParseError::NoRarity);
        },
    };
    let cv = match col {
        Some(v) => v,
        None => {
            proof {
                let (s, e) = choose|s: int, e: int| #[trigger] last_rarity_at(t, s, e, rv);
                assert(token_at(t, s, e));
            }
            return Err(ParseError::NoColor);
        },
    };
    let tv = match typ {
        Some(v) => v,
        None => {
            proof {
                let (s, e) = choose|s: int, e: int| #[trigger] last_rarity_at(t, s, e, rv);
                assert(token_at(t, s, e));
                let (s2, e2) = choose|s2: int, e2: int| #[trigger] last_color_at(t, s2, e2, cv);
                assert(token_at(t, s2, e2));
            }
            return Err(ParseError::NoType);
        },
    };
    proof {
        // the capture bounds are within the text
        let i = choose|i: int|
            #[trigger] id_match_at(t, i, p as int, q as int) && (forall|i2: int|
                0 <= i2 < i ==> !has_id_match_at(t, i2));
        let e = choose|e: int|
            {
                &&& #[trigger] line_end_at(t, p as int, e)
                &&& p < q < e
                &&& t[q as int] == '"'
                &&& (forall|m: int| q < m < e ==> #[trigger] t[m] != '"')
            };
        assert(q < e <= t.len());
        let (s, e1) = choose|s: int, e1: int| #[trigger] last_rarity_at(t, s, e1, rv);
        assert(token_at(t, s, e1));
        let (s2, e2) = choose|s2: int, e2: int| #[trigger] last_color_at(t, s2, e2, cv);
        assert(token_at(t, s2, e2));
        let (s3, e3) = choose|s3: int, e3: int| #[trigger] last_type_at(t, s3, e3, tv);
        assert(token_at(t, s3, e3));
    }
    let id_slice = contents.substring_char(p, q);
    let c = Card { rarity: rv, color: cv, type_: tv, id: id_slice.to_owned() };
    Ok(c)
}

/// Extracts a relic from one source file's text. A file whose identifier
/// pattern never matches, or with no recognized tier token, is not a relic
/// and yields nothing; that is an expected outcome, not an error.
pub fn parse_relic(contents: &str) -> (r: Option<Relic>)
    ensures
        r matches Some(rel) ==> relic_ok(contents@, rel),
        r is Some <==> has_id_match(contents@) && !no_tier(contents@),
{
    let ghost t = contents@;
    let cs = chars_of(contents);
    let (p, q) = match find_id(&cs) {
        Some(pq) => pq,
        None => {
            return None;
        },
    };
    proof {
        let i = choose|i: int|
            #[trigger] id_match_at(t, i, p as int, q as int) && (forall|i2: int|
                0 <= i2 < i ==> !has_id_match_at(t, i2));
        assert(has_id_match_at(t, i));
    }
    let (_, _, _, tir) = scan_tokens(&cs);
    let tv = match tir {
        Some(v) => v,
        None => {
            return None;
        },
    };
    proof {
        let i = choose|i: int|
            #[trigger] id_match_at(t, i, p as int, q as int) && (forall|i2: int|
                0 <= i2 < i ==> !has_id_match_at(t, i2));
        let e = choose|e: int|
            {
                &&& #[trigger] line_end_at(t, p as int, e)
                &&& p < q < e
                &&& t[q as int] == '"'
                &&& (forall|m: int| q < m < e ==> #[trigger] t[m] != '"')
            };
        assert(q < e <= t.len());
        let (s, e1) = choose|s: int, e1: int| #[trigger] last_tier_at(t, s, e1, tv);
        assert(token_at(t, s, e1));
    }
    let id_slice = contents.substring_char(p, q);
    Some(Relic { tier: tv, id: id_slice.to_owned() })
}

} // verus!
