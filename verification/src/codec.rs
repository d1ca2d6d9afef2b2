//! Save-file codec: a repeating-key XOR transform composed with a URL-safe
//! base64 layer, turning the obfuscated on-disk save into a structured
//! document and back.

use serde_json::{Map as JMap, Value as J};
use vstd::prelude::*;

verus! {

/// The fixed obfuscation key shared by encoding and decoding: the bytes of
/// the ASCII text `key`.
pub open spec fn obfuscation_key() -> Seq<u8> {
    seq![107u8, 101u8, 121u8]
}

/// Executable copy of [`obfuscation_key`].
pub fn obfuscation_key_bytes() -> (r: Vec<u8>)
    ensures
        r@ == obfuscation_key(),
{
    let mut v: Vec<u8> = Vec::new();
    v.push(107);
    v.push(101);
    v.push(121);
    proof {
        assert(v@ =~= obfuscation_key());
    }
    v
}

/// Each byte of `data` XOR-ed with the key byte at its index modulo the key
/// length.
pub open spec fn xor_seq(data: Seq<u8>, key: Seq<u8>) -> Seq<u8>
    recommends
        key.len() > 0,
{
    Seq::new(data.len(), |i: int| data[i] ^ key[i % (key.len() as int)])
}

/// Applies the repeating-key XOR transform; with the same non-empty key it
/// is its own inverse.
pub fn encode(data: &[u8], key: &[u8]) -> (r: Vec<u8>)
    requires
        key@.len() > 0,
    ensures
        r@ == xor_seq(data@, key@),
{
    let mut result: Vec<u8> = Vec::new();
    let mut i: usize = 0;
    while i < data.len()
        invariant
            key@.len() > 0,
            i <= data@.len(),
            result@.len() == i,
            forall|j: int|
                0 <= j < i ==> result@[j] == (data@[j] ^ key@[j % (key@.len() as int)]),
        decreases data@.len() - i,
    {
        result.push(data[i] ^ key[i % key.len()]);
        i = i + 1;
    }
    proof {
        assert(result@ =~= xor_seq(data@, key@));
    }
    result
}

/// One card entry of the decoded save: its identifier, an auxiliary
/// integer, and an upgrade count.
#[derive(Debug)]
pub struct SaveCard {
    pub id: String,
    pub misc: u32,
    pub upgrades: u32,
}

impl View for SaveCard {
    type V = (Seq<char>, u32, u32);

    open spec fn view(&self) -> Self::V {
        (self.id@, self.misc, self.upgrades)
    }
}

/// The untouched remainder of a decoded save's JSON document, carried
/// through so a re-encode loses nothing. Only this module can make one,
/// and it always holds a JSON object.
#[derive(Debug)]
pub struct SaveRest {
    v: serde_json::Value,
}

/// The decoded save: the fields the mutation engine edits as plain values,
/// plus the untouched remainder of the JSON document.
#[derive(Debug)]
pub struct SaveDocument {
    pub gold: u64,
    pub gold_gained: u64,
    pub cards: Vec<SaveCard>,
    pub relics: Vec<String>,
    pub extra: SaveRest,
}

impl View for SaveDocument {
    type V = (u64, u64, Seq<(Seq<char>, u32, u32)>, Seq<Seq<char>>);

    open spec fn view(&self) -> Self::V {
        (
            self.gold,
            self.gold_gained,
            self.cards@.map_values(|c: SaveCard| c@),
            self.relics@.map_values(|s: String| s@),
        )
    }
}

/// Why decoding a save failed: the outer base64 layer was malformed, or the
/// de-obfuscated bytes were not a JSON document of the expected shape.
#[derive(Debug, PartialEq, Eq, Structural, Clone, Copy)]
pub enum CodecError {
    Base64,
    Json,
}

#[verifier::external_type_specification]
#[verifier::external_body]
pub struct ExValue(serde_json::Value);

/// What base64's padded URL-safe engine encodes a byte sequence to.
pub uninterp spec fn b64_encode_of(data: Seq<u8>) -> Seq<u8>;

/// What base64's padded URL-safe engine decodes a byte sequence to, `None`
/// where the decoder rejects it.
pub uninterp spec fn b64_decode_of(text: Seq<u8>) -> Option<Seq<u8>>;

/// The save fields extracted from a JSON byte stream: gold, gold gained,
/// cards (identifier, auxiliary integer, upgrade count), relic identifiers;
/// `None` where the bytes are not JSON or lack a required field.
pub uninterp spec fn save_fields_of(bytes: Seq<u8>) -> Option<
    (u64, u64, Seq<(Seq<char>, u32, u32)>, Seq<Seq<char>>),
>;

/// Relies on base64's `Engine::decode` with the padded URL-safe engine; the
/// outcome is a function of the input bytes alone.
#[verifier::external_body]
fn b64_decode(text: &[u8]) -> (r: Result<Vec<u8>, CodecError>)
    ensures
        match r {
            Ok(d) => b64_decode_of(text@) == Some(d@),
            Err(e) => b64_decode_of(text@) is None && e == CodecError::Base64,
        },
{
    match base64::Engine::decode(&base64::engine::general_purpose::URL_SAFE, text) {
        Ok(v) => Ok(v),
        Err(_) => Err(CodecError::Base64),
    }
}

/// Relies on base64's `Engine::encode` with the padded URL-safe engine; the
/// crate documents that `decode` inverts `encode`, so the result also
/// decodes back to the input.
#[verifier::external_body]
fn b64_encode(data: &[u8]) -> (r: Vec<u8>)
    ensures
        r@ == b64_encode_of(data@),
        b64_decode_of(r@) == Some(data@),
{
    base64::Engine::encode(&base64::engine::general_purpose::URL_SAFE, data).into_bytes()
}

/// Relies on serde_json's `Value` accessors: one card entry of the save's
/// `cards` array, pulled out as plain values. Serves [`parse_save_bytes`],
/// whose contract covers the combination.
#[verifier::external_body]
fn save_card_from(c: &J) -> (r: Option<SaveCard>) {
    let misc = u32::try_from(c.get("misc")?.as_u64()?).ok()?;
    let upgrades = u32::try_from(c.get("upgrades")?.as_u64()?).ok()?;
    Some(SaveCard { id: c.get("id")?.as_str()?.to_string(), misc, upgrades })
}

/// Relies on serde_json's `Map`: one card entry written back as a JSON
/// object. Serves [`save_to_json_bytes`], whose contract covers the
/// combination.
#[verifier::external_body]
fn save_card_to(c: &SaveCard) -> (r: J) {
    let mut m = JMap::new();
    m.insert("id".into(), J::from(c.id.clone()));
    m.insert("misc".into(), J::from(c.misc));
    m.insert("upgrades".into(), J::from(c.upgrades));
    J::Object(m)
}

/// Relies on serde_json: `from_slice` parses the bytes, and `Value`'s
/// `get`, `as_u64`, `as_str` and `as_array` accessors pull out the fields
/// the engine edits — all functions of the input bytes alone, which
/// [`save_fields_of`] names. The rest of the document rides along opaquely
/// in the result, and its root is always a JSON object (every `get` above
/// succeeded on it).
#[verifier::external_body]
fn parse_save_bytes(bytes: &[u8]) -> (r: Option<SaveDocument>)
    ensures
        match r {
            Some(d) => save_fields_of(bytes@) == Some(d@),
            None => save_fields_of(bytes@) is None,
        },
{
    let v: J = serde_json::from_slice(bytes).ok()?;
    let gold = v.get("gold")?.as_u64()?;
    let gained = v.get("gold_gained")?.as_u64()?;
    let mut cards: Vec<SaveCard> = Vec::new();
    for c in v.get("cards")?.as_array()? {
        cards.push(save_card_from(c)?);
    }
    let mut relics: Vec<String> = Vec::new();
    for x in v.get("relics")?.as_array()? {
        relics.push(x.as_str()?.to_string());
    }
    Some(SaveDocument { gold, gold_gained: gained, cards, relics, extra: SaveRest { v } })
}

/// Relies on serde_json: writes the engine-owned fields back into the
/// retained remainder object and serializes with `to_vec` (infallible on a
/// `Value`, whose maps are string-keyed). serde_json round-trips a `Value`
/// through its own serialization, and [`parse_save_bytes`] reads exactly
/// the keys written here, so the produced bytes extract to this document's
/// fields.
#[verifier::external_body]
fn save_to_json_bytes(doc: &SaveDocument) -> (r: Vec<u8>)
    ensures
        save_fields_of(r@) == Some(doc@),
{
    let mut v = doc.extra.v.clone();
    v["gold"] = J::from(doc.gold);
    v["gold_gained"] = J::from(doc.gold_gained);
    v["cards"] = J::Array(doc.cards.iter().map(save_card_to).collect());
    v["relics"] = J::Array(doc.relics.iter().map(|s| J::from(s.clone())).collect());
    serde_json::to_vec(&v).expect("serializing a JSON value cannot fail")
}

/// Relies on serde_json: an empty JSON object, the remainder of a document
/// built from scratch. Keeping the remainder an object (the parser's `get`
/// calls only succeed on objects, and this constructor matches) is what
/// lets [`save_to_json_bytes`] write fields into it.
#[verifier::external_body]
fn empty_json_object() -> (r: SaveRest) {
    SaveRest { v: J::Object(JMap::new()) }
}

impl SaveDocument {
    /// A minimal fresh document: no gold, no cards, no relics, an empty
    /// remainder.
    pub fn new() -> (r: SaveDocument)
        ensures
            r@.0 == 0,
            r@.1 == 0,
            r@.2.len() == 0,
            r@.3.len() == 0,
    {
        SaveDocument {
            gold: 0,
            gold_gained: 0,
            cards: Vec::new(),
            relics: Vec::new(),
            extra: empty_json_object(),
        }
    }
}

/// What decoding a raw save file yields: base64-decode, undo the
/// repeating-key XOR, then parse the JSON and extract the save fields.
pub open spec fn decode_spec(bytes: Seq<u8>) -> Option<
    (u64, u64, Seq<(Seq<char>, u32, u32)>, Seq<Seq<char>>),
> {
    match b64_decode_of(bytes) {
        Some(raw) => save_fields_of(xor_seq(raw, obfuscation_key())),
        None => None,
    }
}

/// Decodes an on-disk save: base64 layer off, XOR transform undone, JSON
/// parsed. Succeeds exactly where [`decode_spec`] does, and the error names
/// the layer that rejected the input.
pub fn decode_save(bytes: &[u8]) -> (r: Result<SaveDocument, CodecError>)
    ensures
        r matches Ok(d) ==> decode_spec(bytes@) == Some(d@),
        r matches Err(e) ==> decode_spec(bytes@) is None && (e == CodecError::Base64
            <==> b64_decode_of(bytes@) is None),
{
    let raw = match b64_decode(bytes) {
        Ok(v) => v,
        Err(e) => {
            return Err(e);
        },
    };
    let key = obfuscation_key_bytes();
    let plain = encode(raw.as_slice(), key.as_slice());
    match parse_save_bytes(plain.as_slice()) {
        Some(d) => Ok(d),
        None => Err(CodecError::Json),
    }
}

/// Re-encodes a document: JSON serialization, XOR transform, base64 layer.
/// The output always decodes back to a document with the same fields, so a
/// decode–encode cycle is lossless at the JSON-value level.
pub fn encode_save(doc: &SaveDocument) -> (r: Vec<u8>)
    ensures
        decode_spec(r@) == Some(doc@),
{
    let sb = save_to_json_bytes(doc);
    let key = obfuscation_key_bytes();
    let x = encode(sb.as_slice(), key.as_slice());
    let out = b64_encode(x.as_slice());
    proof {
        lemma_xor_self_inverse(sb@, obfuscation_key());
    }
    out
}

/// The XOR transform undoes itself: applying it twice with the same
/// non-empty key returns the original byte sequence.
pub proof fn lemma_xor_self_inverse(d: Seq<u8>, k: Seq<u8>)
    requires
        k.len() > 0,
    ensures
        xor_seq(xor_seq(d, k), k) == d,
{
    assert forall|i: int| 0 <= i < d.len() implies xor_seq(xor_seq(d, k), k)[i] == d[i] by {
        let b = d[i];
        let kb = k[i % (k.len() as int)];
        assert((b ^ kb) ^ kb == b) by (bit_vector);
    }
    assert(xor_seq(xor_seq(d, k), k) =~= d);
}

} // verus!
