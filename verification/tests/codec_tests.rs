use base64::Engine;

use sts_edit::codec::{decode_save, encode, encode_save, CodecError, SaveDocument};

/// The fixed obfuscation key the codec uses.
const KEY: &[u8] = b"key";

/// Repeating-key XOR written independently of the library.
fn xor_with_key(data: &[u8]) -> Vec<u8> {
    data.iter().enumerate().map(|(i, b)| b ^ KEY[i % KEY.len()]).collect()
}

fn pack_raw(json: &[u8]) -> Vec<u8> {
    let scrambled = xor_with_key(json);
    base64::engine::general_purpose::URL_SAFE.encode(&scrambled).into_bytes()
}

#[test]
fn xor_is_self_inverse_on_concrete_bytes() {
    let data: Vec<u8> = vec![0, 1, 2, 250, 255, 107];
    let once = encode(&data, KEY);
    assert_ne!(once, data);
    let twice = encode(&once, KEY);
    assert_eq!(twice, data);
}

#[test]
fn xor_concrete_values() {
    // 'a' ^ 'k' = 0x0a, 'b' ^ 'e' = 0x07, 'c' ^ 'y' = 0x1a, 'd' ^ 'k' = 0x0f
    let out = encode(b"abcd", KEY);
    assert_eq!(out, vec![0x0a, 0x07, 0x1a, 0x0f]);
}

#[test]
fn decode_reads_a_packed_save() {
    let json = br#"{"gold":42,"gold_gained":7,"cards":[{"id":"Strike","misc":3,"upgrades":1}],"relics":["Anchor"],"floor":12}"#;
    let packed = pack_raw(json);
    let doc = decode_save(&packed).expect("a packed save decodes");
    assert_eq!(doc.gold, 42);
    assert_eq!(doc.gold_gained, 7);
    assert_eq!(doc.cards.len(), 1);
    assert_eq!(doc.cards[0].id, "Strike");
    assert_eq!(doc.cards[0].misc, 3);
    assert_eq!(doc.cards[0].upgrades, 1);
    assert_eq!(doc.relics, vec!["Anchor".to_string()]);
}

#[test]
fn decode_then_encode_then_decode_is_lossless() {
    let json = br#"{"gold":5,"gold_gained":9,"cards":[],"relics":["Lantern"],"seed":-331}"#;
    let doc = decode_save(&pack_raw(json)).expect("decodes");
    let repacked = encode_save(&doc);
    let again = decode_save(&repacked).expect("re-decodes");
    assert_eq!(again.gold, 5);
    assert_eq!(again.gold_gained, 9);
    assert_eq!(again.cards.len(), 0);
    assert_eq!(again.relics, vec!["Lantern".to_string()]);
    // the untouched remainder survives the cycle
    let reparsed: serde_json::Value = serde_json::from_slice(&xor_with_key(
        &base64::engine::general_purpose::URL_SAFE.decode(&repacked).unwrap(),
    ))
    .unwrap();
    assert_eq!(reparsed["seed"], serde_json::Value::from(-331));
}

#[test]
fn fresh_document_encodes_and_decodes() {
    let doc = SaveDocument::new();
    assert_eq!(doc.gold, 0);
    assert_eq!(doc.gold_gained, 0);
    assert!(doc.cards.is_empty());
    assert!(doc.relics.is_empty());
    let packed = encode_save(&doc);
    let back = decode_save(&packed).expect("a fresh document round-trips");
    assert_eq!(back.gold, 0);
    assert!(back.cards.is_empty());
}

#[test]
fn decode_rejects_bad_base64() {
    let err = decode_save(b"!!!not base64!!!").unwrap_err();
    assert_eq!(err, CodecError::Base64);
}

#[test]
fn decode_rejects_non_json_payload() {
    let packed = pack_raw(b"this is not json");
    let err = decode_save(&packed).unwrap_err();
    assert_eq!(err, CodecError::Json);
}

#[test]
fn decode_rejects_json_without_required_fields() {
    let packed = pack_raw(br#"{"gold":1}"#);
    let err = decode_save(&packed).unwrap_err();
    assert_eq!(err, CodecError::Json);
}
