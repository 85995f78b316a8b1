use nautilus_index::codec::{decode, encode, span};
use nautilus_index::NautilusIndexData;
use std::collections::HashMap;

fn map_with(entries: &[(&str, u32)]) -> NautilusIndexData {
    let mut d = NautilusIndexData::default();
    for (name, count) in entries {
        for _ in 0..*count {
            d.add_record(name);
        }
    }
    d
}

#[test]
fn encode_empty_map_is_four_zero_bytes() {
    let d = NautilusIndexData::default();
    assert_eq!(encode(&d), vec![0u8, 0, 0, 0]);
}

#[test]
fn encode_one_entry_exact_bytes() {
    let mut d = NautilusIndexData::default();
    d.add_record("a");
    assert_eq!(
        encode(&d),
        vec![1u8, 0, 0, 0, 1, 0, 0, 0, 0x61, 1, 0, 0, 0]
    );
}

#[test]
fn round_trip_empty_map() {
    let d = NautilusIndexData::default();
    let back = decode(&encode(&d)).expect("empty map must round-trip");
    assert_eq!(back.index, d.index);
}

#[test]
fn round_trip_small_map() {
    let d = map_with(&[("users", 2), ("orders", 1), ("inventory", 5)]);
    let back = decode(&encode(&d)).expect("small map must round-trip");
    assert_eq!(back.index, d.index);
    assert_eq!(back.get_count("users"), Some(2));
    assert_eq!(back.get_count("orders"), Some(1));
    assert_eq!(back.get_count("inventory"), Some(5));
}

#[test]
fn round_trip_large_map() {
    let mut d = NautilusIndexData::default();
    for i in 0..120u32 {
        let name = format!("table_{}", i);
        for _ in 0..=(i % 4) {
            d.add_record(&name);
        }
    }
    assert_eq!(d.index.len(), 120);
    let back = decode(&encode(&d)).expect("large map must round-trip");
    assert_eq!(back.index, d.index);
    for i in 0..120u32 {
        let name = format!("table_{}", i);
        assert_eq!(back.get_count(&name), Some(1 + i % 4));
    }
}

#[test]
fn span_equals_encoded_length() {
    for d in [
        NautilusIndexData::default(),
        map_with(&[("a", 1)]),
        map_with(&[("users", 2), ("orders", 1)]),
        map_with(&[("x", 9), ("a_rather_long_table_name", 3)]),
    ] {
        assert_eq!(span(&d), encode(&d).len());
    }
}

#[test]
fn span_of_empty_map_is_four() {
    assert_eq!(span(&NautilusIndexData::default()), 4);
}

#[test]
fn decode_rejects_invalid_bytes() {
    // Too short to even hold the entry count.
    assert!(decode(&[]).is_none());
    assert!(decode(&[1, 0, 0]).is_none());
    // Entry count present but entries missing.
    assert!(decode(&[1, 0, 0, 0]).is_none());
    // Truncated in the middle of a key.
    assert!(decode(&[1, 0, 0, 0, 5, 0, 0, 0, 0x61]).is_none());
    // Trailing byte after a complete map.
    let mut d = NautilusIndexData::default();
    d.add_record("a");
    let mut bytes = encode(&d);
    bytes.push(0);
    assert!(decode(&bytes).is_none());
    // A stored count of zero is never valid.
    assert!(decode(&[1, 0, 0, 0, 1, 0, 0, 0, 0x61, 0, 0, 0, 0]).is_none());
    // A repeated key is never valid.
    assert!(decode(&[
        2, 0, 0, 0, 1, 0, 0, 0, 0x61, 1, 0, 0, 0, 1, 0, 0, 0, 0x61, 2, 0, 0, 0
    ])
    .is_none());
}

#[test]
fn decode_accepts_any_entry_order() {
    let a_then_b = [
        2u8, 0, 0, 0, 1, 0, 0, 0, 0x61, 1, 0, 0, 0, 1, 0, 0, 0, 0x62, 2, 0, 0, 0,
    ];
    let b_then_a = [
        2u8, 0, 0, 0, 1, 0, 0, 0, 0x62, 2, 0, 0, 0, 1, 0, 0, 0, 0x61, 1, 0, 0, 0,
    ];
    let d1 = decode(&a_then_b).expect("first order must decode");
    let d2 = decode(&b_then_a).expect("second order must decode");
    assert_eq!(d1.get_count("a"), Some(1));
    assert_eq!(d1.get_count("b"), Some(2));
    assert_eq!(d2.get_count("a"), Some(1));
    assert_eq!(d2.get_count("b"), Some(2));
}

#[test]
fn borsh_decodes_our_encoding() {
    let d = map_with(&[("users", 2), ("orders", 1)]);
    let bytes = encode(&d);
    let m: HashMap<String, u32> = borsh::from_slice(&bytes).expect("borsh must accept the bytes");
    assert_eq!(m.len(), 2);
    assert_eq!(m.get("users"), Some(&2));
    assert_eq!(m.get("orders"), Some(&1));
}

#[test]
fn our_decoder_accepts_borsh_encoding() {
    let mut m: HashMap<String, u32> = HashMap::new();
    m.insert("users".to_string(), 2);
    m.insert("orders".to_string(), 1);
    let bytes = borsh::to_vec(&m).expect("borsh must encode the map");
    let d = decode(&bytes).expect("our decoder must accept borsh's bytes");
    assert_eq!(d.get_count("users"), Some(2));
    assert_eq!(d.get_count("orders"), Some(1));
    assert_eq!(d.index.len(), 2);
}
