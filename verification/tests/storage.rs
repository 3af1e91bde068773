use thingdb::storage::{
    attr_index_key, attr_index_prefix, attrs_from_values, decode_archetype_value,
    decode_attr_value, edge_key, entities_from_index_keys, entity_attr_key, entity_attrs_prefix,
    entity_to_archetype_key, has_prefix, incoming_edge_prefix, outgoing_edge_prefix,
    parse_attr_index_key, parse_edge_target, parse_reverse_edge_source, reverse_edge_key,
    u64_value, KeyEncoder,
};

// ── KeyEncoder ───────────────────────────────────────────────────

#[test]
fn test_key_encoding() {
    let key = KeyEncoder::encode(1, 2, 3);
    assert_eq!(key.len(), 32);

    let (a, h, t) = KeyEncoder::decode(&key).unwrap();
    assert_eq!(a, 1);
    assert_eq!(h, 2);
    assert_eq!(t, 3);
}

#[test]
fn test_key_encoding_max_values() {
    let key = KeyEncoder::encode(u64::MAX, u64::MAX, u128::MAX);
    assert_eq!(key.len(), 32);

    let (a, h, t) = KeyEncoder::decode(&key).unwrap();
    assert_eq!(a, u64::MAX);
    assert_eq!(h, u64::MAX);
    assert_eq!(t, u128::MAX);
}

#[test]
fn test_key_encoding_zero_values() {
    let key = KeyEncoder::encode(0, 0, 0);
    assert_eq!(key.len(), 32);

    let (a, h, t) = KeyEncoder::decode(&key).unwrap();
    assert_eq!(a, 0);
    assert_eq!(h, 0);
    assert_eq!(t, 0);
}

#[test]
fn test_key_decode_wrong_length_returns_none() {
    assert!(KeyEncoder::decode(&[]).is_none());
    assert!(KeyEncoder::decode(&[1, 2, 3]).is_none());
    assert!(KeyEncoder::decode(&[0; 31]).is_none());
    assert!(KeyEncoder::decode(&[0; 33]).is_none());
}

#[test]
fn test_encode_archetype_prefix() {
    let prefix = KeyEncoder::encode_archetype_prefix(42);
    assert_eq!(prefix.len(), 8);
    assert_eq!(u64::from_le_bytes(prefix[..8].try_into().unwrap()), 42);
}

#[test]
fn test_encode_attr_prefix() {
    let prefix = KeyEncoder::encode_attr_prefix(7, 13);
    assert_eq!(prefix.len(), 16);
    assert_eq!(u64::from_le_bytes(prefix[0..8].try_into().unwrap()), 7);
    assert_eq!(u64::from_le_bytes(prefix[8..16].try_into().unwrap()), 13);
}

// ── Key format consistency ───────────────────────────────────────

#[test]
fn test_key_format_entity_to_archetype_key() {
    let key = entity_to_archetype_key(42);
    assert!(key.starts_with(b"eta:"));
    assert_eq!(key.len(), 4 + 16);
}

#[test]
fn test_key_format_entity_attr_key() {
    let key = entity_attr_key(42, 7);
    assert!(key.starts_with(b"ea:"));
    assert_eq!(key.len(), 3 + 16 + 8);
}

#[test]
fn test_key_format_attr_index_key() {
    let key = attr_index_key(7, 42);
    assert!(key.starts_with(b"ai:"));
    assert_eq!(key.len(), 3 + 8 + 16);
}

// ── Layout details ───────────────────────────────────────────────

#[test]
fn data_key_is_little_endian_fields() {
    let key = KeyEncoder::encode(0x0102, 0x0304, 0x0506);
    let mut expected = vec![0u8; 32];
    expected[0] = 0x02;
    expected[1] = 0x01;
    expected[8] = 0x04;
    expected[9] = 0x03;
    expected[16] = 0x06;
    expected[17] = 0x05;
    assert_eq!(key, expected);
}

#[test]
fn data_key_lies_under_its_prefixes_only() {
    let key = KeyEncoder::encode(7, 13, 99);
    assert!(has_prefix(&key, &KeyEncoder::encode_archetype_prefix(7)));
    assert!(has_prefix(&key, &KeyEncoder::encode_attr_prefix(7, 13)));
    assert!(!has_prefix(&key, &KeyEncoder::encode_archetype_prefix(8)));
    assert!(!has_prefix(&key, &KeyEncoder::encode_attr_prefix(7, 14)));
}

#[test]
fn attr_index_key_round_trip_and_prefix() {
    let key = attr_index_key(7, 42);
    assert_eq!(parse_attr_index_key(&key), Some(42));
    assert_eq!(attr_index_prefix(7).len(), 11);
    assert!(has_prefix(&key, &attr_index_prefix(7)));
    assert!(!has_prefix(&key, &attr_index_prefix(8)));
    assert_eq!(parse_attr_index_key(&key[..26]), None);
}

#[test]
fn entity_attr_key_prefix_isolates_entities() {
    let key = entity_attr_key(1, 10);
    assert!(has_prefix(&key, &entity_attrs_prefix(1)));
    assert!(!has_prefix(&key, &entity_attrs_prefix(2)));
    assert_eq!(entity_attrs_prefix(1).len(), 19);
}

#[test]
fn edge_keys_round_trip_and_prefixes() {
    let fwd = edge_key(5, 100, 200);
    let rev = reverse_edge_key(5, 200, 100);
    assert_eq!(fwd.len(), 42);
    assert_eq!(rev.len(), 43);
    assert!(fwd.starts_with(b"e:"));
    assert!(rev.starts_with(b"er:"));
    assert_eq!(parse_edge_target(&fwd), Some(200));
    assert_eq!(parse_reverse_edge_source(&rev), Some(100));
    assert!(has_prefix(&fwd, &outgoing_edge_prefix(5, 100)));
    assert!(!has_prefix(&fwd, &outgoing_edge_prefix(6, 100)));
    assert!(!has_prefix(&fwd, &outgoing_edge_prefix(5, 200)));
    assert!(has_prefix(&rev, &incoming_edge_prefix(5, 200)));
    assert!(!has_prefix(&rev, &incoming_edge_prefix(5, 100)));
    assert_eq!(parse_edge_target(&fwd[..41]), None);
    assert_eq!(parse_reverse_edge_source(&rev[..42]), None);
}

#[test]
fn record_values_decode() {
    assert_eq!(u64_value(100), 100u64.to_le_bytes().to_vec());
    assert_eq!(decode_archetype_value(&u64_value(100)), 100);
    assert_eq!(decode_archetype_value(&[1, 2, 3]), 0);
    assert_eq!(decode_attr_value(&u64_value(20)), Some(20));
    assert_eq!(decode_attr_value(&[1, 2, 3]), None);
    let mut long = u64_value(9);
    long.push(0xff);
    assert_eq!(decode_archetype_value(&long), 9);
}

#[test]
fn attrs_from_values_skips_short_values() {
    let values = vec![u64_value(10), vec![1, 2], u64_value(30)];
    assert_eq!(attrs_from_values(&values), vec![10, 30]);
    assert!(attrs_from_values(&Vec::new()).is_empty());
}

#[test]
fn entities_from_index_keys_reads_ids() {
    let keys = vec![attr_index_key(42, 1), attr_index_key(42, 2), vec![0u8; 5]];
    assert_eq!(entities_from_index_keys(&keys), vec![1, 2]);
}

#[test]
fn has_prefix_edges() {
    assert!(has_prefix(b"abc", b""));
    assert!(has_prefix(b"abc", b"abc"));
    assert!(!has_prefix(b"ab", b"abc"));
    assert!(!has_prefix(b"abd", b"abc"));
}
