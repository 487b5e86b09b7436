use linhash::codec::{decode, encode};
use linhash::record::Record;
use linhash::StoreError;

#[test]
fn encode_layout() {
    let mut m = Record::new();
    m.insert("ab".to_string(), "c".to_string());

    let b = encode(&m).unwrap();
    assert_eq!(b, vec![0, 1, 0, 2, b'a', b'b', 0, 1, b'c']);
}

#[test]
fn encode_empty_record() {
    let m = Record::new();
    assert_eq!(encode(&m).unwrap(), vec![0, 0]);
}

#[test]
fn round_trip() {
    let mut m = Record::new();
    m.insert("hello".to_string(), "world".to_string());
    m.insert("fuzzy".to_string(), "bunny".to_string());
    m.insert("".to_string(), "empty key".to_string());
    m.insert("grüße".to_string(), "日本".to_string());

    let b = encode(&m).unwrap();
    let back = decode(&b).unwrap();
    assert_eq!(back, m);
    assert_eq!(back.get("grüße"), Some("日本".to_string()));
    assert_eq!(back.get(""), Some("empty key".to_string()));
}

#[test]
fn decode_empty_buffer_is_empty_record() {
    let m = decode(&[]).unwrap();
    assert!(m.is_empty());
}

#[test]
fn decode_rejects_truncated_buffers() {
    assert_eq!(decode(&[0]), Err(StoreError::Decode));
    assert_eq!(decode(&[0, 1]), Err(StoreError::Decode));
    assert_eq!(decode(&[0, 1, 0, 2, b'a']), Err(StoreError::Decode));
    assert_eq!(decode(&[0, 1, 0, 1, b'a', 0, 2, b'b']), Err(StoreError::Decode));
}

#[test]
fn decode_rejects_trailing_bytes() {
    assert_eq!(decode(&[0, 1, 0, 1, b'a', 0, 1, b'b', 7]), Err(StoreError::Decode));
    assert_eq!(decode(&[0, 0, 9]), Err(StoreError::Decode));
}

#[test]
fn decode_rejects_invalid_utf8() {
    assert_eq!(decode(&[0, 1, 0, 1, 0xff, 0, 1, b'b']), Err(StoreError::Decode));
}

#[test]
fn decode_rejects_duplicate_keys() {
    assert_eq!(
        decode(&[0, 2, 0, 1, b'a', 0, 1, b'b', 0, 1, b'a', 0, 1, b'c']),
        Err(StoreError::Decode)
    );
}

#[test]
fn decode_reads_multibyte_text() {
    let m = decode(&[0, 1, 0, 2, 0xc3, 0xa9, 0, 1, b'x']).unwrap();
    assert_eq!(m.get("é"), Some("x".to_string()));
    assert_eq!(m.len(), 1);
}

#[test]
fn encode_refuses_overlong_string() {
    let mut m = Record::new();
    m.insert("k".to_string(), "v".repeat(65536));
    assert_eq!(encode(&m), Err(StoreError::Validation));
}

#[test]
fn record_insert_remove() {
    let mut m = Record::new();
    assert!(m.insert("a".to_string(), "1".to_string()));
    assert!(m.insert("b".to_string(), "2".to_string()));
    assert!(!m.insert("a".to_string(), "3".to_string()));
    assert_eq!(m.len(), 2);
    assert_eq!(m.get("a"), Some("3".to_string()));
    assert_eq!(m.key_at(0), "a");
    assert!(m.contains_key("b"));
    assert!(m.remove("a"));
    assert!(!m.remove("a"));
    assert_eq!(m.get("a"), None);
    assert_eq!(m.len(), 1);
    assert_eq!(m.value_at(0), "2");
}
