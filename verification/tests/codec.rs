use lsm_engine::marker::{
    push_u32_be, push_u64_be, read_u32_be, read_u64_be, DeserializeError, JournalItem, Marker,
};
use lsm_engine::value::ValueType;

#[test]
fn integers_round_trip_big_endian() {
    let mut bytes: Vec<u8> = Vec::new();
    push_u32_be(&mut bytes, 0x01020304);
    push_u64_be(&mut bytes, 0x1122334455667788);
    assert_eq!(bytes[..4], [1, 2, 3, 4]);
    assert_eq!(read_u32_be(&bytes, 0), 0x01020304);
    assert_eq!(read_u64_be(&bytes, 4), 0x1122334455667788);
}

#[test]
fn start_marker_round_trips() {
    let mut bytes: Vec<u8> = Vec::new();
    Marker::Start { item_count: 3, seqno: 42 }.serialize(&mut bytes);
    assert_eq!(bytes.len(), 13);
    assert_eq!(bytes[0], 0);
    let (m, end) = Marker::deserialize(&bytes, 0).expect("a whole marker");
    match m {
        Marker::Start { item_count, seqno } => {
            assert_eq!(item_count, 3);
            assert_eq!(seqno, 42);
        }
        _ => panic!("a start marker was written"),
    }
    assert_eq!(end, 13);
}

#[test]
fn item_marker_round_trips() {
    let item = JournalItem {
        partition: b"part".to_vec(),
        key: b"key".to_vec(),
        value: b"value".to_vec(),
        value_type: ValueType::Tombstone,
    };
    let mut bytes: Vec<u8> = Vec::new();
    Marker::Item(item).serialize(&mut bytes);
    assert_eq!(bytes[0], 1);
    let (m, end) = Marker::deserialize(&bytes, 0).expect("a whole marker");
    match m {
        Marker::Item(it) => {
            assert_eq!(it.partition, b"part".to_vec());
            assert_eq!(it.key, b"key".to_vec());
            assert_eq!(it.value, b"value".to_vec());
            assert!(matches!(it.value_type, ValueType::Tombstone));
        }
        _ => panic!("an item marker was written"),
    }
    assert_eq!(end, bytes.len());
}

#[test]
fn end_marker_round_trips() {
    let mut bytes: Vec<u8> = Vec::new();
    Marker::End(0xdeadbeef).serialize(&mut bytes);
    assert_eq!(bytes, vec![2, 0xde, 0xad, 0xbe, 0xef]);
    let (m, end) = Marker::deserialize(&bytes, 0).expect("a whole marker");
    assert!(matches!(m, Marker::End(0xdeadbeef)));
    assert_eq!(end, 5);
}

#[test]
fn truncated_marker_reports_eof() {
    let mut bytes: Vec<u8> = Vec::new();
    Marker::Start { item_count: 1, seqno: 7 }.serialize(&mut bytes);
    bytes.truncate(6);
    let r = Marker::deserialize(&bytes, 0);
    assert!(matches!(r, Err(DeserializeError::UnexpectedEof)));
}

#[test]
fn unknown_tag_is_rejected() {
    let bytes = vec![9u8, 0, 0, 0, 0];
    let r = Marker::deserialize(&bytes, 0);
    assert!(matches!(r, Err(DeserializeError::InvalidTag(9))));
}

#[test]
fn markers_parse_in_sequence() {
    let mut bytes: Vec<u8> = Vec::new();
    Marker::Start { item_count: 1, seqno: 5 }.serialize(&mut bytes);
    Marker::Item(JournalItem {
        partition: Vec::new(),
        key: b"k".to_vec(),
        value: b"v".to_vec(),
        value_type: ValueType::Value,
    })
    .serialize(&mut bytes);
    Marker::End(1).serialize(&mut bytes);
    let (_, p1) = Marker::deserialize(&bytes, 0).expect("start");
    let (m2, p2) = Marker::deserialize(&bytes, p1).expect("item");
    assert!(matches!(m2, Marker::Item(_)));
    let (m3, p3) = Marker::deserialize(&bytes, p2).expect("end");
    assert!(matches!(m3, Marker::End(1)));
    assert_eq!(p3, bytes.len());
}
