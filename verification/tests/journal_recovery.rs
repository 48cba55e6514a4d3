use lsm_engine::journal::{JournalShard, RecoverFault, RecoveryError};
use lsm_engine::marker::{JournalItem, Marker};
use lsm_engine::memtable::Memtable;
use lsm_engine::value::ValueType;

fn item(key: &[u8], value: &[u8]) -> JournalItem {
    JournalItem {
        partition: Vec::new(),
        key: key.to_vec(),
        value: value.to_vec(),
        value_type: ValueType::Value,
    }
}

fn records_of(memtables: &[(Vec<u8>, Memtable)], partition: &[u8]) -> Vec<(Vec<u8>, Vec<u8>)> {
    for (name, mt) in memtables {
        if name.as_slice() == partition {
            return mt
                .items
                .iter()
                .map(|v| (v.key.clone(), v.value.clone()))
                .collect();
        }
    }
    Vec::new()
}

#[test]
fn whole_journal_replays_every_batch() {
    let mut shard = JournalShard::create_new(String::from("journals/j0"));
    shard.write(&item(b"a", b"1"), 0);
    shard.write(&item(b"b", b"2"), 1);
    let out = JournalShard::recover_and_repair(&shard.buf, None).expect("the stream is whole");
    assert_eq!(out.truncate_to, shard.buf.len());
    let recs = records_of(&out.memtables, b"");
    assert_eq!(recs, vec![(b"a".to_vec(), b"1".to_vec()), (b"b".to_vec(), b"2".to_vec())]);
}

#[test]
fn torn_end_marker_discards_the_whole_batch() {
    // A batch of three writes, cut just before its closing marker: none of
    // the three survives recovery.
    let mut shard = JournalShard::create_new(String::from("journals/j0"));
    let items = vec![item(b"a", b"1"), item(b"b", b"2"), item(b"c", b"3")];
    shard.write_batch(&items, 0);
    shard.flush();
    let mut bytes = shard.buf.clone();
    bytes.truncate(bytes.len() - 5);
    let out = JournalShard::recover_and_repair(&bytes, None).expect("a torn tail self-heals");
    assert_eq!(out.truncate_to, 0);
    assert!(records_of(&out.memtables, b"").is_empty());
}

#[test]
fn torn_tail_keeps_the_first_ninety_nine_batches() {
    let mut shard = JournalShard::create_new(String::from("journals/j0"));
    let mut len_after_99 = 0;
    for i in 0..100u32 {
        let key = format!("key{i:03}").into_bytes();
        shard.write(&item(&key, b"v"), i as u64);
        if i == 98 {
            len_after_99 = shard.buf.len();
        }
    }
    // Cut inside batch 100, between its item and its closing marker.
    let mut bytes = shard.buf.clone();
    bytes.truncate(bytes.len() - 5);
    let out = JournalShard::recover_and_repair(&bytes, None).expect("a torn tail self-heals");
    assert_eq!(out.truncate_to, len_after_99);
    let recs = records_of(&out.memtables, b"");
    assert_eq!(recs.len(), 99);
    assert_eq!(recs[0].0, b"key000".to_vec());
    assert_eq!(recs[98].0, b"key098".to_vec());
    assert!(!recs.iter().any(|(k, _)| k == &b"key099".to_vec()));
}

#[test]
fn corrupted_checksum_fails_recovery() {
    let mut shard = JournalShard::create_new(String::from("journals/j0"));
    shard.write(&item(b"a", b"1"), 0);
    let mut bytes = shard.buf.clone();
    let last = bytes.len() - 1;
    bytes[last] ^= 0xff;
    let r = JournalShard::recover_and_repair(&bytes, None);
    assert!(matches!(
        r,
        Err(RecoverFault::JournalRecovery(RecoveryError::CrcCheck))
    ));
}

#[test]
fn too_many_items_fails_recovery() {
    let mut bytes: Vec<u8> = Vec::new();
    Marker::Start { item_count: 0, seqno: 0 }.serialize(&mut bytes);
    Marker::Item(item(b"a", b"1")).serialize(&mut bytes);
    let r = JournalShard::recover_and_repair(&bytes, None);
    assert!(matches!(
        r,
        Err(RecoverFault::JournalRecovery(RecoveryError::TooManyItems))
    ));
}

#[test]
fn insufficient_length_fails_recovery() {
    let mut bytes: Vec<u8> = Vec::new();
    Marker::Start { item_count: 2, seqno: 0 }.serialize(&mut bytes);
    Marker::Item(item(b"a", b"1")).serialize(&mut bytes);
    Marker::End(0).serialize(&mut bytes);
    let r = JournalShard::recover_and_repair(&bytes, None);
    assert!(matches!(
        r,
        Err(RecoverFault::JournalRecovery(RecoveryError::InsufficientLength))
    ));
}

#[test]
fn start_inside_a_batch_truncates() {
    let mut bytes: Vec<u8> = Vec::new();
    Marker::Start { item_count: 2, seqno: 0 }.serialize(&mut bytes);
    Marker::Item(item(b"a", b"1")).serialize(&mut bytes);
    Marker::Start { item_count: 1, seqno: 1 }.serialize(&mut bytes);
    let out = JournalShard::recover_and_repair(&bytes, None).expect("self-heals by truncation");
    assert_eq!(out.truncate_to, 0);
    assert!(records_of(&out.memtables, b"").is_empty());
}

#[test]
fn whitelist_filters_partitions() {
    let mut shard = JournalShard::create_new(String::from("journals/j0"));
    let kept = JournalItem {
        partition: b"keep".to_vec(),
        key: b"a".to_vec(),
        value: b"1".to_vec(),
        value_type: ValueType::Value,
    };
    let dropped = JournalItem {
        partition: b"drop".to_vec(),
        key: b"b".to_vec(),
        value: b"2".to_vec(),
        value_type: ValueType::Value,
    };
    shard.write(&kept, 0);
    shard.write(&dropped, 1);
    let whitelist = vec![b"keep".to_vec()];
    let out =
        JournalShard::recover_and_repair(&shard.buf, Some(&whitelist)).expect("stream is whole");
    assert_eq!(records_of(&out.memtables, b"keep").len(), 1);
    assert!(records_of(&out.memtables, b"drop").is_empty());
}

#[test]
fn shard_rotation_resets_the_file() {
    let mut shard = JournalShard::create_new(String::from("journals/j0"));
    shard.write(&item(b"a", b"1"), 0);
    assert!(shard.disk_size() > 0);
    assert!(shard.should_sync);
    // A shard is synced before it is rotated out.
    shard.flush();
    shard.rotate(String::from("journals/j1"));
    assert_eq!(shard.disk_size(), 0);
    assert!(!shard.should_sync);
    assert_eq!(shard.path, "journals/j1");
}

#[test]
fn from_file_counts_existing_bytes_as_durable() {
    let shard = JournalShard::from_file(String::from("journals/j0"), vec![1, 2, 3]);
    assert_eq!(shard.disk_size(), 3);
    assert_eq!(shard.synced_len, 3);
}

#[test]
fn unknown_marker_tag_fails_recovery() {
    let mut shard = JournalShard::create_new(String::from("journals/j0"));
    shard.write(&item(b"a", b"1"), 0);
    let mut bytes = shard.buf.clone();
    bytes.push(7);
    bytes.extend_from_slice(&[0, 0, 0, 0]);
    let r = JournalShard::recover_and_repair(&bytes, None);
    assert!(matches!(
        r,
        Err(RecoverFault::Deserialize(
            lsm_engine::marker::DeserializeError::InvalidTag(7)
        ))
    ));
}

#[test]
fn write_batch_reports_its_size() {
    let mut shard = JournalShard::create_new(String::from("journals/j0"));
    let written = shard.write_batch(&vec![item(b"a", b"1")], 0);
    assert_eq!(written, shard.buf.len());
    // Start is 13 bytes, End is 5, the item is 14 plus its content.
    assert_eq!(written, 13 + (14 + 0 + 1 + 1) + 5);
}
