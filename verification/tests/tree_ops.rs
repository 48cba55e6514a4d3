use lsm_engine::config::Config;
use lsm_engine::tree::{KeyBound, Tree};

fn fresh_tree() -> Tree {
    Tree::create_new(Config::new(String::from("db")), String::from("journals/j0"))
}

#[test]
fn round_trip_and_range() {
    let mut tree = fresh_tree();
    tree.insert(b"a".to_vec(), b"1".to_vec());
    tree.insert(b"b".to_vec(), b"2".to_vec());
    assert_eq!(tree.get(&b"a".to_vec()), Some(b"1".to_vec()));
    assert_eq!(tree.get(&b"b".to_vec()), Some(b"2".to_vec()));
    let out = tree.range(
        &KeyBound::Included(b"a".to_vec()),
        &KeyBound::Excluded(b"c".to_vec()),
    );
    assert_eq!(
        out,
        vec![(b"a".to_vec(), b"1".to_vec()), (b"b".to_vec(), b"2".to_vec())]
    );
}

#[test]
fn tombstone_shadows_and_survives_flush_and_compaction() {
    let mut tree = fresh_tree();
    tree.insert(b"k".to_vec(), b"v".to_vec());
    tree.remove(b"k".to_vec());
    assert_eq!(tree.get(&b"k".to_vec()), None);
    assert!(tree.range(&KeyBound::Unbounded, &KeyBound::Unbounded).is_empty());
    tree.force_memtable_flush(String::from("journals/j1"));
    tree.do_major_compaction();
    assert_eq!(tree.get(&b"k".to_vec()), None);
    assert!(tree.range(&KeyBound::Unbounded, &KeyBound::Unbounded).is_empty());
    assert!(tree.is_empty());
}

#[test]
fn compare_and_swap_swaps_and_reports_mismatch() {
    let mut tree = fresh_tree();
    tree.insert(b"k".to_vec(), b"a".to_vec());
    let first = tree.compare_and_swap(&b"k".to_vec(), Some(&b"a".to_vec()), Some(&b"b".to_vec()));
    assert!(first.is_ok());
    assert_eq!(tree.get(&b"k".to_vec()), Some(b"b".to_vec()));
    let second = tree.compare_and_swap(&b"k".to_vec(), Some(&b"a".to_vec()), Some(&b"c".to_vec()));
    match second {
        Err(e) => {
            assert_eq!(e.prev, Some(b"b".to_vec()));
            assert_eq!(e.next, Some(b"c".to_vec()));
        }
        Ok(()) => panic!("the values no longer match, the swap must fail"),
    }
    assert_eq!(tree.get(&b"k".to_vec()), Some(b"b".to_vec()));
}

#[test]
fn compare_and_swap_absent_key() {
    let mut tree = fresh_tree();
    // Expecting nothing and finding nothing swaps in the new value.
    let r = tree.compare_and_swap(&b"n".to_vec(), None, Some(&b"x".to_vec()));
    assert!(r.is_ok());
    assert_eq!(tree.get(&b"n".to_vec()), Some(b"x".to_vec()));
    // Expecting a value where none matches fails.
    let r = tree.compare_and_swap(&b"m".to_vec(), Some(&b"x".to_vec()), None);
    match r {
        Err(e) => assert_eq!(e.prev, None),
        Ok(()) => panic!("nothing is stored under this key"),
    }
}

#[test]
fn snapshot_pins_the_past() {
    let mut tree = fresh_tree();
    tree.insert(b"x".to_vec(), b"1".to_vec());
    let snap = tree.snapshot();
    tree.insert(b"x".to_vec(), b"2".to_vec());
    assert_eq!(tree.snapshot_get(&snap, &b"x".to_vec()), Some(b"1".to_vec()));
    assert_eq!(tree.get(&b"x".to_vec()), Some(b"2".to_vec()));
    tree.drop_snapshot(snap);
}

#[test]
fn batch_commits_atomically_last_write_wins() {
    let mut tree = fresh_tree();
    let mut batch = tree.batch();
    batch.insert(b"a".to_vec(), b"1".to_vec());
    batch.insert(b"b".to_vec(), b"2".to_vec());
    batch.insert(b"a".to_vec(), b"3".to_vec());
    batch.remove(b"c".to_vec());
    batch.commit(&mut tree);
    assert_eq!(tree.get(&b"a".to_vec()), Some(b"3".to_vec()));
    assert_eq!(tree.get(&b"b".to_vec()), Some(b"2".to_vec()));
    assert_eq!(tree.get(&b"c".to_vec()), None);
}

#[test]
fn fetch_update_and_update_fetch() {
    let mut tree = fresh_tree();
    tree.insert(b"key".to_vec(), b"a".to_vec());
    let prev = tree.fetch_update(&b"key".to_vec(), |_| Some(b"b".to_vec()));
    assert_eq!(prev, Some(b"a".to_vec()));
    assert_eq!(tree.get(&b"key".to_vec()), Some(b"b".to_vec()));
    let new = tree.update_fetch(&b"key".to_vec(), |_| Some(b"c".to_vec()));
    assert_eq!(new, Some(b"c".to_vec()));
    let prev = tree.fetch_update(&b"key".to_vec(), |_| None);
    assert_eq!(prev, Some(b"c".to_vec()));
    assert!(tree.is_empty());
}

#[test]
fn remove_entry_returns_previous_value() {
    let mut tree = fresh_tree();
    assert_eq!(tree.remove_entry(&b"a".to_vec()), None);
    tree.insert(b"a".to_vec(), b"abc".to_vec());
    assert_eq!(tree.remove_entry(&b"a".to_vec()), Some(b"abc".to_vec()));
    assert_eq!(tree.get(&b"a".to_vec()), None);
}

#[test]
fn entry_reports_occupancy() {
    let mut tree = fresh_tree();
    match tree.entry(&b"a".to_vec()) {
        lsm_engine::tree::Entry::Vacant { key } => assert_eq!(key, b"a".to_vec()),
        _ => panic!("nothing was inserted yet"),
    }
    tree.insert(b"a".to_vec(), b"abc".to_vec());
    match tree.entry(&b"a".to_vec()) {
        lsm_engine::tree::Entry::Occupied { key, value } => {
            assert_eq!(key, b"a".to_vec());
            assert_eq!(value, b"abc".to_vec());
        }
        _ => panic!("the key holds a value"),
    }
}

#[test]
fn len_first_last_and_contains() {
    let mut tree = fresh_tree();
    assert_eq!(tree.len(), 0);
    assert!(tree.is_empty());
    tree.insert(b"1".to_vec(), b"abc".to_vec());
    tree.insert(b"5".to_vec(), b"abc".to_vec());
    tree.insert(b"3".to_vec(), b"abc".to_vec());
    assert_eq!(tree.len(), 3);
    assert!(!tree.is_empty());
    assert!(tree.contains_key(&b"3".to_vec()));
    assert!(!tree.contains_key(&b"4".to_vec()));
    let (first, _) = tree.first_key_value().expect("the tree holds items");
    assert_eq!(first, b"1".to_vec());
    let (last, _) = tree.last_key_value().expect("the tree holds items");
    assert_eq!(last, b"5".to_vec());
}

#[test]
fn prefix_scans_only_the_prefix() {
    let mut tree = fresh_tree();
    tree.insert(b"a".to_vec(), b"0".to_vec());
    tree.insert(b"ab".to_vec(), b"1".to_vec());
    tree.insert(b"abc".to_vec(), b"2".to_vec());
    tree.insert(b"b".to_vec(), b"3".to_vec());
    let out = tree.prefix(&b"ab".to_vec());
    assert_eq!(
        out,
        vec![(b"ab".to_vec(), b"1".to_vec()), (b"abc".to_vec(), b"2".to_vec())]
    );
}

#[test]
fn reads_cross_flushed_and_compacted_layers() {
    let mut tree = fresh_tree();
    tree.insert(b"old".to_vec(), b"1".to_vec());
    tree.force_memtable_flush(String::from("journals/j1"));
    tree.insert(b"old".to_vec(), b"2".to_vec());
    tree.insert(b"new".to_vec(), b"3".to_vec());
    tree.force_memtable_flush(String::from("journals/j2"));
    assert!(tree.segment_count() >= 2);
    assert_eq!(tree.get(&b"old".to_vec()), Some(b"2".to_vec()));
    assert_eq!(tree.get(&b"new".to_vec()), Some(b"3".to_vec()));
    tree.do_major_compaction();
    assert_eq!(tree.segment_count(), 1);
    assert_eq!(tree.get(&b"old".to_vec()), Some(b"2".to_vec()));
    assert_eq!(tree.get(&b"new".to_vec()), Some(b"3".to_vec()));
}

#[test]
fn disk_space_counts_journal_bytes() {
    let mut tree = fresh_tree();
    assert_eq!(tree.disk_space(), 0);
    tree.insert(b"a".to_vec(), b"abc".to_vec());
    assert!(tree.disk_space() > 0);
}

#[test]
fn snapshot_survives_compaction_of_live_values() {
    let mut tree = fresh_tree();
    tree.insert(b"x".to_vec(), b"1".to_vec());
    tree.force_memtable_flush(String::from("journals/j1"));
    let snap = tree.snapshot();
    // With a snapshot open, compaction keeps the tombstone-free top record.
    tree.do_major_compaction();
    assert_eq!(tree.snapshot_get(&snap, &b"x".to_vec()), Some(b"1".to_vec()));
    tree.drop_snapshot(snap);
}

#[test]
fn snapshot_range_ignores_later_writes() {
    let mut tree = fresh_tree();
    tree.insert(b"a".to_vec(), b"1".to_vec());
    let snap = tree.snapshot();
    tree.insert(b"b".to_vec(), b"2".to_vec());
    tree.insert(b"a".to_vec(), b"9".to_vec());
    let then = tree.snapshot_range(&snap, &KeyBound::Unbounded, &KeyBound::Unbounded);
    assert_eq!(then, vec![(b"a".to_vec(), b"1".to_vec())]);
    let now = tree.range(&KeyBound::Unbounded, &KeyBound::Unbounded);
    assert_eq!(
        now,
        vec![(b"a".to_vec(), b"9".to_vec()), (b"b".to_vec(), b"2".to_vec())]
    );
    tree.drop_snapshot(snap);
}

#[test]
fn seal_retires_the_active_memtable_with_its_shard() {
    let mut tree = fresh_tree();
    // Nothing to seal yet.
    assert_eq!(tree.seal_active_memtable(String::from("journals/j1")), None);
    tree.insert(b"a".to_vec(), b"1".to_vec());
    let journal_len = tree.journal.buf.len();
    let id = tree
        .seal_active_memtable(String::from("journals/j1"))
        .expect("a non-empty memtable is sealed");
    assert_eq!(id, 0);
    // The sealed entry carries the record and the synced retired shard; a
    // fresh memtable and shard take their place.
    assert_eq!(tree.sealed_memtables.len(), 1);
    assert_eq!(tree.sealed_memtables[0].memtable.items.len(), 1);
    assert_eq!(tree.sealed_memtables[0].journal.buf.len(), journal_len);
    assert_eq!(tree.sealed_memtables[0].journal.synced_len, journal_len);
    assert_eq!(tree.active_memtable.items.len(), 0);
    assert_eq!(tree.journal.buf.len(), 0);
    assert_eq!(tree.journal.path, "journals/j1");
    // Reads still cross the sealed layer.
    assert_eq!(tree.get(&b"a".to_vec()), Some(b"1".to_vec()));
}

#[test]
fn writes_grow_the_memtable_size_until_a_seal_resets_it() {
    let mut tree = fresh_tree();
    tree.config.max_memtable_size = 32;
    assert!(!tree.memtable_exceeds_threshold());
    tree.insert(b"key".to_vec(), b"some value".to_vec());
    assert!(tree.memtable_exceeds_threshold());
    tree.seal_active_memtable(String::from("journals/j1"));
    assert!(!tree.memtable_exceeds_threshold());
}
