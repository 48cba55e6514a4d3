use lsm_engine::config::Config;
use lsm_engine::journal::JournalShard;
use lsm_engine::memtable::Memtable;
use lsm_engine::recovery::{
    plan_journal_recovery, plan_segment_recovery, JournalDirInfo, JournalDisposition, OpenError,
};
use lsm_engine::tree::Tree;
use lsm_engine::value::{Value, ValueType};

#[test]
fn segment_plan_partitions_disk_directories() {
    let manifest = vec![b"s1".to_vec(), b"s3".to_vec()];
    let disk = vec![b"s1".to_vec(), b"s2".to_vec(), b"s3".to_vec()];
    let plan = plan_segment_recovery(&manifest, &disk).expect("every named segment exists");
    assert_eq!(plan.recover, vec![b"s1".to_vec(), b"s3".to_vec()]);
    assert_eq!(plan.delete, vec![b"s2".to_vec()]);
}

#[test]
fn segment_plan_refuses_a_missing_segment() {
    let manifest = vec![b"s1".to_vec(), b"s9".to_vec()];
    let disk = vec![b"s1".to_vec()];
    let r = plan_segment_recovery(&manifest, &disk);
    assert!(matches!(r, Err(OpenError::MissingSegment)));
}

#[test]
fn journal_plan_classifies_directories() {
    let journals = vec![
        JournalDirInfo { id: b"j0".to_vec(), size: 0, has_flush_marker: false },
        JournalDirInfo { id: b"j1".to_vec(), size: 100, has_flush_marker: true },
        JournalDirInfo { id: b"j2".to_vec(), size: 100, has_flush_marker: false },
    ];
    let manifest = vec![b"j1".to_vec()];
    let plan = plan_journal_recovery(&journals, &manifest, 1000).expect("one active journal");
    assert_eq!(plan.len(), 3);
    assert!(matches!(plan[0], JournalDisposition::Delete));
    assert!(matches!(
        plan[1],
        JournalDisposition::FlushToSegment { write_segment: false }
    ));
    assert!(matches!(plan[2], JournalDisposition::Active));
}

#[test]
fn journal_plan_flushes_an_oversized_active_journal() {
    let journals = vec![JournalDirInfo { id: b"j0".to_vec(), size: 5000, has_flush_marker: false }];
    let manifest: Vec<Vec<u8>> = Vec::new();
    let plan = plan_journal_recovery(&journals, &manifest, 1000).expect("no second active");
    assert!(matches!(
        plan[0],
        JournalDisposition::FlushToSegment { write_segment: true }
    ));
}

#[test]
fn journal_plan_refuses_two_active_journals() {
    let journals = vec![
        JournalDirInfo { id: b"j0".to_vec(), size: 10, has_flush_marker: false },
        JournalDirInfo { id: b"j1".to_vec(), size: 10, has_flush_marker: false },
    ];
    let manifest: Vec<Vec<u8>> = Vec::new();
    let r = plan_journal_recovery(&journals, &manifest, 1000);
    assert!(matches!(r, Err(OpenError::SecondActiveJournal)));
}

#[test]
fn crash_and_reopen_keeps_synced_writes() {
    // Write two values, sync, then lose everything past the synced point.
    let mut tree = Tree::create_new(
        Config::new(String::from("db")),
        String::from("journals/j0"),
    );
    tree.insert(b"a".to_vec(), b"1".to_vec());
    tree.insert(b"b".to_vec(), b"2".to_vec());
    tree.flush();
    let synced = tree.journal.synced_len;
    tree.insert(b"c".to_vec(), b"3".to_vec());
    let mut disk_bytes = tree.journal.buf.clone();
    disk_bytes.truncate(synced);

    // Replay the shard and reopen.
    let out = JournalShard::recover_and_repair(&disk_bytes, None).expect("the tail is clean");
    let mut memtable = Memtable::new();
    for (name, mt) in out.memtables {
        if name.is_empty() {
            memtable = mt;
        }
    }
    disk_bytes.truncate(out.truncate_to);
    let reopened = Tree::recover(
        Config::new(String::from("db")),
        String::from("journals/j0"),
        disk_bytes,
        memtable,
        Vec::new(),
    )
    .expect("the recovered parts are consistent");
    assert_eq!(reopened.get(&b"a".to_vec()), Some(b"1".to_vec()));
    assert_eq!(reopened.get(&b"b".to_vec()), Some(b"2".to_vec()));
    assert_eq!(reopened.get(&b"c".to_vec()), None);
}

#[test]
fn crash_inside_a_batch_loses_the_whole_batch() {
    let mut tree = Tree::create_new(
        Config::new(String::from("db")),
        String::from("journals/j0"),
    );
    tree.insert(b"a".to_vec(), b"1".to_vec());
    let mut batch = tree.batch();
    batch.insert(b"x".to_vec(), b"1".to_vec());
    batch.insert(b"y".to_vec(), b"2".to_vec());
    batch.insert(b"z".to_vec(), b"3".to_vec());
    batch.commit(&mut tree);
    // The crash tears the committed batch just before its closing marker.
    let mut disk_bytes = tree.journal.buf.clone();
    disk_bytes.truncate(disk_bytes.len() - 5);

    let out = JournalShard::recover_and_repair(&disk_bytes, None).expect("self-heals");
    let mut memtable = Memtable::new();
    for (name, mt) in out.memtables {
        if name.is_empty() {
            memtable = mt;
        }
    }
    disk_bytes.truncate(out.truncate_to);
    let reopened = Tree::recover(
        Config::new(String::from("db")),
        String::from("journals/j0"),
        disk_bytes,
        memtable,
        Vec::new(),
    )
    .expect("the recovered parts are consistent");
    // The single write before the batch survives; the torn batch is gone
    // in full.
    assert_eq!(reopened.get(&b"a".to_vec()), Some(b"1".to_vec()));
    assert_eq!(reopened.get(&b"x".to_vec()), None);
    assert_eq!(reopened.get(&b"y".to_vec()), None);
    assert_eq!(reopened.get(&b"z".to_vec()), None);
}

#[test]
fn reopened_tree_resumes_above_recovered_seqnos() {
    let mut tree = Tree::create_new(
        Config::new(String::from("db")),
        String::from("journals/j0"),
    );
    tree.insert(b"a".to_vec(), b"1".to_vec());
    tree.insert(b"a".to_vec(), b"2".to_vec());
    tree.flush();
    let disk_bytes = tree.journal.buf.clone();
    let out = JournalShard::recover_and_repair(&disk_bytes, None).expect("whole stream");
    let mut memtable = Memtable::new();
    for (name, mt) in out.memtables {
        if name.is_empty() {
            memtable = mt;
        }
    }
    let mut reopened = Tree::recover(
        Config::new(String::from("db")),
        String::from("journals/j0"),
        disk_bytes,
        memtable,
        Vec::new(),
    )
    .expect("consistent");
    assert_eq!(reopened.lsn, 2);
    // New writes shadow the recovered ones.
    reopened.insert(b"a".to_vec(), b"3".to_vec());
    assert_eq!(reopened.get(&b"a".to_vec()), Some(b"3".to_vec()));
}

#[test]
fn recover_refuses_an_unsorted_run() {
    let mut memtable = Memtable::new();
    memtable.items = vec![
        Value::new(b"b".to_vec(), b"1".to_vec(), 0, ValueType::Value),
        Value::new(b"a".to_vec(), b"2".to_vec(), 1, ValueType::Value),
    ];
    let r = Tree::recover(
        Config::new(String::from("db")),
        String::from("journals/j0"),
        Vec::new(),
        memtable,
        Vec::new(),
    );
    assert!(matches!(r, Err(OpenError::UnsortedRun)));
}

#[test]
fn recover_refuses_a_layer_order_violation() {
    // The segment holds a newer record for the key than the memtable does,
    // which no honest history can produce.
    let mut memtable = Memtable::new();
    memtable.items = vec![Value::new(b"k".to_vec(), b"old".to_vec(), 1, ValueType::Value)];
    let segment = lsm_engine::tree::Segment {
        id: 0,
        file_size: 0,
        records: vec![Value::new(b"k".to_vec(), b"new".to_vec(), 5, ValueType::Value)],
    };
    let r = Tree::recover(
        Config::new(String::from("db")),
        String::from("journals/j0"),
        Vec::new(),
        memtable,
        vec![vec![segment]],
    );
    assert!(matches!(r, Err(OpenError::LayerOrderViolation)));
}

#[test]
fn recover_refuses_an_exhausted_seqno_counter() {
    let mut memtable = Memtable::new();
    memtable.items = vec![Value::new(b"k".to_vec(), b"v".to_vec(), u64::MAX, ValueType::Value)];
    let r = Tree::recover(
        Config::new(String::from("db")),
        String::from("journals/j0"),
        Vec::new(),
        memtable,
        Vec::new(),
    );
    assert!(matches!(r, Err(OpenError::SeqnoExhausted)));
}
