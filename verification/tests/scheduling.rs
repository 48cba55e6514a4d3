use lsm_engine::config::Config;
use lsm_engine::flush_manager::{FlushManager, LruList, Task};

#[test]
fn lru_serves_the_longest_unserved_partition_first() {
    let mut lru = LruList::new();
    lru.refresh(b"a".to_vec());
    lru.refresh(b"b".to_vec());
    lru.refresh(b"a".to_vec());
    // "b" is now the least recently used.
    assert_eq!(lru.get_least_recently_used(), Some(b"b".to_vec()));
    assert_eq!(lru.get_least_recently_used(), Some(b"a".to_vec()));
    // Serving rotates: "b" is oldest again.
    assert_eq!(lru.get_least_recently_used(), Some(b"b".to_vec()));
}

#[test]
fn lru_is_empty_at_the_start() {
    let mut lru = LruList::new();
    assert_eq!(lru.get_least_recently_used(), None);
}

#[test]
fn enqueue_and_collect_tasks() {
    let mut manager = FlushManager::new();
    manager.enqueue_task(b"p1".to_vec(), Task { id: 1, partition: b"p1".to_vec() });
    manager.enqueue_task(b"p1".to_vec(), Task { id: 2, partition: b"p1".to_vec() });
    manager.enqueue_task(b"p2".to_vec(), Task { id: 3, partition: b"p2".to_vec() });
    let collected = manager.collect_tasks(2);
    // The first queue fills the limit.
    assert_eq!(collected.len(), 1);
    assert_eq!(collected[0].0, b"p1".to_vec());
    assert_eq!(collected[0].1.len(), 2);
    assert_eq!(collected[0].1[0].id, 1);
    assert_eq!(collected[0].1[1].id, 2);
    let all = manager.collect_tasks(10);
    assert_eq!(all.len(), 2);
    assert_eq!(all[1].0, b"p2".to_vec());
    assert_eq!(all[1].1.len(), 1);
}

#[test]
fn dequeue_drops_served_tasks_and_refreshes_fairness() {
    let mut manager = FlushManager::new();
    manager.enqueue_task(b"p1".to_vec(), Task { id: 1, partition: b"p1".to_vec() });
    manager.enqueue_task(b"p1".to_vec(), Task { id: 2, partition: b"p1".to_vec() });
    manager.dequeue_tasks(b"p1".to_vec(), 1);
    let rest = manager.collect_tasks(10);
    assert_eq!(rest.len(), 1);
    assert_eq!(rest[0].1.len(), 1);
    assert_eq!(rest[0].1[0].id, 2);
    // The served partition moved to the back of the fairness list.
    assert_eq!(
        manager.flush_least_recently_used_partition(),
        Some(b"p1".to_vec())
    );
}

#[test]
fn config_defaults_and_builders() {
    let config = Config::new(String::from("db"));
    assert_eq!(config.block_cache_capacity, 16 * 1024 * 1024);
    assert_eq!(config.max_journaling_size_in_bytes, 128 * 1024 * 1024);
    assert_eq!(config.max_write_buffer_size_in_bytes, 64 * 1024 * 1024);
    assert_eq!(config.fsync_ms, Some(1000));
    let config = config
        .block_cache(1024)
        .max_journaling_size(32 * 1024 * 1024)
        .max_write_buffer_size(8 * 1024 * 1024)
        .fsync_ms(None);
    assert_eq!(config.block_cache_capacity, 1024);
    assert_eq!(config.max_journaling_size_in_bytes, 32 * 1024 * 1024);
    assert_eq!(config.max_write_buffer_size_in_bytes, 8 * 1024 * 1024);
    assert_eq!(config.fsync_ms, None);
}
