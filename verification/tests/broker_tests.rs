use mora::channels::ChannelManager;
use mora::clock::Clock;
use mora::codec::{encode_item_record, encode_tombstone_record};
use mora::config::{LogLevel, MoraConfig};
use mora::connections::Connections;
use mora::errors::{MoraError, StorageError};
use mora::events::{schedule_event, RecurringOptions, ScheduleRule};
use mora::models::{cluster_status, ClusterStatus};
use mora::pool::QueuePool;
use mora::storage::{Storage, WalFileStorage};

fn fresh_pool() -> QueuePool {
    QueuePool::new(WalFileStorage::new()).unwrap()
}

/// Rebuilds a pool from the durable logs of the given queues, standing for
/// a process restart over the same WAL directory.
fn restart(pool: &QueuePool, ids: &[&str]) -> QueuePool {
    let mut files: Vec<(String, Vec<u8>)> = Vec::new();
    for id in ids {
        files.push((id.to_string(), pool.container_log(&id.to_string()).unwrap()));
    }
    QueuePool::new(WalFileStorage::load(files).unwrap()).unwrap()
}

// =============================================================================
// Record framing and checksums
// =============================================================================

#[test]
fn item_record_frame_is_bit_exact() {
    let key: u128 = 0x0102030405060708090a0b0c0d0e0f10;
    let payload = vec![0xde, 0xad, 0xbe, 0xef];
    let record = encode_item_record(key, &payload);

    let mut expected: Vec<u8> = Vec::new();
    expected.extend_from_slice(&key.to_le_bytes());
    expected.push(1);
    expected.extend_from_slice(&(payload.len() as u64).to_le_bytes());
    expected.extend_from_slice(&payload);
    let crc = crc32fast::hash(&expected);
    expected.extend_from_slice(&crc.to_le_bytes());

    assert_eq!(record, expected);
}

#[test]
fn tombstone_record_frame_is_bit_exact() {
    let key: u128 = 7;
    let record = encode_tombstone_record(key);

    let mut expected: Vec<u8> = Vec::new();
    expected.extend_from_slice(&key.to_le_bytes());
    expected.push(0);
    let crc = crc32fast::hash(&expected);
    expected.extend_from_slice(&crc.to_le_bytes());

    assert_eq!(record, expected);
}

#[test]
fn stored_log_matches_hand_built_frames() {
    let mut storage = WalFileStorage::new();
    storage.create_container(&"q".to_string()).unwrap();
    storage.store_item(&"q".to_string(), &42, &vec![9, 9]).unwrap();
    storage.delete_item(&"q".to_string(), &42).unwrap();

    let mut expected = encode_item_record(42, &vec![9, 9]);
    expected.extend_from_slice(&encode_tombstone_record(42));
    assert_eq!(storage.container_log(&"q".to_string()).unwrap(), expected);
}

#[test]
fn truncated_trailing_record_fails_replay() {
    let mut storage = WalFileStorage::new();
    storage.create_container(&"q".to_string()).unwrap();
    storage.store_item(&"q".to_string(), &1, &vec![1, 2, 3]).unwrap();
    storage.store_item(&"q".to_string(), &2, &vec![4, 5, 6]).unwrap();

    let mut bytes = storage.container_log(&"q".to_string()).unwrap();
    bytes.pop();

    let result = WalFileStorage::load(vec![("q".to_string(), bytes)]);
    assert!(matches!(
        result.as_ref().err(),
        Some(MoraError::StorageError(StorageError::CorruptedData(_)))
    ));
}

#[test]
fn corrupted_checksum_fails_replay() {
    let mut storage = WalFileStorage::new();
    storage.create_container(&"q".to_string()).unwrap();
    storage.store_item(&"q".to_string(), &1, &vec![1, 2, 3]).unwrap();

    let mut bytes = storage.container_log(&"q".to_string()).unwrap();
    let last = bytes.len() - 1;
    bytes[last] = bytes[last].wrapping_add(1);

    let result = WalFileStorage::load(vec![("q".to_string(), bytes)]);
    assert!(matches!(
        result.as_ref().err(),
        Some(MoraError::StorageError(StorageError::CorruptedData(_)))
    ));
}

#[test]
fn create_container_fails_on_loaded_file() {
    let mut storage = WalFileStorage::new();
    storage.create_container(&"q".to_string()).unwrap();
    let bytes = storage.container_log(&"q".to_string()).unwrap();

    // The file exists on disk; after a load it backs a container, and a
    // second creation under the same name is refused.
    let mut reloaded = WalFileStorage::load(vec![("q".to_string(), bytes)]).unwrap();
    let result = reloaded.create_container(&"q".to_string());
    assert!(matches!(
        result.unwrap_err(),
        MoraError::StorageError(StorageError::ContainerAlreadyExists(_))
    ));
}

// =============================================================================
// Create, enqueue, read through a channel
// =============================================================================

#[test]
fn create_enqueue_read_keeps_event_on_peek() {
    let mut pool = fresh_pool();
    pool.create_queue("q".to_string()).unwrap();
    pool.enqueue(&"q".to_string(), 100, "hi".as_bytes().to_vec()).unwrap();

    let mut manager = ChannelManager::new();
    let channel = manager
        .create_channel(&pool, vec!["q".to_string()], 10, 0)
        .unwrap();
    let id = channel.id().to_string();

    let events = manager.read_events(&mut pool, &id, 100, false).unwrap();
    assert_eq!(events.len(), 1);
    assert_eq!(events[0].timestamp, 100);
    assert_eq!(events[0].queue_name, "q");
    assert_eq!(events[0].data, "hi".as_bytes().to_vec());

    let again = manager.read_events(&mut pool, &id, 100, false).unwrap();
    assert_eq!(again.len(), 1);
    assert_eq!(again[0].timestamp, 100);
    assert_eq!(again[0].data, "hi".as_bytes().to_vec());
}

#[test]
fn delete_on_read_consumes_event_durably() {
    let mut pool = fresh_pool();
    pool.create_queue("q".to_string()).unwrap();
    pool.enqueue(&"q".to_string(), 100, "hi".as_bytes().to_vec()).unwrap();

    let mut manager = ChannelManager::new();
    let channel = manager
        .create_channel(&pool, vec!["q".to_string()], 10, 0)
        .unwrap();
    let id = channel.id().to_string();

    let events = manager.read_events(&mut pool, &id, 100, true).unwrap();
    assert_eq!(events.len(), 1);

    let second = manager.read_events(&mut pool, &id, 100, true).unwrap();
    assert!(second.is_empty());

    // Restart: the tombstone is durable, so a fresh channel sees nothing.
    let mut pool = restart(&pool, &["q"]);
    let mut manager = ChannelManager::new();
    let channel = manager
        .create_channel(&pool, vec!["q".to_string()], 10, 0)
        .unwrap();
    let id = channel.id().to_string();
    let events = manager.read_events(&mut pool, &id, 100, true).unwrap();
    assert!(events.is_empty());
}

#[test]
fn crash_recovery_restores_queue_in_key_order() {
    let mut pool = fresh_pool();
    pool.create_queue("q".to_string()).unwrap();
    pool.enqueue(&"q".to_string(), 1, "a".as_bytes().to_vec()).unwrap();
    pool.enqueue(&"q".to_string(), 2, "b".as_bytes().to_vec()).unwrap();

    let mut pool = restart(&pool, &["q"]);
    let queues = pool.get_queues(&".*".to_string()).unwrap();
    assert!(queues.contains(&"q".to_string()));

    let mut manager = ChannelManager::new();
    let channel = manager
        .create_channel(&pool, vec!["q".to_string()], 10, 0)
        .unwrap();
    let id = channel.id().to_string();
    let events = manager.read_events(&mut pool, &id, 2, false).unwrap();
    assert_eq!(events.len(), 2);
    assert_eq!(events[0].timestamp, 1);
    assert_eq!(events[0].data, "a".as_bytes().to_vec());
    assert_eq!(events[1].timestamp, 2);
    assert_eq!(events[1].data, "b".as_bytes().to_vec());
}

// =============================================================================
// Compaction under churn
// =============================================================================

#[test]
fn compaction_under_churn_leaves_only_live_items() {
    let mut storage = WalFileStorage::new();
    storage.create_container(&"q".to_string()).unwrap();

    let items: Vec<(u128, Vec<u8>)> = (0..2000).map(|i| (i, vec![i as u8])).collect();
    storage.store_items(&"q".to_string(), &items).unwrap();

    for i in 0..700 {
        storage.delete_item(&"q".to_string(), &i).unwrap();
    }

    // The threshold was crossed, so the log was compacted in line: it now
    // holds exactly one item record per live key and no tombstones.  Each
    // record here is 29 framing bytes plus a single payload byte.
    let log = storage.container_log(&"q".to_string()).unwrap();
    assert_eq!(log.len(), 1300 * 30);

    let reloaded = WalFileStorage::load(vec![("q".to_string(), log)]).unwrap();
    let entries = reloaded.get_all_items(&"q".to_string()).unwrap();
    assert_eq!(entries.len(), 1300);
    for i in 700..2000u128 {
        assert_eq!(entries.get(i), Some(&vec![i as u8]));
    }
}

// =============================================================================
// Channel lifecycle
// =============================================================================

#[test]
fn idle_channel_expires_under_sweeper_ticks() {
    let pool = fresh_pool();
    let mut manager = ChannelManager::new();
    let channel = manager.create_channel(&pool, vec![], 10, 0).unwrap();
    let id = channel.id().to_string();

    for _ in 0..200 {
        manager.tick(1, 100);
    }

    assert!(manager.get_channel(&id).unwrap().is_none());
}

#[test]
fn tick_reports_the_channels_it_closed() {
    let pool = fresh_pool();
    let mut manager = ChannelManager::new();
    let channel = manager.create_channel(&pool, vec![], 10, 0).unwrap();
    let id = channel.id().to_string();

    let closed = manager.tick(101, 100);
    assert_eq!(closed, vec![id.clone()]);
    assert!(manager.get_channel(&id).unwrap().is_none());
}

#[test]
fn read_resets_the_idle_counter() {
    let mut pool = fresh_pool();
    pool.create_queue("q".to_string()).unwrap();
    let mut manager = ChannelManager::new();
    let channel = manager
        .create_channel(&pool, vec!["q".to_string()], 10, 0)
        .unwrap();
    let id = channel.id().to_string();

    manager.tick(60, 100);
    manager.read_events(&mut pool, &id, 0, false).unwrap();
    manager.tick(60, 100);

    // The read in between kept the channel under the timeout.
    let ch = manager.get_channel(&id).unwrap().unwrap();
    assert_eq!(ch.msec_from_last_op(), 60);
}

#[test]
fn missing_queue_fails_channel_creation() {
    let pool = fresh_pool();
    let mut manager = ChannelManager::new();
    let result = manager.create_channel(&pool, vec!["missing".to_string()], 10, 0);
    match result {
        Err(MoraError::QueueNotFound(name)) => assert_eq!(name, "missing"),
        Err(other) => panic!("expected QueueNotFound, got {:?}", other),
        Ok(_) => panic!("expected an error"),
    }
    assert!(manager.get_channels().unwrap().is_empty());
}

#[test]
fn deleting_a_channel_leaves_durable_storage_alone() {
    let mut pool = fresh_pool();
    pool.create_queue("q".to_string()).unwrap();
    pool.enqueue(&"q".to_string(), 1, vec![1]).unwrap();
    let log_before = pool.container_log(&"q".to_string()).unwrap();

    let mut manager = ChannelManager::new();
    let channel = manager
        .create_channel(&pool, vec!["q".to_string()], 10, 0)
        .unwrap();
    let id = channel.id().to_string();
    manager.close_channel(&id);

    assert!(manager.get_channel(&id).unwrap().is_none());
    assert_eq!(pool.container_log(&"q".to_string()).unwrap(), log_before);
}

#[test]
fn channel_ids_are_fresh_and_hyphenated_length() {
    let pool = fresh_pool();
    let mut manager = ChannelManager::new();
    let a = manager.create_channel(&pool, vec![], 10, 0).unwrap();
    let b = manager.create_channel(&pool, vec![], 10, 0).unwrap();
    assert_eq!(a.id().len(), 36);
    assert_eq!(b.id().len(), 36);
    assert_ne!(a.id(), b.id());
}

// =============================================================================
// Queue pool surface
// =============================================================================

#[test]
fn get_queues_filters_by_pattern() {
    let mut pool = fresh_pool();
    pool.create_queue("alpha".to_string()).unwrap();
    pool.create_queue("beta".to_string()).unwrap();

    let all = pool.get_queues(&".*".to_string()).unwrap();
    assert_eq!(all, vec!["alpha".to_string(), "beta".to_string()]);

    let just_a = pool.get_queues(&"^a".to_string()).unwrap();
    assert_eq!(just_a, vec!["alpha".to_string()]);

    let invalid = pool.get_queues(&"[".to_string());
    assert!(matches!(invalid.unwrap_err(), MoraError::GenericError(_)));
}

#[test]
fn create_queue_twice_fails() {
    let mut pool = fresh_pool();
    pool.create_queue("q".to_string()).unwrap();
    let result = pool.create_queue("q".to_string());
    assert!(matches!(result.unwrap_err(), MoraError::QueueAlreadyExists(_)));
}

#[test]
fn delete_queue_unknown_fails() {
    let mut pool = fresh_pool();
    let result = pool.delete_queue("ghost".to_string());
    assert!(matches!(result.unwrap_err(), MoraError::QueueNotFound(_)));
}

#[test]
fn delete_queue_drops_queue_and_container() {
    let mut pool = fresh_pool();
    pool.create_queue("q".to_string()).unwrap();
    let deleted = pool.delete_queue("q".to_string()).unwrap();
    assert_eq!(deleted, "q");
    assert!(!pool.contains_queue(&"q".to_string()));
    assert!(pool.container_log(&"q".to_string()).is_err());
}

#[test]
fn dequeue_until_respects_the_cut() {
    let mut pool = fresh_pool();
    pool.create_queue("q".to_string()).unwrap();
    pool.enqueue(&"q".to_string(), 10, vec![1]).unwrap();
    pool.enqueue(&"q".to_string(), 20, vec![2]).unwrap();
    pool.enqueue(&"q".to_string(), 30, vec![3]).unwrap();

    let drained = pool.dequeue_until(&"q".to_string(), 20, true).unwrap();
    assert_eq!(drained, vec![(10, vec![1]), (20, vec![2])]);

    let rest = pool.dequeue_until(&"q".to_string(), u128::MAX, true).unwrap();
    assert_eq!(rest, vec![(30, vec![3])]);
}

// =============================================================================
// Scheduling
// =============================================================================

#[test]
fn schedule_event_expands_recurring_rules() {
    let mut pool = fresh_pool();
    pool.create_queue("q".to_string()).unwrap();

    let rule = ScheduleRule {
        queue: "q".to_string(),
        schedule_for: 100,
        recurring_options: Some(RecurringOptions { times: 3, delay: 10 }),
    };
    schedule_event(&mut pool, &"x".as_bytes().to_vec(), &rule).unwrap();

    let drained = pool.dequeue_until(&"q".to_string(), 1000, false).unwrap();
    assert_eq!(
        drained,
        vec![
            (100, "x".as_bytes().to_vec()),
            (110, "x".as_bytes().to_vec()),
            (120, "x".as_bytes().to_vec()),
        ]
    );
}

#[test]
fn schedule_event_rejects_missing_queue() {
    let mut pool = fresh_pool();
    let rule = ScheduleRule {
        queue: "missing".to_string(),
        schedule_for: 1,
        recurring_options: None,
    };
    let result = schedule_event(&mut pool, &vec![1], &rule);
    assert!(matches!(result.unwrap_err(), MoraError::QueueNotFound(_)));
}

#[test]
fn schedule_event_rejects_overflowing_series() {
    let mut pool = fresh_pool();
    pool.create_queue("q".to_string()).unwrap();
    let rule = ScheduleRule {
        queue: "q".to_string(),
        schedule_for: u128::MAX - 5,
        recurring_options: Some(RecurringOptions { times: 3, delay: 10 }),
    };
    let result = schedule_event(&mut pool, &vec![1], &rule);
    assert!(matches!(result.unwrap_err(), MoraError::EnqueueError(_)));
    assert!(pool.dequeue_until(&"q".to_string(), u128::MAX, false).unwrap().is_empty());
}

// =============================================================================
// Peripherals
// =============================================================================

#[test]
fn cluster_status_reports_version_and_time() {
    match cluster_status(5) {
        ClusterStatus::Online(d) => {
            assert_eq!(d.version, "1.0.0");
            assert_eq!(d.current_time_in_ns, 5);
        }
        _ => panic!("expected an online status"),
    }
}

#[test]
fn clock_reads_a_nanosecond_timestamp() {
    let a = Clock::now();
    let b = Clock::now();
    assert!(a > 0);
    assert!(b >= a);
}

#[test]
fn config_falls_back_to_defaults() {
    let config = MoraConfig::from_values(None, None, None, None);
    assert_eq!(config.port(), 2626);
    assert_eq!(config.channel_timeout_in_msec(), 3_600_000);
    assert_eq!(config.queue_pool_capacity(), usize::MAX);
    assert_eq!(config.log_level(), LogLevel::Info);

    let config = MoraConfig::from_values(Some(8080), Some(100), Some(7), Some(LogLevel::Warn));
    assert_eq!(config.port(), 8080);
    assert_eq!(config.channel_timeout_in_msec(), 100);
    assert_eq!(config.queue_pool_capacity(), 7);
    assert_eq!(config.log_level(), LogLevel::Warn);
}

#[test]
fn connections_track_and_purge_clients() {
    let mut connections = Connections::default();
    connections.add_client("a".to_string(), "1.2.3.4".to_string(), 1000);
    assert_eq!(connections.clients_connected(), 1);

    connections.purge_old_connections(3000);
    assert_eq!(connections.clients_connected(), 1);

    connections.purge_old_connections(7000);
    assert_eq!(connections.clients_connected(), 0);
}

/// The storage abstraction is usable without naming the engine.
fn store_and_read<S: Storage>(storage: &mut S) -> Vec<u8> {
    storage.create_container(&"generic".to_string()).unwrap();
    storage.store_item(&"generic".to_string(), &9, &vec![1, 2]).unwrap();
    let items = match storage.get_all_items(&"generic".to_string()) {
        Ok(items) => items,
        Err(_) => panic!("container should exist"),
    };
    items.get(9).unwrap().clone()
}

#[test]
fn storage_trait_serves_generic_callers() {
    let mut engine = WalFileStorage::new();
    assert_eq!(store_and_read(&mut engine), vec![1, 2]);
}

#[test]
fn destructive_read_respects_buffer_size_without_losing_messages() {
    let mut pool = fresh_pool();
    pool.create_queue("q".to_string()).unwrap();
    pool.enqueue(&"q".to_string(), 1, vec![1]).unwrap();
    pool.enqueue(&"q".to_string(), 2, vec![2]).unwrap();
    pool.enqueue(&"q".to_string(), 3, vec![3]).unwrap();

    let mut manager = ChannelManager::new();
    let channel = manager
        .create_channel(&pool, vec!["q".to_string()], 2, 0)
        .unwrap();
    let id = channel.id().to_string();

    // The first destructive read hands out the buffer size and no more...
    let first = manager.read_events(&mut pool, &id, 10, true).unwrap();
    assert_eq!(first.len(), 2);
    assert_eq!(first[0].timestamp, 1);
    assert_eq!(first[1].timestamp, 2);

    // ...and what was not returned was neither dropped nor tombstoned.
    let second = manager.read_events(&mut pool, &id, 10, true).unwrap();
    assert_eq!(second.len(), 1);
    assert_eq!(second[0].timestamp, 3);

    let mut pool = restart(&pool, &["q"]);
    let drained = pool.dequeue_until(&"q".to_string(), 10, false).unwrap();
    assert!(drained.is_empty());
}

#[test]
fn multi_queue_read_drains_in_channel_order_within_budget() {
    let mut pool = fresh_pool();
    pool.create_queue("qa".to_string()).unwrap();
    pool.create_queue("qb".to_string()).unwrap();
    pool.enqueue(&"qa".to_string(), 5, vec![50]).unwrap();
    pool.enqueue(&"qb".to_string(), 1, vec![10]).unwrap();
    pool.enqueue(&"qb".to_string(), 2, vec![20]).unwrap();

    let mut manager = ChannelManager::new();
    let channel = manager
        .create_channel(&pool, vec!["qa".to_string(), "qb".to_string()], 2, 0)
        .unwrap();
    let id = channel.id().to_string();

    // Queues are drained in the channel's order, the budget shared across
    // them: qa's whole cut prefix first, then qb's under what remains.
    let events = manager.read_events(&mut pool, &id, 10, true).unwrap();
    assert_eq!(events.len(), 2);
    assert_eq!(events[0].queue_name, "qa");
    assert_eq!(events[0].timestamp, 5);
    assert_eq!(events[1].queue_name, "qb");
    assert_eq!(events[1].timestamp, 1);

    // The entry beyond the budget is still there.
    let rest = manager.read_events(&mut pool, &id, 10, true).unwrap();
    assert_eq!(rest.len(), 1);
    assert_eq!(rest[0].queue_name, "qb");
    assert_eq!(rest[0].timestamp, 2);
}
