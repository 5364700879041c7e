use pty_manager::manager::{CreateAction, PtyManager};
use pty_manager::messages::PtySize;
use pty_manager::MAX_POOL_SIZE;

fn warm(mgr: &mut PtyManager, count: usize) -> Vec<usize> {
    let quota = mgr.spawn_quota(count);
    let mut handles = Vec::new();
    for _ in 0..quota {
        handles.push(mgr.admit_to_pool().expect("pool has room"));
    }
    handles
}

#[test]
fn new_manager_is_empty() {
    let mgr = PtyManager::new();
    assert_eq!(mgr.pool_count(), 0);
    assert_eq!(mgr.session_count(), 0);
}

#[test]
fn pool_never_exceeds_bound() {
    let mut mgr = PtyManager::new();
    for _ in 0..MAX_POOL_SIZE {
        assert!(mgr.admit_to_pool().is_some());
    }
    assert_eq!(mgr.pool_count(), MAX_POOL_SIZE);
    assert!(mgr.admit_to_pool().is_none());
    assert_eq!(mgr.pool_count(), MAX_POOL_SIZE);
}

#[test]
fn spawn_quota_respects_bound() {
    let mut mgr = PtyManager::new();
    assert_eq!(mgr.spawn_quota(5), MAX_POOL_SIZE);
    assert_eq!(mgr.spawn_quota(2), 2);
    warm(&mut mgr, 1);
    assert_eq!(mgr.spawn_quota(5), MAX_POOL_SIZE - 1);
    warm(&mut mgr, MAX_POOL_SIZE);
    assert_eq!(mgr.spawn_quota(1), 0);
}

#[test]
fn refresh_drains_silently_and_rewarms() {
    let mut mgr = PtyManager::new();
    warm(&mut mgr, 3);
    let drained = mgr.drain_pool();
    assert_eq!(drained.len(), 3);
    assert_eq!(mgr.pool_count(), 0);
    // The drained readers hit end of file once their children are killed:
    // none of them was ever assigned, so no exit event fires.
    for h in drained {
        assert!(mgr.reader_eof(h, Some(0)).is_none());
    }
    warm(&mut mgr, MAX_POOL_SIZE);
    assert_eq!(mgr.pool_count(), 3);
}

#[test]
fn create_on_empty_pool_asks_for_fresh_spawn() {
    let mut mgr = PtyManager::new();
    let action = mgr.create_terminal(&"t3".to_string(), &Some("/tmp".to_string()), 100, 30);
    match action {
        CreateAction::SpawnFresh { size } => {
            assert_eq!(size, PtySize { rows: 30, cols: 100, pixel_width: 0, pixel_height: 0 });
        }
        CreateAction::PoolHit { .. } => panic!("pool was empty"),
    }
    // No session yet: the host has not spawned.
    assert!(mgr.write_terminal(&"t3".to_string()).is_err());
    let h = mgr.register_fresh(&"t3".to_string());
    assert_eq!(mgr.write_terminal(&"t3".to_string()).unwrap(), h);
    assert_eq!(mgr.session_count(), 1);
}

#[test]
fn pool_hit_without_cwd_replays_buffer() {
    let mut mgr = PtyManager::new();
    let handles = warm(&mut mgr, 1);
    let h = handles[0];
    // The pooled shell prints its prompt; the reader buffers it.
    assert!(mgr.route_output(h, b"prompt$ ").is_none());
    let action = mgr.create_terminal(&"t1".to_string(), &None, 120, 40);
    match action {
        CreateAction::PoolHit { handle, size, replay, inject } => {
            assert_eq!(handle, h);
            assert_eq!(size, PtySize { rows: 40, cols: 120, pixel_width: 0, pixel_height: 0 });
            let out = replay.expect("buffered prompt is replayed");
            assert_eq!(out.terminal_id, "t1");
            assert_eq!(out.data, "prompt$ ");
            assert!(inject.is_none());
        }
        CreateAction::SpawnFresh { .. } => panic!("pool had an entry"),
    }
    assert_eq!(mgr.pool_count(), 0);
    assert_eq!(mgr.write_terminal(&"t1".to_string()).unwrap(), h);
    // Later output streams to the assigned terminal.
    let out = mgr.route_output(h, b"more").expect("assigned PTY streams");
    assert_eq!(out.terminal_id, "t1");
    assert_eq!(out.data, "more");
}

#[test]
fn pool_hit_with_empty_buffer_replays_nothing() {
    let mut mgr = PtyManager::new();
    warm(&mut mgr, 1);
    let action = mgr.create_terminal(&"t1".to_string(), &None, 80, 24);
    match action {
        CreateAction::PoolHit { replay, inject, .. } => {
            assert!(replay.is_none());
            assert!(inject.is_none());
        }
        CreateAction::SpawnFresh { .. } => panic!("pool had an entry"),
    }
}

#[test]
fn pool_hit_with_cwd_discards_buffer_and_injects_cd() {
    let mut mgr = PtyManager::new();
    let handles = warm(&mut mgr, 1);
    let h = handles[0];
    assert!(mgr.route_output(h, b"old prompt$ ").is_none());
    let action = mgr.create_terminal(&"t2".to_string(), &Some("/tmp/a b".to_string()), 80, 24);
    match action {
        CreateAction::PoolHit { handle, replay, inject, .. } => {
            assert_eq!(handle, h);
            assert!(replay.is_none());
            assert_eq!(inject.unwrap(), b" cd '/tmp/a b' && clear\n".to_vec());
        }
        CreateAction::SpawnFresh { .. } => panic!("pool had an entry"),
    }
}

#[test]
fn pool_hit_cwd_with_single_quote_is_escaped() {
    let mut mgr = PtyManager::new();
    warm(&mut mgr, 1);
    let action = mgr.create_terminal(&"t2".to_string(), &Some("/tmp/x'y".to_string()), 80, 24);
    match action {
        CreateAction::PoolHit { inject, .. } => {
            assert_eq!(inject.unwrap(), b" cd '/tmp/x'\\''y' && clear\n".to_vec());
        }
        CreateAction::SpawnFresh { .. } => panic!("pool had an entry"),
    }
}

#[test]
fn empty_cwd_counts_as_none() {
    let mut mgr = PtyManager::new();
    let handles = warm(&mut mgr, 1);
    let h = handles[0];
    assert!(mgr.route_output(h, b"$ ").is_none());
    let action = mgr.create_terminal(&"t1".to_string(), &Some(String::new()), 80, 24);
    match action {
        CreateAction::PoolHit { replay, inject, .. } => {
            assert_eq!(replay.unwrap().data, "$ ");
            assert!(inject.is_none());
        }
        CreateAction::SpawnFresh { .. } => panic!("pool had an entry"),
    }
}

#[test]
fn replay_decodes_malformed_bytes_lossily() {
    let mut mgr = PtyManager::new();
    let handles = warm(&mut mgr, 1);
    let h = handles[0];
    // A lone 0xFF can never complete a character; at the buffer stage it is
    // kept, and the replay decodes it to the replacement character.
    assert!(mgr.route_output(h, &[0xFF, b'a']).is_none());
    let action = mgr.create_terminal(&"t1".to_string(), &None, 80, 24);
    match action {
        CreateAction::PoolHit { replay, .. } => {
            assert_eq!(replay.unwrap().data, "\u{FFFD}a");
        }
        CreateAction::SpawnFresh { .. } => panic!("pool had an entry"),
    }
}

#[test]
fn close_terminal_removes_session_and_is_idempotent() {
    let mut mgr = PtyManager::new();
    warm(&mut mgr, 1);
    let action = mgr.create_terminal(&"t1".to_string(), &None, 80, 24);
    let h = match action {
        CreateAction::PoolHit { handle, .. } => handle,
        CreateAction::SpawnFresh { .. } => panic!("pool had an entry"),
    };
    assert_eq!(mgr.close_terminal(&"t1".to_string()), Some(h));
    assert!(mgr.write_terminal(&"t1".to_string()).is_err());
    assert_eq!(mgr.session_count(), 0);
    // A second close finds nothing and still succeeds.
    assert_eq!(mgr.close_terminal(&"t1".to_string()), None);
}

#[test]
fn exit_event_fires_once_for_assigned_pty() {
    let mut mgr = PtyManager::new();
    let _ = mgr.create_terminal(&"t5".to_string(), &None, 80, 24);
    let h = mgr.register_fresh(&"t5".to_string());
    let payload = mgr.reader_eof(h, Some(0)).expect("assigned PTY owes an exit event");
    assert_eq!(payload.terminal_id, "t5");
    assert_eq!(payload.exit_code, Some(0));
    // The slot is retired: no second event for the same PTY.
    assert!(mgr.reader_eof(h, Some(0)).is_none());
}

#[test]
fn exit_event_carries_missing_exit_code() {
    let mut mgr = PtyManager::new();
    let _ = mgr.create_terminal(&"t6".to_string(), &None, 80, 24);
    let h = mgr.register_fresh(&"t6".to_string());
    let payload = mgr.reader_eof(h, None).unwrap();
    assert_eq!(payload.terminal_id, "t6");
    assert_eq!(payload.exit_code, None);
}

#[test]
fn pooled_pty_death_is_silent_and_leaves_pool() {
    let mut mgr = PtyManager::new();
    let handles = warm(&mut mgr, 2);
    assert!(mgr.reader_eof(handles[0], Some(1)).is_none());
    assert_eq!(mgr.pool_count(), 1);
}

#[test]
fn exit_event_still_fires_after_close() {
    // Closing kills the child; the reader then sees end of file and the
    // assigned id still earns the terminal its exit event.
    let mut mgr = PtyManager::new();
    let _ = mgr.create_terminal(&"t7".to_string(), &None, 80, 24);
    let h = mgr.register_fresh(&"t7".to_string());
    assert_eq!(mgr.close_terminal(&"t7".to_string()), Some(h));
    let payload = mgr.reader_eof(h, Some(9)).unwrap();
    assert_eq!(payload.terminal_id, "t7");
    assert_eq!(payload.exit_code, Some(9));
}

#[test]
fn not_found_error_message() {
    let mgr = PtyManager::new();
    let err = mgr.write_terminal(&"tx".to_string()).unwrap_err();
    assert_eq!(err.message, "Terminal tx not found");
    assert_eq!(mgr.cwd_probe_target(&"tx".to_string()).unwrap_err().message, "Terminal tx not found");
}

#[test]
fn resize_reports_handle_and_size() {
    let mut mgr = PtyManager::new();
    warm(&mut mgr, 1);
    let action = mgr.create_terminal(&"t1".to_string(), &None, 80, 24);
    let h = match action {
        CreateAction::PoolHit { handle, .. } => handle,
        CreateAction::SpawnFresh { .. } => panic!("pool had an entry"),
    };
    let (rh, size) = mgr.resize_terminal(&"t1".to_string(), 132, 50).unwrap();
    assert_eq!(rh, h);
    assert_eq!(size, PtySize { rows: 50, cols: 132, pixel_width: 0, pixel_height: 0 });
    assert!(mgr.resize_terminal(&"nope".to_string(), 1, 1).is_err());
}

#[test]
fn pool_pops_most_recent_first() {
    let mut mgr = PtyManager::new();
    let handles = warm(&mut mgr, 3);
    let action = mgr.create_terminal(&"t1".to_string(), &None, 80, 24);
    match action {
        CreateAction::PoolHit { handle, .. } => assert_eq!(handle, handles[2]),
        CreateAction::SpawnFresh { .. } => panic!("pool had entries"),
    }
    assert_eq!(mgr.pool_count(), 2);
}

#[test]
fn duplicate_id_overwrites_session() {
    let mut mgr = PtyManager::new();
    warm(&mut mgr, 2);
    let first = match mgr.create_terminal(&"t1".to_string(), &None, 80, 24) {
        CreateAction::PoolHit { handle, .. } => handle,
        CreateAction::SpawnFresh { .. } => panic!("pool had entries"),
    };
    let second = match mgr.create_terminal(&"t1".to_string(), &None, 80, 24) {
        CreateAction::PoolHit { handle, .. } => handle,
        CreateAction::SpawnFresh { .. } => panic!("pool had entries"),
    };
    assert_ne!(first, second);
    assert_eq!(mgr.session_count(), 1);
    assert_eq!(mgr.write_terminal(&"t1".to_string()).unwrap(), second);
}

#[test]
fn cwd_probe_target_returns_session_handle() {
    let mut mgr = PtyManager::new();
    let _ = mgr.create_terminal(&"t9".to_string(), &None, 80, 24);
    let h = mgr.register_fresh(&"t9".to_string());
    assert_eq!(mgr.cwd_probe_target(&"t9".to_string()).unwrap(), h);
}
