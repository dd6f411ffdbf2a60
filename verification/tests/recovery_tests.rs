use wal_journal::checkpoint::CheckpointManager;
use wal_journal::entry::Entry;
use wal_journal::recovery::{
    recover, replay_committed, replay_data_only, simulate_crash, RecoveryResult,
};

#[test]
fn test_recover_clean() {
    let entries = vec![
        Entry::new_data(0, b"a".to_vec()),
        Entry::new_data(1, b"b".to_vec()),
        Entry::new_data(2, b"c".to_vec()),
    ];
    let mgr = CheckpointManager::new();
    let result = recover(entries, &mgr);
    assert!(result.clean);
    assert_eq!(result.len(), 3);
    assert_eq!(result.last_sequence, 2);
}

#[test]
fn test_recover_with_checkpoint() {
    let mut mgr = CheckpointManager::new();
    mgr.create(1, 2); // Checkpoint at sequence 1
    let entries = vec![
        Entry::new_data(0, b"a".to_vec()),
        Entry::new_data(1, b"b".to_vec()),
        Entry::new_data(2, b"c".to_vec()),
    ];
    let result = recover(entries, &mgr);
    // Should only recover entries after checkpoint
    assert_eq!(result.len(), 1);
    assert_eq!(result.recovered_entries[0].data, b"c");
}

#[test]
fn test_recover_with_gap() {
    let entries = vec![
        Entry::new_data(0, b"a".to_vec()),
        Entry::new_data(2, b"c".to_vec()), // Gap at 1
    ];
    let mgr = CheckpointManager::new();
    let result = recover(entries, &mgr);
    assert!(!result.clean);
}

#[test]
fn test_replay_committed() {
    let entries = vec![
        Entry::new_data(0, b"a".to_vec()),
        Entry::new_commit(1),
        Entry::new_data(2, b"b".to_vec()),
        // No commit for entry 2
    ];
    let committed = replay_committed(&entries);
    // Entry 0 has a commit (at seq 1), entry 2 doesn't
    assert!(committed.iter().any(|e| e.sequence == 0));
}

#[test]
fn test_simulate_crash() {
    let entries = vec![
        Entry::new_data(0, b"a".to_vec()),
        Entry::new_data(1, b"b".to_vec()),
        Entry::new_data(2, b"c".to_vec()),
    ];
    let truncated = simulate_crash(&entries, 2);
    assert_eq!(truncated.len(), 2);
}

#[test]
fn test_recover_empty() {
    let mgr = CheckpointManager::new();
    let result = recover(vec![], &mgr);
    assert!(result.is_empty());
    assert!(result.clean);
}

#[test]
fn recover_sorts_out_of_order_entries() {
    let entries = vec![
        Entry::new_data(3, b"d".to_vec()),
        Entry::new_data(1, b"b".to_vec()),
        Entry::new_data(2, b"c".to_vec()),
        Entry::new_data(0, b"a".to_vec()),
    ];
    let result = recover(entries, &CheckpointManager::new());
    let seqs: Vec<u64> = result.recovered_entries.iter().map(|e| e.sequence).collect();
    assert_eq!(seqs, vec![0, 1, 2, 3]);
    assert!(result.clean);
    assert_eq!(result.replayed_count, 4);
    assert_eq!(result.last_sequence, 3);
}

#[test]
fn recover_sort_is_stable_for_equal_sequences() {
    let entries = vec![
        Entry::new_data(5, b"first".to_vec()),
        Entry::new_data(4, b"x".to_vec()),
        Entry::new_data(5, b"second".to_vec()),
    ];
    let result = recover(entries, &CheckpointManager::new());
    assert_eq!(result.recovered_entries[0].sequence, 4);
    assert_eq!(result.recovered_entries[1].data, b"first".to_vec());
    assert_eq!(result.recovered_entries[2].data, b"second".to_vec());
    // two entries with the same number are not continuous
    assert!(!result.clean);
}

#[test]
fn recover_skips_everything_up_to_the_checkpoint() {
    let mut mgr = CheckpointManager::new();
    mgr.create(5, 6);
    let entries = vec![
        Entry::new_data(7, b"late".to_vec()),
        Entry::new_data(5, b"at".to_vec()),
        Entry::new_data(2, b"early".to_vec()),
        Entry::new_data(6, b"next".to_vec()),
    ];
    let result = recover(entries, &mgr);
    let seqs: Vec<u64> = result.recovered_entries.iter().map(|e| e.sequence).collect();
    assert_eq!(seqs, vec![6, 7]);
    assert!(result.clean);
    assert_eq!(result.last_sequence, 7);
}

#[test]
fn recover_with_nothing_after_checkpoint() {
    let mut mgr = CheckpointManager::new();
    mgr.create(9, 10);
    let entries = vec![Entry::new_data(3, b"x".to_vec())];
    let result = recover(entries, &mgr);
    assert!(result.is_empty());
    assert_eq!(result.last_sequence, 0);
    assert_eq!(result.replayed_count, 0);
    assert!(result.clean);
}

#[test]
fn recover_single_entry_at_max_sequence() {
    let entries = vec![Entry::new_data(u64::MAX, b"end".to_vec())];
    let result = recover(entries, &CheckpointManager::new());
    assert!(result.clean);
    assert_eq!(result.last_sequence, u64::MAX);
}

#[test]
fn replay_committed_returns_only_covered_data() {
    let entries = vec![
        Entry::new_data(0, b"a".to_vec()),
        Entry::new_commit(1),
        Entry::new_data(2, b"b".to_vec()),
    ];
    let seqs: Vec<u64> = replay_committed(&entries).iter().map(|e| e.sequence).collect();
    assert_eq!(seqs, vec![0]);
}

#[test]
fn replay_committed_uses_the_latest_commit() {
    let entries = vec![
        Entry::new_data(0, b"a".to_vec()),
        Entry::new_commit(1),
        Entry::new_data(2, b"b".to_vec()),
        Entry::new_checkpoint(3),
        Entry::new_data(4, b"c".to_vec()),
        Entry::new_commit(5),
        Entry::new_data(6, b"d".to_vec()),
    ];
    let seqs: Vec<u64> = replay_committed(&entries).iter().map(|e| e.sequence).collect();
    assert_eq!(seqs, vec![0, 2, 4]);
}

#[test]
fn replay_committed_without_commit_is_empty() {
    let entries = vec![Entry::new_data(0, b"a".to_vec()), Entry::new_checkpoint(1)];
    assert!(replay_committed(&entries).is_empty());
}

#[test]
fn replay_data_only_drops_markers() {
    let entries = vec![
        Entry::new_data(0, b"a".to_vec()),
        Entry::new_commit(1),
        Entry::new_checkpoint(2),
        Entry::new_data(3, b"b".to_vec()),
    ];
    let replayed = replay_data_only(&entries);
    let seqs: Vec<u64> = replayed.iter().map(|e| e.sequence).collect();
    assert_eq!(seqs, vec![0, 3]);
}

#[test]
fn simulate_crash_beyond_length_keeps_all() {
    let entries = vec![Entry::new_data(0, b"a".to_vec()), Entry::new_commit(1)];
    let survivors = simulate_crash(&entries, 10);
    assert_eq!(survivors.len(), 2);
    assert_eq!(survivors[1].sequence, 1);
    assert!(simulate_crash(&entries, 0).is_empty());
}

#[test]
fn recovery_result_new_and_clone() {
    let result = RecoveryResult::new(vec![Entry::new_commit(4)], 1, 4, true);
    let copy = result.clone();
    assert_eq!(copy.len(), 1);
    assert!(!copy.is_empty());
    assert_eq!(copy.replayed_count, 1);
    assert_eq!(copy.last_sequence, 4);
    assert!(copy.clean);
    assert_eq!(copy.recovered_entries[0].sequence, 4);
}

#[test]
fn recover_ignores_input_order() {
    let mut mgr = CheckpointManager::new();
    mgr.create(1, 2);
    let first = vec![
        Entry::new_data(4, b"d".to_vec()),
        Entry::new_data(2, b"b".to_vec()),
        Entry::new_data(0, b"a".to_vec()),
        Entry::new_data(3, b"c".to_vec()),
    ];
    let second = vec![
        Entry::new_data(3, b"c".to_vec()),
        Entry::new_data(0, b"a".to_vec()),
        Entry::new_data(4, b"d".to_vec()),
        Entry::new_data(2, b"b".to_vec()),
    ];
    let a = recover(first, &mgr);
    let b = recover(second, &mgr);
    let sa: Vec<u64> = a.recovered_entries.iter().map(|e| e.sequence).collect();
    let sb: Vec<u64> = b.recovered_entries.iter().map(|e| e.sequence).collect();
    assert_eq!(sa, vec![2, 3, 4]);
    assert_eq!(sa, sb);
    assert_eq!(a.clean, b.clean);
    assert_eq!(a.last_sequence, b.last_sequence);
    assert_eq!(a.replayed_count, b.replayed_count);
}

#[test]
fn recover_with_one_entry_at_max_among_others() {
    let entries = vec![
        Entry::new_data(u64::MAX, b"end".to_vec()),
        Entry::new_data(u64::MAX - 1, b"before".to_vec()),
    ];
    let result = recover(entries, &CheckpointManager::new());
    assert!(result.clean);
    assert_eq!(result.recovered_entries[0].sequence, u64::MAX - 1);
    assert_eq!(result.last_sequence, u64::MAX);
}
