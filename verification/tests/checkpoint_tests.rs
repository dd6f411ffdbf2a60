use wal_journal::checkpoint::{Checkpoint, CheckpointManager};
use wal_journal::entry::Entry;

#[test]
fn test_create_checkpoint() {
    let mut mgr = CheckpointManager::new();
    let cp = mgr.create(10, 5);
    assert_eq!(cp.sequence(), 10);
    assert_eq!(cp.entry_count(), 5);
}

#[test]
fn test_last_checkpoint() {
    let mut mgr = CheckpointManager::new();
    assert!(mgr.last().is_none());
    mgr.create(5, 3);
    assert_eq!(mgr.last().unwrap().sequence(), 5);
    mgr.create(10, 6);
    assert_eq!(mgr.last().unwrap().sequence(), 10);
}

#[test]
fn test_checkpoint_count() {
    let mut mgr = CheckpointManager::new();
    mgr.create(1, 1);
    mgr.create(2, 2);
    mgr.create(3, 3);
    assert_eq!(mgr.count(), 3);
}

#[test]
fn test_truncation_point() {
    let mut mgr = CheckpointManager::new();
    assert_eq!(mgr.truncation_point(), 0);
    mgr.create(10, 5);
    assert_eq!(mgr.truncation_point(), 5);
}

#[test]
fn test_is_before_checkpoint() {
    let mut mgr = CheckpointManager::new();
    mgr.create(10, 5);
    let entry = Entry::new_data(5, vec![]);
    assert!(mgr.is_before_checkpoint(&entry));
    let entry2 = Entry::new_data(15, vec![]);
    assert!(!mgr.is_before_checkpoint(&entry2));
}

#[test]
fn checkpoint_history_keeps_order() {
    let mut mgr = CheckpointManager::default();
    assert!(mgr.all().is_empty());
    mgr.create(3, 1);
    mgr.create(7, 4);
    let all = mgr.all();
    assert_eq!(all.len(), 2);
    assert_eq!(all[0].sequence, 3);
    assert_eq!(all[1].sequence, 7);
    assert_eq!(all[1].entry_count, 4);
}

#[test]
fn no_checkpoint_means_nothing_before_it() {
    let mgr = CheckpointManager::new();
    let entry = Entry::new_data(0, vec![]);
    assert!(!mgr.is_before_checkpoint(&entry));
}

#[test]
fn entry_at_checkpoint_sequence_is_not_before_it() {
    let mut mgr = CheckpointManager::new();
    mgr.create(10, 5);
    let entry = Entry::new_checkpoint(10);
    assert!(!mgr.is_before_checkpoint(&entry));
}

#[test]
fn checkpoint_new_and_clone() {
    let cp = Checkpoint::new(4, 2);
    let copy = cp.clone();
    assert_eq!(copy.sequence(), 4);
    assert_eq!(copy.entry_count(), 2);
    let mut mgr = CheckpointManager::new();
    mgr.create(9, 8);
    let mgr2 = mgr.clone();
    assert_eq!(mgr2.count(), 1);
    assert_eq!(mgr2.last().unwrap().sequence(), 9);
    assert_eq!(mgr2.truncation_point(), 8);
}
