use wal_journal::entry::EntryType;
use wal_journal::Wal;

#[test]
fn test_append() {
    let mut wal = Wal::new();
    let seq = wal.append(b"hello");
    assert_eq!(seq, 0);
    assert_eq!(wal.len(), 1);
}

#[test]
fn test_multiple_appends() {
    let mut wal = Wal::new();
    wal.append(b"a");
    wal.append(b"b");
    wal.append(b"c");
    assert_eq!(wal.len(), 3);
    assert_eq!(wal.entries()[0].sequence, 0);
    assert_eq!(wal.entries()[2].sequence, 2);
}

#[test]
fn test_checkpoint_and_truncate() {
    let mut wal = Wal::new();
    wal.append(b"data1");
    wal.append(b"data2");
    wal.checkpoint();
    wal.append(b"data3");
    assert_eq!(wal.len(), 4); // 2 data + 1 checkpoint + 1 data
    wal.truncate_before_checkpoint();
    assert!(wal.len() <= 2);
}

#[test]
fn test_recovery() {
    let mut wal = Wal::new();
    wal.append(b"tx1");
    wal.append(b"tx2");
    let result = wal.recover();
    assert_eq!(result.len(), 2);
    assert!(result.clean);
}

#[test]
fn test_recovery_after_checkpoint() {
    let mut wal = Wal::new();
    wal.append(b"old_data");
    wal.checkpoint();
    wal.append(b"new_data");
    let result = wal.recover();
    // Only entries after checkpoint should be recovered
    assert!(result.len() <= 1);
}

#[test]
fn test_sequence_ordering() {
    let mut wal = Wal::new();
    let s1 = wal.append(b"a");
    let s2 = wal.append(b"b");
    let s3 = wal.checkpoint();
    let s4 = wal.append(b"c");
    assert!(s1 < s2);
    assert!(s2 < s3);
    assert!(s3 < s4);
}

#[test]
fn test_entries_of_type() {
    let mut wal = Wal::new();
    wal.append(b"data");
    wal.append_commit();
    wal.checkpoint();
    let data_entries = wal.entries_of_type(EntryType::Data);
    assert_eq!(data_entries.len(), 1);
    let commits = wal.entries_of_type(EntryType::Commit);
    assert_eq!(commits.len(), 1);
}

#[test]
fn test_range_query() {
    let mut wal = Wal::new();
    for i in 0..10 {
        wal.append(format!("data_{}", i).as_bytes());
    }
    let range = wal.range(3, 6);
    assert_eq!(range.len(), 4);
}

#[test]
fn test_total_data_size() {
    let mut wal = Wal::new();
    wal.append(b"hello"); // 5 bytes
    wal.append(b"world"); // 5 bytes
    assert_eq!(wal.total_data_size(), 10);
}

#[test]
fn log_test_reset() {
    let mut wal = Wal::new();
    wal.append(b"data");
    wal.checkpoint();
    wal.reset();
    assert!(wal.is_empty());
    assert_eq!(wal.current_sequence(), 0);
}

#[test]
fn test_empty_wal() {
    let wal = Wal::new();
    assert!(wal.is_empty());
    assert_eq!(wal.current_sequence(), 0);
}

#[test]
fn truncation_leaves_exactly_what_recovery_replays() {
    let mut wal = Wal::new();
    wal.append(b"data1");
    wal.append(b"data2");
    wal.checkpoint();
    wal.append(b"data3");
    let before: Vec<u64> = wal.recover().recovered_entries.iter().map(|e| e.sequence).collect();
    wal.truncate_before_checkpoint();
    let after: Vec<u64> = wal.recover().recovered_entries.iter().map(|e| e.sequence).collect();
    let remaining: Vec<u64> = wal.entries().iter().map(|e| e.sequence).collect();
    assert_eq!(before, vec![3]);
    assert_eq!(after, vec![3]);
    assert_eq!(remaining, vec![3]);
    assert_eq!(wal.current_sequence(), 4);
}

#[test]
fn truncating_twice_keeps_entries_after_the_checkpoint() {
    let mut wal = Wal::new();
    wal.append(b"a");
    wal.append(b"b");
    wal.checkpoint();
    wal.append(b"c");
    wal.append(b"d");
    wal.append(b"e");
    wal.truncate_before_checkpoint();
    let first: Vec<u64> = wal.entries().iter().map(|e| e.sequence).collect();
    assert_eq!(first, vec![3, 4, 5]);
    wal.truncate_before_checkpoint();
    let second: Vec<u64> = wal.entries().iter().map(|e| e.sequence).collect();
    assert_eq!(wal.len(), 3);
    assert_eq!(second, vec![3, 4, 5]);
}

#[test]
fn truncating_after_earlier_truncation_keeps_later_entries() {
    let mut wal = Wal::new();
    wal.append(b"a");
    wal.checkpoint();
    wal.truncate_before_checkpoint();
    assert!(wal.is_empty());
    wal.append(b"b");
    wal.append(b"c");
    wal.append(b"d");
    wal.truncate_before_checkpoint();
    let remaining: Vec<u64> = wal.entries().iter().map(|e| e.sequence).collect();
    assert_eq!(remaining, vec![2, 3, 4]);
}

#[test]
fn data_size_is_payload_of_data_entries() {
    let mut wal = Wal::new();
    wal.append(b"ab");
    wal.append_commit();
    wal.append(b"cde");
    wal.checkpoint();
    let data_total: usize = wal.entries_of_type(EntryType::Data).iter().map(|e| e.size()).sum();
    assert_eq!(wal.total_data_size(), 5);
    assert_eq!(data_total, 5);
}

#[test]
fn truncate_without_checkpoint_keeps_everything() {
    let mut wal = Wal::default();
    wal.append(b"x");
    wal.append(b"y");
    wal.truncate_before_checkpoint();
    assert_eq!(wal.len(), 2);
}

#[test]
fn recovery_of_wal_is_clean_and_ordered() {
    let mut wal = Wal::new();
    wal.append(b"a");
    wal.append_commit();
    wal.checkpoint();
    wal.append(b"b");
    wal.append_commit();
    let result = wal.recover();
    assert!(result.clean);
    assert_eq!(result.replayed_count, 2);
    assert_eq!(result.last_sequence, 4);
    assert_eq!(result.recovered_entries[0].sequence, 3);
    assert_eq!(result.recovered_entries[0].data, b"b".to_vec());
    assert!(result.recovered_entries[1].is_commit());
}

#[test]
fn wal_entries_carry_consecutive_numbers() {
    let mut wal = Wal::new();
    wal.append(b"a");
    wal.append_commit();
    wal.checkpoint();
    let kinds: Vec<EntryType> = wal.entries().iter().map(|e| e.entry_type).collect();
    assert_eq!(kinds, vec![EntryType::Data, EntryType::Commit, EntryType::Checkpoint]);
    for (i, e) in wal.entries().iter().enumerate() {
        assert_eq!(e.sequence, i as u64);
    }
    assert_eq!(wal.current_sequence(), 3);
}

#[test]
fn range_bounds_are_inclusive_and_may_be_empty() {
    let mut wal = Wal::new();
    for _ in 0..5 {
        wal.append(b"z");
    }
    assert_eq!(wal.range(4, 4).len(), 1);
    assert_eq!(wal.range(3, 2).len(), 0);
    assert_eq!(wal.range(0, u64::MAX).len(), 5);
}

#[test]
fn total_data_size_counts_only_payloads() {
    let mut wal = Wal::new();
    assert_eq!(wal.total_data_size(), 0);
    wal.append(b"abc");
    wal.append_commit();
    wal.checkpoint();
    assert_eq!(wal.total_data_size(), 3);
}

#[test]
fn wal_clone_is_independent() {
    let mut wal = Wal::new();
    wal.append(b"a");
    let copy = wal.clone();
    wal.append(b"b");
    assert_eq!(copy.len(), 1);
    assert_eq!(copy.current_sequence(), 1);
    assert_eq!(wal.len(), 2);
}
