use wal_journal::entry::{Entry, EntryType};

#[test]
fn test_data_entry() {
    let entry = Entry::new_data(1, b"hello".to_vec());
    assert!(entry.is_data());
    assert!(!entry.is_checkpoint());
    assert_eq!(entry.sequence(), 1);
    assert_eq!(entry.data(), b"hello");
}

#[test]
fn test_checkpoint_entry() {
    let entry = Entry::new_checkpoint(5);
    assert!(entry.is_checkpoint());
    assert!(!entry.is_data());
    assert_eq!(entry.size(), 0);
}

#[test]
fn test_commit_entry() {
    let entry = Entry::new_commit(3);
    assert!(entry.is_commit());
    assert_eq!(entry.sequence(), 3);
}

#[test]
fn test_entry_size() {
    let entry = Entry::new_data(1, vec![0u8; 100]);
    assert_eq!(entry.size(), 100);
}

#[test]
fn entry_kinds_are_exclusive() {
    let commit = Entry::new_commit(7);
    assert!(!commit.is_data());
    assert!(!commit.is_checkpoint());
    assert_eq!(commit.entry_type, EntryType::Commit);
    assert!(commit.data().is_empty());
    let data = Entry::new_data(8, vec![1, 2, 3]);
    assert!(!data.is_commit());
    assert_eq!(data.entry_type, EntryType::Data);
}

#[test]
fn entry_clone_keeps_contents() {
    let entry = Entry::new_data(42, b"payload".to_vec());
    let copy = entry.clone();
    assert_eq!(copy.sequence, 42);
    assert_eq!(copy.entry_type, EntryType::Data);
    assert_eq!(copy.data, b"payload".to_vec());
}
