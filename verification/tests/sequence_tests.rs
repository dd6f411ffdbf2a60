use wal_journal::sequence::SequenceGenerator;

#[test]
fn test_sequential() {
    let mut gen = SequenceGenerator::new();
    assert_eq!(gen.next(), 0);
    assert_eq!(gen.next(), 1);
    assert_eq!(gen.next(), 2);
}

#[test]
fn test_starting_at() {
    let mut gen = SequenceGenerator::starting_at(100);
    assert_eq!(gen.next(), 100);
    assert_eq!(gen.next(), 101);
}

#[test]
fn test_current() {
    let mut gen = SequenceGenerator::new();
    gen.next();
    gen.next();
    assert_eq!(gen.current(), 2);
}

#[test]
fn sequence_test_reset() {
    let mut gen = SequenceGenerator::new();
    gen.next();
    gen.next();
    gen.reset_to(50);
    assert_eq!(gen.next(), 50);
}

#[test]
fn test_peek() {
    let mut gen = SequenceGenerator::new();
    assert_eq!(gen.peek(), 0);
    gen.next();
    assert_eq!(gen.peek(), 1);
    assert_eq!(gen.next(), 1);
}

#[test]
fn test_default() {
    let gen = SequenceGenerator::default();
    assert_eq!(gen.current(), 0);
}

#[test]
fn generator_reaches_last_value() {
    let mut gen = SequenceGenerator::starting_at(u64::MAX - 1);
    assert_eq!(gen.next(), u64::MAX - 1);
    assert_eq!(gen.peek(), u64::MAX);
    assert_eq!(gen.current(), u64::MAX);
}
