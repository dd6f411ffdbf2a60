# wal_journal

A write-ahead log with checkpointing and crash recovery, verified with Verus.

- `sequence`: the monotonic sequence number generator.
- `entry`: log entries (data, checkpoint and commit markers) and their values.
- `checkpoint`: checkpoints and the manager that keeps their history.
- `recovery`: recovery of the entries after the last checkpoint (filtered,
  stably sorted by sequence number, checked for gaps) and replay helpers.
- `log`: the `Wal` itself, its abstract state `WalView`, the invariant every
  operation keeps, and the laws that relate checkpointing, truncation and
  recovery.
