//! Core WAL log operations.

use vstd::prelude::*;

use crate::checkpoint::{Checkpoint, CheckpointManager};
use crate::entry::{view_entries, view_entry_refs, Entry, EntryType, EntryView};
use crate::recovery::{
    self, is_continuous, kept_from, last_sequence_of, recovery_start, sorted_by_sequence,
    RecoveryResult,
};
use crate::sequence::SequenceGenerator;

verus! {

/// The abstract state of a write-ahead log.
pub struct WalView {
    /// The entries in the log, oldest first.
    pub entries: Seq<EntryView>,
    /// The sequence number the next entry will get.
    pub current_sequence: u64,
    /// The history of checkpoints, oldest first.
    pub checkpoints: Seq<Checkpoint>,
}

/// Entry `i` of `s` has sequence number `base + i`.
pub open spec fn numbered_from(s: Seq<EntryView>, base: int) -> bool {
    forall|i: int| 0 <= i < s.len() ==> #[trigger] s[i].sequence == base + i
}

impl WalView {
    /// The log's invariant: its entries carry consecutive sequence numbers
    /// that end just below the current sequence number, every checkpoint was
    /// taken at a sequence number already handed out, and commit and
    /// checkpoint markers carry no payload.
    pub open spec fn well_formed(self) -> bool {
        &&& self.entries.len() <= self.current_sequence
        &&& numbered_from(self.entries, self.current_sequence - self.entries.len())
        &&& forall|i: int|
            0 <= i < self.checkpoints.len() ==> #[trigger] self.checkpoints[i].sequence
                < self.current_sequence
        &&& forall|i: int|
            0 <= i < self.entries.len() && #[trigger] self.entries[i].entry_type != EntryType::Data
                ==> self.entries[i].data.len() == 0
    }

    /// The state of an empty log.
    pub open spec fn empty() -> Self {
        WalView {
            entries: Seq::empty(),
            current_sequence: 0,
            checkpoints: Seq::empty(),
        }
    }

    /// The state after appending an entry of the given type and payload.
    pub open spec fn appended(self, entry_type: EntryType, data: Seq<u8>) -> Self {
        WalView {
            entries: self.entries.push(
                EntryView { sequence: self.current_sequence, entry_type, data },
            ),
            current_sequence: (self.current_sequence + 1) as u64,
            checkpoints: self.checkpoints,
        }
    }

    /// The state after taking a checkpoint: a checkpoint entry is appended
    /// and recorded with the number of entries that then make up the log.
    pub open spec fn checkpointed(self) -> Self {
        let next = self.appended(EntryType::Checkpoint, Seq::empty());
        WalView {
            checkpoints: self.checkpoints.push(
                Checkpoint {
                    sequence: self.current_sequence,
                    entry_count: next.entries.len() as usize,
                },
            ),
            ..next
        }
    }

    /// The state after dropping every entry up to and including the last
    /// checkpoint: only the entries after it remain (all of them when there
    /// is no checkpoint).
    pub open spec fn truncated(self) -> Self {
        WalView { entries: self.recovered(), ..self }
    }

    /// The entries that recovery replays: those after the last checkpoint.
    pub open spec fn recovered(self) -> Seq<EntryView> {
        kept_from(self.entries, recovery_start(self.checkpoints))
    }
}

/// The entries of `s` of the given type.
pub open spec fn of_type(s: Seq<EntryView>, entry_type: EntryType) -> Seq<EntryView> {
    s.filter(|e: EntryView| e.entry_type == entry_type)
}

/// The entries of `s` whose sequence number lies in `start..=end`.
pub open spec fn in_range(s: Seq<EntryView>, start: u64, end: u64) -> Seq<EntryView> {
    s.filter(|e: EntryView| start <= e.sequence && e.sequence <= end)
}

/// The total number of payload bytes of the entries of `s`.
pub open spec fn total_data_len(s: Seq<EntryView>) -> nat
    decreases s.len(),
{
    if s.len() == 0 {
        0
    } else {
        total_data_len(s.drop_last()) + s.last().data.len()
    }
}

impl WalView {
    /// Appending keeps a well-formed log well-formed, when the new entry is a
    /// data entry or a marker without payload.
    pub proof fn lemma_appended_well_formed(self, entry_type: EntryType, data: Seq<u8>)
        requires
            self.well_formed(),
            self.current_sequence < u64::MAX,
            entry_type != EntryType::Data ==> data.len() == 0,
        ensures
            self.appended(entry_type, data).well_formed(),
            self.checkpointed().well_formed(),
    {
        let next = self.appended(entry_type, data);
        let base = self.current_sequence - self.entries.len();
        assert forall|i: int| 0 <= i < next.entries.len() implies #[trigger] next.entries[i].sequence
            == base + i by {
            if i < self.entries.len() {
                assert(next.entries[i] == self.entries[i]);
            }
        }
        let cp = self.checkpointed();
        assert forall|i: int| 0 <= i < cp.entries.len() implies #[trigger] cp.entries[i].sequence
            == base + i by {
            if i < self.entries.len() {
                assert(cp.entries[i] == self.entries[i]);
            }
        }
        assert forall|i: int|
            0 <= i < next.entries.len() && #[trigger] next.entries[i].entry_type
                != EntryType::Data implies next.entries[i].data.len() == 0 by {
            if i < self.entries.len() {
                assert(next.entries[i] == self.entries[i]);
            }
        }
        assert forall|i: int|
            0 <= i < cp.entries.len() && #[trigger] cp.entries[i].entry_type
                != EntryType::Data implies cp.entries[i].data.len() == 0 by {
            if i < self.entries.len() {
                assert(cp.entries[i] == self.entries[i]);
            }
        }
    }

    /// Truncation keeps a well-formed log well-formed.
    pub proof fn lemma_truncated_well_formed(self)
        requires
            self.well_formed(),
        ensures
            self.truncated().well_formed(),
    {
        let base = self.current_sequence - self.entries.len();
        let start = recovery_start(self.checkpoints);
        let k = count_below(self.entries.len() as int, base, start);
        lemma_kept_from_numbered(self.entries, base, start);
        let t = self.truncated();
        assert forall|i: int| 0 <= i < t.entries.len() implies #[trigger] t.entries[i].sequence
            == t.current_sequence - t.entries.len() + i by {
            assert(t.entries[i] == self.entries[i + k]);
        }
        assert forall|i: int|
            0 <= i < t.entries.len() && #[trigger] t.entries[i].entry_type
                != EntryType::Data implies t.entries[i].data.len() == 0 by {
            assert(t.entries[i] == self.entries[i + k]);
        }
    }
}

/// How many leading entries of a log numbered from `base` fall below `start`.
pub open spec fn count_below(len: int, base: int, start: int) -> int {
    if start - base <= 0 {
        0
    } else if start - base >= len {
        len
    } else {
        start - base
    }
}

/// In a log with consecutive sequence numbers, the entries from a given
/// sequence number on are a suffix of the log.
pub proof fn lemma_kept_from_numbered(s: Seq<EntryView>, base: int, start: int)
    requires
        numbered_from(s, base),
    ensures
        kept_from(s, start) == s.skip(count_below(s.len() as int, base, start)),
    decreases s.len(),
{
    reveal(Seq::filter);
    if s.len() == 0 {
        assert(s.skip(0) =~= s);
    } else {
        let d = s.drop_last();
        assert(numbered_from(d, base)) by {
            assert forall|i: int| 0 <= i < d.len() implies #[trigger] d[i].sequence == base + i by {
                assert(d[i] == s[i]);
            }
        }
        lemma_kept_from_numbered(d, base, start);
        let k = count_below(s.len() as int, base, start);
        let kd = count_below(d.len() as int, base, start);
        assert(s.last().sequence == base + s.len() - 1);
        if s.last().sequence >= start {
            assert(k == kd);
            assert(s.skip(k) =~= d.skip(kd).push(s.last()));
        } else {
            assert(k == s.len());
            assert(s.skip(k) =~= d.skip(kd));
        }
    }
}

/// A prefix carries no more payload than the whole sequence.
pub proof fn lemma_total_data_len_prefix(s: Seq<EntryView>, n: int)
    requires
        0 <= n <= s.len(),
    ensures
        total_data_len(s.take(n)) <= total_data_len(s),
    decreases s.len(),
{
    if n < s.len() {
        assert(s.drop_last().take(n) =~= s.take(n));
        lemma_total_data_len_prefix(s.drop_last(), n);
    } else {
        assert(s.take(n) =~= s);
    }
}

impl WalView {
    /// Within a well-formed log, sequence numbers strictly increase.
    pub proof fn lemma_sequences_increase(self)
        requires
            self.well_formed(),
        ensures
            forall|i: int, j: int|
                0 <= i < j < self.entries.len() ==> self.entries[i].sequence
                    < self.entries[j].sequence,
            forall|i: int|
                0 <= i < self.entries.len() ==> #[trigger] self.entries[i].sequence
                    < self.current_sequence,
    {
        let base = self.current_sequence - self.entries.len();
        assert forall|i: int, j: int| 0 <= i < j < self.entries.len() implies self.entries[i].sequence
            < self.entries[j].sequence by {
            assert(self.entries[i].sequence == base + i);
            assert(self.entries[j].sequence == base + j);
        }
    }

    /// Truncation drops exactly what recovery skips: the entries that remain
    /// are those that recovery replays, recovery gives back the same entries
    /// afterwards, and truncating again changes nothing.
    pub proof fn lemma_truncation_keeps_recovery(self)
        requires
            self.well_formed(),
        ensures
            self.truncated().entries == self.recovered(),
            self.truncated().recovered() == self.recovered(),
            self.truncated().truncated() == self.truncated(),
    {
        let base = self.current_sequence - self.entries.len();
        let start = recovery_start(self.checkpoints);
        let k = count_below(self.entries.len() as int, base, start);
        lemma_kept_from_numbered(self.entries, base, start);
        let t = self.truncated();
        assert(numbered_from(t.entries, base + k)) by {
            assert forall|i: int| 0 <= i < t.entries.len() implies #[trigger] t.entries[i].sequence
                == base + k + i by {
                assert(t.entries[i] == self.entries[i + k]);
            }
        }
        lemma_kept_from_numbered(t.entries, base + k, start);
        assert(count_below(t.entries.len() as int, base + k, start) == 0);
        assert(t.entries.skip(0) =~= t.entries);
        assert(t.truncated() =~= t);
    }

    /// Commit and checkpoint markers carry no payload, so the log's data size
    /// is the payload of its data entries.
    pub proof fn lemma_data_size_counts_data_entries(self)
        requires
            self.well_formed(),
        ensures
            total_data_len(self.entries) == total_data_len(of_type(self.entries, EntryType::Data)),
    {
        lemma_total_data_len_of_data(self.entries);
    }
}

/// When markers carry no payload, the payload of a sequence is that of its
/// data entries.
proof fn lemma_total_data_len_of_data(s: Seq<EntryView>)
    requires
        forall|i: int|
            0 <= i < s.len() && #[trigger] s[i].entry_type != EntryType::Data ==> s[i].data.len()
                == 0,
    ensures
        total_data_len(s) == total_data_len(of_type(s, EntryType::Data)),
    decreases s.len(),
{
    reveal(Seq::filter);
    if s.len() > 0 {
        let d = s.drop_last();
        assert forall|i: int|
            0 <= i < d.len() && #[trigger] d[i].entry_type != EntryType::Data implies d[i].data.len()
                == 0 by {
            assert(d[i] == s[i]);
        }
        lemma_total_data_len_of_data(d);
        assert(s[s.len() - 1] == s.last());
        if s.last().entry_type == EntryType::Data {
            assert(of_type(s, EntryType::Data).drop_last() =~= of_type(d, EntryType::Data));
        }
    }
}

impl WalView {
    /// The empty log has no entries, no checkpoints, and hands out 0 next.
    pub proof fn lemma_empty_is_empty()
        ensures
            WalView::empty().entries.len() == 0,
            WalView::empty().current_sequence == 0,
            WalView::empty().checkpoints.len() == 0,
    {
    }

    /// Appending adds exactly one entry, at the end: it carries the current
    /// sequence number and the given type and payload unchanged; the earlier
    /// entries and the checkpoints stay as they were, and the counter moves
    /// on by one.
    pub proof fn lemma_appended_adds_one_entry(self, entry_type: EntryType, data: Seq<u8>)
        requires
            self.current_sequence < u64::MAX,
        ensures
            ({
                let next = self.appended(entry_type, data);
                let n = self.entries.len() as int;
                &&& next.entries.len() == n + 1
                &&& forall|i: int| 0 <= i < n ==> #[trigger] next.entries[i] == self.entries[i]
                &&& next.entries[n].sequence == self.current_sequence
                &&& next.entries[n].entry_type == entry_type
                &&& next.entries[n].data == data
                &&& next.current_sequence == self.current_sequence + 1
                &&& next.checkpoints == self.checkpoints
            }),
    {
    }

    /// A checkpoint adds one checkpoint marker without payload at the end of
    /// the log, under the current sequence number, and records a checkpoint
    /// at that sequence number whose entry count is the new number of
    /// entries; nothing else changes but the counter, which moves on by one.
    pub proof fn lemma_checkpointed_records_checkpoint(self)
        requires
            self.current_sequence < u64::MAX,
            self.entries.len() < usize::MAX,
        ensures
            ({
                let next = self.checkpointed();
                let n = self.entries.len() as int;
                let m = self.checkpoints.len() as int;
                &&& next.entries.len() == n + 1
                &&& forall|i: int| 0 <= i < n ==> #[trigger] next.entries[i] == self.entries[i]
                &&& next.entries[n].sequence == self.current_sequence
                &&& next.entries[n].entry_type == EntryType::Checkpoint
                &&& next.entries[n].data.len() == 0
                &&& next.current_sequence == self.current_sequence + 1
                &&& next.checkpoints.len() == m + 1
                &&& forall|i: int|
                    0 <= i < m ==> #[trigger] next.checkpoints[i] == self.checkpoints[i]
                &&& next.checkpoints[m].sequence == self.current_sequence
                &&& next.checkpoints[m].entry_count == n + 1
            }),
    {
    }

    /// The entries recovery replays: every entry of the log whose sequence
    /// number is past the most recent checkpoint (all of them when there is
    /// none), as often as it occurs, and nothing else, in the log's order.
    pub proof fn lemma_recovered_exact(self)
        ensures
            forall|x: EntryView|
                #[trigger] self.recovered().to_multiset().count(x) == if self.checkpoints.len() == 0
                    || x.sequence > self.checkpoints[self.checkpoints.len() - 1].sequence {
                    self.entries.to_multiset().count(x)
                } else {
                    0
                },
            exists|idx: Seq<int>|
                #[trigger] recovery::is_ordered_selection(self.recovered(), self.entries, idx),
    {
        let start = recovery_start(self.checkpoints);
        recovery::lemma_recovery_start_follows_last_checkpoint(self.checkpoints);
        let pred = |e: EntryView| e.sequence >= start;
        recovery::lemma_filter_exact(self.entries, pred);
        assert(self.recovered() == self.entries.filter(pred));
        let idx = choose|idx: Seq<int>|
            #[trigger] recovery::is_ordered_selection(self.entries.filter(pred), self.entries, idx);
        assert(recovery::is_ordered_selection(self.recovered(), self.entries, idx));
    }

    /// Truncation keeps, in order, exactly the entries past the most recent
    /// checkpoint (all of them when there is none) and changes nothing else.
    pub proof fn lemma_truncated_keeps_entries_after_last_checkpoint(self)
        ensures
            forall|x: EntryView|
                #[trigger] self.truncated().entries.to_multiset().count(x) == if self.checkpoints.len()
                    == 0 || x.sequence > self.checkpoints[self.checkpoints.len() - 1].sequence {
                    self.entries.to_multiset().count(x)
                } else {
                    0
                },
            exists|idx: Seq<int>|
                #[trigger] recovery::is_ordered_selection(self.truncated().entries, self.entries, idx),
            self.truncated().current_sequence == self.current_sequence,
            self.truncated().checkpoints == self.checkpoints,
    {
        self.lemma_recovered_exact();
        let idx = choose|idx: Seq<int>|
            #[trigger] recovery::is_ordered_selection(self.recovered(), self.entries, idx);
        assert(recovery::is_ordered_selection(self.truncated().entries, self.entries, idx));
    }
}

/// Selecting by type keeps, in order, exactly the entries of the requested
/// type, each as often as it occurs.
pub proof fn lemma_of_type_exact(s: Seq<EntryView>, entry_type: EntryType)
    ensures
        forall|x: EntryView|
            #[trigger] of_type(s, entry_type).to_multiset().count(x) == if x.entry_type
                == entry_type {
                s.to_multiset().count(x)
            } else {
                0
            },
        forall|i: int|
            0 <= i < of_type(s, entry_type).len() ==> #[trigger] of_type(s, entry_type)[i].entry_type
                == entry_type,
        exists|idx: Seq<int>| #[trigger] recovery::is_ordered_selection(of_type(s, entry_type), s, idx),
{
    broadcast use vstd::seq_lib::group_to_multiset_ensures;

    let pred = |e: EntryView| e.entry_type == entry_type;
    recovery::lemma_filter_exact(s, pred);
    let r = of_type(s, entry_type);
    assert(r == s.filter(pred));
    let idx = choose|idx: Seq<int>| #[trigger] recovery::is_ordered_selection(s.filter(pred), s, idx);
    assert(recovery::is_ordered_selection(r, s, idx));
    assert forall|i: int| 0 <= i < r.len() implies #[trigger] r[i].entry_type == entry_type by {
        assert(r.contains(r[i]));
        assert(r.to_multiset().count(r[i]) > 0);
    }
}

/// A range query keeps, in order, exactly the entries whose sequence number
/// lies in `start..=end`, whatever their type, each as often as it occurs.
pub proof fn lemma_in_range_exact(s: Seq<EntryView>, start: u64, end: u64)
    ensures
        forall|x: EntryView|
            #[trigger] in_range(s, start, end).to_multiset().count(x) == if start <= x.sequence
                <= end {
                s.to_multiset().count(x)
            } else {
                0
            },
        exists|idx: Seq<int>| #[trigger] recovery::is_ordered_selection(in_range(s, start, end), s, idx),
{
    let pred = |e: EntryView| start <= e.sequence && e.sequence <= end;
    recovery::lemma_filter_exact(s, pred);
    assert(in_range(s, start, end) == s.filter(pred));
    let idx = choose|idx: Seq<int>| #[trigger] recovery::is_ordered_selection(s.filter(pred), s, idx);
    assert(recovery::is_ordered_selection(in_range(s, start, end), s, idx));
}

/// The total payload of no entries is 0, and one more entry adds exactly its
/// payload length.
pub proof fn lemma_total_data_len_adds_up(s: Seq<EntryView>, e: EntryView)
    ensures
        total_data_len(Seq::<EntryView>::empty()) == 0,
        total_data_len(s.push(e)) == total_data_len(s) + e.data.len(),
{
    assert(s.push(e).drop_last() =~= s);
}

/// Write-ahead log.
#[derive(Debug)]
pub struct Wal {
    entries: Vec<Entry>,
    seq_gen: SequenceGenerator,
    checkpoint_mgr: CheckpointManager,
}

impl View for Wal {
    type V = WalView;

    closed spec fn view(&self) -> WalView {
        WalView {
            entries: view_entries(self.entries@),
            current_sequence: self.seq_gen@,
            checkpoints: self.checkpoint_mgr@,
        }
    }
}

impl Wal {
    /// Every log is well-formed.
    #[verifier::type_invariant]
    spec fn log_is_well_formed(&self) -> bool {
        self@.well_formed()
    }

    /// Create a new empty WAL.
    pub fn new() -> (wal: Self)
        ensures
            wal@ == WalView::empty(),
            wal@.well_formed(),
    {
        let wal = Wal {
            entries: Vec::new(),
            seq_gen: SequenceGenerator::new(),
            checkpoint_mgr: CheckpointManager::new(),
        };
        assert(wal@.entries =~= Seq::<EntryView>::empty());
        wal
    }

    /// Move the log's contents out, leaving an empty log in its place.
    fn take(&mut self) -> (taken: Self)
        ensures
            taken@ == old(self)@,
            taken@.well_formed(),
    {
        let mut taken = Wal::new();
        std::mem::swap(self, &mut taken);
        proof {
            use_type_invariant(&taken);
        }
        taken
    }

    /// Append an entry of the given type and payload under the next
    /// sequence number.
    fn push_entry(&mut self, entry_type: EntryType, data: Vec<u8>) -> (seq: u64)
        requires
            old(self)@.current_sequence < u64::MAX,
            entry_type != EntryType::Data ==> data@.len() == 0,
        ensures
            seq == old(self)@.current_sequence,
            final(self)@ == old(self)@.appended(entry_type, data@),
    {
        let Wal { mut entries, mut seq_gen, checkpoint_mgr } = self.take();
        proof {
            Wal { entries, seq_gen, checkpoint_mgr }@.lemma_appended_well_formed(entry_type, data@);
        }
        let ghost old_entries = view_entries(entries@);
        let seq = seq_gen.next();
        let ghost new_data = data@;
        entries.push(Entry { sequence: seq, entry_type, data });
        assert(view_entries(entries@) =~= old_entries.push(
            EntryView { sequence: seq, entry_type, data: new_data },
        ));
        *self = Wal { entries, seq_gen, checkpoint_mgr };
        seq
    }

    /// Append a data entry to the log.
    pub fn append(&mut self, data: &[u8]) -> (seq: u64)
        requires
            old(self)@.current_sequence < u64::MAX,
        ensures
            seq == old(self)@.current_sequence,
            final(self)@ == old(self)@.appended(EntryType::Data, data@),
            final(self)@.well_formed(),
    {
        let seq = self.push_entry(EntryType::Data, vstd::slice::slice_to_vec(data));
        proof {
            use_type_invariant(&*self);
        }
        seq
    }

    /// Append a commit marker.
    pub fn append_commit(&mut self) -> (seq: u64)
        requires
            old(self)@.current_sequence < u64::MAX,
        ensures
            seq == old(self)@.current_sequence,
            final(self)@ == old(self)@.appended(EntryType::Commit, Seq::empty()),
            final(self)@.well_formed(),
    {
        let seq = self.push_entry(EntryType::Commit, Vec::new());
        proof {
            use_type_invariant(&*self);
        }
        seq
    }

    /// Create a checkpoint at the current position.
    pub fn checkpoint(&mut self) -> (seq: u64)
        requires
            old(self)@.current_sequence < u64::MAX,
        ensures
            seq == old(self)@.current_sequence,
            final(self)@ == old(self)@.checkpointed(),
            final(self)@.well_formed(),
    {
        proof {
            use_type_invariant(&*self);
        }
        let seq = self.push_entry(EntryType::Checkpoint, Vec::new());
        let Wal { entries, seq_gen, mut checkpoint_mgr } = self.take();
        proof {
            old(self)@.lemma_appended_well_formed(EntryType::Checkpoint, Seq::empty());
        }
        let len = entries.len();
        checkpoint_mgr.create(seq, len);
        *self = Wal { entries, seq_gen, checkpoint_mgr };
        seq
    }

    /// Recover entries from the log (simulate replay).
    ///
    /// A well-formed log always recovers cleanly: the entries after the last
    /// checkpoint come back in order and without gaps.
    pub fn recover(&self) -> (result: RecoveryResult)
        ensures
            view_entries(result.recovered_entries@) == self@.recovered(),
            result.clean,
            result.replayed_count == self@.recovered().len(),
            result.last_sequence == last_sequence_of(self@.recovered()),
    {
        proof {
            use_type_invariant(self);
        }
        let copies = self.entries.clone();
        proof {
            assert forall|i: int| 0 <= i < copies@.len() implies copies@[i]@ == self.entries@[i]@ by {
                assert(cloned::<Entry>(self.entries[i], copies[i]));
            }
            assert(view_entries(copies@) =~= view_entries(self.entries@));
            let v = self@;
            let base = v.current_sequence - v.entries.len();
            let start = recovery_start(v.checkpoints);
            let kept = v.recovered();
            let k = count_below(v.entries.len() as int, base, start);
            lemma_kept_from_numbered(v.entries, base, start);
            assert(numbered_from(kept, base + k)) by {
                assert forall|i: int| 0 <= i < kept.len() implies #[trigger] kept[i].sequence == base
                    + k + i by {
                    assert(kept[i] == v.entries[i + k]);
                }
            }
            assert(sorted_by_sequence(kept)) by {
                assert forall|i: int, j: int| 0 <= i < j < kept.len() implies kept[i].sequence
                    <= kept[j].sequence by {
                    assert(kept[i].sequence == base + k + i);
                    assert(kept[j].sequence == base + k + j);
                }
            }
            assert(is_continuous(kept)) by {
                assert forall|i: int| 1 <= i < kept.len() implies #[trigger] kept[i].sequence
                    == kept[i - 1].sequence + 1 by {
                    assert(kept[i].sequence == base + k + i);
                    assert(kept[i - 1].sequence == base + k + i - 1);
                }
            }
            v.lemma_sequences_increase();
            recovery::lemma_no_overflow_with_one_max(v.entries, start);
        }
        recovery::recover(copies, &self.checkpoint_mgr)
    }

    /// Get all entries.
    pub fn entries(&self) -> (all: &[Entry])
        ensures
            view_entries(all@) == self@.entries,
    {
        self.entries.as_slice()
    }

    /// Number of entries.
    pub fn len(&self) -> (n: usize)
        ensures
            n == self@.entries.len(),
    {
        self.entries.len()
    }

    /// Is the log empty?
    pub fn is_empty(&self) -> (b: bool)
        ensures
            b <==> self@.entries.len() == 0,
    {
        self.entries.is_empty()
    }

    /// Get the current sequence number (the one the next entry will get).
    pub fn current_sequence(&self) -> (seq: u64)
        ensures
            seq == self@.current_sequence,
    {
        self.seq_gen.current()
    }

    /// Get entries of a specific type.
    pub fn entries_of_type(&self, entry_type: EntryType) -> (found: Vec<&Entry>)
        ensures
            view_entry_refs(found@) == of_type(self@.entries, entry_type),
    {
        let ghost all = self@.entries;
        let mut found: Vec<&Entry> = Vec::new();
        let mut i: usize = 0;
        while i < self.entries.len()
            invariant
                i <= self.entries.len(),
                all == view_entries(self.entries@),
                view_entry_refs(found@) == of_type(all.take(i as int), entry_type),
            decreases self.entries.len() - i,
        {
            proof {
                recovery::lemma_filter_take_step(
                    all,
                    |e: EntryView| e.entry_type == entry_type,
                    i as int,
                );
            }
            let e = &self.entries[i];
            if e.entry_type == entry_type {
                found.push(e);
                assert(view_entry_refs(found@) =~= of_type(all.take(i as int), entry_type).push(
                    all[i as int],
                ));
            }
            i = i + 1;
        }
        assert(all.take(i as int) =~= all);
        found
    }

    /// Get a range of entries by sequence number (both ends included).
    pub fn range(&self, start_seq: u64, end_seq: u64) -> (found: Vec<&Entry>)
        ensures
            view_entry_refs(found@) == in_range(self@.entries, start_seq, end_seq),
    {
        let ghost all = self@.entries;
        let mut found: Vec<&Entry> = Vec::new();
        let mut i: usize = 0;
        while i < self.entries.len()
            invariant
                i <= self.entries.len(),
                all == view_entries(self.entries@),
                view_entry_refs(found@) == in_range(all.take(i as int), start_seq, end_seq),
            decreases self.entries.len() - i,
        {
            proof {
                recovery::lemma_filter_take_step(
                    all,
                    |e: EntryView| start_seq <= e.sequence && e.sequence <= end_seq,
                    i as int,
                );
            }
            let e = &self.entries[i];
            if e.sequence >= start_seq && e.sequence <= end_seq {
                found.push(e);
                assert(view_entry_refs(found@) =~= in_range(
                    all.take(i as int),
                    start_seq,
                    end_seq,
                ).push(all[i as int]));
            }
            i = i + 1;
        }
        assert(all.take(i as int) =~= all);
        found
    }

    /// Total size of all entry data.
    ///
    /// The total must fit in a `usize`.
    pub fn total_data_size(&self) -> (total: usize)
        requires
            total_data_len(self@.entries) <= usize::MAX,
        ensures
            total == total_data_len(self@.entries),
    {
        let ghost all = self@.entries;
        let mut total: usize = 0;
        let mut i: usize = 0;
        while i < self.entries.len()
            invariant
                i <= self.entries.len(),
                all == view_entries(self.entries@),
                total_data_len(all) <= usize::MAX,
                total == total_data_len(all.take(i as int)),
            decreases self.entries.len() - i,
        {
            proof {
                assert(all.take(i + 1).drop_last() =~= all.take(i as int));
                lemma_total_data_len_prefix(all, i + 1);
                assert(all[i as int] == self.entries@[i as int]@);
            }
            total = total + self.entries[i].data.len();
            i = i + 1;
        }
        assert(all.take(i as int) =~= all);
        total
    }

    /// Truncate entries before the last checkpoint: every entry up to and
    /// including the last checkpoint's marker is dropped, so that the log
    /// keeps exactly the entries that recovery replays.
    pub fn truncate_before_checkpoint(&mut self)
        ensures
            final(self)@ == old(self)@.truncated(),
            final(self)@.well_formed(),
    {
        let Wal { mut entries, seq_gen, checkpoint_mgr } = self.take();
        let ghost v = old(self)@;
        proof {
            v.lemma_truncated_well_formed();
        }
        let last_sequence = match checkpoint_mgr.last() {
            Some(cp) => Some(cp.sequence),
            None => None,
        };
        let ghost n = v.entries.len() as int;
        let ghost base = v.current_sequence - n;
        let ghost start = recovery_start(v.checkpoints);
        proof {
            lemma_kept_from_numbered(v.entries, base, start);
        }
        match last_sequence {
            Some(cp_sequence) => {
                let mut count: usize = 0;
                while count < entries.len() && entries[count].sequence <= cp_sequence
                    invariant
                        count <= entries.len(),
                        forall|j: int| 0 <= j < count ==> #[trigger] entries@[j].sequence <= cp_sequence,
                    decreases entries.len() - count,
                {
                    count = count + 1;
                }
                proof {
                    assert(start == cp_sequence + 1);
                    if count < n {
                        assert(entries@[count as int]@ == v.entries[count as int]);
                        assert(v.entries[count as int].sequence == base + count);
                    }
                    if count > 0 {
                        assert(entries@[count - 1]@ == v.entries[count - 1]);
                        assert(v.entries[count - 1].sequence == base + count - 1);
                        assert(entries@[count - 1].sequence <= cp_sequence);
                    }
                    assert(count == count_below(n, base, start));
                }
                let rest = entries.split_off(count);
                entries = rest;
                assert(view_entries(entries@) =~= v.entries.skip(count as int));
            },
            None => {
                assert(start == 0);
                assert(count_below(n, base, start) == 0);
                assert(v.entries.skip(0) =~= v.entries);
            },
        }
        *self = Wal { entries, seq_gen, checkpoint_mgr };
    }

    /// Reset the WAL (for testing or after full recovery).
    pub fn reset(&mut self)
        ensures
            final(self)@ == WalView::empty(),
            final(self)@.well_formed(),
    {
        *self = Wal::new();
    }
}

impl Clone for Wal {
    fn clone(&self) -> (copy: Self)
        ensures
            copy@ == self@,
    {
        proof {
            use_type_invariant(self);
        }
        let entries = self.entries.clone();
        proof {
            assert forall|i: int| 0 <= i < entries@.len() implies entries@[i]@ == self.entries@[i]@ by {
                assert(cloned::<Entry>(self.entries[i], entries[i]));
            }
            assert(view_entries(entries@) =~= view_entries(self.entries@));
        }
        Wal { entries, seq_gen: self.seq_gen, checkpoint_mgr: self.checkpoint_mgr.clone() }
    }
}

impl Default for Wal {
    fn default() -> (wal: Self)
        ensures
            wal@ == WalView::empty(),
            wal@.well_formed(),
    {
        Self::new()
    }
}

} // verus!
