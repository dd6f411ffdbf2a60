//! Log entry structure with sequence numbers.

use vstd::prelude::*;

verus! {

/// Type of log entry.
#[derive(Debug, Clone, Copy, PartialEq, Eq, Structural)]
pub enum EntryType {
    /// Normal data entry.
    Data,
    /// Checkpoint marker.
    Checkpoint,
    /// Transaction commit marker.
    Commit,
}

/// The mathematical value of an [`Entry`]: its sequence number, its type
/// and its payload as a sequence of bytes.
pub struct EntryView {
    pub sequence: u64,
    pub entry_type: EntryType,
    pub data: Seq<u8>,
}

/// A single entry in the write-ahead log.
#[derive(Debug)]
pub struct Entry {
    /// Monotonically increasing sequence number.
    pub sequence: u64,
    /// Type of this entry.
    pub entry_type: EntryType,
    /// Payload data.
    pub data: Vec<u8>,
}

impl View for Entry {
    type V = EntryView;

    open spec fn view(&self) -> EntryView {
        EntryView { sequence: self.sequence, entry_type: self.entry_type, data: self.data@ }
    }
}

/// The values of a sequence of entries.
pub open spec fn view_entries(s: Seq<Entry>) -> Seq<EntryView> {
    s.map_values(|e: Entry| e@)
}

/// The values of a sequence of borrowed entries.
pub open spec fn view_entry_refs(s: Seq<&Entry>) -> Seq<EntryView> {
    s.map_values(|e: &Entry| e@)
}

/// An entry's value holds its fields unchanged, and the values of a sequence
/// of entries (owned or borrowed) are those of its entries, in order.
pub proof fn lemma_views_hold_fields(e: Entry, s: Seq<Entry>, r: Seq<&Entry>)
    ensures
        e@.sequence == e.sequence,
        e@.entry_type == e.entry_type,
        e@.data == e.data@,
        view_entries(s).len() == s.len(),
        forall|i: int| 0 <= i < s.len() ==> #[trigger] view_entries(s)[i] == s[i]@,
        view_entry_refs(r).len() == r.len(),
        forall|i: int| 0 <= i < r.len() ==> #[trigger] view_entry_refs(r)[i] == r[i]@,
{
}

impl Clone for Entry {
    fn clone(&self) -> (copy: Self)
        ensures
            copy@ == self@,
    {
        let data = self.data.clone();
        assert(data@ =~= self.data@);
        Entry { sequence: self.sequence, entry_type: self.entry_type, data }
    }
}

impl Entry {
    /// Create a new data entry.
    pub fn new_data(sequence: u64, data: Vec<u8>) -> (entry: Self)
        ensures
            entry@ == (EntryView { sequence, entry_type: EntryType::Data, data: data@ }),
    {
        Entry { sequence, entry_type: EntryType::Data, data }
    }

    /// Create a new checkpoint entry.
    pub fn new_checkpoint(sequence: u64) -> (entry: Self)
        ensures
            entry@ == (EntryView {
                sequence,
                entry_type: EntryType::Checkpoint,
                data: Seq::empty(),
            }),
    {
        Entry { sequence, entry_type: EntryType::Checkpoint, data: Vec::new() }
    }

    /// Create a new commit entry.
    pub fn new_commit(sequence: u64) -> (entry: Self)
        ensures
            entry@ == (EntryView { sequence, entry_type: EntryType::Commit, data: Seq::empty() }),
    {
        Entry { sequence, entry_type: EntryType::Commit, data: Vec::new() }
    }

    /// Is this a data entry?
    pub fn is_data(&self) -> (b: bool)
        ensures
            b <==> self.entry_type == EntryType::Data,
    {
        self.entry_type == EntryType::Data
    }

    /// Is this a checkpoint entry?
    pub fn is_checkpoint(&self) -> (b: bool)
        ensures
            b <==> self.entry_type == EntryType::Checkpoint,
    {
        self.entry_type == EntryType::Checkpoint
    }

    /// Is this a commit entry?
    pub fn is_commit(&self) -> (b: bool)
        ensures
            b <==> self.entry_type == EntryType::Commit,
    {
        self.entry_type == EntryType::Commit
    }

    /// Get the sequence number.
    pub fn sequence(&self) -> (seq: u64)
        ensures
            seq == self.sequence,
    {
        self.sequence
    }

    /// Get the data payload.
    pub fn data(&self) -> (bytes: &[u8])
        ensures
            bytes@ == self.data@,
    {
        self.data.as_slice()
    }

    /// Size of this entry in bytes.
    pub fn size(&self) -> (n: usize)
        ensures
            n == self.data@.len(),
    {
        self.data.len()
    }
}

} // verus!
