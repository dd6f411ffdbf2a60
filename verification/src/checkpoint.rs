//! Checkpoint management for the WAL.

use vstd::prelude::*;

use crate::entry::Entry;

verus! {

/// A checkpoint marks a point in the WAL up to which all entries have been persisted.
#[derive(Debug, Clone, Copy)]
pub struct Checkpoint {
    /// Sequence number of the checkpoint.
    pub sequence: u64,
    /// Number of entries up to and including this checkpoint.
    pub entry_count: usize,
}

impl Checkpoint {
    /// Create a new checkpoint.
    pub fn new(sequence: u64, entry_count: usize) -> (cp: Self)
        ensures
            cp.sequence == sequence,
            cp.entry_count == entry_count,
    {
        Checkpoint { sequence, entry_count }
    }

    /// Get the checkpoint sequence number.
    pub fn sequence(&self) -> (seq: u64)
        ensures
            seq == self.sequence,
    {
        self.sequence
    }

    /// Get the entry count at checkpoint time.
    pub fn entry_count(&self) -> (count: usize)
        ensures
            count == self.entry_count,
    {
        self.entry_count
    }
}

/// The most recent checkpoint of a history, if there is one.
pub open spec fn last_of(history: Seq<Checkpoint>) -> Option<Checkpoint> {
    if history.len() == 0 {
        None
    } else {
        Some(history.last())
    }
}

/// Index up to which entries may be removed, given a checkpoint history.
pub open spec fn truncation_point_of(history: Seq<Checkpoint>) -> usize {
    match last_of(history) {
        Some(cp) => cp.entry_count,
        None => 0,
    }
}

/// The most recent checkpoint is the one created last; with no checkpoint
/// there is none, and nothing may be truncated.
pub proof fn lemma_last_is_most_recent(history: Seq<Checkpoint>)
    ensures
        history.len() == 0 ==> last_of(history) is None,
        history.len() == 0 ==> truncation_point_of(history) == 0,
        history.len() > 0 ==> last_of(history) == Some(history[history.len() - 1]),
        history.len() > 0 ==> truncation_point_of(history) == history[history.len()
            - 1].entry_count,
{
}

/// Manages checkpoints for the WAL.
#[derive(Debug)]
pub struct CheckpointManager {
    /// The last successful checkpoint.
    last_checkpoint: Option<Checkpoint>,
    /// All checkpoints (for history).
    checkpoints: Vec<Checkpoint>,
}

impl View for CheckpointManager {
    type V = Seq<Checkpoint>;

    /// The history of checkpoints, oldest first.
    closed spec fn view(&self) -> Seq<Checkpoint> {
        self.checkpoints@
    }
}

impl CheckpointManager {
    /// The cached last checkpoint is the last one of the history.
    #[verifier::type_invariant]
    spec fn last_is_cached(&self) -> bool {
        self.last_checkpoint == last_of(self.checkpoints@)
    }

    /// Create a new checkpoint manager.
    pub fn new() -> (mgr: Self)
        ensures
            mgr@ == Seq::<Checkpoint>::empty(),
    {
        CheckpointManager { last_checkpoint: None, checkpoints: Vec::new() }
    }

    /// Create a checkpoint at the given sequence number.
    pub fn create(&mut self, sequence: u64, entry_count: usize) -> (cp: Checkpoint)
        ensures
            cp.sequence == sequence,
            cp.entry_count == entry_count,
            final(self)@ == old(self)@.push(cp),
    {
        let cp = Checkpoint::new(sequence, entry_count);
        let mut taken = CheckpointManager::new();
        std::mem::swap(self, &mut taken);
        let CheckpointManager { checkpoints: mut history, .. } = taken;
        history.push(cp);
        *self = CheckpointManager { last_checkpoint: Some(cp), checkpoints: history };
        cp
    }

    /// Get the last checkpoint.
    pub fn last(&self) -> (cp: Option<&Checkpoint>)
        ensures
            match cp {
                Some(c) => last_of(self@) == Some(*c),
                None => last_of(self@) is None,
            },
    {
        proof {
            use_type_invariant(self);
        }
        self.last_checkpoint.as_ref()
    }

    /// Get all checkpoints.
    pub fn all(&self) -> (history: &[Checkpoint])
        ensures
            history@ == self@,
    {
        self.checkpoints.as_slice()
    }

    /// Number of checkpoints created.
    pub fn count(&self) -> (n: usize)
        ensures
            n == self@.len(),
    {
        self.checkpoints.len()
    }

    /// Determine which entries can be truncated after a checkpoint.
    /// Returns the index up to which entries can be safely removed.
    pub fn truncation_point(&self) -> (point: usize)
        ensures
            point == truncation_point_of(self@),
    {
        proof {
            use_type_invariant(self);
        }
        match &self.last_checkpoint {
            Some(cp) => cp.entry_count,
            None => 0,
        }
    }

    /// Check if an entry is before the last checkpoint (can be truncated).
    pub fn is_before_checkpoint(&self, entry: &Entry) -> (before: bool)
        ensures
            before <==> match last_of(self@) {
                Some(cp) => entry.sequence < cp.sequence,
                None => false,
            },
    {
        proof {
            use_type_invariant(self);
        }
        match &self.last_checkpoint {
            Some(cp) => entry.sequence < cp.sequence,
            None => false,
        }
    }
}

impl Clone for CheckpointManager {
    fn clone(&self) -> (copy: Self)
        ensures
            copy@ == self@,
    {
        proof {
            use_type_invariant(self);
        }
        let checkpoints = self.checkpoints.clone();
        assert(checkpoints@ =~= self.checkpoints@);
        CheckpointManager { last_checkpoint: self.last_checkpoint, checkpoints }
    }
}

impl Default for CheckpointManager {
    fn default() -> (mgr: Self)
        ensures
            mgr@ == Seq::<Checkpoint>::empty(),
    {
        Self::new()
    }
}

} // verus!
