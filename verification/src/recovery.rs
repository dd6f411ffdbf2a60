//! Crash recovery and log replay.

use vstd::prelude::*;

use crate::checkpoint::{last_of, Checkpoint, CheckpointManager};
use crate::entry::{view_entries, view_entry_refs, Entry, EntryType, EntryView};

verus! {

// ---------------------------------------------------------------------------
// The mathematics of recovery
// ---------------------------------------------------------------------------

/// The first sequence number that recovery replays: the one after the last
/// checkpoint, or 0 when there has been none.
pub open spec fn recovery_start(history: Seq<Checkpoint>) -> int {
    match last_of(history) {
        Some(cp) => cp.sequence + 1,
        None => 0,
    }
}

/// The entries, in their order, whose sequence number is at least `start`.
pub open spec fn kept_from(entries: Seq<EntryView>, start: int) -> Seq<EntryView> {
    entries.filter(|e: EntryView| e.sequence >= start)
}

/// Sequence numbers never decrease along `s`.
pub open spec fn sorted_by_sequence(s: Seq<EntryView>) -> bool {
    forall|i: int, j: int| 0 <= i < j < s.len() ==> s[i].sequence <= s[j].sequence
}

/// `p` maps `0..n` one-to-one into `0..n`.
pub open spec fn is_index_permutation(p: Seq<int>, n: nat) -> bool {
    &&& p.len() == n
    &&& forall|i: int| 0 <= i < n ==> 0 <= #[trigger] p[i] < n
    &&& forall|i: int, j: int| 0 <= i < n && 0 <= j < n && i != j ==> p[i] != p[j]
}

/// `p` rearranges `s` into `r`, and keeps entries of equal sequence number
/// in their original relative order.
pub open spec fn stable_rearrangement(r: Seq<EntryView>, s: Seq<EntryView>, p: Seq<int>) -> bool {
    &&& forall|i: int| 0 <= i < r.len() ==> r[i] == s[#[trigger] p[i]]
    &&& forall|i: int, j: int|
        #![trigger p[i], p[j]]
        0 <= i < j < r.len() && r[i].sequence == r[j].sequence ==> p[i] < p[j]
}

/// `r` is `s` sorted by sequence number with a stable sort: a
/// rearrangement of `s`, in non-decreasing sequence order, in which entries
/// with equal sequence numbers keep the order they had in `s`.
pub open spec fn stably_sorted_from(r: Seq<EntryView>, s: Seq<EntryView>) -> bool {
    &&& r.len() == s.len()
    &&& r.to_multiset() == s.to_multiset()
    &&& sorted_by_sequence(r)
    &&& exists|p: Seq<int>|
        #[trigger] is_index_permutation(p, s.len()) && stable_rearrangement(r, s, p)
}

/// Each entry's sequence number is one more than the previous entry's.
pub open spec fn is_continuous(s: Seq<EntryView>) -> bool {
    forall|i: int| 1 <= i < s.len() ==> #[trigger] s[i].sequence == s[i - 1].sequence + 1
}

/// Checking `s` for continuity reaches an entry with sequence number
/// `u64::MAX` that is followed by another entry, so that computing its
/// successor overflows.
pub open spec fn continuity_check_overflows(s: Seq<EntryView>) -> bool {
    exists|i: int|
        1 <= i < s.len() && #[trigger] s[i - 1].sequence == u64::MAX && forall|j: int|
            1 <= j < i ==> #[trigger] s[j].sequence == s[j - 1].sequence + 1
}

/// The sequence number of the last entry, or 0 for no entries.
pub open spec fn last_sequence_of(s: Seq<EntryView>) -> u64 {
    if s.len() == 0 {
        0
    } else {
        s.last().sequence
    }
}

/// What recovery may start from: the checkpoint, if any, can be followed.
pub open spec fn recovery_start_fits(history: Seq<Checkpoint>) -> bool {
    match last_of(history) {
        Some(cp) => cp.sequence < u64::MAX,
        None => true,
    }
}

/// `r` is made of elements of `s` picked at the strictly increasing
/// positions `idx`.
pub open spec fn is_ordered_selection<A>(r: Seq<A>, s: Seq<A>, idx: Seq<int>) -> bool {
    &&& idx.len() == r.len()
    &&& forall|i: int, j: int| 0 <= i < j < idx.len() ==> #[trigger] idx[i] < #[trigger] idx[j]
    &&& forall|i: int| 0 <= i < idx.len() ==> 0 <= #[trigger] idx[i] < s.len() && r[i] == s[idx[i]]
}

/// Filtering keeps, in their order, exactly the elements that pass: each
/// as often as it occurs, and nothing else.
pub proof fn lemma_filter_exact<A>(s: Seq<A>, pred: spec_fn(A) -> bool)
    ensures
        forall|x: A|
            #[trigger] s.filter(pred).to_multiset().count(x) == if pred(x) {
                s.to_multiset().count(x)
            } else {
                0
            },
        exists|idx: Seq<int>| #[trigger] is_ordered_selection(s.filter(pred), s, idx),
    decreases s.len(),
{
    broadcast use vstd::seq_lib::group_to_multiset_ensures;
    broadcast use vstd::multiset::group_multiset_axioms;

    reveal(Seq::filter);
    if s.len() == 0 {
        assert(s.filter(pred) == s);
        assert(s.to_multiset().len() == 0);
        assert(is_ordered_selection(s.filter(pred), s, Seq::<int>::empty()));
    } else {
        let d = s.drop_last();
        let x = s.last();
        lemma_filter_exact(d, pred);
        assert(s =~= d.push(x));
        let idx = choose|idx: Seq<int>| #[trigger] is_ordered_selection(d.filter(pred), d, idx);
        if pred(x) {
            assert(s.filter(pred) == d.filter(pred).push(x));
            let nidx = idx.push(s.len() - 1);
            assert forall|i: int| 0 <= i < nidx.len() implies 0 <= #[trigger] nidx[i] < s.len()
                && s.filter(pred)[i] == s[nidx[i]] by {
                if i < idx.len() {
                    assert(nidx[i] == idx[i]);
                    assert(d[idx[i]] == s[idx[i]]);
                }
            }
            assert forall|i: int, j: int| 0 <= i < j < nidx.len() implies #[trigger] nidx[i]
                < #[trigger] nidx[j] by {
                if j < idx.len() {
                    assert(idx[i] < idx[j]);
                } else {
                    assert(0 <= idx[i] < d.len());
                }
            }
            assert(is_ordered_selection(s.filter(pred), s, nidx));
        } else {
            assert(s.filter(pred) == d.filter(pred));
            assert forall|i: int| 0 <= i < idx.len() implies 0 <= #[trigger] idx[i] < s.len()
                && s.filter(pred)[i] == s[idx[i]] by {
                assert(d[idx[i]] == s[idx[i]]);
            }
            assert(is_ordered_selection(s.filter(pred), s, idx));
        }
    }
}

/// Filtering a prefix one element longer adds that element when it passes.
pub proof fn lemma_filter_take_step<A>(s: Seq<A>, pred: spec_fn(A) -> bool, i: int)
    requires
        0 <= i < s.len(),
    ensures
        s.take(i + 1).filter(pred) == if pred(s[i]) {
            s.take(i).filter(pred).push(s[i])
        } else {
            s.take(i).filter(pred)
        },
{
    reveal(Seq::filter);
    assert(s.take(i + 1).drop_last() =~= s.take(i));
}

/// Recovery starts right after the most recent checkpoint, or at sequence
/// number 0 when there has been none.
pub proof fn lemma_recovery_start_follows_last_checkpoint(history: Seq<Checkpoint>)
    ensures
        history.len() == 0 ==> recovery_start(history) == 0,
        history.len() > 0 ==> recovery_start(history) == history[history.len() - 1].sequence + 1,
{
}

/// What recovery returns: every entry of the raw log whose sequence number
/// is past the most recent checkpoint (every entry when there is none), as
/// often as it occurs there, and nothing else, in non-decreasing order of
/// sequence number, entries with equal sequence numbers in the order they
/// had in the raw log.
pub proof fn lemma_recovered_entries(
    raw: Seq<EntryView>,
    history: Seq<Checkpoint>,
    recovered: Seq<EntryView>,
)
    requires
        stably_sorted_from(recovered, kept_from(raw, recovery_start(history))),
    ensures
        forall|x: EntryView|
            #[trigger] recovered.to_multiset().count(x) == if history.len() == 0 || x.sequence
                > history[history.len() - 1].sequence {
                raw.to_multiset().count(x)
            } else {
                0
            },
        forall|i: int, j: int|
            0 <= i < j < recovered.len() ==> recovered[i].sequence <= recovered[j].sequence,
        history.len() > 0 ==> forall|i: int|
            0 <= i < recovered.len() ==> #[trigger] recovered[i].sequence > history[history.len()
                - 1].sequence,
        forall|i: int, j: int|
            #![trigger recovered[i], recovered[j]]
            0 <= i < j < recovered.len() && recovered[i].sequence == recovered[j].sequence
                ==> exists|a: int, b: int|
                0 <= a < b < raw.len() && #[trigger] raw[a] == recovered[i] && #[trigger] raw[b]
                    == recovered[j],
{
    broadcast use vstd::seq_lib::group_to_multiset_ensures;

    let kept = kept_from(raw, recovery_start(history));
    let p = choose|p: Seq<int>|
        #[trigger] is_index_permutation(p, kept.len()) && stable_rearrangement(recovered, kept, p);
    assert forall|i: int, j: int|
        #![trigger recovered[i], recovered[j]]
        0 <= i < j < recovered.len() && recovered[i].sequence == recovered[j].sequence implies exists|
        a: int,
        b: int,
    | 0 <= a < b < raw.len() && #[trigger] raw[a] == recovered[i] && #[trigger] raw[b]
        == recovered[j] by {
        assert(p[i] < p[j]);
        assert(recovered[i] == kept[p[i]]);
        assert(recovered[j] == kept[p[j]]);
        lemma_kept_pair_from_raw(raw, recovery_start(history), p[i], p[j]);
    }

    let start = recovery_start(history);
    lemma_recovery_start_follows_last_checkpoint(history);
    lemma_filter_exact(raw, |e: EntryView| e.sequence >= start);
    if history.len() > 0 {
        assert forall|i: int| 0 <= i < recovered.len() implies #[trigger] recovered[i].sequence
            > history[history.len() - 1].sequence by {
            assert(recovered.contains(recovered[i]));
            assert(recovered.to_multiset().count(recovered[i]) > 0);
        }
    }
}

/// The replayed committed entries: every data entry of `s` that some commit
/// entry of `all` with a higher sequence number follows, as often as it
/// occurs, and nothing else, in the order of `s`.
pub proof fn lemma_committed_in_exact(s: Seq<EntryView>, all: Seq<EntryView>)
    ensures
        forall|x: EntryView|
            #[trigger] committed_in(s, all).to_multiset().count(x) == if x.entry_type
                == EntryType::Data && exists|j: int|
                0 <= j < all.len() && #[trigger] all[j].entry_type == EntryType::Commit
                    && all[j].sequence > x.sequence {
                s.to_multiset().count(x)
            } else {
                0
            },
        exists|idx: Seq<int>| #[trigger] is_ordered_selection(committed_in(s, all), s, idx),
{
    let pred = |e: EntryView| e.entry_type == EntryType::Data && commit_follows(all, e.sequence);
    lemma_filter_exact(s, pred);
    assert(committed_in(s, all) == s.filter(pred));
    let idx = choose|idx: Seq<int>| #[trigger] is_ordered_selection(s.filter(pred), s, idx);
    assert(is_ordered_selection(committed_in(s, all), s, idx));
}

/// The replayed data entries: every data entry of `s`, as often as it
/// occurs, and nothing else, in the order of `s`.
pub proof fn lemma_data_only_exact(s: Seq<EntryView>)
    ensures
        forall|x: EntryView|
            #[trigger] data_only(s).to_multiset().count(x) == if x.entry_type == EntryType::Data {
                s.to_multiset().count(x)
            } else {
                0
            },
        exists|idx: Seq<int>| #[trigger] is_ordered_selection(data_only(s), s, idx),
{
    let pred = |e: EntryView| e.entry_type == EntryType::Data;
    lemma_filter_exact(s, pred);
    assert(data_only(s) == s.filter(pred));
    let idx = choose|idx: Seq<int>| #[trigger] is_ordered_selection(s.filter(pred), s, idx);
    assert(is_ordered_selection(data_only(s), s, idx));
}

/// The last sequence number of a recovery is that of its last entry, or 0.
pub proof fn lemma_last_sequence_is_last_entry(s: Seq<EntryView>)
    ensures
        s.len() == 0 ==> last_sequence_of(s) == 0,
        s.len() > 0 ==> last_sequence_of(s) == s[s.len() - 1].sequence,
{
}

/// Continuity fails exactly where some entry does not follow its
/// predecessor by one.
pub proof fn lemma_continuity_means_no_gap(s: Seq<EntryView>)
    ensures
        is_continuous(s) <==> !exists|i: int|
            1 <= i < s.len() && #[trigger] s[i].sequence != s[i - 1].sequence + 1,
{
}

/// Recovery gives back only entries at or after the recovery start: a stable
/// sort of the kept entries holds no entry from before the last checkpoint.
pub proof fn lemma_recovered_after_checkpoint(
    recovered: Seq<EntryView>,
    raw: Seq<EntryView>,
    history: Seq<Checkpoint>,
)
    requires
        stably_sorted_from(recovered, kept_from(raw, recovery_start(history))),
    ensures
        forall|i: int|
            0 <= i < recovered.len() ==> #[trigger] recovered[i].sequence >= recovery_start(
                history,
            ),
{
    let start = recovery_start(history);
    let kept = kept_from(raw, start);
    let p = choose|p: Seq<int>|
        #[trigger] is_index_permutation(p, kept.len()) && stable_rearrangement(recovered, kept, p);
    assert forall|i: int| 0 <= i < recovered.len() implies #[trigger] recovered[i].sequence
        >= start by {
        assert(recovered[i] == kept[p[i]]);
        raw.lemma_filter_pred(|e: EntryView| e.sequence >= start, p[i]);
    }
}

/// At most one entry of `s` carries sequence number `u64::MAX`.
pub open spec fn at_most_one_at_max(s: Seq<EntryView>) -> bool {
    forall|a: int, b: int|
        #![trigger s[a], s[b]]
        0 <= a < b < s.len() && s[a].sequence == u64::MAX ==> s[b].sequence != u64::MAX
}

/// When at most one entry carries sequence number `u64::MAX`, no stable sort
/// of the entries kept from them can make the continuity check overflow:
/// that needs two entries at `u64::MAX`.
pub proof fn lemma_no_overflow_with_one_max(raw: Seq<EntryView>, start: int)
    requires
        at_most_one_at_max(raw),
    ensures
        forall|r: Seq<EntryView>| #[trigger]
            stably_sorted_from(r, kept_from(raw, start)) ==> !continuity_check_overflows(r),
{
    let kept = kept_from(raw, start);
    assert forall|r: Seq<EntryView>| #[trigger]
        stably_sorted_from(r, kept) implies !continuity_check_overflows(r) by {
        if continuity_check_overflows(r) {
            let i = choose|i: int|
                1 <= i < r.len() && #[trigger] r[i - 1].sequence == u64::MAX && forall|j: int|
                    1 <= j < i ==> #[trigger] r[j].sequence == r[j - 1].sequence + 1;
            assert(r[i - 1].sequence <= r[i].sequence);
            let p = choose|p: Seq<int>|
                #[trigger] is_index_permutation(p, kept.len()) && stable_rearrangement(r, kept, p);
            assert(r[i - 1] == kept[p[i - 1]]);
            assert(r[i] == kept[p[i]]);
            assert(p[i - 1] != p[i]);
            let (a, b) = if p[i - 1] < p[i] {
                (p[i - 1], p[i])
            } else {
                (p[i], p[i - 1])
            };
            lemma_kept_pair_from_raw(raw, start, a, b);
            let (ja, jb) = choose|ja: int, jb: int|
                0 <= ja < jb < raw.len() && #[trigger] raw[ja] == kept[a] && #[trigger] raw[jb]
                    == kept[b];
            assert(raw[ja].sequence == u64::MAX);
            assert(raw[jb].sequence == u64::MAX);
        }
    }
}

/// Two kept entries come from two entries of the raw log, in the same order.
pub proof fn lemma_kept_pair_from_raw(raw: Seq<EntryView>, start: int, a: int, b: int)
    requires
        0 <= a < b < kept_from(raw, start).len(),
    ensures
        exists|ja: int, jb: int|
            0 <= ja < jb < raw.len() && #[trigger] raw[ja] == kept_from(raw, start)[a]
                && #[trigger] raw[jb] == kept_from(raw, start)[b],
    decreases raw.len(),
{
    reveal(Seq::filter);
    let d = raw.drop_last();
    let kept = kept_from(raw, start);
    let kd = kept_from(d, start);
    if raw.last().sequence >= start {
        assert(kept == kd.push(raw.last()));
    } else {
        assert(kept == kd);
    }
    if raw.last().sequence >= start && b == kd.len() {
        lemma_kept_entry_from_raw(d, start, a);
        let ja = choose|j: int| 0 <= j < d.len() && #[trigger] d[j] == kd[a];
        assert(raw[ja] == d[ja]);
        assert(raw[raw.len() - 1] == kept[b]);
    } else {
        lemma_kept_pair_from_raw(d, start, a, b);
        let (ja, jb) = choose|ja: int, jb: int|
            0 <= ja < jb < d.len() && #[trigger] d[ja] == kd[a] && #[trigger] d[jb] == kd[b];
        assert(raw[ja] == d[ja]);
        assert(raw[jb] == d[jb]);
    }
}

/// Every entry that is kept is an entry of the raw log.
pub proof fn lemma_kept_entry_from_raw(raw: Seq<EntryView>, start: int, i: int)
    requires
        0 <= i < kept_from(raw, start).len(),
    ensures
        exists|j: int| 0 <= j < raw.len() && #[trigger] raw[j] == kept_from(raw, start)[i],
    decreases raw.len(),
{
    reveal(Seq::filter);
    let d = raw.drop_last();
    if raw.last().sequence >= start && i == kept_from(d, start).len() {
        assert(raw[raw.len() - 1] == kept_from(raw, start)[i]);
    } else {
        lemma_kept_entry_from_raw(d, start, i);
        let j = choose|j: int| 0 <= j < d.len() && #[trigger] d[j] == kept_from(d, start)[i];
        assert(raw[j] == d[j]);
    }
}

/// The sequence numbers of the entries of `s`, in order.
pub open spec fn sequence_numbers(s: Seq<EntryView>) -> Seq<u64> {
    s.map_values(|e: EntryView| e.sequence)
}

/// Recovery does not depend on the order of its input: when two raw logs
/// hold the same entries, in any order, the recovered entries carry the same
/// sequence numbers in the same order, so the results have the same length,
/// last sequence number and cleanness.
pub proof fn lemma_recovery_ignores_input_order(
    raw1: Seq<EntryView>,
    raw2: Seq<EntryView>,
    history: Seq<Checkpoint>,
    recovered1: Seq<EntryView>,
    recovered2: Seq<EntryView>,
)
    requires
        raw1.to_multiset() == raw2.to_multiset(),
        stably_sorted_from(recovered1, kept_from(raw1, recovery_start(history))),
        stably_sorted_from(recovered2, kept_from(raw2, recovery_start(history))),
    ensures
        sequence_numbers(recovered1) == sequence_numbers(recovered2),
        recovered1.len() == recovered2.len(),
        last_sequence_of(recovered1) == last_sequence_of(recovered2),
        is_continuous(recovered1) == is_continuous(recovered2),
{
    let start = recovery_start(history);
    lemma_kept_same_multiset(raw1, raw2, start);
    lemma_sequence_numbers_multiset(recovered1, recovered2);
    let k1 = sequence_numbers(recovered1);
    let k2 = sequence_numbers(recovered2);
    let leq = |a: u64, b: u64| a <= b;
    assert(vstd::relations::sorted_by(k1, leq));
    assert(vstd::relations::sorted_by(k2, leq));
    assert(vstd::relations::total_ordering(leq));
    vstd::seq_lib::lemma_sorted_unique(k1, k2, leq);
    assert(k1 =~= k2);
    assert(recovered1.len() == k1.len());
    assert forall|i: int| 0 <= i < recovered1.len() implies recovered1[i].sequence
        == recovered2[i].sequence by {
        assert(k1[i] == k2[i]);
    }
    if recovered1.len() > 0 {
        assert(k1[k1.len() - 1] == k2[k2.len() - 1]);
    }
    if is_continuous(recovered1) {
        assert forall|i: int| 1 <= i < recovered2.len() implies #[trigger] recovered2[i].sequence
            == recovered2[i - 1].sequence + 1 by {
            assert(recovered1[i].sequence == recovered1[i - 1].sequence + 1);
            assert(k1[i] == k2[i]);
            assert(k1[i - 1] == k2[i - 1]);
        }
    }
    if is_continuous(recovered2) {
        assert forall|i: int| 1 <= i < recovered1.len() implies #[trigger] recovered1[i].sequence
            == recovered1[i - 1].sequence + 1 by {
            assert(recovered2[i].sequence == recovered2[i - 1].sequence + 1);
            assert(k1[i] == k2[i]);
            assert(k1[i - 1] == k2[i - 1]);
        }
    }
}

/// How often an entry occurs among the kept ones: as often as in the raw
/// log when it is kept, never otherwise.
proof fn lemma_kept_count(s: Seq<EntryView>, start: int, x: EntryView)
    ensures
        kept_from(s, start).to_multiset().count(x) == if x.sequence >= start {
            s.to_multiset().count(x)
        } else {
            0
        },
    decreases s.len(),
{
    broadcast use vstd::seq_lib::group_to_multiset_ensures;
    broadcast use vstd::multiset::group_multiset_axioms;

    reveal(Seq::filter);
    if s.len() == 0 {
        assert(s.to_multiset().len() == 0);
        assert(kept_from(s, start) == s);
    } else {
        let d = s.drop_last();
        lemma_kept_count(d, start, x);
        assert(s =~= d.push(s.last()));
        if s.last().sequence >= start {
            assert(kept_from(s, start) == kept_from(d, start).push(s.last()));
        } else {
            assert(kept_from(s, start) == kept_from(d, start));
        }
    }
}

/// Raw logs with the same entries keep the same entries.
proof fn lemma_kept_same_multiset(raw1: Seq<EntryView>, raw2: Seq<EntryView>, start: int)
    requires
        raw1.to_multiset() == raw2.to_multiset(),
    ensures
        kept_from(raw1, start).to_multiset() == kept_from(raw2, start).to_multiset(),
{
    assert forall|x: EntryView|
        kept_from(raw1, start).to_multiset().count(x) == kept_from(raw2, start).to_multiset().count(
            x,
        ) by {
        lemma_kept_count(raw1, start, x);
        lemma_kept_count(raw2, start, x);
    }
    assert(kept_from(raw1, start).to_multiset() =~= kept_from(raw2, start).to_multiset());
}

/// Sequences with the same entries have the same sequence numbers.
proof fn lemma_sequence_numbers_multiset(s1: Seq<EntryView>, s2: Seq<EntryView>)
    requires
        s1.to_multiset() == s2.to_multiset(),
    ensures
        sequence_numbers(s1).to_multiset() == sequence_numbers(s2).to_multiset(),
    decreases s1.len(),
{
    broadcast use vstd::seq_lib::group_to_multiset_ensures;
    broadcast use vstd::multiset::group_multiset_axioms;

    if s1.len() == 0 {
        assert(s1.to_multiset().len() == s1.len());
        assert(s2.to_multiset().len() == s2.len());
        assert(s2.len() == 0);
        assert(sequence_numbers(s1) =~= sequence_numbers(s2));
    } else {
        let x = s1.last();
        let d1 = s1.drop_last();
        assert(s1 =~= d1.push(x));
        assert(s2.to_multiset().count(x) > 0);
        assert(s2.contains(x));
        let j = choose|j: int| 0 <= j < s2.len() && s2[j] == x;
        let d2 = s2.remove(j);
        assert(d2.to_multiset() == s2.to_multiset().remove(x));
        assert(d1.to_multiset() =~= d1.to_multiset().insert(x).remove(x));
        lemma_sequence_numbers_multiset(d1, d2);
        let n1 = sequence_numbers(s1);
        let n2 = sequence_numbers(s2);
        assert(n1 =~= sequence_numbers(d1).push(x.sequence));
        assert(sequence_numbers(d2) =~= n2.remove(j));
        assert(n2.remove(j).to_multiset() == n2.to_multiset().remove(n2[j]));
        assert(n2.to_multiset().count(x.sequence) > 0);
        assert(n2.to_multiset() =~= n2.to_multiset().remove(x.sequence).insert(x.sequence));
    }
}

/// Result of recovery.
#[derive(Debug)]
pub struct RecoveryResult {
    /// Entries recovered from the log.
    pub recovered_entries: Vec<Entry>,
    /// Number of entries that were replayed.
    pub replayed_count: usize,
    /// The last valid sequence number found.
    pub last_sequence: u64,
    /// Whether recovery was clean (no gaps).
    pub clean: bool,
}

impl Clone for RecoveryResult {
    fn clone(&self) -> (copy: Self)
        ensures
            view_entries(copy.recovered_entries@) == view_entries(self.recovered_entries@),
            copy.replayed_count == self.replayed_count,
            copy.last_sequence == self.last_sequence,
            copy.clean == self.clean,
    {
        let recovered_entries = self.recovered_entries.clone();
        proof {
            assert forall|i: int| 0 <= i < recovered_entries@.len() implies recovered_entries@[i]@
                == self.recovered_entries@[i]@ by {
                assert(cloned::<Entry>(self.recovered_entries[i], recovered_entries[i]));
            }
            assert(view_entries(recovered_entries@) =~= view_entries(self.recovered_entries@));
        }
        RecoveryResult {
            recovered_entries,
            replayed_count: self.replayed_count,
            last_sequence: self.last_sequence,
            clean: self.clean,
        }
    }
}

impl RecoveryResult {
    /// Create a new recovery result.
    pub fn new(
        recovered_entries: Vec<Entry>,
        replayed_count: usize,
        last_sequence: u64,
        clean: bool,
    ) -> (result: Self)
        ensures
            result.recovered_entries == recovered_entries,
            result.replayed_count == replayed_count,
            result.last_sequence == last_sequence,
            result.clean == clean,
    {
        RecoveryResult { recovered_entries, replayed_count, last_sequence, clean }
    }

    /// Number of recovered entries.
    pub fn len(&self) -> (n: usize)
        ensures
            n == self.recovered_entries@.len(),
    {
        self.recovered_entries.len()
    }

    /// Were any entries recovered?
    pub fn is_empty(&self) -> (b: bool)
        ensures
            b <==> self.recovered_entries@.len() == 0,
    {
        self.recovered_entries.is_empty()
    }
}

/// Copy the entries whose sequence number is at least `start`, in order.
fn keep_from(entries: &Vec<Entry>, start: u64) -> (kept: Vec<Entry>)
    ensures
        view_entries(kept@) == kept_from(view_entries(entries@), start as int),
{
    let ghost all = view_entries(entries@);
    let mut kept: Vec<Entry> = Vec::new();
    let mut i: usize = 0;
    while i < entries.len()
        invariant
            i <= entries.len(),
            all == view_entries(entries@),
            view_entries(kept@) == kept_from(all.take(i as int), start as int),
        decreases entries.len() - i,
    {
        proof {
            lemma_filter_take_step(all, |e: EntryView| e.sequence >= start as int, i as int);
        }
        if entries[i].sequence >= start {
            let copy = entries[i].clone();
            kept.push(copy);
            assert(view_entries(kept@) =~= kept_from(all.take(i as int), start as int).push(
                all[i as int],
            ));
        }
        i = i + 1;
    }
    assert(all.take(i as int) =~= all);
    kept
}

/// Sort copies of the entries by sequence number, keeping entries with equal
/// sequence numbers in their original order (insertion sort).
fn sort_by_sequence(entries: &Vec<Entry>) -> (sorted: Vec<Entry>)
    ensures
        stably_sorted_from(view_entries(sorted@), view_entries(entries@)),
        sorted_by_sequence(view_entries(entries@)) ==> view_entries(sorted@) == view_entries(
            entries@,
        ),
{
    broadcast use vstd::seq_lib::group_to_multiset_ensures;

    let ghost input = view_entries(entries@);
    let mut sorted: Vec<Entry> = Vec::new();
    let ghost mut perm: Seq<int> = Seq::empty();
    let mut k: usize = 0;
    while k < entries.len()
        invariant
            k <= entries.len(),
            input == view_entries(entries@),
            sorted@.len() == k,
            sorted_by_sequence(view_entries(sorted@)),
            is_index_permutation(perm, k as nat),
            stable_rearrangement(view_entries(sorted@), input, perm),
            view_entries(sorted@).to_multiset() == input.take(k as int).to_multiset(),
            sorted_by_sequence(input) ==> view_entries(sorted@) == input.take(k as int),
        decreases entries.len() - k,
    {
        let key = entries[k].sequence;
        let mut pos: usize = 0;
        while pos < sorted.len() && sorted[pos].sequence <= key
            invariant
                pos <= sorted.len(),
                forall|j: int| 0 <= j < pos ==> sorted@[j].sequence <= key,
            decreases sorted.len() - pos,
        {
            pos = pos + 1;
        }
        let ghost vs = view_entries(sorted@);
        let ghost x = input[k as int];
        proof {
            assert forall|j: int| pos <= j < vs.len() implies vs[j].sequence > key by {
                assert(vs[pos as int].sequence <= vs[j].sequence);
            }
            assert forall|j: int| 0 <= j < pos implies vs[j].sequence <= key by {
                assert(sorted@[j].sequence <= key);
            }
            if sorted_by_sequence(input) && pos < vs.len() {
                assert(vs[pos as int] == input[pos as int]);
                assert(false);
            }
        }
        let copy = entries[k].clone();
        sorted.insert(pos, copy);
        proof {
            let np = perm.insert(pos as int, k as int);
            let nvs = view_entries(sorted@);
            assert(nvs =~= vs.insert(pos as int, x));
            assert(is_index_permutation(np, (k + 1) as nat)) by {
                assert forall|i: int, j: int|
                    0 <= i < k + 1 && 0 <= j < k + 1 && i != j implies np[i] != np[j] by {
                    if i < pos && j < pos {
                    } else if i < pos && j > pos {
                        assert(np[j] == perm[j - 1]);
                    } else if i > pos && j < pos {
                        assert(np[i] == perm[i - 1]);
                    } else if i > pos && j > pos {
                        assert(np[i] == perm[i - 1]);
                        assert(np[j] == perm[j - 1]);
                    } else if i == pos {
                        if j < pos {
                            assert(0 <= perm[j] < k);
                        } else {
                            assert(0 <= perm[j - 1] < k);
                        }
                    } else {
                        if i < pos {
                            assert(0 <= perm[i] < k);
                        } else {
                            assert(0 <= perm[i - 1] < k);
                        }
                    }
                }
                assert forall|i: int| 0 <= i < k + 1 implies 0 <= #[trigger] np[i] < k + 1 by {
                    if i < pos {
                        assert(0 <= perm[i] < k);
                    } else if i > pos {
                        assert(0 <= perm[i - 1] < k);
                    }
                }
            }
            assert(sorted_by_sequence(nvs)) by {
                assert forall|i: int, j: int| 0 <= i < j < nvs.len() implies nvs[i].sequence
                    <= nvs[j].sequence by {
                    if j < pos {
                    } else if i > pos {
                        assert(vs[i - 1].sequence <= vs[j - 1].sequence);
                    } else if i < pos && j > pos {
                        assert(vs[i].sequence <= key);
                        assert(vs[j - 1].sequence > key);
                    } else if i == pos {
                        assert(vs[j - 1].sequence > key);
                    } else {
                        assert(vs[i].sequence <= key);
                    }
                }
            }
            assert(stable_rearrangement(nvs, input, np)) by {
                assert forall|i: int| 0 <= i < nvs.len() implies nvs[i] == input[
                    #[trigger] np[i]
                ] by {
                    if i < pos {
                        assert(vs[i] == input[perm[i]]);
                    } else if i > pos {
                        assert(vs[i - 1] == input[perm[i - 1]]);
                    }
                }
                assert forall|i: int, j: int|
                    #![trigger np[i], np[j]]
                    0 <= i < j < nvs.len() && nvs[i].sequence == nvs[j].sequence implies np[i]
                    < np[j] by {
                    if j < pos {
                        assert(perm[i] < perm[j]);
                    } else if i > pos {
                        assert(perm[i - 1] < perm[j - 1]);
                    } else if i < pos && j > pos {
                        assert(vs[i].sequence <= key);
                        assert(vs[j - 1].sequence > key);
                    } else if i == pos {
                        assert(vs[j - 1].sequence > key);
                    } else {
                        assert(0 <= perm[i] < k);
                    }
                }
            }
            assert(input.take(k + 1) =~= input.take(k as int).push(x));
            vstd::seq_lib::to_multiset_insert(vs, pos as int, x);
            vstd::seq_lib::to_multiset_build(input.take(k as int), x);
            if sorted_by_sequence(input) {
                assert(nvs =~= input.take(k + 1));
            }
            perm = np;
        }
        k = k + 1;
    }
    proof {
        assert(input.take(k as int) =~= input);
    }
    sorted
}

/// Check that entries form a continuous sequence.
fn check_continuity(entries: &[Entry]) -> (continuous: bool)
    requires
        !continuity_check_overflows(view_entries(entries@)),
    ensures
        continuous == is_continuous(view_entries(entries@)),
{
    let ghost s = view_entries(entries@);
    let mut i: usize = 1;
    while i < entries.len()
        invariant
            1 <= i,
            i <= entries.len() || i == 1,
            s == view_entries(entries@),
            !continuity_check_overflows(s),
            forall|j: int| 1 <= j < i ==> #[trigger] s[j].sequence == s[j - 1].sequence + 1,
        decreases entries.len() - i,
    {
        proof {
            if s[i - 1].sequence == u64::MAX {
                assert(continuity_check_overflows(s));
            }
        }
        if entries[i].sequence != entries[i - 1].sequence + 1 {
            proof {
                assert(s[i as int] == entries@[i as int]@);
                assert(s[i - 1] == entries@[i - 1]@);
                assert(s[i as int].sequence != s[i - 1].sequence + 1);
            }
            return false;
        }
        i = i + 1;
    }
    true
}

/// Recover entries from a log, detecting gaps and corruption.
///
/// The entries after the last checkpoint are sorted by sequence number;
/// recovery is clean when they form a run without gaps.
pub fn recover(raw_entries: Vec<Entry>, checkpoint_mgr: &CheckpointManager) -> (result:
    RecoveryResult)
    requires
        recovery_start_fits(checkpoint_mgr@),
        forall|r: Seq<EntryView>|
            #[trigger] stably_sorted_from(
                r,
                kept_from(view_entries(raw_entries@), recovery_start(checkpoint_mgr@)),
            ) ==> !continuity_check_overflows(r),
    ensures
        ({
            let kept = kept_from(view_entries(raw_entries@), recovery_start(checkpoint_mgr@));
            let recovered = view_entries(result.recovered_entries@);
            &&& stably_sorted_from(recovered, kept)
            &&& sorted_by_sequence(kept) ==> recovered == kept
            &&& result.replayed_count == recovered.len()
            &&& result.last_sequence == last_sequence_of(recovered)
            &&& result.clean == is_continuous(recovered)
        }),
{
    let start_seq: u64 = match checkpoint_mgr.last() {
        Some(cp) => cp.sequence + 1,
        None => 0,
    };
    let kept = keep_from(&raw_entries, start_seq);
    let ghost kept_view = kept_from(view_entries(raw_entries@), recovery_start(checkpoint_mgr@));
    assert(view_entries(kept@) == kept_view);
    let recovered = sort_by_sequence(&kept);
    assert(stably_sorted_from(view_entries(recovered@), kept_view));
    let clean = check_continuity(recovered.as_slice());
    let n = recovered.len();
    let last_sequence = if n == 0 {
        0
    } else {
        recovered[n - 1].sequence
    };
    RecoveryResult::new(recovered, n, last_sequence, clean)
}

/// A commit entry of `entries` comes after sequence number `seq`.
pub open spec fn commit_follows(entries: Seq<EntryView>, seq: u64) -> bool {
    exists|j: int|
        0 <= j < entries.len() && #[trigger] entries[j].entry_type == EntryType::Commit
            && entries[j].sequence > seq
}

/// The data entries of `s` that a commit entry of `all` covers, that is,
/// that some commit of `all` follows.
pub open spec fn committed_in(s: Seq<EntryView>, all: Seq<EntryView>) -> Seq<EntryView> {
    s.filter(|e: EntryView| e.entry_type == EntryType::Data && commit_follows(all, e.sequence))
}

/// The data entries of `s`.
pub open spec fn data_only(s: Seq<EntryView>) -> Seq<EntryView> {
    s.filter(|e: EntryView| e.entry_type == EntryType::Data)
}

/// Replay recovered entries, returning only committed data entries.
///
/// A data entry is committed when a commit entry with a later sequence
/// number follows it; the data entries are returned in their order, and no
/// commit or checkpoint marker is returned.
pub fn replay_committed(entries: &[Entry]) -> (replayed: Vec<&Entry>)
    ensures
        view_entry_refs(replayed@) == committed_in(view_entries(entries@), view_entries(entries@)),
{
    let ghost all = view_entries(entries@);
    // The highest sequence number of a commit entry, if there is one.
    let mut latest_commit: Option<u64> = None;
    let mut i: usize = 0;
    while i < entries.len()
        invariant
            i <= entries.len(),
            all == view_entries(entries@),
            latest_commit is None ==> forall|j: int|
                0 <= j < i ==> #[trigger] all[j].entry_type != EntryType::Commit,
            latest_commit is Some ==> exists|j: int|
                0 <= j < i && #[trigger] all[j].entry_type == EntryType::Commit && all[j].sequence
                    == latest_commit->0,
            latest_commit is Some ==> forall|j: int|
                0 <= j < i && #[trigger] all[j].entry_type == EntryType::Commit ==> all[j].sequence
                    <= latest_commit->0,
        decreases entries.len() - i,
    {
        assert(all[i as int] == entries@[i as int]@);
        let ghost previous = latest_commit;
        if entries[i].is_commit() {
            let seq = entries[i].sequence;
            match latest_commit {
                Some(latest) => {
                    if seq > latest {
                        latest_commit = Some(seq);
                    }
                },
                None => {
                    latest_commit = Some(seq);
                },
            }
        }
        proof {
            if latest_commit != previous {
                assert(all[i as int].entry_type == EntryType::Commit);
            } else if previous is Some {
                let j = choose|j: int|
                    0 <= j < i && #[trigger] all[j].entry_type == EntryType::Commit
                        && all[j].sequence == previous->0;
                assert(all[j].entry_type == EntryType::Commit);
            }
        }
        i = i + 1;
    }
    proof {
        assert forall|seq: u64|
            commit_follows(all, seq) <==> (latest_commit is Some && seq < latest_commit->0) by {
            if latest_commit is Some && seq < latest_commit->0 {
                let j = choose|j: int|
                    0 <= j < i && #[trigger] all[j].entry_type == EntryType::Commit
                        && all[j].sequence == latest_commit->0;
                assert(all[j].entry_type == EntryType::Commit);
            }
        }
    }
    let mut replayed: Vec<&Entry> = Vec::new();
    let mut i: usize = 0;
    while i < entries.len()
        invariant
            i <= entries.len(),
            all == view_entries(entries@),
            forall|seq: u64|
                commit_follows(all, seq) <==> (latest_commit is Some && seq < latest_commit->0),
            view_entry_refs(replayed@) == committed_in(all.take(i as int), all),
        decreases entries.len() - i,
    {
        proof {
            lemma_filter_take_step(
                all,
                |e: EntryView| e.entry_type == EntryType::Data && commit_follows(all, e.sequence),
                i as int,
            );
        }
        let e = &entries[i];
        let committed = match latest_commit {
            Some(latest) => e.is_data() && e.sequence < latest,
            None => false,
        };
        if committed {
            replayed.push(e);
            assert(view_entry_refs(replayed@) =~= committed_in(all.take(i as int), all).push(
                all[i as int],
            ));
        }
        i = i + 1;
    }
    assert(all.take(i as int) =~= all);
    replayed
}

/// Replay only data entries (ignoring commits and checkpoints).
pub fn replay_data_only(entries: &[Entry]) -> (replayed: Vec<&Entry>)
    ensures
        view_entry_refs(replayed@) == data_only(view_entries(entries@)),
{
    let ghost all = view_entries(entries@);
    let mut replayed: Vec<&Entry> = Vec::new();
    let mut i: usize = 0;
    while i < entries.len()
        invariant
            i <= entries.len(),
            all == view_entries(entries@),
            view_entry_refs(replayed@) == data_only(all.take(i as int)),
        decreases entries.len() - i,
    {
        proof {
            lemma_filter_take_step(all, |e: EntryView| e.entry_type == EntryType::Data, i as int);
        }
        let e = &entries[i];
        if e.is_data() {
            replayed.push(e);
            assert(view_entry_refs(replayed@) =~= data_only(all.take(i as int)).push(
                all[i as int],
            ));
        }
        i = i + 1;
    }
    assert(all.take(i as int) =~= all);
    replayed
}

/// Simulate a crash by truncating the log at a given point.
///
/// Keeps copies of the first `crash_after` entries (all of them when there
/// are fewer).
pub fn simulate_crash(entries: &[Entry], crash_after: usize) -> (survivors: Vec<Entry>)
    ensures
        view_entries(survivors@) == view_entries(entries@).take(
            if crash_after < entries@.len() {
                crash_after as int
            } else {
                entries@.len() as int
            },
        ),
{
    let ghost all = view_entries(entries@);
    let n = if crash_after < entries.len() {
        crash_after
    } else {
        entries.len()
    };
    let mut survivors: Vec<Entry> = Vec::new();
    let mut i: usize = 0;
    while i < n
        invariant
            i <= n <= entries.len(),
            all == view_entries(entries@),
            view_entries(survivors@) == all.take(i as int),
        decreases n - i,
    {
        let copy = entries[i].clone();
        assert(view_entries(survivors@).len() == survivors@.len());
        survivors.push(copy);
        assert(all[i as int] == entries@[i as int]@);
        assert(view_entries(survivors@) =~= all.take(i as int + 1));
        i = i + 1;
    }
    survivors
}

} // verus!
