//! What holds of a map over any sequence of operations.

use vstd::prelude::*;

use crate::laws::{
    a_refused_insertion_changes_nothing, clearing_takes_out_every_key,
    compacting_keeps_the_contents, inserting_sets_one_key, removing_takes_out_one_key,
};
use crate::model::RepLogState;

verus! {

/// One operation on a replicated map.
pub enum Op {
    Insert { key: Seq<u8>, value: Seq<u8> },
    TryInsert { key: Seq<u8>, value: Seq<u8> },
    Remove { key: Seq<u8> },
    TryRemove { key: Seq<u8> },
    Compact,
    Clear,
}

/// The map after an operation.
pub open spec fn step(s: RepLogState, op: Op) -> RepLogState {
    match op {
        Op::Insert { key, value } => s.inserting(key, value).1,
        Op::TryInsert { key, value } => s.trying_to_insert(key, value).1,
        Op::Remove { key } => s.removing(key).1,
        Op::TryRemove { key } => s.trying_to_remove(key).1,
        Op::Compact => s.compacted(),
        Op::Clear => s.cleared(),
    }
}

/// The counters have room for an operation.
pub open spec fn possible(s: RepLogState, op: Op) -> bool {
    match op {
        Op::Insert { key, .. } => s.can_hold(key) && s.current_seq() < u64::MAX,
        Op::TryInsert { key, .. } => s.can_hold(key) && s.current_seq() < u64::MAX,
        Op::Remove { .. } => s.current_seq() < u64::MAX,
        Op::TryRemove { .. } => s.current_seq() < u64::MAX,
        Op::Compact => s.current_seq() <= u64::MAX,
        Op::Clear => s.current_seq() < u64::MAX,
    }
}

/// The map after `ops`, one after the other.
pub open spec fn run(s: RepLogState, ops: Seq<Op>) -> RepLogState
    decreases ops.len(),
{
    if ops.len() == 0 {
        s
    } else {
        step(run(s, ops.drop_last()), ops.last())
    }
}

/// The counters have room for each of `ops`.
pub open spec fn all_possible(s: RepLogState, ops: Seq<Op>) -> bool
    decreases ops.len(),
{
    ops.len() == 0 || (all_possible(s, ops.drop_last()) && possible(
        run(s, ops.drop_last()),
        ops.last(),
    ))
}

/// By how much an operation raises the sequence number: by one where it changes a key,
/// gives it the value it has, or clears the map, and not at all where it is refused, finds
/// nothing to remove, or compacts.
pub open spec fn seq_step(s: RepLogState, op: Op) -> nat {
    match op {
        Op::Insert { .. } => 1,
        Op::TryInsert { key, .. } => if s.has_room(key) {
            1
        } else {
            0
        },
        Op::Remove { key } => if s.index.contains_key(key) {
            1
        } else {
            0
        },
        Op::TryRemove { key } => if s.index.contains_key(key) && s.has_room(key) {
            1
        } else {
            0
        },
        Op::Compact => 0,
        Op::Clear => 1,
    }
}

/// The sequence number is the start of the epoch and the length of the changelog together,
/// and every operation raises it by its step, or leaves it. Only compacting and clearing
/// move the start of the epoch.
pub proof fn the_sequence_number_goes_up_step_by_step(s: RepLogState, op: Op)
    requires
        possible(s, op),
    ensures
        s.current_seq() == s.epoch_start + s.log.len(),
        step(s, op).current_seq() == s.current_seq() + seq_step(s, op),
        op is Compact || op is Clear || step(s, op).epoch_start == s.epoch_start,
{
}

/// Every operation keeps a map consistent, and neither the next entry ID nor the start of
/// the epoch goes back.
pub proof fn every_operation_keeps_a_map_consistent(s: RepLogState, op: Op)
    requires
        s.consistent(),
        possible(s, op),
    ensures
        step(s, op).consistent(),
        s.next_entry_id <= step(s, op).next_entry_id,
        s.epoch_start <= step(s, op).epoch_start,
{
    match op {
        Op::Insert { key, value } => inserting_sets_one_key(s, key, value),
        Op::TryInsert { key, value } => {
            inserting_sets_one_key(s, key, value);
            a_refused_insertion_changes_nothing(s, key);
        },
        Op::Remove { key } => removing_takes_out_one_key(s, key),
        Op::TryRemove { key } => removing_takes_out_one_key(s, key),
        Op::Compact => compacting_keeps_the_contents(s),
        Op::Clear => clearing_takes_out_every_key(s),
    }
}

/// Whatever is done to a consistent map, it stays consistent, and neither its sequence
/// number nor its next entry ID nor the start of its epoch ever goes back.
pub proof fn a_map_stays_consistent(s: RepLogState, ops: Seq<Op>)
    requires
        s.consistent(),
        s.current_seq() <= u64::MAX,
        all_possible(s, ops),
    ensures
        run(s, ops).consistent(),
        s.current_seq() <= run(s, ops).current_seq() <= u64::MAX,
        s.next_entry_id <= run(s, ops).next_entry_id,
        s.epoch_start <= run(s, ops).epoch_start,
    decreases ops.len(),
{
    if ops.len() > 0 {
        let before = run(s, ops.drop_last());
        a_map_stays_consistent(s, ops.drop_last());
        every_operation_keeps_a_map_consistent(before, ops.last());
        the_sequence_number_goes_up_step_by_step(before, ops.last());
    }
}

/// Doing `ops` is doing the first `n` of them, and then the rest.
pub(crate) proof fn lemma_run_split(s: RepLogState, ops: Seq<Op>, n: int)
    requires
        0 <= n <= ops.len(),
    ensures
        run(s, ops) == run(run(s, ops.take(n)), ops.skip(n)),
        all_possible(s, ops) ==> all_possible(s, ops.take(n)) && all_possible(
            run(s, ops.take(n)),
            ops.skip(n),
        ),
    decreases ops.len(),
{
    if n == ops.len() {
        assert(ops.take(n) =~= ops);
        assert(ops.skip(n) =~= Seq::empty());
    } else {
        let before = ops.drop_last();
        lemma_run_split(s, before, n);
        assert(before.take(n) =~= ops.take(n));
        assert(ops.skip(n).drop_last() =~= before.skip(n));
        assert(ops.skip(n).last() == ops.last());
    }
}

/// Two points of one history: the later map comes of operations on the earlier one.
pub(crate) proof fn lemma_between(
    s: RepLogState,
    ops: Seq<Op>,
    a: int,
    b: int,
) -> (between: Seq<Op>)
    requires
        s.consistent(),
        s.current_seq() <= u64::MAX,
        all_possible(s, ops),
        0 <= a <= b <= ops.len(),
    ensures
        run(s, ops.take(a)).consistent(),
        s.current_seq() <= run(s, ops.take(a)).current_seq() <= u64::MAX,
        all_possible(run(s, ops.take(a)), between),
        run(run(s, ops.take(a)), between) == run(s, ops.take(b)),
{
    lemma_run_split(s, ops, b);
    lemma_run_split(s, ops.take(b), a);
    assert(ops.take(b).take(a) =~= ops.take(a));
    a_map_stays_consistent(s, ops.take(a));
    ops.take(b).skip(a)
}

/// A key keeps its entry ID for as long as it stays in the map.
pub proof fn a_key_keeps_its_id_while_it_stays(s: RepLogState, ops: Seq<Op>, key: Seq<u8>)
    requires
        s.consistent(),
        s.current_seq() <= u64::MAX,
        all_possible(s, ops),
        forall|n: int|
            0 <= n <= ops.len() ==> #[trigger] run(s, ops.take(n)).index.contains_key(key),
    ensures
        run(s, ops).index[key] == s.index[key],
    decreases ops.len(),
{
    assert(ops.take(ops.len() as int) =~= ops);
    assert(run(s, ops.take(ops.len() as int)).index.contains_key(key));
    if ops.len() > 0 {
        let before = ops.drop_last();
        assert forall|n: int| 0 <= n <= before.len() implies #[trigger] run(
            s,
            before.take(n),
        ).index.contains_key(key) by {
            assert(before.take(n) =~= ops.take(n));
            assert(run(s, ops.take(n)).index.contains_key(key));
        }
        a_key_keeps_its_id_while_it_stays(s, before, key);
        assert(before.take(before.len() as int) =~= before);
        assert(run(s, before.take(before.len() as int)).index.contains_key(key));
    }
}

/// No key, no value and no change of a map has the entry ID `id`.
pub open spec fn without_id(s: RepLogState, id: u64) -> bool {
    &&& forall|k: Seq<u8>| #[trigger] s.index.contains_key(k) ==> s.index[k] != id
    &&& !s.store.contains_key(id)
    &&& forall|i: int| 0 <= i < s.log.len() ==> (#[trigger] s.log[i]).entry_id != id
}

/// An entry ID is given out once: the one that a new key gets, however much was inserted,
/// removed, compacted or cleared before, was never the entry ID of a key, of a value or of
/// a change at any earlier point of the history.
pub proof fn an_entry_id_is_given_out_once(
    s: RepLogState,
    ops: Seq<Op>,
    key: Seq<u8>,
    value: Seq<u8>,
    n: int,
)
    requires
        s.consistent(),
        s.current_seq() <= u64::MAX,
        all_possible(s, ops),
        run(s, ops).can_hold(key),
        !run(s, ops).index.contains_key(key),
        0 <= n <= ops.len(),
    ensures
        ({
            let id = run(s, ops).upserted(key, value).index[key];
            &&& id == run(s, ops).next_entry_id
            &&& without_id(run(s, ops.take(n)), id)
        }),
{
    let t = run(s, ops);
    let u = run(s, ops.take(n));
    let between = lemma_between(s, ops, n, ops.len() as int);
    assert(ops.take(ops.len() as int) =~= ops);
    a_map_stays_consistent(u, between);
    let id = t.next_entry_id;
    if u.store.contains_key(id) {
        let k = choose|k: Seq<u8>| u.has_id(k, id);
        assert(u.index.contains_key(k));
    }
}

/// An entry ID that was in use before, and is in use no more, never comes back.
pub proof fn a_dropped_entry_id_never_comes_back(s: RepLogState, ops: Seq<Op>, id: u64)
    requires
        s.consistent(),
        s.current_seq() <= u64::MAX,
        all_possible(s, ops),
        id < s.next_entry_id,
        !s.store.contains_key(id),
    ensures
        !run(s, ops).store.contains_key(id),
    decreases ops.len(),
{
    if ops.len() > 0 {
        let before = run(s, ops.drop_last());
        a_dropped_entry_id_never_comes_back(s, ops.drop_last(), id);
        a_map_stays_consistent(s, ops.drop_last());
        match ops.last() {
            Op::Insert { key, .. } => {
                if before.index.contains_key(key) {
                    assert(before.store.contains_key(before.index[key]));
                }
            },
            Op::TryInsert { key, .. } => {
                if before.index.contains_key(key) {
                    assert(before.store.contains_key(before.index[key]));
                }
            },
            _ => {},
        }
    }
}

} // verus!
