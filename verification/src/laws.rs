//! What holds of every replicated map, whatever is done to it.

use vstd::prelude::*;

use crate::changelog::{ChangeEntry, ChangeKind};
use crate::model::{last_change, last_change_by_id, Change, RepLogState};
use crate::replog::RepLogError;
use crate::storage::PAGE_SIZE;

verus! {

/// A new map is consistent and holds nothing.
pub proof fn a_new_map_is_consistent(index_pages: u64, data_pages: u64)
    ensures
        RepLogState::empty(index_pages, data_pages).consistent(),
        RepLogState::empty(index_pages, data_pages).contents() == Map::<
            Seq<u8>,
            Seq<u8>,
        >::empty(),
        RepLogState::empty(index_pages, data_pages).current_seq() == 0,
{
    assert(RepLogState::empty(index_pages, data_pages).contents() =~= Map::empty());
}

/// In a consistent map the keys are those with a value, and looking up a key gives
/// that value.
pub proof fn every_key_has_its_value(s: RepLogState, k: Seq<u8>)
    requires
        s.consistent(),
    ensures
        s.contents().dom() == s.index.dom(),
        s.contents().len() == s.index.len(),
        s.get(k) == s.contents().get(k),
{
    assert(s.contents().dom() =~= s.index.dom());
}

/// A change that is logged as it is made lets the changelog tell which keys and entry
/// IDs are there.
proof fn lemma_log_tells_pushed(s: RepLogState, t: RepLogState, change: Change)
    requires
        s.log_tells_keys(),
        s.log_tells_ids(),
        t.log == s.log.push(change),
        t.index.contains_key(change.key) <==> change.kind == ChangeKind::Upsert,
        t.store.contains_key(change.entry_id) <==> change.kind == ChangeKind::Upsert,
        forall|k: Seq<u8>|
            k != change.key ==> #[trigger] t.index.contains_key(k) == s.index.contains_key(k),
        forall|id: u64|
            id != change.entry_id ==> #[trigger] t.store.contains_key(id)
                == s.store.contains_key(id),
    ensures
        t.log_tells_keys(),
        t.log_tells_ids(),
{
    assert(t.log.drop_last() =~= s.log);
    assert forall|k: Seq<u8>|
        match #[trigger] last_change(t.log, k) {
            Some(ChangeKind::Upsert) => t.index.contains_key(k),
            Some(ChangeKind::Delete) => !t.index.contains_key(k),
            None => true,
        } by {
        if k != change.key {
            assert(last_change(t.log, k) == last_change(s.log, k));
            assert(t.index.contains_key(k) == s.index.contains_key(k));
        }
    }
    assert forall|id: u64|
        match #[trigger] last_change_by_id(t.log, id) {
            Some(ChangeKind::Upsert) => t.store.contains_key(id),
            Some(ChangeKind::Delete) => !t.store.contains_key(id),
            None => true,
        } by {
        if id != change.entry_id {
            assert(last_change_by_id(t.log, id) == last_change_by_id(s.log, id));
            assert(t.store.contains_key(id) == s.store.contains_key(id));
        }
    }
}

/// Giving a key a value keeps the map consistent, changes the value of that key alone,
/// so that looking the key up gives the value back, and counts as one change, of that
/// key.
pub proof fn inserting_sets_one_key(s: RepLogState, key: Seq<u8>, value: Seq<u8>)
    requires
        s.consistent(),
        s.can_hold(key),
    ensures
        s.upserted(key, value).consistent(),
        s.upserted(key, value).contents() == s.contents().insert(key, value),
        s.upserted(key, value).get(key) == Some(value),
        forall|k: Seq<u8>| k != key ==> #[trigger] s.upserted(key, value).get(k) == s.get(k),
        s.upserted(key, value).current_seq() == s.current_seq() + 1,
        s.upserted(key, value).log.last().kind == ChangeKind::Upsert,
        s.upserted(key, value).log.last().key == key,
{
    let t = s.upserted(key, value);
    let id = s.id_for(key);
    assert forall|k: Seq<u8>| #[trigger] t.index.contains_key(k) implies t.store.contains_key(
        t.index[k],
    ) && t.index[k] < t.next_entry_id by {
        if k != key {
            assert(s.index.contains_key(k));
        } else if s.index.contains_key(key) {
            assert(s.index[key] < s.next_entry_id);
        }
    }
    assert forall|a: Seq<u8>, b: Seq<u8>|
        #![trigger t.index[a], t.index[b]]
        t.index.contains_key(a) && t.index.contains_key(b) && t.index[a] == t.index[b] implies a
        == b by {
        if a != key {
            assert(s.index.contains_key(a));
        }
        if b != key {
            assert(s.index.contains_key(b));
        }
        if s.index.contains_key(key) {
            assert(s.index[a] == t.index[a] && s.index[b] == t.index[b]);
        }
    }
    assert forall|i: u64| #[trigger] t.store.contains_key(i) implies exists|k: Seq<u8>|
        t.has_id(k, i) by {
        if i == id {
            assert(t.has_id(key, i));
        } else {
            assert(s.store.contains_key(i));
            let k = choose|k: Seq<u8>| s.has_id(k, i);
            assert(k != key);
            assert(t.has_id(k, i));
        }
    }
    assert forall|i: int| 0 <= i < t.log.len() implies (#[trigger] t.log[i]).entry_id
        < t.next_entry_id && (t.store.contains_key(t.log[i].entry_id) ==> t.has_id(
        t.log[i].key,
        t.log[i].entry_id,
    )) by {
        if i < s.log.len() {
            assert(t.log[i] == s.log[i]);
            if s.index.contains_key(key) {
                assert(s.store.contains_key(s.index[key]));
            }
        } else if s.index.contains_key(key) {
            assert(s.index[key] < s.next_entry_id);
        }
    }
    assert forall|k: Seq<u8>| k != key && #[trigger] s.index.contains_key(k) implies s.index[k]
        != id by {
        if s.index.contains_key(key) {
            assert(s.index[key] == id);
        }
    }
    assert(t.contents() =~= s.contents().insert(key, value));
    lemma_log_tells_pushed(s, t, t.log.last());
}

/// Removing a key keeps the map consistent and takes out that key alone; where the
/// map has the key it counts as one change, of that key.
pub proof fn removing_takes_out_one_key(s: RepLogState, key: Seq<u8>)
    requires
        s.consistent(),
    ensures
        s.removed(key).consistent(),
        s.removed(key).contents() == s.contents().remove(key),
        s.removed(key).get(key) is None,
        forall|k: Seq<u8>| k != key ==> #[trigger] s.removed(key).get(k) == s.get(k),
        s.index.contains_key(key) ==> {
            &&& s.removed(key).current_seq() == s.current_seq() + 1
            &&& s.removed(key).log.last().kind == ChangeKind::Delete
            &&& s.removed(key).log.last().key == key
            &&& s.removed(key).log.last().entry_id == s.index[key]
        },
        !s.index.contains_key(key) ==> s.removed(key) == s,
{
    let t = s.removed(key);
    if s.index.contains_key(key) {
        let id = s.index[key];
        assert forall|k: Seq<u8>| #[trigger] t.index.contains_key(k) implies t.store.contains_key(
            t.index[k],
        ) && t.index[k] < t.next_entry_id by {
            assert(s.index.contains_key(k));
            if s.index[k] == s.index[key] {
                assert(k == key);
            }
        }
        assert forall|a: Seq<u8>, b: Seq<u8>|
            #![trigger t.index[a], t.index[b]]
            t.index.contains_key(a) && t.index.contains_key(b) && t.index[a]
                == t.index[b] implies a == b by {
            assert(s.index[a] == s.index[b]);
        }
        assert forall|i: u64| #[trigger] t.store.contains_key(i) implies exists|k: Seq<u8>|
            t.has_id(k, i) by {
            assert(s.store.contains_key(i));
            let k = choose|k: Seq<u8>| s.has_id(k, i);
            assert(k != key);
            assert(t.has_id(k, i));
        }
        assert forall|i: int| 0 <= i < t.log.len() implies (#[trigger] t.log[i]).entry_id
            < t.next_entry_id && (t.store.contains_key(t.log[i].entry_id) ==> t.has_id(
            t.log[i].key,
            t.log[i].entry_id,
        )) by {
            if i < s.log.len() {
                assert(t.log[i] == s.log[i]);
            }
        }
        assert forall|k: Seq<u8>| k != key && #[trigger] s.index.contains_key(k) implies s.index[k]
            != id by {
            assert(s.index[key] == id);
        }
        lemma_log_tells_pushed(s, t, t.log.last());
    }
    assert(t.contents() =~= s.contents().remove(key));
}

/// Clearing leaves a consistent map without keys, and entry IDs go on where they were.
pub proof fn clearing_takes_out_every_key(s: RepLogState)
    requires
        s.consistent(),
    ensures
        s.cleared().consistent(),
        s.cleared().contents() == Map::<Seq<u8>, Seq<u8>>::empty(),
        s.cleared().next_entry_id == s.next_entry_id,
{
    assert(s.cleared().contents() =~= Map::empty());
}

/// Compacting changes neither a key nor a value, nor the sequence number.
pub proof fn compacting_keeps_the_contents(s: RepLogState)
    requires
        s.consistent(),
        s.current_seq() <= u64::MAX,
    ensures
        s.compacted().consistent(),
        s.compacted().contents() == s.contents(),
        s.compacted().current_seq() == s.current_seq(),
        s.compacted().next_entry_id == s.next_entry_id,
{
    let t = s.compacted();
    assert forall|i: u64| #[trigger] t.store.contains_key(i) implies exists|k: Seq<u8>|
        t.has_id(k, i) by {
        assert(s.store.contains_key(i));
        let k = choose|k: Seq<u8>| s.has_id(k, i);
        assert(t.has_id(k, i));
    }
    assert(s.compacted().contents() =~= s.contents());
}

/// Where the changelog has room, trying to insert a key returns what inserting it
/// returns, and leaves the same map behind; trying to remove it likewise.
pub proof fn trying_is_doing_where_there_is_room(s: RepLogState, key: Seq<u8>, value: Seq<u8>)
    requires
        s.has_room(key),
    ensures
        s.trying_to_insert(key, value) == (
            Ok::<Option<Seq<u8>>, RepLogError>(s.inserting(key, value).0),
            s.inserting(key, value).1,
        ),
        s.trying_to_remove(key) == (
            Ok::<Option<Seq<u8>>, RepLogError>(s.removing(key).0),
            s.removing(key).1,
        ),
{
}

/// Where the changelog has no room, trying to insert a key is refused, and so is trying
/// to remove one that is there; a consistent map stays as it was.
pub proof fn trying_changes_nothing_where_there_is_no_room(
    s: RepLogState,
    key: Seq<u8>,
    value: Seq<u8>,
)
    requires
        s.consistent(),
        !s.has_room(key),
    ensures
        s.trying_to_insert(key, value) == (
            Err::<Option<Seq<u8>>, RepLogError>(RepLogError::ChangelogFull),
            s,
        ),
        s.index.contains_key(key) ==> s.trying_to_remove(key) == (
            Err::<Option<Seq<u8>>, RepLogError>(RepLogError::ChangelogFull),
            s,
        ),
        !s.index.contains_key(key) ==> s.trying_to_remove(key) == (
            Ok::<Option<Seq<u8>>, RepLogError>(None),
            s,
        ),
{
    a_refused_insertion_changes_nothing(s, key);
}

/// A refused insertion leaves a consistent map as it was.
pub proof fn a_refused_insertion_changes_nothing(s: RepLogState, key: Seq<u8>)
    requires
        s.consistent(),
    ensures
        s.upsert_refused(key) == s,
{
    if s.store.contains_key(s.next_entry_id) {
        let k = choose|k: Seq<u8>| s.has_id(k, s.next_entry_id);
        assert(s.index.contains_key(k));
    }
    assert(s.upsert_refused(key) =~= s);
}

/// A key keeps its entry ID while it is given new values, and a new key gets one that
/// no key, no value and no change so far has had.
pub proof fn entry_ids_are_stable_and_never_reused(s: RepLogState, key: Seq<u8>, value: Seq<u8>)
    requires
        s.consistent(),
        s.can_hold(key),
    ensures
        s.index.contains_key(key) ==> s.upserted(key, value).index[key] == s.index[key],
        !s.index.contains_key(key) ==> {
            let id = s.upserted(key, value).index[key];
            &&& id == s.next_entry_id
            &&& s.upserted(key, value).next_entry_id == id + 1
            &&& !s.store.contains_key(id)
            &&& forall|k: Seq<u8>| #[trigger] s.index.contains_key(k) ==> s.index[k] < id
            &&& forall|i: int| 0 <= i < s.log.len() ==> (#[trigger] s.log[i]).entry_id < id
        },
        forall|k: Seq<u8>| k != key && s.index.contains_key(k) ==> s.upserted(
            key,
            value,
        ).index[k] == #[trigger] s.index[k],
{
    if s.store.contains_key(s.next_entry_id) {
        let k = choose|k: Seq<u8>| s.has_id(k, s.next_entry_id);
        assert(s.index.contains_key(k));
    }
}

/// A key that is given a value and then removed leaves no entry, and both changes, of
/// one entry ID, are in the changelog.
pub proof fn inserting_and_removing_leaves_both_changes(
    s: RepLogState,
    key: Seq<u8>,
    value: Seq<u8>,
)
    requires
        s.consistent(),
        s.can_hold(key),
    ensures
        ({
            let id = s.id_for(key);
            let t = s.upserted(key, value).removed(key);
            &&& t.contents() == s.contents().remove(key)
            &&& t.log == s.log.push(
                ChangeEntry { kind: ChangeKind::Upsert, entry_id: id, key },
            ).push(ChangeEntry { kind: ChangeKind::Delete, entry_id: id, key })
        }),
{
    inserting_sets_one_key(s, key, value);
    removing_takes_out_one_key(s.upserted(key, value), key);
    assert(s.contents().insert(key, value).remove(key) =~= s.contents().remove(key));
}

/// Giving a key one value after another logs a change for each, all of one entry ID,
/// and the last value stands.
pub proof fn updating_again_logs_another_change(
    s: RepLogState,
    key: Seq<u8>,
    first: Seq<u8>,
    second: Seq<u8>,
)
    requires
        s.consistent(),
        s.can_hold(key),
    ensures
        ({
            let change = ChangeEntry { kind: ChangeKind::Upsert, entry_id: s.id_for(key), key };
            let t = s.upserted(key, first).upserted(key, second);
            &&& t.log == s.log.push(change).push(change)
            &&& t.contents() == s.contents().insert(key, second)
        }),
{
    inserting_sets_one_key(s, key, first);
    inserting_sets_one_key(s.upserted(key, first), key, second);
    assert(s.contents().insert(key, first).insert(key, second) =~= s.contents().insert(
        key,
        second,
    ));
}

/// After compacting, a cursor behind the current sequence number has to resync, and a
/// cursor at it has nothing to fetch.
pub proof fn compacting_sends_stale_cursors_to_resync(s: RepLogState, cursor: u64, limit: u64)
    requires
        s.current_seq() <= u64::MAX,
    ensures
        cursor < s.current_seq() ==> s.compacted().changes_since(cursor, limit) is None,
        cursor == s.current_seq() ==> s.compacted().changes_since(cursor, limit) == Some(
            (Seq::<Change>::empty(), s.current_seq()),
        ),
{
}

/// After clearing, every cursor so far has to resync, and a cursor at the new sequence
/// number, which is larger than every one before, has nothing to fetch.
pub proof fn clearing_sends_every_cursor_to_resync(s: RepLogState, cursor: u64, limit: u64)
    requires
        s.current_seq() < u64::MAX,
    ensures
        s.cleared().current_seq() == s.current_seq() + 1,
        cursor <= s.current_seq() ==> s.cleared().changes_since(cursor, limit) is None,
        cursor == s.cleared().current_seq() ==> s.cleared().changes_since(cursor, limit) == Some(
            (Seq::<Change>::empty(), s.cleared().current_seq()),
        ),
{
}

/// A request is answered if and only if the changelog does not begin after its cursor;
/// the answer to a cursor that is not ahead has no more changes than asked for, those
/// right behind the cursor, and the next cursor lies behind them, so that an answer with
/// fewer changes than asked for brings the client up to date.
pub proof fn changes_are_those_behind_the_cursor(s: RepLogState, cursor: u64, limit: u64)
    ensures
        s.changes_since(cursor, limit) is Some <==> s.epoch_start <= cursor,
        s.epoch_start <= cursor <= s.current_seq() ==> {
            let (changes, next) = s.changes_since(cursor, limit)->0;
            &&& changes.len() <= limit
            &&& next == cursor + changes.len()
            &&& next == (if cursor + limit < s.current_seq() {
                (cursor + limit) as nat
            } else {
                s.current_seq()
            })
            &&& changes.len() < limit ==> next == s.current_seq()
            &&& changes == s.log.subrange(
                cursor - s.epoch_start,
                cursor - s.epoch_start + changes.len(),
            )
        },
{
    if s.epoch_start <= cursor <= s.current_seq() {
        let (changes, next) = s.changes_since(cursor, limit)->0;
        assert(changes =~= s.log.subrange(
            cursor - s.epoch_start,
            cursor - s.epoch_start + changes.len(),
        ));
    }
}

/// Asking again at the returned cursor goes on where the first answer stopped: the two
/// answers together are the answer to one larger request.
pub proof fn requests_in_parts_give_the_same_changes(
    s: RepLogState,
    cursor: u64,
    first: u64,
    second: u64,
)
    requires
        s.epoch_start <= cursor <= s.current_seq() <= u64::MAX,
        first + second <= u64::MAX,
    ensures
        ({
            let (a, next) = s.changes_since(cursor, first)->0;
            let rest = s.changes_since(next as u64, second);
            &&& next <= u64::MAX
            &&& rest is Some
            &&& s.changes_since(cursor, (first + second) as u64) == Some(
                (a + (rest->0).0, (rest->0).1),
            )
        }),
{
    let (a, next) = s.changes_since(cursor, first)->0;
    changes_are_those_behind_the_cursor(s, cursor, first);
    let (b, last) = s.changes_since(next as u64, second)->0;
    changes_are_those_behind_the_cursor(s, next as u64, second);
    let (c, end) = s.changes_since(cursor, (first + second) as u64)->0;
    changes_are_those_behind_the_cursor(s, cursor, (first + second) as u64);
    assert(c =~= a + b);
}

/// Compacting gives the changelog's room back: whatever fitted before fits again, and
/// what fits then is limited by the memories alone.
pub proof fn compacting_reclaims_the_changelog(s: RepLogState, key: Seq<u8>)
    requires
        s.index_pages >= 1,
    ensures
        s.has_room(key) ==> s.compacted().has_room(key),
        s.compacted().has_room(key) <==> 41 + key.len() <= s.data_pages * PAGE_SIZE,
        s.cleared().has_room(key) <==> 41 + key.len() <= s.data_pages * PAGE_SIZE,
{
}

} // verus!
