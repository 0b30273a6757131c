//! What each operation that changes a map returns, and what it does to every key, entry ID
//! and change.

use vstd::prelude::*;

use crate::changelog::ChangeKind;
use crate::laws::{inserting_sets_one_key, removing_takes_out_one_key};
use crate::model::{stored_len, Change, RepLogState};
use crate::replog::RepLogError;
use crate::storage::MAX_PAGES;

verus! {

/// Looking a key up gives the value under its entry ID, and nothing where the key has no
/// entry ID or the entry ID has no value.
pub proof fn a_key_has_the_value_under_its_id(s: RepLogState, key: Seq<u8>, value: Seq<u8>)
    ensures
        s.get(key) == Some(value) <==> s.index.contains_key(key) && s.store.contains_key(
            s.index[key],
        ) && s.store[s.index[key]] == value,
        s.contents().contains_key(key) <==> s.index.contains_key(key) && s.store.contains_key(
            s.index[key],
        ),
        s.contents().contains_key(key) ==> s.contents()[key] == s.store[s.index[key]],
        s.consistent() ==> (s.get(key) is None <==> !s.index.contains_key(key)),
{
}

/// The row of an entry ID is the key that has it and the value under it.
pub proof fn an_id_has_the_row_of_its_key(s: RepLogState, key: Seq<u8>, id: u64)
    requires
        s.consistent(),
    ensures
        s.contents_by_id().contains_key(id) <==> s.store.contains_key(id),
        s.index.contains_key(key) && s.index[key] == id ==> s.contents_by_id().contains_key(id)
            && s.contents_by_id()[id] == (key, s.store[id]),
{
    if s.index.contains_key(key) && s.index[key] == id {
        let other = s.key_of(id);
        assert(s.has_id(key, id));
        assert(s.has_id(other, id));
        assert(s.index[other] == s.index[key]);
    }
}

/// Inserting a key returns the value that the key had before, whatever value it is given:
/// nothing exactly where the key was not in the map. Trying to insert it returns the same
/// where it is not refused.
pub proof fn inserting_returns_the_value_before(s: RepLogState, key: Seq<u8>, value: Seq<u8>)
    ensures
        !s.index.contains_key(key) ==> s.inserting(key, value).0 is None,
        s.index.contains_key(key) ==> s.inserting(key, value).0 == s.store.get(s.index[key]),
        s.consistent() ==> {
            &&& s.inserting(key, value).0 == s.contents().get(key)
            &&& s.inserting(key, value).0 is None <==> !s.index.contains_key(key)
        },
        match s.trying_to_insert(key, value).0 {
            Ok(previous) => {
                &&& s.has_room(key)
                &&& !s.index.contains_key(key) ==> previous is None
                &&& s.index.contains_key(key) ==> previous == s.store.get(s.index[key])
            },
            Err(_) => !s.has_room(key),
        },
{
}

/// Removing a key returns the value that the key had, and nothing where it was not in the
/// map. Trying to remove it returns the same where it is not refused, and it is refused only
/// where the key is in the map and the changelog has no room.
pub proof fn removing_returns_the_value_before(s: RepLogState, key: Seq<u8>)
    ensures
        !s.index.contains_key(key) ==> s.removing(key).0 is None,
        s.index.contains_key(key) ==> s.removing(key).0 == s.store.get(s.index[key]),
        s.consistent() ==> {
            &&& s.removing(key).0 == s.contents().get(key)
            &&& s.removing(key).0 is None <==> !s.index.contains_key(key)
        },
        match s.trying_to_remove(key).0 {
            Ok(previous) => {
                &&& !s.index.contains_key(key) ==> previous is None
                &&& s.index.contains_key(key) ==> s.has_room(key) && previous == s.store.get(
                    s.index[key],
                )
            },
            Err(_) => s.index.contains_key(key) && !s.has_room(key),
        },
{
}

/// What is returned for a key is what was last done to it: the value that it was given last,
/// also where it is given the same value again, and nothing after it was removed.
pub proof fn operations_return_what_was_last_given(
    s: RepLogState,
    key: Seq<u8>,
    first: Seq<u8>,
    second: Seq<u8>,
)
    requires
        s.consistent(),
    ensures
        s.inserting(key, first).1.get(key) == Some(first),
        s.inserting(key, first).1.inserting(key, second).0 == Some(first),
        s.inserting(key, first).1.removing(key).0 == Some(first),
        s.inserting(key, first).1.has_room(key) ==> s.inserting(key, first).1.trying_to_insert(
            key,
            second,
        ).0 == Ok::<Option<Seq<u8>>, RepLogError>(Some(first)),
        s.inserting(key, first).1.has_room(key) ==> s.inserting(key, first).1.trying_to_remove(
            key,
        ).0 == Ok::<Option<Seq<u8>>, RepLogError>(Some(first)),
        s.removing(key).1.get(key) is None,
        s.removing(key).1.inserting(key, second).0 is None,
        s.removing(key).1.removing(key).0 is None,
        s.removing(key).1.trying_to_remove(key).0 == Ok::<Option<Seq<u8>>, RepLogError>(None),
{
}

/// Whether the changelog has room for one more change: its records, of nine bytes and their
/// keys, fit behind a header of 32 bytes into the pages of the data memory, and eight bytes
/// for each of them behind a header of 40 bytes into those of the index memory. Trying to
/// insert a key is refused exactly where it has none.
pub proof fn a_change_takes_up_nine_bytes_and_its_key(
    s: RepLogState,
    key: Seq<u8>,
    value: Seq<u8>,
    change: Change,
)
    ensures
        s.has_room(key) <==> 32 + stored_len(s.log) + 9 + key.len() <= s.data_pages * 65536 && 40
            + 8 * (s.log.len() + 1) <= s.index_pages * 65536,
        stored_len(Seq::empty()) == 0,
        stored_len(s.log.push(change)) == stored_len(s.log) + 9 + change.key.len(),
        s.trying_to_insert(key, value).0 is Ok <==> s.has_room(key),
        s.trying_to_remove(key).0 is Ok <==> s.has_room(key) || !s.index.contains_key(key),
        s.can_hold(key) <==> s.index.contains_key(key) || (s.next_entry_id < u64::MAX && key.len()
            <= u32::MAX),
{
    assert(s.log.push(change).drop_last() =~= s.log);
}

/// Inserting a key gives it the entry ID it has, or the next one where it has none, puts the
/// value under that entry ID, and logs one change, of that key and that entry ID. Every other
/// key keeps its entry ID, every other entry ID its value, and the changes before stay. Trying
/// to insert it leaves the same behind where the changelog has room.
pub proof fn inserting_touches_one_key_and_one_id(s: RepLogState, key: Seq<u8>, value: Seq<u8>)
    requires
        s.can_hold(key),
    ensures
        ({
            let t = s.inserting(key, value).1;
            let id = t.index[key];
            let n = s.log.len() as int;
            &&& t.index.contains_key(key)
            &&& s.index.contains_key(key) ==> id == s.index[key] && t.next_entry_id
                == s.next_entry_id
            &&& !s.index.contains_key(key) ==> id == s.next_entry_id && t.next_entry_id
                == s.next_entry_id + 1
            &&& forall|k: Seq<u8>| k != key ==> #[trigger] t.index.get(k) == s.index.get(k)
            &&& t.store.get(id) == Some(value)
            &&& forall|i: u64| i != id ==> #[trigger] t.store.get(i) == s.store.get(i)
            &&& t.log.len() == n + 1
            &&& forall|i: int| 0 <= i < n ==> #[trigger] t.log[i] == s.log[i]
            &&& t.log[n].kind == ChangeKind::Upsert
            &&& t.log[n].entry_id == id
            &&& t.log[n].key == key
            &&& t.epoch_start == s.epoch_start
            &&& t.index_pages == s.index_pages
            &&& t.data_pages == s.data_pages
        }),
        s.has_room(key) ==> s.trying_to_insert(key, value).1 == s.inserting(key, value).1,
{
}

/// A refused insertion keeps every key, every change and the counters, and every value but
/// one under the entry ID that a new key would have had; a consistent map has none there.
pub proof fn a_refused_insertion_keeps_everything(s: RepLogState, key: Seq<u8>, value: Seq<u8>)
    requires
        !s.has_room(key),
    ensures
        ({
            let t = s.trying_to_insert(key, value).1;
            &&& t.index == s.index
            &&& t.log == s.log
            &&& t.next_entry_id == s.next_entry_id
            &&& t.epoch_start == s.epoch_start
            &&& t.index_pages == s.index_pages
            &&& t.data_pages == s.data_pages
            &&& forall|i: u64|
                i != s.next_entry_id || s.index.contains_key(key) ==> #[trigger] t.store.get(i)
                    == s.store.get(i)
            &&& !s.index.contains_key(key) ==> t.store.get(s.next_entry_id) is None
            &&& s.consistent() ==> s.store.get(s.next_entry_id) is None
        }),
        s.trying_to_insert(key, value).0 == Err::<Option<Seq<u8>>, RepLogError>(
            RepLogError::ChangelogFull,
        ),
{
    if s.consistent() && s.store.contains_key(s.next_entry_id) {
        let k = choose|k: Seq<u8>| s.has_id(k, s.next_entry_id);
        assert(s.index.contains_key(k));
    }
}

/// Removing a key takes out that key and the value under its entry ID, and logs one change,
/// of that key and that entry ID. Every other key keeps its entry ID, every other entry ID its
/// value, the changes before stay, and so do the counters. Removing a key that is not there
/// changes nothing. Trying to remove a key leaves the same behind where the changelog has
/// room, and changes nothing where it has none.
pub proof fn removing_touches_one_key_and_one_id(s: RepLogState, key: Seq<u8>)
    ensures
        s.index.contains_key(key) ==> {
            let t = s.removing(key).1;
            let id = s.index[key];
            let n = s.log.len() as int;
            &&& !t.index.contains_key(key)
            &&& forall|k: Seq<u8>| k != key ==> #[trigger] t.index.get(k) == s.index.get(k)
            &&& !t.store.contains_key(id)
            &&& forall|i: u64| i != id ==> #[trigger] t.store.get(i) == s.store.get(i)
            &&& t.log.len() == n + 1
            &&& forall|i: int| 0 <= i < n ==> #[trigger] t.log[i] == s.log[i]
            &&& t.log[n].kind == ChangeKind::Delete
            &&& t.log[n].entry_id == id
            &&& t.log[n].key == key
            &&& t.next_entry_id == s.next_entry_id
            &&& t.epoch_start == s.epoch_start
            &&& t.index_pages == s.index_pages
            &&& t.data_pages == s.data_pages
        },
        !s.index.contains_key(key) ==> s.removing(key).1 == s,
        s.has_room(key) || !s.index.contains_key(key) ==> s.trying_to_remove(key).1
            == s.removing(key).1,
        !s.has_room(key) && s.index.contains_key(key) ==> s.trying_to_remove(key) == (
            Err::<Option<Seq<u8>>, RepLogError>(RepLogError::ChangelogFull),
            s,
        ),
{
}

/// Clearing leaves no key, no value and no change, starts an epoch one behind the sequence
/// number of before, and keeps the next entry ID and the limits of the memories.
pub proof fn clearing_keeps_the_next_id_alone(s: RepLogState, key: Seq<u8>, id: u64)
    requires
        s.epoch_start + s.log.len() < u64::MAX,
    ensures
        !s.cleared().index.contains_key(key),
        !s.cleared().store.contains_key(id),
        s.cleared().log.len() == 0,
        s.cleared().epoch_start == s.epoch_start + s.log.len() + 1,
        s.cleared().next_entry_id == s.next_entry_id,
        s.cleared().index_pages == s.index_pages,
        s.cleared().data_pages == s.data_pages,
{
}

/// Compacting leaves no change, starts an epoch at the sequence number, and keeps every key,
/// every value, the next entry ID and the limits of the memories.
pub proof fn compacting_drops_the_changes_alone(s: RepLogState)
    requires
        s.epoch_start + s.log.len() <= u64::MAX,
    ensures
        s.compacted().index == s.index,
        s.compacted().store == s.store,
        s.compacted().log.len() == 0,
        s.compacted().epoch_start == s.epoch_start + s.log.len(),
        s.compacted().next_entry_id == s.next_entry_id,
        s.compacted().index_pages == s.index_pages,
        s.compacted().data_pages == s.data_pages,
{
}

/// A new map has no key, no value and no change, and both counters are zero.
pub proof fn a_new_map_has_nothing(index_pages: u64, data_pages: u64, key: Seq<u8>, id: u64)
    ensures
        ({
            let s = RepLogState::empty(index_pages, data_pages);
            &&& !s.index.contains_key(key)
            &&& !s.store.contains_key(id)
            &&& s.log.len() == 0
            &&& s.next_entry_id == 0
            &&& s.epoch_start == 0
            &&& s.index_pages == index_pages
            &&& s.data_pages == data_pages
        }),
{
}

/// A map whose changelog has no limit of its own has room for a change of any key until its
/// records and the places of its records come near the end of half of all 64-bit addresses; a
/// new one has room for every key that can be stored.
pub proof fn a_map_without_a_limit_has_room(s: RepLogState, key: Seq<u8>)
    requires
        s.index_pages == MAX_PAGES,
        s.data_pages == MAX_PAGES,
    ensures
        s.has_room(key) <==> stored_len(s.log) + key.len() + 41 <= 0x7fff_ffff_ffff_0000 && 8
            * s.log.len() + 48 <= 0x7fff_ffff_ffff_0000,
        s.log.len() == 0 && key.len() <= u32::MAX ==> s.has_room(key),
{
}

/// Keys do not get in each other's way: what is returned for a key, and what it has
/// afterwards, does not depend on whether another key was inserted or removed before.
pub proof fn operations_on_other_keys_do_not_matter(
    s: RepLogState,
    key: Seq<u8>,
    value: Seq<u8>,
    other: Seq<u8>,
    new: Seq<u8>,
)
    requires
        s.consistent(),
        key != other,
        s.can_hold(other),
    ensures
        s.inserting(other, new).1.get(key) == s.get(key),
        s.inserting(other, new).1.inserting(key, value).0 == s.inserting(key, value).0,
        s.inserting(other, new).1.removing(key).0 == s.removing(key).0,
        s.removing(other).1.get(key) == s.get(key),
        s.removing(other).1.inserting(key, value).0 == s.inserting(key, value).0,
        s.removing(other).1.removing(key).0 == s.removing(key).0,
{
    inserting_sets_one_key(s, other, new);
    removing_takes_out_one_key(s, other);
    assert(s.upserted(other, new).get(key) == s.get(key));
    assert(s.removed(other).get(key) == s.get(key));
}

} // verus!
