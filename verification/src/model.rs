//! What a replicated map holds, and what each operation makes of it.

use vstd::prelude::*;

use crate::changelog::{ChangeEntry, ChangeKind};
use crate::order::{greatest, in_order, keys_after, keys_between, least, KeyBound};
use crate::replog::RepLogError;
use crate::storage::record_fits;

verus! {

/// A record of the changelog, its key as a sequence.
pub type Change = ChangeEntry<Seq<u8>>;

/// The contents of a replicated map.
#[verifier::ext_equal]
pub struct RepLogState {
    /// The entry ID of each key.
    pub index: Map<Seq<u8>, u64>,
    /// The value of each entry ID.
    pub store: Map<u64, Seq<u8>>,
    /// The changes since the epoch began, oldest first.
    pub log: Seq<Change>,
    /// The entry ID that the next new key gets.
    pub next_entry_id: u64,
    /// The sequence number at which the changelog begins.
    pub epoch_start: u64,
    /// The number of pages that the changelog's index memory may grow to.
    pub index_pages: u64,
    /// The number of pages that the changelog's data memory may grow to.
    pub data_pages: u64,
}

/// The number of bytes that the records of a changelog take up in its data memory:
/// nine for each, and its key.
pub open spec fn stored_len(log: Seq<Change>) -> nat
    decreases log.len(),
{
    if log.len() == 0 {
        0
    } else {
        stored_len(log.drop_last()) + 9 + log.last().key.len()
    }
}

/// What the last of `changes` to `key` was; `None` where none is of that key.
pub open spec fn last_change(changes: Seq<Change>, key: Seq<u8>) -> Option<ChangeKind>
    decreases changes.len(),
{
    if changes.len() == 0 {
        None
    } else if changes.last().key == key {
        Some(changes.last().kind)
    } else {
        last_change(changes.drop_last(), key)
    }
}

/// What the last of `changes` to `id` was; `None` where none is of that entry ID.
pub open spec fn last_change_by_id(changes: Seq<Change>, id: u64) -> Option<ChangeKind>
    decreases changes.len(),
{
    if changes.len() == 0 {
        None
    } else if changes.last().entry_id == id {
        Some(changes.last().kind)
    } else {
        last_change_by_id(changes.drop_last(), id)
    }
}

/// The last change of two runs of changes is the one in the second run, where that has one.
pub(crate) proof fn lemma_last_change_joined(a: Seq<Change>, b: Seq<Change>, key: Seq<u8>)
    ensures
        last_change(a + b, key) == (if last_change(b, key) is Some {
            last_change(b, key)
        } else {
            last_change(a, key)
        }),
    decreases b.len(),
{
    if b.len() == 0 {
        assert(a + b =~= a);
    } else {
        assert((a + b).drop_last() =~= a + b.drop_last());
        lemma_last_change_joined(a, b.drop_last(), key);
    }
}

/// The same of the changes of an entry ID.
pub(crate) proof fn lemma_last_change_by_id_joined(a: Seq<Change>, b: Seq<Change>, id: u64)
    ensures
        last_change_by_id(a + b, id) == (if last_change_by_id(b, id) is Some {
            last_change_by_id(b, id)
        } else {
            last_change_by_id(a, id)
        }),
    decreases b.len(),
{
    if b.len() == 0 {
        assert(a + b =~= a);
    } else {
        assert((a + b).drop_last() =~= a + b.drop_last());
        lemma_last_change_by_id_joined(a, b.drop_last(), id);
    }
}

impl RepLogState {
    /// A map without keys whose changelog has never held a change.
    pub open spec fn empty(index_pages: u64, data_pages: u64) -> Self {
        RepLogState {
            index: Map::empty(),
            store: Map::empty(),
            log: Seq::empty(),
            next_entry_id: 0,
            epoch_start: 0,
            index_pages,
            data_pages,
        }
    }

    /// Every key has a value under its entry ID, no two keys share an entry ID, no
    /// value is without a key, every entry ID in use, now or in the changelog, was
    /// given out before, a change of an entry ID in use is one of the key that has it, and
    /// the last change of a key or of an entry ID tells whether it is there.
    pub open spec fn consistent(self) -> bool {
        &&& self.index.dom().finite()
        &&& forall|k: Seq<u8>| #[trigger]
            self.index.contains_key(k) ==> self.store.contains_key(self.index[k])
                && self.index[k] < self.next_entry_id
        &&& forall|a: Seq<u8>, b: Seq<u8>|
            #![trigger self.index[a], self.index[b]]
            self.index.contains_key(a) && self.index.contains_key(b) && self.index[a]
                == self.index[b] ==> a == b
        &&& forall|id: u64| #[trigger]
            self.store.contains_key(id) ==> exists|k: Seq<u8>| self.has_id(k, id)
        &&& forall|i: int|
            0 <= i < self.log.len() ==> (#[trigger] self.log[i]).entry_id < self.next_entry_id
                && (self.store.contains_key(self.log[i].entry_id) ==> self.has_id(
                self.log[i].key,
                self.log[i].entry_id,
            ))
        &&& self.log_tells_keys()
        &&& self.log_tells_ids()
    }

    /// A key with a change in the changelog is there if and only if its last change was
    /// not a removal.
    pub open spec fn log_tells_keys(self) -> bool {
        forall|k: Seq<u8>|
            match #[trigger] last_change(self.log, k) {
                Some(ChangeKind::Upsert) => self.index.contains_key(k),
                Some(ChangeKind::Delete) => !self.index.contains_key(k),
                None => true,
            }
    }

    /// An entry ID with a change in the changelog is in use if and only if its last
    /// change was not a removal.
    pub open spec fn log_tells_ids(self) -> bool {
        forall|id: u64|
            match #[trigger] last_change_by_id(self.log, id) {
                Some(ChangeKind::Upsert) => self.store.contains_key(id),
                Some(ChangeKind::Delete) => !self.store.contains_key(id),
                None => true,
            }
    }

    /// `k` is a key with the entry ID `id`.
    pub open spec fn has_id(self, k: Seq<u8>, id: u64) -> bool {
        self.index.contains_key(k) && self.index[k] == id
    }

    /// The key that has the entry ID `id`.
    pub open spec fn key_of(self, id: u64) -> Seq<u8> {
        choose|k: Seq<u8>| self.has_id(k, id)
    }

    /// The key and the value of each entry ID.
    pub open spec fn contents_by_id(self) -> Map<u64, (Seq<u8>, Seq<u8>)> {
        Map::new(
            |id: u64| self.store.contains_key(id),
            |id: u64| (self.key_of(id), self.store[id]),
        )
    }

    /// The value of each key.
    pub open spec fn contents(self) -> Map<Seq<u8>, Seq<u8>> {
        Map::new(
            |k: Seq<u8>| self.index.contains_key(k) && self.store.contains_key(self.index[k]),
            |k: Seq<u8>| self.store[self.index[k]],
        )
    }

    /// The value of a key, where it has one.
    pub open spec fn get(self, key: Seq<u8>) -> Option<Seq<u8>> {
        if self.index.contains_key(key) {
            self.store.get(self.index[key])
        } else {
            None
        }
    }

    /// The current sequence number: one more for each change since the epoch began.
    pub open spec fn current_seq(self) -> nat {
        self.epoch_start as nat + self.log.len()
    }

    /// Whether the changelog has room for one more change of `key`.
    pub open spec fn has_room(self, key: Seq<u8>) -> bool {
        record_fits(
            self.log.len(),
            stored_len(self.log),
            9 + key.len(),
            self.index_pages,
            self.data_pages,
        )
    }

    /// The entry ID of a key, the next one for a key without.
    pub open spec fn id_for(self, key: Seq<u8>) -> u64 {
        if self.index.contains_key(key) {
            self.index[key]
        } else {
            self.next_entry_id
        }
    }

    /// Whether there is an entry ID for `key`, and the key is short enough to be stored.
    pub open spec fn can_hold(self, key: Seq<u8>) -> bool {
        self.index.contains_key(key) || (self.next_entry_id < u64::MAX && key.len() <= u32::MAX)
    }

    /// The map after `key` was given `value`.
    pub open spec fn upserted(self, key: Seq<u8>, value: Seq<u8>) -> Self {
        let id = self.id_for(key);
        RepLogState {
            index: self.index.insert(key, id),
            store: self.store.insert(id, value),
            log: self.log.push(ChangeEntry { kind: ChangeKind::Upsert, entry_id: id, key }),
            next_entry_id: if self.index.contains_key(key) {
                self.next_entry_id
            } else {
                (self.next_entry_id + 1) as u64
            },
            ..self
        }
    }

    /// The map after `key` could not be given a value: nothing is under the entry ID
    /// that a new key would have had.
    pub open spec fn upsert_refused(self, key: Seq<u8>) -> Self {
        if self.index.contains_key(key) {
            self
        } else {
            RepLogState { store: self.store.remove(self.next_entry_id), ..self }
        }
    }

    /// What inserting a key returns and leaves behind.
    pub open spec fn inserting(self, key: Seq<u8>, value: Seq<u8>) -> (Option<Seq<u8>>, Self) {
        (self.get(key), self.upserted(key, value))
    }

    /// What trying to insert a key returns and leaves behind.
    pub open spec fn trying_to_insert(self, key: Seq<u8>, value: Seq<u8>) -> (
        Result<Option<Seq<u8>>, RepLogError>,
        Self,
    ) {
        if self.has_room(key) {
            (Ok(self.get(key)), self.upserted(key, value))
        } else {
            (Err(RepLogError::ChangelogFull), self.upsert_refused(key))
        }
    }

    /// What removing a key returns and leaves behind.
    pub open spec fn removing(self, key: Seq<u8>) -> (Option<Seq<u8>>, Self) {
        (self.get(key), self.removed(key))
    }

    /// What trying to remove a key returns and leaves behind.
    pub open spec fn trying_to_remove(self, key: Seq<u8>) -> (
        Result<Option<Seq<u8>>, RepLogError>,
        Self,
    ) {
        if self.index.contains_key(key) ==> self.has_room(key) {
            (Ok(self.get(key)), self.removed(key))
        } else {
            (Err(RepLogError::ChangelogFull), self)
        }
    }

    /// The map after `key` was removed; the same map where it has no such key.
    pub open spec fn removed(self, key: Seq<u8>) -> Self {
        if self.index.contains_key(key) {
            let id = self.index[key];
            RepLogState {
                index: self.index.remove(key),
                store: self.store.remove(id),
                log: self.log.push(ChangeEntry { kind: ChangeKind::Delete, entry_id: id, key }),
                ..self
            }
        } else {
            self
        }
    }

    /// The map after everything was removed: no cursor from before is valid in it.
    pub open spec fn cleared(self) -> Self {
        RepLogState {
            index: Map::empty(),
            store: Map::empty(),
            log: Seq::empty(),
            epoch_start: (self.current_seq() + 1) as u64,
            ..self
        }
    }

    /// The map after its changelog was emptied.
    pub open spec fn compacted(self) -> Self {
        RepLogState { log: Seq::empty(), epoch_start: self.current_seq() as u64, ..self }
    }

    /// Up to `limit` changes behind the cursor `since`, with the cursor for the next
    /// request; `None` where the changelog begins after the cursor.
    pub open spec fn changes_since(self, since: u64, limit: u64) -> Option<(Seq<Change>, nat)> {
        if since < self.epoch_start {
            None
        } else if since >= self.current_seq() {
            Some((Seq::empty(), self.current_seq()))
        } else {
            let offset = since - self.epoch_start;
            let end = if offset + limit < self.log.len() {
                offset + limit
            } else {
                self.log.len() as int
            };
            Some((self.log.subrange(offset, end), (self.epoch_start + end) as nat))
        }
    }

    /// A change with the value that its key has now; a removal with none.
    pub open spec fn with_value(self, change: Change) -> (Change, Option<Seq<u8>>) {
        (
            change,
            if change.kind == ChangeKind::Upsert {
                self.get(change.key)
            } else {
                None
            },
        )
    }

    /// The entry IDs and values of `keys`, in the order of `keys`. A key without a
    /// value is left out.
    pub open spec fn rows(self, keys: Seq<Seq<u8>>) -> Seq<(u64, Seq<u8>, Seq<u8>)>
        decreases keys.len(),
    {
        if keys.len() == 0 {
            Seq::empty()
        } else {
            let before = self.rows(keys.drop_last());
            let id = self.index[keys.last()];
            if self.store.contains_key(id) {
                before.push((id, keys.last(), self.store[id]))
            } else {
                before
            }
        }
    }

    /// The keys of a page: up to `limit` keys after `after`, in key order.
    pub open spec fn page_keys(self, after: Option<Seq<u8>>, limit: u64) -> Seq<Seq<u8>> {
        let keys = in_order(keys_after(self.index.dom(), after));
        if limit < keys.len() {
            keys.take(limit as int)
        } else {
            keys
        }
    }

    /// The rows of a page: up to `limit` keys after `after`, in key order.
    pub open spec fn page(self, after: Option<Seq<u8>>, limit: u64) -> Seq<
        (u64, Seq<u8>, Seq<u8>),
    > {
        self.rows(self.page_keys(after, limit))
    }

    /// Every row, in key order.
    pub open spec fn all_rows(self) -> Seq<(u64, Seq<u8>, Seq<u8>)> {
        self.rows(in_order(self.index.dom()))
    }

    /// The rows whose keys lie between two ends, in key order.
    pub open spec fn rows_between(self, lower: KeyBound, upper: KeyBound) -> Seq<
        (u64, Seq<u8>, Seq<u8>),
    > {
        self.rows(in_order(keys_between(self.index.dom(), lower, upper)))
    }

    /// `key` with its value, where it has one.
    pub open spec fn pair(self, key: Seq<u8>) -> Option<(Seq<u8>, Seq<u8>)> {
        match self.get(key) {
            Some(value) => Some((key, value)),
            None => None,
        }
    }

    /// The first key with its value; `None` in an empty map.
    pub open spec fn first(self) -> Option<(Seq<u8>, Seq<u8>)> {
        if self.index.dom() == Set::<Seq<u8>>::empty() {
            None
        } else {
            self.pair(least(self.index.dom()))
        }
    }

    /// The last key with its value; `None` in an empty map.
    pub open spec fn last(self) -> Option<(Seq<u8>, Seq<u8>)> {
        if self.index.dom() == Set::<Seq<u8>>::empty() {
            None
        } else {
            self.pair(greatest(self.index.dom()))
        }
    }
}

} // verus!
