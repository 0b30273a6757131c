//! A map with built-in change tracking for incremental sync.

use ic_stable_structures::log::WriteError;
use vstd::prelude::*;

use crate::answers::{
    a_pair_and_a_value_for_each_row, all_rows_are_those_of_every_key,
    changes_with_values_are_the_changes, keys_values_and_pairs_line_up,
    the_first_and_the_last_entry,
};
use crate::changelog::{
    encoding_then_decoding_gives_the_counters_back, encoding_then_decoding_gives_the_entry_back,
    ChangeEntry, ChangeKind, Counters,
};
use crate::image::{decoded_log, new_counters, readable_log, Memories};
use crate::laws::{
    a_new_map_is_consistent, a_refused_insertion_changes_nothing, clearing_takes_out_every_key,
    compacting_keeps_the_contents, inserting_sets_one_key, removing_takes_out_one_key,
};
use crate::model::{stored_len, Change, RepLogState};
use crate::order::{
    in_order, in_order_lists_each_key_once_in_order, is_least, key_less, keys_after,
    keys_between, key_less_irreflexive, key_less_transitive, lemma_greatest_unique,
    lemma_in_order_empty, lemma_in_order_step, lemma_least_unique, KeyBound,
};
use crate::storage::{
    changelog_contents, changelog_data_pages, changelog_index_pages, counter_cell_contents,
    found_value, key_index_contents, total_len, value_store_contents, Changelog, CounterCell,
    KeyIndex, PagedMemory, ValueStore, MAX_PAGES,
};

verus! {

/// Why an operation on a replicated map was refused.
#[derive(Debug)]
pub enum RepLogError {
    ChangelogFull,
}

impl RepLogError {
    /// The error in words.
    pub fn to_string(&self) -> (message: String)
        ensures
            message@ == "failed to append to changelog: memory full"@,
    {
        match self {
            RepLogError::ChangelogFull => String::from_str(
                "failed to append to changelog: memory full",
            ),
        }
    }
}

/// A map from byte strings to byte strings with built-in change tracking for
/// incremental sync.
///
/// It is held in four parts:
/// - the key index, from keys to stable entry IDs,
/// - the value store, from entry IDs to values,
/// - the changelog, an append-only log of changes,
/// - the counters: the next entry ID and the start of the epoch.
pub struct RepLogMap {
    key_index: KeyIndex,
    value_store: ValueStore,
    changelog: Changelog,
    counters: CounterCell,
}

proof fn lemma_stored_len(raw: Seq<Seq<u8>>)
    requires
        readable_log(raw),
    ensures
        stored_len(decoded_log(raw)) == total_len(raw),
    decreases raw.len(),
{
    if raw.len() > 0 {
        lemma_stored_len(raw.drop_last());
        assert(decoded_log(raw).drop_last() =~= decoded_log(raw.drop_last()));
        assert(ChangeEntry::<Seq<u8>>::readable(raw[raw.len() - 1]));
    }
}

proof fn lemma_appended(raw: Seq<Seq<u8>>, e: Change)
    requires
        readable_log(raw),
    ensures
        readable_log(raw.push(e.encoded())),
        decoded_log(raw.push(e.encoded())) == decoded_log(raw).push(e),
{
    encoding_then_decoding_gives_the_entry_back(e);
    assert(decoded_log(raw.push(e.encoded())) =~= decoded_log(raw).push(e));
}

/// Keys, as sequences.
pub open spec fn keys_view(keys: Seq<Vec<u8>>) -> Seq<Seq<u8>> {
    keys.map_values(|k: Vec<u8>| k@)
}

/// Keys with their values, as sequences.
pub open spec fn pairs_view(pairs: Seq<(Vec<u8>, Vec<u8>)>) -> Seq<(Seq<u8>, Seq<u8>)> {
    pairs.map_values(|p: (Vec<u8>, Vec<u8>)| (p.0@, p.1@))
}

/// A key with its value that was found, as sequences.
pub open spec fn found_pair(pair: Option<(Vec<u8>, Vec<u8>)>) -> Option<(Seq<u8>, Seq<u8>)> {
    match pair {
        Some((k, v)) => Some((k@, v@)),
        None => None,
    }
}

/// What an operation that may be refused returned, with the value as a sequence.
pub open spec fn outcome(result: Result<Option<Vec<u8>>, RepLogError>) -> Result<
    Option<Seq<u8>>,
    RepLogError,
> {
    match result {
        Ok(value) => Ok(found_value(value)),
        Err(error) => Err(error),
    }
}

/// Entry IDs with their keys and values, as sequences.
pub open spec fn rows_view(rows: Seq<(u64, Vec<u8>, Vec<u8>)>) -> Seq<(u64, Seq<u8>, Seq<u8>)> {
    rows.map_values(|r: (u64, Vec<u8>, Vec<u8>)| (r.0, r.1@, r.2@))
}

/// Changes, with their keys as sequences.
pub open spec fn changes_view(changes: Seq<ChangeEntry<Vec<u8>>>) -> Seq<Change> {
    changes.map_values(|c: ChangeEntry<Vec<u8>>| c@)
}

/// Changes with values, as sequences.
pub open spec fn valued_changes_view(
    changes: Seq<(ChangeEntry<Vec<u8>>, Option<Vec<u8>>)>,
) -> Seq<(Change, Option<Seq<u8>>)> {
    changes.map_values(|c: (ChangeEntry<Vec<u8>>, Option<Vec<u8>>)| (c.0@, found_value(c.1)))
}

/// The keys and values of `rows`.
pub open spec fn pairs_of(rows: Seq<(u64, Seq<u8>, Seq<u8>)>) -> Seq<(Seq<u8>, Seq<u8>)> {
    rows.map_values(|r: (u64, Seq<u8>, Seq<u8>)| (r.1, r.2))
}

/// The values of `rows`.
pub open spec fn values_of(rows: Seq<(u64, Seq<u8>, Seq<u8>)>) -> Seq<Seq<u8>> {
    rows.map_values(|r: (u64, Seq<u8>, Seq<u8>)| r.2)
}

/// A copy of `bytes`.
fn copy_of(bytes: &Vec<u8>) -> (copy: Vec<u8>)
    ensures
        copy@ == bytes@,
{
    let copy = bytes.clone();
    assert(copy@ =~= bytes@);
    copy
}

impl View for RepLogMap {
    type V = RepLogState;

    closed spec fn view(&self) -> RepLogState {
        let counters = Counters::decoded(counter_cell_contents(self.counters));
        RepLogState {
            index: key_index_contents(self.key_index),
            store: value_store_contents(self.value_store),
            log: decoded_log(changelog_contents(self.changelog)),
            next_entry_id: counters.next_entry_id,
            epoch_start: counters.epoch_start,
            index_pages: changelog_index_pages(self.changelog),
            data_pages: changelog_data_pages(self.changelog),
        }
    }
}

impl RepLogMap {
    /// The changelog and the counters can be read.
    pub closed spec fn inv(&self) -> bool {
        &&& readable_log(changelog_contents(self.changelog))
        &&& counter_cell_contents(self.counters).len() >= 16
    }

    /// The map that the memories hold, readable or not.
    fn load(
        key_index_mem: Vec<u8>,
        value_store_mem: Vec<u8>,
        changelog_index_mem: PagedMemory,
        changelog_data_mem: PagedMemory,
        counters_mem: Vec<u8>,
    ) -> (map: Self)
        requires
            (Memories {
                key_index: key_index_mem@,
                value_store: value_store_mem@,
                changelog_index: changelog_index_mem,
                changelog_data: changelog_data_mem,
                counters: counters_mem@,
            }).stored(),
        ensures
            ({
                let memories = Memories {
                    key_index: key_index_mem@,
                    value_store: value_store_mem@,
                    changelog_index: changelog_index_mem,
                    changelog_data: changelog_data_mem,
                    counters: counters_mem@,
                };
                &&& map.inv() <==> memories.valid()
                &&& map@ == memories.state()
            }),
    {
        RepLogMap {
            key_index: KeyIndex::init(key_index_mem),
            value_store: ValueStore::init(value_store_mem),
            changelog: Changelog::init(changelog_index_mem, changelog_data_mem),
            counters: CounterCell::init(counters_mem, Counters::default().to_bytes()),
        }
    }

    /// Initializes a map, loading existing data from the provided memories or
    /// creating new empty structures.
    ///
    /// The memories are the map's own from then on, and every call writes what it changes to
    /// them: `into_memories` gives them back as the last call has left them.
    pub fn init(
        key_index_mem: Vec<u8>,
        value_store_mem: Vec<u8>,
        changelog_index_mem: PagedMemory,
        changelog_data_mem: PagedMemory,
        counters_mem: Vec<u8>,
    ) -> (map: Self)
        requires
            (Memories {
                key_index: key_index_mem@,
                value_store: value_store_mem@,
                changelog_index: changelog_index_mem,
                changelog_data: changelog_data_mem,
                counters: counters_mem@,
            }).valid(),
        ensures
            map.inv(),
            ({
                let memories = Memories {
                    key_index: key_index_mem@,
                    value_store: value_store_mem@,
                    changelog_index: changelog_index_mem,
                    changelog_data: changelog_data_mem,
                    counters: counters_mem@,
                };
                &&& map@ == memories.state()
                &&& memories.new() ==> map@ == RepLogState::empty(
                    changelog_index_mem.max_pages,
                    changelog_data_mem.max_pages,
                )
            }),
    {
        proof {
            encoding_then_decoding_gives_the_counters_back(new_counters());
        }
        assert(decoded_log(Seq::empty()) =~= Seq::empty());
        RepLogMap::load(
            key_index_mem,
            value_store_mem,
            changelog_index_mem,
            changelog_data_mem,
            counters_mem,
        )
    }

    /// Like `init`, for memories that may hold a changelog or counters of another kind: no map
    /// where a change record or the counters cannot be read.
    pub fn try_init(
        key_index_mem: Vec<u8>,
        value_store_mem: Vec<u8>,
        changelog_index_mem: PagedMemory,
        changelog_data_mem: PagedMemory,
        counters_mem: Vec<u8>,
    ) -> (map: Option<Self>)
        requires
            (Memories {
                key_index: key_index_mem@,
                value_store: value_store_mem@,
                changelog_index: changelog_index_mem,
                changelog_data: changelog_data_mem,
                counters: counters_mem@,
            }).stored(),
        ensures
            ({
                let memories = Memories {
                    key_index: key_index_mem@,
                    value_store: value_store_mem@,
                    changelog_index: changelog_index_mem,
                    changelog_data: changelog_data_mem,
                    counters: counters_mem@,
                };
                &&& map is Some <==> memories.valid()
                &&& map matches Some(m) ==> m.inv() && m@ == memories.state()
            }),
    {
        let map = RepLogMap::load(
            key_index_mem,
            value_store_mem,
            changelog_index_mem,
            changelog_data_mem,
            counters_mem,
        );
        if map.is_readable() {
            Some(map)
        } else {
            None
        }
    }

    /// Whether the changelog and the counters can be read.
    fn is_readable(&self) -> (readable: bool)
        ensures
            readable == self.inv(),
    {
        let ghost records = changelog_contents(self.changelog);
        if self.counters.get().len() < 16 {
            return false;
        }
        let len: u64 = self.changelog.len();
        let mut i: u64 = 0;
        while i < len
            invariant
                records == changelog_contents(self.changelog),
                i <= len == records.len(),
                forall|j: int|
                    0 <= j < i ==> ChangeEntry::<Seq<u8>>::readable(#[trigger] records[j]),
            decreases len - i,
        {
            if let Some(record) = self.changelog.get(i) {
                if !ChangeEntry::is_readable(&record) {
                    assert(record@ == records[i as int]);
                    return false;
                }
            }
            i = i + 1;
        }
        true
    }

    /// An empty map in new memories, whose changelog has no limit of its own.
    pub fn new() -> (map: Self)
        ensures
            map.inv(),
            map@ == RepLogState::empty(MAX_PAGES, MAX_PAGES),
            map@.consistent(),
    {
        proof {
            a_new_map_is_consistent(MAX_PAGES, MAX_PAGES);
            encoding_then_decoding_gives_the_counters_back(new_counters());
        }
        RepLogMap::init(
            Vec::new(),
            Vec::new(),
            PagedMemory::default(),
            PagedMemory::default(),
            Vec::new(),
        )
    }

    /// Gives up the memories of the map, in the order in which `init` takes them.
    pub fn into_memories(self) -> (memories: (Vec<u8>, Vec<u8>, PagedMemory, PagedMemory, Vec<u8>))
        requires
            self.inv(),
        ensures
            ({
                let held = Memories {
                    key_index: memories.0@,
                    value_store: memories.1@,
                    changelog_index: memories.2,
                    changelog_data: memories.3,
                    counters: memories.4@,
                };
                held.valid() && held.state() == self@
            }),
    {
        let key_index_mem = self.key_index.into_memory();
        let value_store_mem = self.value_store.into_memory();
        let (changelog_index_mem, changelog_data_mem) = self.changelog.into_memories();
        let counters_mem = self.counters.into_memory();
        (key_index_mem, value_store_mem, changelog_index_mem, changelog_data_mem, counters_mem)
    }

    /// The map after it was given up and initialized again from its memories.
    pub fn reopened(self) -> (map: Self)
        requires
            self.inv(),
        ensures
            map.inv(),
            map@ == self@,
    {
        let (keys, values, changes_index, changes_data, counters) = self.into_memories();
        RepLogMap::try_init(keys, values, changes_index, changes_data, counters).unwrap()
    }

    fn counters(&self) -> (c: Counters)
        requires
            self.inv(),
        ensures
            c == (Counters {
                next_entry_id: self@.next_entry_id,
                epoch_start: self@.epoch_start,
            }),
    {
        Counters::from_bytes(self.counters.get())
    }

    fn set_counters(&mut self, c: Counters)
        requires
            old(self).inv(),
        ensures
            final(self).inv(),
            final(self)@ == (RepLogState {
                next_entry_id: c.next_entry_id,
                epoch_start: c.epoch_start,
                ..old(self)@
            }),
    {
        proof {
            encoding_then_decoding_gives_the_counters_back(c);
        }
        self.counters.set(c.to_bytes());
    }

    /// Appends a change to the changelog.
    fn record(&mut self, kind: ChangeKind, entry_id: u64, key: Vec<u8>) -> (position: Result<
        u64,
        WriteError,
    >)
        requires
            old(self).inv(),
        ensures
            final(self).inv(),
            position is Ok <==> old(self)@.has_room(key@),
            position is Ok ==> final(self)@ == (RepLogState {
                log: old(self)@.log.push(ChangeEntry { kind, entry_id, key: key@ }),
                ..old(self)@
            }),
            position is Err ==> final(self)@ == old(self)@,
    {
        let entry = ChangeEntry { kind, entry_id, key };
        let bytes = entry.to_bytes();
        proof {
            let raw = changelog_contents(self.changelog);
            lemma_stored_len(raw);
            lemma_appended(raw, entry@);
            encoding_then_decoding_gives_the_entry_back(entry@);
        }
        self.changelog.append(&bytes)
    }

    /// Inserts a key-value pair, where the changelog has room for it. Returns the
    /// previous value if the key existed; leaves the map as it is on failure.
    pub fn try_insert(&mut self, key: Vec<u8>, value: Vec<u8>) -> (result: Result<
        Option<Vec<u8>>,
        RepLogError,
    >)
        requires
            old(self).inv(),
            old(self)@.can_hold(key@),
            value@.len() <= u32::MAX,
        ensures
            final(self).inv(),
            (outcome(result), final(self)@) == old(self)@.trying_to_insert(key@, value@),
            result is Ok <==> old(self)@.has_room(key@),
            result matches Ok(previous) ==> {
                &&& previous is Some <==> old(self)@.index.contains_key(key@)
                    && old(self)@.store.contains_key(old(self)@.index[key@])
                &&& previous matches Some(v) ==> v@ == old(self)@.store[old(self)@.index[key@]]
            },
            old(self)@.consistent() ==> final(self)@.consistent(),
    {
        proof {
            if self@.consistent() {
                inserting_sets_one_key(self@, key@, value@);
                a_refused_insertion_changes_nothing(self@, key@);
            }
        }
        match self.key_index.get(&key) {
            Some(entry_id) => {
                let old_value = self.value_store.insert(entry_id, value);
                match self.record(ChangeKind::Upsert, entry_id, copy_of(&key)) {
                    Ok(_) => {
                        assert(self@ =~= old(self)@.upserted(key@, value@));
                        Ok(old_value)
                    },
                    Err(_) => {
                        match old_value {
                            Some(v) => {
                                self.value_store.insert(entry_id, v);
                            },
                            None => {
                                self.value_store.remove(&entry_id);
                            },
                        }
                        assert(self@ =~= old(self)@);
                        Err(RepLogError::ChangelogFull)
                    },
                }
            },
            None => {
                let mut c = self.counters();
                let entry_id: u64 = c.next_entry_id;
                c.next_entry_id = c.next_entry_id + 1;
                self.set_counters(c);

                self.key_index.insert(copy_of(&key), entry_id);
                self.value_store.insert(entry_id, value);
                match self.record(ChangeKind::Upsert, entry_id, copy_of(&key)) {
                    Ok(_) => {
                        assert(self@ =~= old(self)@.upserted(key@, value@));
                        Ok(None)
                    },
                    Err(_) => {
                        self.key_index.remove(&key);
                        self.value_store.remove(&entry_id);
                        c.next_entry_id = c.next_entry_id - 1;
                        self.set_counters(c);
                        assert(self@ =~= old(self)@.upsert_refused(key@));
                        Err(RepLogError::ChangelogFull)
                    },
                }
            },
        }
    }

    /// Removes a key, where the changelog has room for the change. Returns its value
    /// if present; leaves the map as it is on failure.
    pub fn try_remove(&mut self, key: &Vec<u8>) -> (result: Result<Option<Vec<u8>>, RepLogError>)
        requires
            old(self).inv(),
        ensures
            final(self).inv(),
            (outcome(result), final(self)@) == old(self)@.trying_to_remove(key@),
            result is Ok <==> old(self)@.has_room(key@) || !old(self)@.index.contains_key(key@),
            result matches Ok(previous) ==> {
                &&& previous is Some <==> old(self)@.index.contains_key(key@)
                    && old(self)@.store.contains_key(old(self)@.index[key@])
                &&& previous matches Some(v) ==> v@ == old(self)@.store[old(self)@.index[key@]]
            },
            old(self)@.consistent() ==> final(self)@.consistent(),
    {
        proof {
            if self@.consistent() {
                removing_takes_out_one_key(self@, key@);
            }
        }
        let entry_id: u64 = match self.key_index.remove(key) {
            Some(id) => id,
            None => {
                assert(self@ =~= old(self)@);
                return Ok(None);
            },
        };
        let value = self.value_store.remove(&entry_id);
        match self.record(ChangeKind::Delete, entry_id, copy_of(key)) {
            Ok(_) => {
                assert(self@ =~= old(self)@.removed(key@));
                Ok(value)
            },
            Err(_) => {
                self.key_index.insert(copy_of(key), entry_id);
                if let Some(v) = value {
                    self.value_store.insert(entry_id, v);
                }
                assert(self@ =~= old(self)@);
                Err(RepLogError::ChangelogFull)
            },
        }
    }

    /// Inserts a key-value pair. Returns the previous value if the key existed.
    pub fn insert(&mut self, key: Vec<u8>, value: Vec<u8>) -> (previous: Option<Vec<u8>>)
        requires
            old(self).inv(),
            old(self)@.can_hold(key@),
            old(self)@.has_room(key@),
            value@.len() <= u32::MAX,
        ensures
            final(self).inv(),
            (found_value(previous), final(self)@) == old(self)@.inserting(key@, value@),
            previous is Some <==> old(self)@.index.contains_key(key@)
                && old(self)@.store.contains_key(old(self)@.index[key@]),
            previous matches Some(v) ==> v@ == old(self)@.store[old(self)@.index[key@]],
            old(self)@.consistent() ==> final(self)@.consistent(),
    {
        proof {
            if self@.consistent() {
                inserting_sets_one_key(self@, key@, value@);
            }
        }
        match self.key_index.get(&key) {
            Some(entry_id) => {
                let old_value = self.value_store.insert(entry_id, value);
                let _ = self.record(ChangeKind::Upsert, entry_id, copy_of(&key));
                assert(self@ =~= old(self)@.upserted(key@, value@));
                old_value
            },
            None => {
                let mut c = self.counters();
                let entry_id: u64 = c.next_entry_id;
                c.next_entry_id = c.next_entry_id + 1;
                self.set_counters(c);

                self.key_index.insert(copy_of(&key), entry_id);
                self.value_store.insert(entry_id, value);
                let _ = self.record(ChangeKind::Upsert, entry_id, copy_of(&key));
                assert(self@ =~= old(self)@.upserted(key@, value@));
                None
            },
        }
    }

    /// Returns the value associated with the given key.
    pub fn get(&self, key: &Vec<u8>) -> (value: Option<Vec<u8>>)
        ensures
            found_value(value) == self@.get(key@),
            value is Some <==> self@.index.contains_key(key@) && self@.store.contains_key(
                self@.index[key@],
            ),
            value matches Some(v) ==> v@ == self@.store[self@.index[key@]],
    {
        let entry_id: u64 = self.key_index.get(key)?;
        self.value_store.get(&entry_id)
    }

    /// Returns true if the map contains the given key.
    pub fn contains_key(&self, key: &Vec<u8>) -> (found: bool)
        ensures
            found == self@.index.contains_key(key@),
    {
        self.key_index.contains_key(key)
    }

    /// Removes a key from the map, returning its value if present.
    pub fn remove(&mut self, key: &Vec<u8>) -> (previous: Option<Vec<u8>>)
        requires
            old(self).inv(),
            old(self)@.index.contains_key(key@) ==> old(self)@.has_room(key@),
        ensures
            final(self).inv(),
            (found_value(previous), final(self)@) == old(self)@.removing(key@),
            previous is Some <==> old(self)@.index.contains_key(key@)
                && old(self)@.store.contains_key(old(self)@.index[key@]),
            previous matches Some(v) ==> v@ == old(self)@.store[old(self)@.index[key@]],
            old(self)@.consistent() ==> final(self)@.consistent(),
    {
        proof {
            if self@.consistent() {
                removing_takes_out_one_key(self@, key@);
            }
        }
        let entry_id: u64 = match self.key_index.remove(key) {
            Some(id) => id,
            None => {
                assert(self@ =~= old(self)@);
                return None;
            },
        };
        let value = self.value_store.remove(&entry_id);
        let _ = self.record(ChangeKind::Delete, entry_id, copy_of(key));
        assert(self@ =~= old(self)@.removed(key@));
        value
    }

    /// Returns the number of entries in the map.
    pub fn len(&self) -> (n: u64)
        ensures
            self@.index.dom().finite(),
            n == self@.index.len(),
    {
        self.key_index.len()
    }

    /// Returns true if the map is empty.
    pub fn is_empty(&self) -> (empty: bool)
        ensures
            empty == (self@.index == Map::<Seq<u8>, u64>::empty()),
    {
        self.key_index.is_empty()
    }

    /// Removes all entries. The changelog starts anew behind every sequence number so
    /// far, so that every client has to resync; entry IDs go on where they were.
    pub fn clear(&mut self)
        requires
            old(self).inv(),
            old(self)@.current_seq() < u64::MAX,
        ensures
            final(self).inv(),
            final(self)@ == old(self)@.cleared(),
            old(self)@.consistent() ==> final(self)@.consistent(),
    {
        proof {
            if self@.consistent() {
                clearing_takes_out_every_key(self@);
            }
        }
        let invalidation_seq: u64 = self.current_seq() + 1;
        self.key_index.clear();
        self.value_store.clear();
        let next_entry_id: u64 = self.counters().next_entry_id;
        self.changelog.clear();
        self.set_counters(Counters { next_entry_id, epoch_start: invalidation_seq });
        assert(self@ =~= old(self)@.cleared());
    }

    /// Clears the changelog and reclaims its memory. Clients with cursors behind the
    /// new start of the epoch have to resync.
    pub fn compact(&mut self)
        requires
            old(self).inv(),
            old(self)@.current_seq() <= u64::MAX,
        ensures
            final(self).inv(),
            final(self)@ == old(self)@.compacted(),
            old(self)@.consistent() ==> final(self)@.consistent(),
    {
        proof {
            if self@.consistent() {
                compacting_keeps_the_contents(self@);
            }
        }
        let new_epoch: u64 = self.current_seq();
        let c = self.counters();
        self.changelog.clear();
        self.set_counters(Counters { next_entry_id: c.next_entry_id, epoch_start: new_epoch });
        assert(self@ =~= old(self)@.compacted());
    }

    /// Returns the current sequence number.
    pub fn current_seq(&self) -> (seq: u64)
        requires
            self.inv(),
            self@.current_seq() <= u64::MAX,
        ensures
            seq == self@.current_seq(),
            seq == self@.epoch_start + self@.log.len(),
    {
        self.counters().epoch_start + self.changelog.len()
    }

    /// Up to `limit` keys between two ends, in key order, with their entry IDs.
    fn scan(&self, lower: KeyBound, upper: &KeyBound, limit: u64) -> (found: Vec<(Vec<u8>, u64)>)
        ensures
            ({
                let keys = in_order(keys_between(self@.index.dom(), lower, *upper));
                scanned_keys(found@) == (if limit < keys.len() {
                    keys.take(limit as int)
                } else {
                    keys
                })
            }),
            forall|i: int|
                0 <= i < found@.len() ==> (#[trigger] found@[i]).1 == self@.index[found@[i].0@],
    {
        let _ = self.key_index.len();
        let ghost dom = self@.index.dom();
        let ghost keys = in_order(keys_between(dom, lower, *upper));
        let mut found: Vec<(Vec<u8>, u64)> = Vec::new();
        let mut from: KeyBound = lower;
        let mut n: u64 = 0;
        while n < limit
            invariant
                dom == self@.index.dom(),
                dom.finite(),
                n <= limit,
                n == found@.len(),
                keys =~= scanned_keys(found@) + in_order(keys_between(dom, from, *upper)),
                forall|i: int|
                    0 <= i < found@.len() ==> (#[trigger] found@[i]).1
                        == self@.index[found@[i].0@],
            ensures
                n < limit ==> keys == scanned_keys(found@),
            decreases limit - n,
        {
            let ghost rest = keys_between(dom, from, *upper);
            match self.key_index.first_between(&from, upper) {
                Some((key, entry_id)) => {
                    let ghost before = found@;
                    let next: KeyBound = KeyBound::Excluded(copy_of(&key));
                    proof {
                        lemma_rest_after_least(dom, from, *upper, next, key@);
                        lemma_in_order_step(rest, key@);
                    }
                    found.push((key, entry_id));
                    proof {
                        assert(scanned_keys(found@) =~= scanned_keys(before).push(key@));
                    }
                    from = next;
                    n = n + 1;
                },
                None => {
                    proof {
                        lemma_in_order_empty(rest);
                        assert(scanned_keys(found@) + in_order(rest) =~= scanned_keys(found@));
                    }
                    break;
                },
            }
        }
        proof {
            let part = scanned_keys(found@);
            if n == limit {
                assert(keys.take(limit as int) =~= part);
                if keys.len() == limit {
                    assert(keys.take(limit as int) =~= keys);
                }
            }
        }
        found
    }

    /// The entry IDs, keys and values of a scan. A key without a value is left out.
    fn rows_of(&self, found: &Vec<(Vec<u8>, u64)>) -> (rows: Vec<(u64, Vec<u8>, Vec<u8>)>)
        requires
            forall|i: int|
                0 <= i < found@.len() ==> (#[trigger] found@[i]).1 == self@.index[found@[i].0@],
        ensures
            rows_view(rows@) == self@.rows(scanned_keys(found@)),
    {
        let mut rows: Vec<(u64, Vec<u8>, Vec<u8>)> = Vec::new();
        let mut i: usize = 0;
        let ghost keys = scanned_keys(found@);
        while i < found.len()
            invariant
                i <= found.len(),
                keys == scanned_keys(found@),
                forall|j: int|
                    0 <= j < found@.len() ==> (#[trigger] found@[j]).1
                        == self@.index[found@[j].0@],
                rows_view(rows@) == self@.rows(keys.take(i as int)),
            decreases found.len() - i,
        {
            let ghost before = rows@;
            let entry_id: u64 = found[i].1;
            proof {
                assert(keys.take(i + 1).drop_last() =~= keys.take(i as int));
                assert(keys[i as int] == found@[i as int].0@);
            }
            if let Some(value) = self.value_store.get(&entry_id) {
                rows.push((entry_id, copy_of(&found[i].0), value));
                assert(rows_view(rows@) =~= rows_view(before).push(
                    (entry_id, keys[i as int], value@),
                ));
            }
            i = i + 1;
        }
        assert(keys.take(i as int) =~= keys);
        rows
    }

    /// Returns the first key-value pair (minimum key).
    pub fn first_key_value(&self) -> (first: Option<(Vec<u8>, Vec<u8>)>)
        ensures
            found_pair(first) == self@.first(),
            self@.consistent() ==> (first is None <==> self@.index.len() == 0),
            first matches Some((k, v)) ==> {
                &&& self@.index.contains_key(k@)
                &&& self@.store.get(self@.index[k@]) == Some(v@)
                &&& forall|o: Seq<u8>| #[trigger]
                    self@.index.contains_key(o) ==> o == k@ || key_less(k@, o)
            },
    {
        proof {
            if self@.consistent() {
                the_first_and_the_last_entry(self@);
            }
            lemma_members(self@.index);
        }
        let (key, entry_id) = match self.key_index.first_key_value() {
            Some(first) => first,
            None => return None,
        };
        proof {
            lemma_least_unique(self@.index.dom(), key@);
        }
        let value = self.value_store.get(&entry_id)?;
        Some((key, value))
    }

    /// Returns the last key-value pair (maximum key).
    pub fn last_key_value(&self) -> (last: Option<(Vec<u8>, Vec<u8>)>)
        ensures
            found_pair(last) == self@.last(),
            self@.consistent() ==> (last is None <==> self@.index.len() == 0),
            last matches Some((k, v)) ==> {
                &&& self@.index.contains_key(k@)
                &&& self@.store.get(self@.index[k@]) == Some(v@)
                &&& forall|o: Seq<u8>| #[trigger]
                    self@.index.contains_key(o) ==> o == k@ || key_less(o, k@)
            },
    {
        proof {
            if self@.consistent() {
                the_first_and_the_last_entry(self@);
            }
            lemma_members(self@.index);
        }
        let (key, entry_id) = match self.key_index.last_key_value() {
            Some(last) => last,
            None => return None,
        };
        proof {
            lemma_greatest_unique(self@.index.dom(), key@);
        }
        let value = self.value_store.get(&entry_id)?;
        Some((key, value))
    }

    /// Returns all (key, value) pairs in key order.
    pub fn iter(&self) -> (pairs: Vec<(Vec<u8>, Vec<u8>)>)
        ensures
            pairs_view(pairs@) == pairs_of(self@.all_rows()),
            pairs@.len() == self@.all_rows().len(),
            forall|i: int|
                0 <= i < pairs@.len() ==> (#[trigger] pairs@[i]).0@ == self@.all_rows()[i].1
                    && pairs@[i].1@ == self@.all_rows()[i].2,
            self@.consistent() ==> pairs@.len() == self@.index.len(),
    {
        let _ = self.key_index.len();
        proof {
            lemma_unbounded(self@.index.dom());
            all_rows_are_those_of_every_key(self@);
        }
        self.range(KeyBound::Unbounded, KeyBound::Unbounded)
    }

    /// Returns the (key, value) pairs in the given key range, in key order.
    pub fn range(&self, lower: KeyBound, upper: KeyBound) -> (pairs: Vec<(Vec<u8>, Vec<u8>)>)
        ensures
            pairs_view(pairs@) == pairs_of(self@.rows_between(lower, upper)),
            pairs@.len() == self@.rows_between(lower, upper).len(),
            forall|i: int|
                0 <= i < pairs@.len() ==> {
                    let row = self@.rows_between(lower, upper)[i];
                    (#[trigger] pairs@[i]).0@ == row.1 && pairs@[i].1@ == row.2
                },
    {
        let found = self.scan_all(lower, &upper);
        let rows = self.rows_of(&found);
        let mut pairs: Vec<(Vec<u8>, Vec<u8>)> = Vec::new();
        let mut i: usize = 0;
        while i < rows.len()
            invariant
                i <= rows.len(),
                pairs_view(pairs@) == pairs_of(rows_view(rows@)).take(i as int),
            decreases rows.len() - i,
        {
            let ghost before = pairs@;
            pairs.push((copy_of(&rows[i].1), copy_of(&rows[i].2)));
            assert(pairs_view(pairs@) =~= pairs_of(rows_view(rows@)).take(i + 1)) by {
                assert(pairs_view(pairs@) =~= pairs_view(before).push(
                    (rows@[i as int].1@, rows@[i as int].2@),
                ));
            }
            i = i + 1;
        }
        assert(pairs_of(rows_view(rows@)).take(i as int) =~= pairs_of(rows_view(rows@)));
        proof {
            lemma_pairs(pairs@, rows_view(rows@));
        }
        pairs
    }

    /// Every key between two ends, in key order, with its entry ID.
    fn scan_all(&self, lower: KeyBound, upper: &KeyBound) -> (found: Vec<(Vec<u8>, u64)>)
        ensures
            scanned_keys(found@) == in_order(keys_between(self@.index.dom(), lower, *upper)),
            forall|i: int|
                0 <= i < found@.len() ==> (#[trigger] found@[i]).1 == self@.index[found@[i].0@],
    {
        let n: u64 = self.key_index.len();
        proof {
            let between = keys_between(self@.index.dom(), lower, *upper);
            in_order_lists_each_key_once_in_order(between);
            vstd::set_lib::lemma_len_subset(between, self@.index.dom());
        }
        self.scan(lower, upper, n)
    }

    /// Returns all keys in order.
    pub fn keys(&self) -> (keys: Vec<Vec<u8>>)
        ensures
            keys_view(keys@) == in_order(self@.index.dom()),
            keys@.len() == self@.index.len(),
            forall|i: int|
                0 <= i < keys@.len() ==> (#[trigger] keys@[i])@ == in_order(self@.index.dom())[i],
    {
        proof {
            lemma_unbounded(self@.index.dom());
        }
        let found = self.scan_all(KeyBound::Unbounded, &KeyBound::Unbounded);
        let mut keys: Vec<Vec<u8>> = Vec::new();
        let mut i: usize = 0;
        while i < found.len()
            invariant
                i <= found.len(),
                keys_view(keys@) == scanned_keys(found@).take(i as int),
            decreases found.len() - i,
        {
            let ghost before = keys@;
            keys.push(copy_of(&found[i].0));
            assert(keys_view(keys@) =~= scanned_keys(found@).take(i + 1)) by {
                assert(keys_view(keys@) =~= keys_view(before).push(found@[i as int].0@));
            }
            i = i + 1;
        }
        assert(scanned_keys(found@).take(i as int) =~= scanned_keys(found@));
        let _ = self.key_index.len();
        proof {
            in_order_lists_each_key_once_in_order(self@.index.dom());
            lemma_keys(keys@, in_order(self@.index.dom()));
        }
        keys
    }

    /// Returns all values in key order.
    pub fn values(&self) -> (values: Vec<Vec<u8>>)
        ensures
            keys_view(values@) == values_of(self@.all_rows()),
            values@.len() == self@.all_rows().len(),
            forall|i: int|
                0 <= i < values@.len() ==> (#[trigger] values@[i])@ == self@.all_rows()[i].2,
            self@.consistent() ==> {
                &&& values@.len() == self@.index.len()
                &&& forall|i: int|
                    0 <= i < values@.len() ==> (#[trigger] values@[i])@ == self@.store[self@.index[
                    in_order(self@.index.dom())[i]]]
            },
    {
        proof {
            lemma_unbounded(self@.index.dom());
        }
        let found = self.scan_all(KeyBound::Unbounded, &KeyBound::Unbounded);
        let rows = self.rows_of(&found);
        let mut values: Vec<Vec<u8>> = Vec::new();
        let mut i: usize = 0;
        while i < rows.len()
            invariant
                i <= rows.len(),
                keys_view(values@) == values_of(rows_view(rows@)).take(i as int),
            decreases rows.len() - i,
        {
            let ghost before = values@;
            values.push(copy_of(&rows[i].2));
            assert(keys_view(values@) =~= values_of(rows_view(rows@)).take(i + 1)) by {
                assert(keys_view(values@) =~= keys_view(before).push(rows@[i as int].2@));
            }
            i = i + 1;
        }
        assert(values_of(rows_view(rows@)).take(i as int) =~= values_of(rows_view(rows@)));
        proof {
            lemma_keys(values@, values_of(self@.all_rows()));
            if self@.consistent() {
                lemma_values(self@);
            }
        }
        values
    }

    /// Returns the value for a given entry ID, bypassing key lookup.
    pub fn get_value_by_id(&self, entry_id: u64) -> (value: Option<Vec<u8>>)
        ensures
            found_value(value) == self@.store.get(entry_id),
            value is Some <==> self@.store.contains_key(entry_id),
            value matches Some(v) ==> v@ == self@.store[entry_id],
    {
        self.value_store.get(&entry_id)
    }

    /// Returns the number of entries in the changelog.
    pub fn changelog_len(&self) -> (n: u64)
        ensures
            n == self@.log.len(),
    {
        self.changelog.len()
    }

    /// Returns the current epoch start sequence number.
    pub fn epoch_start(&self) -> (seq: u64)
        requires
            self.inv(),
        ensures
            seq == self@.epoch_start,
    {
        self.counters().epoch_start
    }

    /// Returns the next entry ID that will be assigned.
    pub fn next_entry_id(&self) -> (entry_id: u64)
        requires
            self.inv(),
        ensures
            entry_id == self@.next_entry_id,
    {
        self.counters().next_entry_id
    }

    /// Returns up to `limit` changelog entries starting from `since_seq`.
    ///
    /// Returns `None` if `since_seq` is behind a compacted changelog
    /// (client must do a full resync via `snapshot_page`).
    ///
    /// Returns `Some((entries, next_seq))` where `next_seq` is the
    /// sequence number to pass on the next call.
    pub fn changes_since(&self, since_seq: u64, limit: u64) -> (changes: Option<
        (Vec<ChangeEntry<Vec<u8>>>, u64),
    >)
        requires
            self.inv(),
            self@.changes_since(since_seq, limit) matches Some(c) ==> c.1 <= u64::MAX,
        ensures
            changes is Some <==> self@.changes_since(since_seq, limit) is Some,
            changes matches Some(c) ==> self@.changes_since(since_seq, limit) == Some(
                (changes_view(c.0@), c.1 as nat),
            ),
            changes is Some <==> self@.epoch_start <= since_seq,
            changes matches Some(c) ==> {
                let left = self@.epoch_start + self@.log.len() - since_seq;
                &&& c.0@.len() == (if left <= 0 {
                    0
                } else if limit < left {
                    limit as int
                } else {
                    left
                })
                &&& c.1 == (if left <= 0 {
                    self@.epoch_start + self@.log.len()
                } else {
                    since_seq + c.0@.len()
                })
                &&& forall|i: int|
                    0 <= i < c.0@.len() ==> {
                        let logged = self@.log[since_seq - self@.epoch_start + i];
                        &&& (#[trigger] c.0@[i]).kind == logged.kind
                        &&& c.0@[i].entry_id == logged.entry_id
                        &&& c.0@[i].key@ == logged.key
                    }
            },
    {
        let c = self.counters();

        if since_seq < c.epoch_start {
            return None;
        }
        let offset: u64 = since_seq - c.epoch_start;
        let log_len: u64 = self.changelog.len();

        if offset >= log_len {
            let entries: Vec<ChangeEntry<Vec<u8>>> = Vec::new();
            assert(changes_view(entries@) =~= Seq::empty());
            return Some((entries, self.current_seq()));
        }
        let end: u64 = if limit < log_len - offset {
            offset + limit
        } else {
            log_len
        };

        let mut entries: Vec<ChangeEntry<Vec<u8>>> = Vec::new();
        let mut next_seq: u64 = since_seq;
        let mut i: u64 = offset;
        while i < end
            invariant
                self.inv(),
                offset <= i <= end,
                end <= self@.log.len(),
                changes_view(entries@) == self@.log.subrange(offset as int, i as int),
                next_seq == since_seq + (i - offset),
                since_seq + (end - offset) <= u64::MAX,
            decreases end - i,
        {
            let ghost before = entries@;
            if let Some(bytes) = self.changelog.get(i) {
                let entry = ChangeEntry::from_bytes(bytes);
                assert(entry@ == self@.log[i as int]);
                entries.push(entry);
                assert(changes_view(entries@) =~= changes_view(before).push(entry@));
            }
            assert(changes_view(entries@) =~= self@.log.subrange(offset as int, i + 1));
            next_seq = next_seq + 1;
            i = i + 1;
        }
        proof {
            lemma_changes(entries@, self@.log.subrange(offset as int, end as int));
        }
        Some((entries, next_seq))
    }

    /// Like `changes_since`, with the value that the key of each change has now;
    /// a removal has none, and neither has a key that is gone.
    pub fn changes_with_values_since(&self, since_seq: u64, limit: u64) -> (changes: Option<
        (Vec<(ChangeEntry<Vec<u8>>, Option<Vec<u8>>)>, u64),
    >)
        requires
            self.inv(),
            self@.changes_since(since_seq, limit) matches Some(c) ==> c.1 <= u64::MAX,
        ensures
            changes is Some <==> self@.changes_since(since_seq, limit) is Some,
            changes matches Some(c) ==> {
                let plain = self@.changes_since(since_seq, limit)->0;
                &&& valued_changes_view(c.0@) == plain.0.map_values(
                    |change: Change| self@.with_value(change),
                )
                &&& c.1 == plain.1
                &&& c.0@.len() == plain.0.len()
                &&& forall|i: int|
                    0 <= i < c.0@.len() ==> {
                        let (change, value) = #[trigger] c.0@[i];
                        &&& change.kind == plain.0[i].kind
                        &&& change.entry_id == plain.0[i].entry_id
                        &&& change.key@ == plain.0[i].key
                        &&& value is Some <==> change.kind == ChangeKind::Upsert
                            && self@.index.contains_key(change.key@) && self@.store.contains_key(
                            self@.index[change.key@],
                        )
                        &&& value matches Some(v) ==> v@ == self@.store[self@.index[change.key@]]
                    }
            },
    {
        let (entries, next_seq) = match self.changes_since(since_seq, limit) {
            Some(changes) => changes,
            None => return None,
        };
        let ghost plain = changes_view(entries@);
        let ghost valued = plain.map_values(|change: Change| self@.with_value(change));
        let mut with_values: Vec<(ChangeEntry<Vec<u8>>, Option<Vec<u8>>)> = Vec::new();
        let mut i: usize = 0;
        while i < entries.len()
            invariant
                i <= entries.len(),
                plain == changes_view(entries@),
                valued == plain.map_values(|change: Change| self@.with_value(change)),
                valued_changes_view(with_values@) == valued.take(i as int),
            decreases entries.len() - i,
        {
            let ghost before = with_values@;
            let entry = ChangeEntry {
                kind: entries[i].kind,
                entry_id: entries[i].entry_id,
                key: copy_of(&entries[i].key),
            };
            let value = if entry.is_upsert() {
                self.get(&entry.key)
            } else {
                None
            };
            assert(entry@ == plain[i as int]);
            with_values.push((entry, value));
            assert(valued_changes_view(with_values@) =~= valued.take(i + 1)) by {
                assert(valued_changes_view(with_values@) =~= valued_changes_view(before).push(
                    (entry@, found_value(value)),
                ));
            }
            i = i + 1;
        }
        assert(valued.take(i as int) =~= valued);
        proof {
            lemma_valued(self@, with_values@, plain);
        }
        Some((with_values, next_seq))
    }

    /// Returns a page of the full map contents for initial/re-sync.
    ///
    /// Entries are returned in key order. Pass the last key received as
    /// `after_key` to paginate. Returns `(entries, current_seq)`.
    pub fn snapshot_page(&self, after_key: Option<&Vec<u8>>, limit: u64) -> (page: (
        Vec<(u64, Vec<u8>, Vec<u8>)>,
        u64,
    ))
        requires
            self.inv(),
            self@.current_seq() <= u64::MAX,
        ensures
            rows_view(page.0@) == self@.page(key_view(after_key), limit),
            page.1 == self@.current_seq(),
            page.0@.len() == self@.page(key_view(after_key), limit).len(),
            forall|i: int|
                0 <= i < page.0@.len() ==> {
                    let row = self@.page(key_view(after_key), limit)[i];
                    &&& (#[trigger] page.0@[i]).0 == row.0
                    &&& page.0@[i].1@ == row.1
                    &&& page.0@[i].2@ == row.2
                },
            page.1 == self@.epoch_start + self@.log.len(),
    {
        let lower: KeyBound = match after_key {
            Some(k) => KeyBound::Excluded(copy_of(k)),
            None => KeyBound::Unbounded,
        };
        let upper: KeyBound = KeyBound::Unbounded;
        let found = self.scan(lower, &upper, limit);
        proof {
            assert(keys_between(self@.index.dom(), lower, upper) =~= keys_after(
                self@.index.dom(),
                key_view(after_key),
            ));
        }
        let rows = self.rows_of(&found);
        proof {
            lemma_rows_view(rows@);
        }
        (rows, self.current_seq())
    }
}

/// The keys of a map are the members of its domain.
proof fn lemma_members(index: Map<Seq<u8>, u64>)
    ensures
        forall|k: Seq<u8>| #[trigger] index.contains_key(k) ==> index.dom().contains(k),
{
}

proof fn lemma_keys(keys: Seq<Vec<u8>>, listed: Seq<Seq<u8>>)
    requires
        keys_view(keys) == listed,
    ensures
        keys.len() == listed.len(),
        forall|i: int| 0 <= i < keys.len() ==> (#[trigger] keys[i])@ == listed[i],
{
    assert forall|i: int| 0 <= i < keys.len() implies (#[trigger] keys[i])@ == listed[i] by {
        assert(keys_view(keys)[i] == keys[i]@);
    }
}

proof fn lemma_pairs(pairs: Seq<(Vec<u8>, Vec<u8>)>, rows: Seq<(u64, Seq<u8>, Seq<u8>)>)
    requires
        pairs_view(pairs) == pairs_of(rows),
    ensures
        pairs.len() == rows.len(),
        forall|i: int|
            0 <= i < pairs.len() ==> (#[trigger] pairs[i]).0@ == rows[i].1 && pairs[i].1@
                == rows[i].2,
{
    a_pair_and_a_value_for_each_row(rows);
    assert(pairs_view(pairs).len() == pairs.len());
    assert forall|i: int| 0 <= i < pairs.len() implies (#[trigger] pairs[i]).0@ == rows[i].1
        && pairs[i].1@ == rows[i].2 by {
        assert(pairs_view(pairs)[i] == pairs_of(rows)[i]);
    }
}

proof fn lemma_changes(entries: Seq<ChangeEntry<Vec<u8>>>, changes: Seq<Change>)
    requires
        changes_view(entries) == changes,
    ensures
        entries.len() == changes.len(),
        forall|i: int|
            0 <= i < entries.len() ==> {
                &&& (#[trigger] entries[i]).kind == changes[i].kind
                &&& entries[i].entry_id == changes[i].entry_id
                &&& entries[i].key@ == changes[i].key
            },
{
    assert(changes_view(entries).len() == entries.len());
    assert forall|i: int| 0 <= i < entries.len() implies {
        &&& (#[trigger] entries[i]).kind == changes[i].kind
        &&& entries[i].entry_id == changes[i].entry_id
        &&& entries[i].key@ == changes[i].key
    } by {
        assert(changes_view(entries)[i] == entries[i]@);
    }
}

proof fn lemma_rows_view(rows: Seq<(u64, Vec<u8>, Vec<u8>)>)
    ensures
        rows_view(rows).len() == rows.len(),
        forall|i: int|
            0 <= i < rows.len() ==> (#[trigger] rows[i]).0 == rows_view(rows)[i].0 && rows[i].1@
                == rows_view(rows)[i].1 && rows[i].2@ == rows_view(rows)[i].2,
{
}

/// The values of a consistent map are those of its keys.
proof fn lemma_values(s: RepLogState)
    requires
        s.consistent(),
    ensures
        s.all_rows().len() == s.index.len(),
        forall|i: int|
            0 <= i < s.all_rows().len() ==> (#[trigger] s.all_rows()[i]).2 == s.store[s.index[
            in_order(s.index.dom())[i]]],
{
    keys_values_and_pairs_line_up(s);
    let keys = in_order(s.index.dom());
    assert forall|i: int| 0 <= i < s.all_rows().len() implies (#[trigger] s.all_rows()[i]).2
        == s.store[s.index[keys[i]]] by {
        assert(s.index.contains_key(keys[i]));
        assert(values_of(s.all_rows())[i] == s.all_rows()[i].2);
    }
}

/// Changes with values are the changes, each with the value of its key.
proof fn lemma_valued(
    s: RepLogState,
    valued: Seq<(ChangeEntry<Vec<u8>>, Option<Vec<u8>>)>,
    plain: Seq<Change>,
)
    requires
        valued_changes_view(valued) == plain.map_values(|change: Change| s.with_value(change)),
    ensures
        valued.len() == plain.len(),
        forall|i: int|
            0 <= i < valued.len() ==> {
                let (change, value) = #[trigger] valued[i];
                &&& change.kind == plain[i].kind
                &&& change.entry_id == plain[i].entry_id
                &&& change.key@ == plain[i].key
                &&& value is Some <==> change.kind == ChangeKind::Upsert && s.index.contains_key(
                    change.key@,
                ) && s.store.contains_key(s.index[change.key@])
                &&& value matches Some(v) ==> v@ == s.store[s.index[change.key@]]
            },
{
    let with = plain.map_values(|change: Change| s.with_value(change));
    assert(valued_changes_view(valued).len() == valued.len());
    assert(with.len() == plain.len());
    assert forall|i: int| 0 <= i < valued.len() implies {
        let (change, value) = #[trigger] valued[i];
        &&& change.kind == plain[i].kind
        &&& change.entry_id == plain[i].entry_id
        &&& change.key@ == plain[i].key
        &&& value is Some <==> change.kind == ChangeKind::Upsert && s.index.contains_key(
            change.key@,
        ) && s.store.contains_key(s.index[change.key@])
        &&& value matches Some(v) ==> v@ == s.store[s.index[change.key@]]
    } by {
        assert(valued_changes_view(valued)[i] == with[i]);
        assert(with[i] == s.with_value(plain[i]));
        changes_with_values_are_the_changes(s, plain[i]);
    }
}

/// A key that may be missing, as a sequence.
pub open spec fn key_view(key: Option<&Vec<u8>>) -> Option<Seq<u8>> {
    match key {
        Some(k) => Some(k@),
        None => None,
    }
}

/// A range without ends holds every key.
proof fn lemma_unbounded(dom: Set<Seq<u8>>)
    ensures
        keys_between(dom, KeyBound::Unbounded, KeyBound::Unbounded) == dom,
{
    assert(keys_between(dom, KeyBound::Unbounded, KeyBound::Unbounded) =~= dom);
}

/// The keys of a scan, as sequences.
spec fn scanned_keys(found: Seq<(Vec<u8>, u64)>) -> Seq<Seq<u8>> {
    found.map_values(|f: (Vec<u8>, u64)| f.0@)
}

/// Behind its first key, a range goes on with the keys after that key.
proof fn lemma_rest_after_least(
    dom: Set<Seq<u8>>,
    from: KeyBound,
    upper: KeyBound,
    next: KeyBound,
    key: Seq<u8>,
)
    requires
        is_least(keys_between(dom, from, upper), key),
        next matches KeyBound::Excluded(k) && k@ == key,
    ensures
        keys_between(dom, next, upper) == keys_between(dom, from, upper).remove(key),
{
    let rest = keys_between(dom, from, upper);
    let after = keys_between(dom, next, upper);
    assert forall|o: Seq<u8>| after.contains(o) <==> rest.remove(key).contains(o) by {
        key_less_irreflexive(key);
        if after.contains(o) {
            match from {
                KeyBound::Included(b) => {
                    if key != b@ {
                        key_less_transitive(b@, key, o);
                    }
                },
                KeyBound::Excluded(b) => {
                    key_less_transitive(b@, key, o);
                },
                KeyBound::Unbounded => {},
            }
        }
    }
    assert(after =~= rest.remove(key));
}

} // verus!
