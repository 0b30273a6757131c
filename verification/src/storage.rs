//! The stored parts of a replicated map, each held by a structure of
//! `ic_stable_structures` in memory of its own.
//!
//! The structures themselves are not verified: each of the functions marked
//! `external_body` hands its arguments to that crate, and its contract says what
//! is believed of the call. A structure owns its memory, so that nothing else
//! writes to it; running out of heap, which aborts, is not considered.

use std::cell::RefCell;
use std::ops::Bound;

use ic_stable_structures::log::WriteError;
use ic_stable_structures::{BTreeMap, Cell, Log, RestrictedMemory, VectorMemory};
use vstd::prelude::*;

use crate::order::{is_greatest, is_least, keys_between, KeyBound};

verus! {

/// The number of bytes in a page of memory.
pub const PAGE_SIZE: u64 = 65536;

/// The largest number of pages that a memory can grow to.
pub const MAX_PAGES: u64 = 140737488355327;

/// The error of `ic_stable_structures::Log::append`.
#[verifier::external_type_specification]
#[verifier::external_body]
pub struct ExWriteError(WriteError);

/// A memory that grows page by page up to a limit.
pub struct PagedMemory {
    /// What the memory holds: a whole number of pages, none in a new memory.
    pub bytes: Vec<u8>,
    /// The number of pages that the memory may grow to.
    pub max_pages: u64,
}

impl PagedMemory {
    /// The memory holds whole pages, no more than its limit, and has room for one.
    pub open spec fn valid(self) -> bool {
        &&& self.bytes@.len() % PAGE_SIZE as nat == 0
        &&& self.bytes@.len() <= self.max_pages * PAGE_SIZE
        &&& 1 <= self.max_pages <= MAX_PAGES
    }
}

impl Default for PagedMemory {
    /// A new memory that may grow without a limit of its own.
    fn default() -> (memory: Self)
        ensures
            memory.valid(),
            memory.bytes@.len() == 0,
            memory.max_pages == MAX_PAGES,
    {
        PagedMemory { bytes: Vec::new(), max_pages: MAX_PAGES }
    }
}

/// The stable map from keys to entry IDs.
#[verifier::external_body]
pub struct KeyIndex {
    tree: BTreeMap<Vec<u8>, u64, RefCell<Vec<u8>>>,
}

/// The entry ID of each key in a key index.
pub uninterp spec fn key_index_contents(index: KeyIndex) -> Map<Seq<u8>, u64>;

/// What `BTreeMap::init` reads as a key index from a memory that holds `bytes`;
/// `None` where no key index can be read from them.
pub uninterp spec fn key_index_image(bytes: Seq<u8>) -> Option<Map<Seq<u8>, u64>>;

/// `keys` is a finite set of `n` keys.
pub open spec fn has_size(keys: Set<Seq<u8>>, n: u64) -> bool {
    keys.finite() && keys.len() == n
}

impl KeyIndex {
    /// `BTreeMap::init`: an empty memory gives an empty index, any other one the
    /// index that it holds.
    #[verifier::external_body]
    pub(crate) fn init(memory: Vec<u8>) -> (index: Self)
        requires
            memory@.len() % PAGE_SIZE as nat == 0,
            memory@.len() == 0 || key_index_image(memory@) is Some,
        ensures
            memory@.len() == 0 ==> key_index_contents(index) == (Map::<Seq<u8>, u64>::empty()),
            memory@.len() > 0 ==> key_index_image(memory@) == Some(key_index_contents(index)),
    {
        KeyIndex { tree: BTreeMap::init(RefCell::new(memory)) }
    }

    /// `BTreeMap::into_memory`: whole pages, from which the index is read back.
    #[verifier::external_body]
    pub(crate) fn into_memory(self) -> (memory: Vec<u8>)
        ensures
            memory@.len() > 0 && memory@.len() % PAGE_SIZE as nat == 0,
            key_index_image(memory@) == Some(key_index_contents(self)),
    {
        self.tree.into_memory().into_inner()
    }

    /// `BTreeMap::get`: the entry ID of a key, where the index has it.
    #[verifier::external_body]
    pub(crate) fn get(&self, key: &Vec<u8>) -> (entry_id: Option<u64>)
        ensures
            entry_id == key_index_contents(*self).get(key@),
    {
        self.tree.get(key)
    }

    /// `BTreeMap::contains_key`: whether the index has a key.
    #[verifier::external_body]
    pub(crate) fn contains_key(&self, key: &Vec<u8>) -> (found: bool)
        ensures
            found == key_index_contents(*self).contains_key(key@),
    {
        self.tree.contains_key(key)
    }

    /// `BTreeMap::insert`: sets the entry ID of a key and returns the one it had.
    /// A key is stored with its length in four bytes.
    #[verifier::external_body]
    pub(crate) fn insert(&mut self, key: Vec<u8>, entry_id: u64) -> (previous: Option<u64>)
        requires
            key@.len() <= u32::MAX,
        ensures
            key_index_contents(*final(self)) == key_index_contents(*old(self)).insert(
                key@,
                entry_id,
            ),
            previous == key_index_contents(*old(self)).get(key@),
    {
        self.tree.insert(key, entry_id)
    }

    /// `BTreeMap::remove`: takes a key out and returns the entry ID it had. The length
    /// of a key in the index fits in four bytes.
    #[verifier::external_body]
    pub(crate) fn remove(&mut self, key: &Vec<u8>) -> (previous: Option<u64>)
        ensures
            key_index_contents(*final(self)) == key_index_contents(*old(self)).remove(key@),
            previous == key_index_contents(*old(self)).get(key@),
            previous is Some ==> key@.len() <= u32::MAX,
    {
        self.tree.remove(key)
    }

    /// `BTreeMap::len`: the number of keys, of which there are finitely many.
    #[verifier::external_body]
    pub(crate) fn len(&self) -> (n: u64)
        ensures
            has_size(key_index_contents(*self).dom(), n),
    {
        self.tree.len()
    }

    /// `BTreeMap::is_empty`: whether the index has no key.
    #[verifier::external_body]
    pub(crate) fn is_empty(&self) -> (empty: bool)
        ensures
            empty == (key_index_contents(*self) == (Map::<Seq<u8>, u64>::empty())),
    {
        self.tree.is_empty()
    }

    /// `BTreeMap::clear_new`: takes every key out.
    #[verifier::external_body]
    pub(crate) fn clear(&mut self)
        ensures
            key_index_contents(*final(self)) == (Map::<Seq<u8>, u64>::empty()),
    {
        self.tree.clear_new()
    }

    /// `BTreeMap::first_key_value`: the first key with its entry ID; none in an
    /// empty index.
    #[verifier::external_body]
    pub(crate) fn first_key_value(&self) -> (first: Option<(Vec<u8>, u64)>)
        ensures
            match first {
                Some((key, entry_id)) => {
                    &&& is_least(key_index_contents(*self).dom(), key@)
                    &&& entry_id == key_index_contents(*self)[key@]
                },
                None => key_index_contents(*self) == (Map::<Seq<u8>, u64>::empty()),
            },
    {
        self.tree.first_key_value()
    }

    /// `BTreeMap::last_key_value`: the last key with its entry ID; none in an
    /// empty index.
    #[verifier::external_body]
    pub(crate) fn last_key_value(&self) -> (last: Option<(Vec<u8>, u64)>)
        ensures
            match last {
                Some((key, entry_id)) => {
                    &&& is_greatest(key_index_contents(*self).dom(), key@)
                    &&& entry_id == key_index_contents(*self)[key@]
                },
                None => key_index_contents(*self) == (Map::<Seq<u8>, u64>::empty()),
            },
    {
        self.tree.last_key_value()
    }

    /// The first item of `BTreeMap::range`: the first key between two ends, with
    /// its entry ID; none where no key lies between them.
    #[verifier::external_body]
    pub(crate) fn first_between(&self, lower: &KeyBound, upper: &KeyBound) -> (first: Option<
        (Vec<u8>, u64),
    >)
        ensures
            match first {
                Some((key, entry_id)) => {
                    &&& is_least(
                        keys_between(key_index_contents(*self).dom(), *lower, *upper),
                        key@,
                    )
                    &&& entry_id == key_index_contents(*self)[key@]
                },
                None => forall|k: Seq<u8>|
                    !#[trigger] keys_between(
                        key_index_contents(*self).dom(),
                        *lower,
                        *upper,
                    ).contains(k),
            },
    {
        let from = match lower {
            KeyBound::Included(key) => Bound::Included(key.clone()),
            KeyBound::Excluded(key) => Bound::Excluded(key.clone()),
            KeyBound::Unbounded => Bound::Unbounded,
        };
        let to = match upper {
            KeyBound::Included(key) => Bound::Included(key.clone()),
            KeyBound::Excluded(key) => Bound::Excluded(key.clone()),
            KeyBound::Unbounded => Bound::Unbounded,
        };
        let entry = self.tree.range((from, to)).next()?;
        Some((entry.key().clone(), entry.value()))
    }
}

/// The stable map from entry IDs to values.
#[verifier::external_body]
pub struct ValueStore {
    tree: BTreeMap<u64, Vec<u8>, RefCell<Vec<u8>>>,
}

/// The value of each entry ID in a value store.
pub uninterp spec fn value_store_contents(store: ValueStore) -> Map<u64, Seq<u8>>;

/// What `BTreeMap::init` reads as a value store from a memory that holds `bytes`;
/// `None` where no value store can be read from them.
pub uninterp spec fn value_store_image(bytes: Seq<u8>) -> Option<Map<u64, Seq<u8>>>;

/// A value that was found, as a sequence.
pub open spec fn found_value(value: Option<Vec<u8>>) -> Option<Seq<u8>> {
    match value {
        Some(v) => Some(v@),
        None => None,
    }
}

impl ValueStore {
    /// `BTreeMap::init`: an empty memory gives an empty store, any other one the
    /// store that it holds.
    #[verifier::external_body]
    pub(crate) fn init(memory: Vec<u8>) -> (store: Self)
        requires
            memory@.len() % PAGE_SIZE as nat == 0,
            memory@.len() == 0 || value_store_image(memory@) is Some,
        ensures
            memory@.len() == 0 ==> value_store_contents(store) == (Map::<u64, Seq<u8>>::empty()),
            memory@.len() > 0 ==> value_store_image(memory@) == Some(value_store_contents(store)),
    {
        ValueStore { tree: BTreeMap::init(RefCell::new(memory)) }
    }

    /// `BTreeMap::into_memory`: whole pages, from which the store is read back.
    #[verifier::external_body]
    pub(crate) fn into_memory(self) -> (memory: Vec<u8>)
        ensures
            memory@.len() > 0 && memory@.len() % PAGE_SIZE as nat == 0,
            value_store_image(memory@) == Some(value_store_contents(self)),
    {
        self.tree.into_memory().into_inner()
    }

    /// `BTreeMap::get`: the value of an entry ID, where the store has it.
    #[verifier::external_body]
    pub(crate) fn get(&self, entry_id: &u64) -> (value: Option<Vec<u8>>)
        ensures
            found_value(value) == value_store_contents(*self).get(*entry_id),
    {
        self.tree.get(entry_id)
    }

    /// `BTreeMap::insert`: sets the value of an entry ID and returns the one it had.
    /// A value is stored with its length in four bytes, the one returned too.
    #[verifier::external_body]
    pub(crate) fn insert(&mut self, entry_id: u64, value: Vec<u8>) -> (previous: Option<Vec<u8>>)
        requires
            value@.len() <= u32::MAX,
        ensures
            value_store_contents(*final(self)) == value_store_contents(*old(self)).insert(
                entry_id,
                value@,
            ),
            found_value(previous) == value_store_contents(*old(self)).get(entry_id),
            previous matches Some(v) ==> v@.len() <= u32::MAX,
    {
        self.tree.insert(entry_id, value)
    }

    /// `BTreeMap::remove`: takes an entry ID out and returns the value it had, whose
    /// length fits in four bytes.
    #[verifier::external_body]
    pub(crate) fn remove(&mut self, entry_id: &u64) -> (previous: Option<Vec<u8>>)
        ensures
            value_store_contents(*final(self)) == value_store_contents(*old(self)).remove(
                *entry_id,
            ),
            found_value(previous) == value_store_contents(*old(self)).get(*entry_id),
            previous matches Some(v) ==> v@.len() <= u32::MAX,
    {
        self.tree.remove(entry_id)
    }

    /// `BTreeMap::clear_new`: takes every entry ID out.
    #[verifier::external_body]
    pub(crate) fn clear(&mut self)
        ensures
            value_store_contents(*final(self)) == (Map::<u64, Seq<u8>>::empty()),
    {
        self.tree.clear_new()
    }
}

/// The stable log of stored change records.
#[verifier::external_body]
pub struct Changelog {
    log: Log<Vec<u8>, RestrictedMemory<VectorMemory>, RestrictedMemory<VectorMemory>>,
    index: VectorMemory,
    data: VectorMemory,
    index_pages: u64,
    data_pages: u64,
}

/// The records in a changelog, oldest first.
pub uninterp spec fn changelog_contents(log: Changelog) -> Seq<Seq<u8>>;

/// The number of pages that the index memory of a changelog was given.
pub uninterp spec fn changelog_index_pages(log: Changelog) -> u64;

/// The number of pages that the data memory of a changelog was given.
pub uninterp spec fn changelog_data_pages(log: Changelog) -> u64;

/// What `Log::init` reads from an index memory and a data memory that hold
/// `index` and `data`; `None` where no log can be read from them.
pub uninterp spec fn changelog_image(index: Seq<u8>, data: Seq<u8>) -> Option<Seq<Seq<u8>>>;

/// The number of bytes in all of `records` together.
pub open spec fn total_len(records: Seq<Seq<u8>>) -> nat
    decreases records.len(),
{
    if records.len() == 0 {
        0
    } else {
        total_len(records.drop_last()) + records.last().len()
    }
}

/// Whether one more record of `len` bytes fits behind `count` records of `total`
/// bytes together: the data memory holds the records behind a header of 32 bytes,
/// the index memory eight bytes for each record behind a header of 40 bytes.
pub open spec fn record_fits(
    count: nat,
    total: nat,
    len: nat,
    index_pages: u64,
    data_pages: u64,
) -> bool {
    &&& 32 + total + len <= data_pages * PAGE_SIZE
    &&& 40 + 8 * (count + 1) <= index_pages * PAGE_SIZE
}

impl Changelog {
    /// `Log::init` on memories cut off at their limits by `RestrictedMemory`: an
    /// empty data memory gives an empty log, any other one the log that the two
    /// memories hold.
    #[verifier::external_body]
    pub(crate) fn init(index: PagedMemory, data: PagedMemory) -> (log: Self)
        requires
            index.valid(),
            data.valid(),
            data.bytes@.len() == 0 || changelog_image(index.bytes@, data.bytes@) is Some,
        ensures
            data.bytes@.len() == 0 ==> changelog_contents(log) == Seq::<Seq<u8>>::empty(),
            data.bytes@.len() > 0 ==> changelog_image(index.bytes@, data.bytes@) == Some(
                changelog_contents(log),
            ),
            changelog_index_pages(log) == index.max_pages,
            changelog_data_pages(log) == data.max_pages,
    {
        let (index_pages, data_pages) = (index.max_pages, data.max_pages);
        let index = VectorMemory::new(RefCell::new(index.bytes));
        let data = VectorMemory::new(RefCell::new(data.bytes));
        let index_memory = RestrictedMemory::new(index.clone(), 0..index_pages);
        let data_memory = RestrictedMemory::new(data.clone(), 0..data_pages);
        let log = Log::init(index_memory, data_memory);
        Changelog { log, index, data, index_pages, data_pages }
    }

    /// `Log::into_memories`: two memories of whole pages within their limits, from
    /// which the log is read back.
    #[verifier::external_body]
    pub(crate) fn into_memories(self) -> (memories: (PagedMemory, PagedMemory))
        ensures
            memories.0.valid() && memories.0.max_pages == changelog_index_pages(self),
            memories.1.valid() && memories.1.max_pages == changelog_data_pages(self),
            memories.1.bytes@.len() > 0,
            changelog_image(memories.0.bytes@, memories.1.bytes@) == Some(
                changelog_contents(self),
            ),
    {
        drop(self.log.into_memories());
        let index = PagedMemory { bytes: self.index.take(), max_pages: self.index_pages };
        let data = PagedMemory { bytes: self.data.take(), max_pages: self.data_pages };
        (index, data)
    }

    /// `Log::append`: adds a record at the end and returns its position, or fails
    /// and leaves the log as it is where the record does not fit into the memories.
    #[verifier::external_body]
    pub(crate) fn append(&mut self, record: &Vec<u8>) -> (position: Result<u64, WriteError>)
        ensures
            position is Ok <==> record_fits(
                changelog_contents(*old(self)).len(),
                total_len(changelog_contents(*old(self))),
                record@.len(),
                changelog_index_pages(*old(self)),
                changelog_data_pages(*old(self)),
            ),
            match position {
                Ok(p) => {
                    &&& p == changelog_contents(*old(self)).len()
                    &&& changelog_contents(*final(self)) == changelog_contents(*old(self)).push(
                        record@,
                    )
                },
                Err(_) => changelog_contents(*final(self)) == changelog_contents(*old(self)),
            },
            changelog_index_pages(*final(self)) == changelog_index_pages(*old(self)),
            changelog_data_pages(*final(self)) == changelog_data_pages(*old(self)),
    {
        self.log.append(record)
    }

    /// `Log::get`: the record at a position, where the log has one there.
    #[verifier::external_body]
    pub(crate) fn get(&self, position: u64) -> (record: Option<Vec<u8>>)
        ensures
            found_value(record) == (if position < changelog_contents(*self).len() {
                Some(changelog_contents(*self)[position as int])
            } else {
                None
            }),
    {
        self.log.get(position)
    }

    /// `Log::len`: the number of records.
    #[verifier::external_body]
    pub(crate) fn len(&self) -> (len: u64)
        ensures
            len == changelog_contents(*self).len(),
    {
        self.log.len()
    }

    /// `Log::new` on new memories with the limits of the old ones: a log without
    /// records, and the memory of the old one given up.
    #[verifier::external_body]
    pub(crate) fn clear(&mut self)
        ensures
            changelog_contents(*final(self)) == Seq::<Seq<u8>>::empty(),
            changelog_index_pages(*final(self)) == changelog_index_pages(*old(self)),
            changelog_data_pages(*final(self)) == changelog_data_pages(*old(self)),
    {
        self.index = VectorMemory::default();
        self.data = VectorMemory::default();
        let index_memory = RestrictedMemory::new(self.index.clone(), 0..self.index_pages);
        let data_memory = RestrictedMemory::new(self.data.clone(), 0..self.data_pages);
        self.log = Log::new(index_memory, data_memory);
    }
}

/// The stable cell of the stored counters.
#[verifier::external_body]
pub struct CounterCell {
    cell: Cell<Vec<u8>, RefCell<Vec<u8>>>,
}

/// The bytes in a cell.
pub uninterp spec fn counter_cell_contents(cell: CounterCell) -> Seq<u8>;

/// What `Cell::init` reads from a memory that holds `bytes`, where `default` is the
/// value for a memory without a cell; `None` where the cell in it cannot be read.
pub uninterp spec fn counter_cell_image(bytes: Seq<u8>, default: Seq<u8>) -> Option<Seq<u8>>;

impl CounterCell {
    /// `Cell::init`: an empty memory gives a cell with the default value, any other
    /// one the cell that it holds.
    #[verifier::external_body]
    pub(crate) fn init(memory: Vec<u8>, default: Vec<u8>) -> (cell: Self)
        requires
            memory@.len() % PAGE_SIZE as nat == 0,
            memory@.len() == 0 || counter_cell_image(memory@, default@) is Some,
            default@.len() <= u32::MAX,
        ensures
            memory@.len() == 0 ==> counter_cell_contents(cell) == default@,
            memory@.len() > 0 ==> counter_cell_image(memory@, default@) == Some(
                counter_cell_contents(cell),
            ),
    {
        CounterCell { cell: Cell::init(RefCell::new(memory), default) }
    }

    /// `Cell::into_memory`: whole pages, from which the value is read back whatever
    /// the default.
    #[verifier::external_body]
    pub(crate) fn into_memory(self) -> (memory: Vec<u8>)
        ensures
            memory@.len() > 0 && memory@.len() % PAGE_SIZE as nat == 0,
            forall|default: Seq<u8>|
                #[trigger] counter_cell_image(memory@, default) == Some(
                    counter_cell_contents(self),
                ),
    {
        self.cell.into_memory().into_inner()
    }

    /// `Cell::get`: the value.
    #[verifier::external_body]
    pub(crate) fn get(&self) -> (value: Vec<u8>)
        ensures
            value@ == counter_cell_contents(*self),
    {
        self.cell.get().clone()
    }

    /// `Cell::set`: replaces the value. A value is stored with its length in four
    /// bytes.
    #[verifier::external_body]
    pub(crate) fn set(&mut self, value: Vec<u8>)
        requires
            value@.len() <= u32::MAX,
        ensures
            counter_cell_contents(*final(self)) == value@,
    {
        self.cell.set(value);
    }
}

} // verus!
