//! What the memories of a replicated map hold.

use vstd::prelude::*;

use crate::changelog::{
    decoding_then_encoding_gives_the_bytes_back,
    decoding_then_encoding_gives_the_stored_counters_back,
    encoding_then_decoding_gives_the_counters_back, ChangeEntry, Counters,
};
use crate::model::{Change, RepLogState};
use crate::storage::{
    changelog_image, counter_cell_image, key_index_image, value_store_image, PagedMemory,
    PAGE_SIZE,
};

verus! {

/// The records that the stored forms in `raw` hold.
pub open spec fn decoded_log(raw: Seq<Seq<u8>>) -> Seq<Change> {
    raw.map_values(|record: Seq<u8>| ChangeEntry::<Seq<u8>>::decoded(record))
}

/// Every one of `raw` is the stored form of a record.
pub open spec fn readable_log(raw: Seq<Seq<u8>>) -> bool {
    forall|i: int| 0 <= i < raw.len() ==> ChangeEntry::<Seq<u8>>::readable(#[trigger] raw[i])
}

/// The five memories of a replicated map.
pub struct Memories {
    pub key_index: Seq<u8>,
    pub value_store: Seq<u8>,
    pub changelog_index: PagedMemory,
    pub changelog_data: PagedMemory,
    pub counters: Seq<u8>,
}

impl Memories {
    /// The memories consist of whole pages, and each is new or holds a structure of the
    /// kind that belongs there.
    pub open spec fn stored(self) -> bool {
        &&& self.key_index.len() % PAGE_SIZE as nat == 0
        &&& self.key_index.len() == 0 || key_index_image(self.key_index) is Some
        &&& self.value_store.len() % PAGE_SIZE as nat == 0
        &&& self.value_store.len() == 0 || value_store_image(self.value_store) is Some
        &&& self.changelog_index.valid()
        &&& self.changelog_data.valid()
        &&& self.changelog_data.bytes@.len() == 0 || changelog_image(
            self.changelog_index.bytes@,
            self.changelog_data.bytes@,
        ) is Some
        &&& self.counters.len() % PAGE_SIZE as nat == 0
        &&& self.counters.len() == 0 || counter_cell_image(
            self.counters,
            new_counters().encoded(),
        ) is Some
    }

    /// Each of the memories is new or holds its part of a replicated map: the changelog
    /// consists of change records, and the cell holds counters.
    pub open spec fn valid(self) -> bool {
        &&& self.stored()
        &&& readable_log(self.records())
        &&& self.stored_counters().len() >= 16
    }

    /// All five memories are new.
    pub open spec fn new(self) -> bool {
        &&& self.key_index.len() == 0
        &&& self.value_store.len() == 0
        &&& self.changelog_index.bytes@.len() == 0
        &&& self.changelog_data.bytes@.len() == 0
        &&& self.counters.len() == 0
    }

    /// The stored forms of the changes.
    pub open spec fn records(self) -> Seq<Seq<u8>> {
        if self.changelog_data.bytes@.len() == 0 {
            Seq::empty()
        } else {
            changelog_image(self.changelog_index.bytes@, self.changelog_data.bytes@)->0
        }
    }

    /// The stored form of the counters.
    pub open spec fn stored_counters(self) -> Seq<u8> {
        if self.counters.len() == 0 {
            new_counters().encoded()
        } else {
            counter_cell_image(self.counters, new_counters().encoded())->0
        }
    }

    /// The map that the memories hold.
    pub open spec fn state(self) -> RepLogState {
        RepLogState {
            index: if self.key_index.len() == 0 {
                Map::empty()
            } else {
                key_index_image(self.key_index)->0
            },
            store: if self.value_store.len() == 0 {
                Map::empty()
            } else {
                value_store_image(self.value_store)->0
            },
            log: decoded_log(self.records()),
            next_entry_id: Counters::decoded(self.stored_counters()).next_entry_id,
            epoch_start: Counters::decoded(self.stored_counters()).epoch_start,
            index_pages: self.changelog_index.max_pages,
            data_pages: self.changelog_data.max_pages,
        }
    }
}

/// Memories hold a map if and only if they consist of whole pages, each structure in them can
/// be read, every change record has nine bytes or more and begins with a zero or a one, and
/// the counters have sixteen bytes or more.
pub proof fn memories_hold_a_map_where_they_can_be_read(m: Memories)
    ensures
        m.valid() <==> {
            &&& m.key_index.len() % 65536 == 0
            &&& m.value_store.len() % 65536 == 0
            &&& m.counters.len() % 65536 == 0
            &&& m.changelog_index.valid()
            &&& m.changelog_data.valid()
            &&& m.key_index.len() > 0 ==> key_index_image(m.key_index) is Some
            &&& m.value_store.len() > 0 ==> value_store_image(m.value_store) is Some
            &&& m.changelog_data.bytes@.len() > 0 ==> (changelog_image(
                m.changelog_index.bytes@,
                m.changelog_data.bytes@,
            ) matches Some(raw) && forall|i: int|
                0 <= i < raw.len() ==> (#[trigger] raw[i]).len() >= 9 && (raw[i][0] == 0
                    || raw[i][0] == 1))
            &&& m.counters.len() > 0 ==> (counter_cell_image(
                m.counters,
                new_counters().encoded(),
            ) matches Some(raw) && raw.len() >= 16)
        },
{
    encoding_then_decoding_gives_the_counters_back(new_counters());
    if m.changelog_data.bytes@.len() > 0 {
        let raw = changelog_image(m.changelog_index.bytes@, m.changelog_data.bytes@)->0;
        assert forall|i: int| 0 <= i < raw.len() implies (ChangeEntry::<Seq<u8>>::readable(
            #[trigger] raw[i],
        ) <==> raw[i].len() >= 9 && (raw[i][0] == 0 || raw[i][0] == 1)) by {}
    }
}

/// The map that memories hold has each of its parts from the memory of that part, and
/// nothing where that memory is new; its counters are the first two words of the stored
/// counters, and its changelog has a change for each stored record, in order.
pub proof fn each_part_comes_from_its_memory(m: Memories)
    requires
        m.valid(),
    ensures
        m.key_index.len() == 0 ==> m.state().index == Map::<Seq<u8>, u64>::empty(),
        m.key_index.len() > 0 ==> key_index_image(m.key_index) == Some(m.state().index),
        m.value_store.len() == 0 ==> m.state().store == Map::<u64, Seq<u8>>::empty(),
        m.value_store.len() > 0 ==> value_store_image(m.value_store) == Some(m.state().store),
        m.changelog_data.bytes@.len() == 0 ==> m.state().log.len() == 0,
        m.changelog_data.bytes@.len() > 0 ==> {
            let raw = changelog_image(m.changelog_index.bytes@, m.changelog_data.bytes@)->0;
            &&& m.state().log.len() == raw.len()
            &&& forall|i: int|
                0 <= i < raw.len() ==> (#[trigger] m.state().log[i]).encoded() == raw[i]
        },
        m.counters.len() == 0 ==> m.state().next_entry_id == 0 && m.state().epoch_start == 0,
        m.counters.len() > 0 ==> {
            let raw = counter_cell_image(m.counters, new_counters().encoded())->0;
            (Counters {
                next_entry_id: m.state().next_entry_id,
                epoch_start: m.state().epoch_start,
            }).encoded() == raw.take(16)
        },
        m.state().index_pages == m.changelog_index.max_pages,
        m.state().data_pages == m.changelog_data.max_pages,
{
    encoding_then_decoding_gives_the_counters_back(new_counters());
    if m.changelog_data.bytes@.len() > 0 {
        let raw = changelog_image(m.changelog_index.bytes@, m.changelog_data.bytes@)->0;
        assert forall|i: int| 0 <= i < raw.len() implies (#[trigger] m.state().log[i]).encoded()
            == raw[i] by {
            decoding_then_encoding_gives_the_bytes_back(raw[i]);
        }
    }
    if m.counters.len() > 0 {
        decoding_then_encoding_gives_the_stored_counters_back(m.stored_counters());
    }
}

/// The counters of a new map.
pub open spec fn new_counters() -> Counters {
    Counters { next_entry_id: 0, epoch_start: 0 }
}

} // verus!
