use std::cell::RefCell;

use ic_stable_replog::{Counters, KeyBound, PagedMemory, RepLogError, RepLogMap};
use ic_stable_structures::{BTreeMap, Cell, Log};

fn limited(index_pages: u64, data_pages: u64) -> RepLogMap {
    RepLogMap::init(
        Vec::new(),
        Vec::new(),
        PagedMemory { bytes: Vec::new(), max_pages: index_pages },
        PagedMemory { bytes: Vec::new(), max_pages: data_pages },
        Vec::new(),
    )
}

/// A map whose one page of change data is filled up by the changes of a key.
fn full() -> (RepLogMap, Vec<u8>) {
    let mut map = limited(1, 1);
    let long = vec![7u8; 65536 - 32 - 9 - 9 - 1];
    map.insert(vec![1], vec![10]);
    map.insert(long.clone(), vec![20]);
    (map, long)
}

#[test]
fn a_full_changelog_refuses_a_new_key() {
    let (mut map, long) = full();
    assert!(matches!(
        map.try_insert(vec![2], vec![30]),
        Err(RepLogError::ChangelogFull)
    ));
    assert_eq!(map.len(), 2);
    assert_eq!(map.get(&vec![2]), None);
    assert_eq!(map.get_value_by_id(2), None);
    assert_eq!(map.next_entry_id(), 2);
    assert_eq!(map.changelog_len(), 2);
    assert_eq!(map.current_seq(), 2);
    assert_eq!(map.get(&long), Some(vec![20]));
}

#[test]
fn a_full_changelog_refuses_a_new_value() {
    let (mut map, _) = full();
    assert!(matches!(
        map.try_insert(vec![1], vec![11]),
        Err(RepLogError::ChangelogFull)
    ));
    assert_eq!(map.get(&vec![1]), Some(vec![10]));
    assert_eq!(map.changelog_len(), 2);
}

#[test]
fn a_full_changelog_refuses_a_removal() {
    let (mut map, _) = full();
    assert!(matches!(
        map.try_remove(&vec![1]),
        Err(RepLogError::ChangelogFull)
    ));
    assert_eq!(map.get(&vec![1]), Some(vec![10]));
    assert_eq!(map.len(), 2);
    assert_eq!(map.changelog_len(), 2);
    assert_eq!(map.try_remove(&vec![9]).unwrap(), None);
}

#[test]
fn compacting_makes_room() {
    let (mut map, long) = full();
    map.compact();
    assert_eq!(map.try_insert(vec![2], vec![30]).unwrap(), None);
    assert_eq!(map.try_remove(&vec![1]).unwrap(), Some(vec![10]));
    assert_eq!(map.keys(), vec![vec![2], long]);
    assert_eq!(map.current_seq(), 4);
}

#[test]
fn one_byte_more_does_not_fit() {
    let mut map = limited(1, 1);
    let key = vec![3u8; 65536 - 32 - 9 + 1];
    assert!(map.try_insert(key, vec![]).is_err());
    assert!(map.is_empty());
    let key = vec![3u8; 65536 - 32 - 9];
    assert!(map.try_insert(key, vec![]).is_ok());
}

#[test]
fn the_changelog_index_is_limited_too() {
    let mut map = limited(1, 100);
    let mut n: u64 = 0;
    while map.try_insert(vec![1], vec![2]).is_ok() {
        n += 1;
    }
    assert_eq!(n, (65536 - 40) / 8);
    assert_eq!(map.changelog_len(), n);
    map.compact();
    assert_eq!(map.insert(vec![1], vec![3]), Some(vec![2]));
}

#[test]
fn the_error_in_words() {
    let (mut map, _) = full();
    let error = map.try_insert(vec![2], vec![30]).unwrap_err();
    assert_eq!(
        error.to_string(),
        "failed to append to changelog: memory full"
    );
}

#[test]
fn keys_are_in_lexicographic_order() {
    let mut map = RepLogMap::new();
    let ordered: Vec<Vec<u8>> = vec![
        vec![],
        vec![0],
        vec![0, 255],
        vec![1],
        vec![1, 0],
        vec![1, 0, 0],
        vec![255],
    ];
    for i in [3, 0, 6, 4, 1, 5, 2] {
        map.insert(ordered[i].clone(), vec![i as u8]);
    }
    assert_eq!(map.keys(), ordered);
    assert_eq!(
        map.values(),
        vec![vec![0], vec![1], vec![2], vec![3], vec![4], vec![5], vec![6]]
    );
    assert_eq!(map.first_key_value(), Some((vec![], vec![0])));
    assert_eq!(map.last_key_value(), Some((vec![255], vec![6])));
}

fn numbered() -> RepLogMap {
    let mut map = RepLogMap::new();
    for i in 0u8..10 {
        map.insert(vec![i], vec![i]);
    }
    map
}

fn first_bytes(pairs: Vec<(Vec<u8>, Vec<u8>)>) -> Vec<u8> {
    pairs.into_iter().map(|(k, _)| k[0]).collect()
}

#[test]
fn ranges_with_every_kind_of_end() {
    let map = numbered();
    let from_to = |lower, upper| first_bytes(map.range(lower, upper));
    assert_eq!(
        from_to(KeyBound::Included(vec![3]), KeyBound::Included(vec![5])),
        vec![3, 4, 5]
    );
    assert_eq!(
        from_to(KeyBound::Excluded(vec![3]), KeyBound::Excluded(vec![5])),
        vec![4]
    );
    assert_eq!(
        from_to(KeyBound::Unbounded, KeyBound::Excluded(vec![2])),
        vec![0, 1]
    );
    assert_eq!(
        from_to(KeyBound::Excluded(vec![8]), KeyBound::Unbounded),
        vec![9]
    );
    assert_eq!(
        from_to(KeyBound::Included(vec![2, 0]), KeyBound::Included(vec![3])),
        vec![3]
    );
    assert_eq!(
        from_to(KeyBound::Unbounded, KeyBound::Unbounded),
        vec![0, 1, 2, 3, 4, 5, 6, 7, 8, 9]
    );
}

#[test]
fn ranges_the_wrong_way_round_are_empty() {
    let map = numbered();
    assert!(map
        .range(KeyBound::Included(vec![5]), KeyBound::Excluded(vec![5]))
        .is_empty());
    assert!(map
        .range(KeyBound::Included(vec![7]), KeyBound::Included(vec![3]))
        .is_empty());
    assert!(RepLogMap::new()
        .range(KeyBound::Included(vec![1]), KeyBound::Unbounded)
        .is_empty());
}

#[test]
fn pages_of_any_size() {
    let map = numbered();
    let (rows, seq) = map.snapshot_page(None, 0);
    assert!(rows.is_empty());
    assert_eq!(seq, 10);
    let (rows, _) = map.snapshot_page(None, u64::MAX);
    assert_eq!(rows.len(), 10);
    let (rows, _) = map.snapshot_page(Some(&vec![9]), u64::MAX);
    assert!(rows.is_empty());
    let (rows, _) = map.snapshot_page(Some(&vec![4, 4]), 2);
    assert_eq!(
        rows,
        vec![(5, vec![5], vec![5]), (6, vec![6], vec![6])]
    );
}

#[test]
fn requests_of_any_size() {
    let map = numbered();
    let (changes, next) = map.changes_since(4, u64::MAX).unwrap();
    assert_eq!(changes.len(), 6);
    assert_eq!(next, 10);
    let (changes, next) = map.changes_since(4, 0).unwrap();
    assert!(changes.is_empty());
    assert_eq!(next, 4);
}

#[test]
fn a_cursor_ahead_is_set_back() {
    let map = numbered();
    let (changes, next) = map.changes_since(1000, 5).unwrap();
    assert!(changes.is_empty());
    assert_eq!(next, 10);
    let (changes, next) = map.changes_with_values_since(u64::MAX, 5).unwrap();
    assert!(changes.is_empty());
    assert_eq!(next, 10);
}

#[test]
fn a_stale_cursor_gets_no_values() {
    let mut map = numbered();
    map.compact();
    assert_eq!(map.changes_with_values_since(9, 5), None);
    assert_eq!(map.changes_with_values_since(10, 5), Some((vec![], 10)));
}

#[test]
fn large_keys_and_values() {
    let mut map = RepLogMap::new();
    let key = vec![5u8; 20_000];
    let value = vec![6u8; 300_000];
    assert_eq!(map.insert(key.clone(), value.clone()), None);
    assert_eq!(map.get(&key), Some(value.clone()));
    let (changes, _) = map.changes_with_values_since(0, 1).unwrap();
    assert_eq!(changes[0].0.key, key);
    assert_eq!(changes[0].1, Some(value.clone()));
    assert_eq!(map.remove(&key), Some(value));
    assert!(map.is_empty());
}

#[test]
fn memories_written_by_the_structures_themselves() {
    let mut index: BTreeMap<Vec<u8>, u64, RefCell<Vec<u8>>> = BTreeMap::init(RefCell::default());
    index.insert(vec![1, 2], 4);
    let mut store: BTreeMap<u64, Vec<u8>, RefCell<Vec<u8>>> = BTreeMap::init(RefCell::default());
    store.insert(4, vec![9]);
    let log: Log<Vec<u8>, RefCell<Vec<u8>>, RefCell<Vec<u8>>> =
        Log::init(RefCell::default(), RefCell::default());
    log.append(&vec![0, 4, 0, 0, 0, 0, 0, 0, 0, 1, 2]).unwrap();
    let counters = Counters { next_entry_id: 5, epoch_start: 70 };
    let cell: Cell<Vec<u8>, RefCell<Vec<u8>>> =
        Cell::init(RefCell::default(), counters.to_bytes());
    let (log_index, log_data) = log.into_memories();

    let mut map = RepLogMap::init(
        index.into_memory().into_inner(),
        store.into_memory().into_inner(),
        PagedMemory { bytes: log_index.into_inner(), max_pages: 10 },
        PagedMemory { bytes: log_data.into_inner(), max_pages: 10 },
        cell.into_memory().into_inner(),
    );
    assert_eq!(map.get(&vec![1, 2]), Some(vec![9]));
    assert_eq!(map.current_seq(), 71);
    let (changes, next) = map.changes_since(70, 10).unwrap();
    assert_eq!(next, 71);
    assert_eq!(changes[0].entry_id, 4);
    assert_eq!(changes[0].key, vec![1, 2]);
    assert!(changes[0].is_upsert());
    map.insert(vec![3], vec![8]);
    let (rows, _) = map.snapshot_page(None, 10);
    assert_eq!(rows[1], (5, vec![3], vec![8]));
}

#[test]
fn memories_without_structures_are_taken_as_new() {
    let blank = || vec![0u8; 65536];
    let map = RepLogMap::init(
        blank(),
        blank(),
        PagedMemory { bytes: blank(), max_pages: 5 },
        PagedMemory { bytes: blank(), max_pages: 5 },
        blank(),
    );
    assert!(map.is_empty());
    assert_eq!(map.current_seq(), 0);
    assert_eq!(map.next_entry_id(), 0);
}

/// Memories of a changelog with the given records, and of a cell with the given counters.
fn try_with(records: Vec<Vec<u8>>, counters: Vec<u8>) -> Option<RepLogMap> {
    let log: Log<Vec<u8>, _, _> = Log::new(RefCell::new(Vec::new()), RefCell::new(Vec::new()));
    for record in records {
        log.append(&record).unwrap();
    }
    let (index, data) = log.into_memories();
    let cell = Cell::new(RefCell::new(Vec::<u8>::new()), counters);
    RepLogMap::try_init(
        Vec::new(),
        Vec::new(),
        PagedMemory { bytes: index.into_inner(), max_pages: 5 },
        PagedMemory { bytes: data.into_inner(), max_pages: 5 },
        cell.into_memory().into_inner(),
    )
}

#[test]
fn try_init_reads_a_map() {
    let counters = Counters { next_entry_id: 7, epoch_start: 30 };
    let mut record = vec![1, 6, 0, 0, 0, 0, 0, 0, 0];
    record.push(9);
    let map = try_with(vec![vec![0; 9], record], counters.to_bytes()).unwrap();
    assert_eq!(map.next_entry_id(), 7);
    assert_eq!(map.epoch_start(), 30);
    assert_eq!(map.current_seq(), 32);
    let (changes, next) = map.changes_since(30, 10).unwrap();
    assert_eq!(next, 32);
    assert!(changes[0].is_upsert() && changes[1].is_delete());
    assert_eq!(changes[1].entry_id, 6);
    assert_eq!(changes[1].key, vec![9]);
}

#[test]
fn try_init_on_new_memories() {
    let map = RepLogMap::try_init(
        Vec::new(),
        Vec::new(),
        PagedMemory::default(),
        PagedMemory::default(),
        Vec::new(),
    )
    .unwrap();
    assert!(map.is_empty());
    assert_eq!(map.current_seq(), 0);
}

#[test]
fn try_init_refuses_what_cannot_be_read() {
    let counters = Counters::default().to_bytes();
    assert!(try_with(vec![], counters.clone()).is_some());
    assert!(try_with(vec![vec![0; 9], vec![2; 9]], counters.clone()).is_none());
    assert!(try_with(vec![vec![0; 8]], counters.clone()).is_none());
    assert!(try_with(vec![vec![0; 9]], counters[..15].to_vec()).is_none());
}
