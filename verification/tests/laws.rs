use std::collections::BTreeMap;

use ic_stable_replog::{ChangeEntry, PagedMemory, RepLogMap};

/// A small generator of test sequences.
struct Sequence(u64);

impl Sequence {
    fn below(&mut self, n: u64) -> u64 {
        self.0 = self
            .0
            .wrapping_mul(6364136223846793005)
            .wrapping_add(1442695040888963407);
        (self.0 >> 33) % n
    }
}

fn key(k: u64) -> Vec<u8> {
    k.to_be_bytes().to_vec()
}

fn churn(
    map: &mut RepLogMap,
    expected: &mut BTreeMap<Vec<u8>, Vec<u8>>,
    numbers: &mut Sequence,
    n: u64,
) {
    for _ in 0..n {
        let k = key(numbers.below(100));
        if numbers.below(2) == 0 {
            let v = key(numbers.below(1_000_000));
            assert_eq!(
                map.insert(k.clone(), v.clone()),
                expected.insert(k, v)
            );
        } else {
            assert_eq!(map.remove(&k), expected.remove(&k));
        }
    }
}

fn replay(
    client: &mut BTreeMap<Vec<u8>, Vec<u8>>,
    changes: &Vec<ChangeEntry<Vec<u8>>>,
    map: &RepLogMap,
) {
    for change in changes {
        if change.is_upsert() {
            if let Some(v) = map.get(&change.key) {
                client.insert(change.key.clone(), v);
            }
        } else {
            client.remove(&change.key);
        }
    }
}

fn contents(map: &RepLogMap) -> BTreeMap<Vec<u8>, Vec<u8>> {
    map.iter().into_iter().collect()
}

#[test]
fn key_index_and_map_consistent() {
    for seed in 0..20 {
        let mut numbers = Sequence(seed);
        let mut map = RepLogMap::new();
        let mut expected = BTreeMap::new();
        churn(&mut map, &mut expected, &mut numbers, seed * 10);

        assert_eq!(map.len(), expected.len() as u64);
        for (k, v) in &expected {
            assert_eq!(map.get(k), Some(v.clone()));
        }
        for k in 0..100 {
            if !expected.contains_key(&key(k)) {
                assert_eq!(map.get(&key(k)), None);
                assert!(!map.contains_key(&key(k)));
            }
        }
        assert_eq!(
            map.first_key_value(),
            expected.iter().next().map(|(k, v)| (k.clone(), v.clone()))
        );
        assert_eq!(
            map.last_key_value(),
            expected.iter().next_back().map(|(k, v)| (k.clone(), v.clone()))
        );
        let keys: Vec<Vec<u8>> = expected.keys().cloned().collect();
        assert_eq!(map.keys(), keys);
        let values: Vec<Vec<u8>> = expected.values().cloned().collect();
        assert_eq!(map.values(), values);
    }
}

#[test]
fn changes_since_replayed_reproduces_map() {
    for seed in 0..20 {
        let mut numbers = Sequence(1000 + seed);
        let mut map = RepLogMap::new();
        let mut expected = BTreeMap::new();
        churn(&mut map, &mut expected, &mut numbers, seed * 10);

        let (changes, next) = map.changes_since(0, u64::MAX).unwrap();
        assert_eq!(next, map.current_seq());
        let mut client = BTreeMap::new();
        replay(&mut client, &changes, &map);
        assert_eq!(client, contents(&map));
        assert_eq!(client, expected);
    }
}

#[test]
fn an_earlier_client_catches_up() {
    let mut numbers = Sequence(7);
    let mut map = RepLogMap::new();
    let mut expected = BTreeMap::new();
    churn(&mut map, &mut expected, &mut numbers, 50);
    map.compact();
    let mut client = contents(&map);
    let mut cursor = map.current_seq();
    map.compact();
    for _ in 0..10 {
        churn(&mut map, &mut expected, &mut numbers, 30);
        loop {
            let (changes, next) = map.changes_since(cursor, 7).unwrap();
            if changes.is_empty() {
                assert_eq!(next, cursor);
                break;
            }
            replay(&mut client, &changes, &map);
            cursor = next;
        }
        assert_eq!(client, expected);
    }
}

#[test]
fn an_earlier_client_catches_up_by_entry_id() {
    let mut numbers = Sequence(8);
    let mut map = RepLogMap::new();
    let mut expected = BTreeMap::new();
    churn(&mut map, &mut expected, &mut numbers, 40);
    let (rows, cursor) = map.snapshot_page(None, u64::MAX);
    let mut client: BTreeMap<u64, (Vec<u8>, Vec<u8>)> = BTreeMap::new();
    for (id, k, v) in rows {
        client.insert(id, (k, v));
    }
    churn(&mut map, &mut expected, &mut numbers, 200);
    let (changes, _) = map.changes_since(cursor, u64::MAX).unwrap();
    for change in changes {
        if change.is_upsert() {
            if let Some(v) = map.get_value_by_id(change.entry_id) {
                client.insert(change.entry_id, (change.key, v));
            }
        } else {
            client.remove(&change.entry_id);
        }
    }
    let (rows, _) = map.snapshot_page(None, u64::MAX);
    let now: BTreeMap<u64, (Vec<u8>, Vec<u8>)> =
        rows.into_iter().map(|(id, k, v)| (id, (k, v))).collect();
    assert_eq!(client, now);
}

#[test]
fn compact_resync_equivalence() {
    for seed in 0..10 {
        let mut numbers = Sequence(2000 + seed);
        let mut map = RepLogMap::new();
        let mut expected = BTreeMap::new();
        churn(&mut map, &mut expected, &mut numbers, 1 + seed * 20);

        let had_changes = map.current_seq() > 0;
        map.compact();
        if had_changes {
            assert_eq!(map.changes_since(0, 1), None);
        }
        let mut pairs = Vec::new();
        let mut after: Option<Vec<u8>> = None;
        loop {
            let (page, _) = map.snapshot_page(after.as_ref(), 10);
            if page.is_empty() {
                break;
            }
            after = Some(page.last().unwrap().1.clone());
            for (_, k, v) in page {
                pairs.push((k, v));
            }
        }
        assert_eq!(pairs, map.iter());
    }
}

#[test]
fn a_resync_during_changes_catches_up() {
    let mut numbers = Sequence(11);
    let mut map = RepLogMap::new();
    let mut expected = BTreeMap::new();
    churn(&mut map, &mut expected, &mut numbers, 300);
    map.compact();

    let mut client = BTreeMap::new();
    let mut after: Option<Vec<u8>> = None;
    let mut first_seq = None;
    loop {
        let (page, seq) = map.snapshot_page(after.as_ref(), 5);
        if first_seq.is_none() {
            first_seq = Some(seq);
        }
        let done = page.len() < 5;
        for (_, k, v) in page {
            after = Some(k.clone());
            client.insert(k, v);
        }
        if done {
            break;
        }
        churn(&mut map, &mut expected, &mut numbers, 9);
    }
    let (changes, next) = map.changes_since(first_seq.unwrap(), u64::MAX).unwrap();
    assert_eq!(next, map.current_seq());
    replay(&mut client, &changes, &map);
    assert_eq!(client, expected);
}

#[test]
fn requests_in_parts_give_the_same_changes() {
    let mut numbers = Sequence(3);
    let mut map = RepLogMap::new();
    let mut expected = BTreeMap::new();
    churn(&mut map, &mut expected, &mut numbers, 60);
    let (all, end) = map.changes_since(0, u64::MAX).unwrap();
    let (mut first, middle) = map.changes_since(0, 11).unwrap();
    assert_eq!(middle, 11);
    let (mut rest, last) = map.changes_since(middle, u64::MAX).unwrap();
    first.append(&mut rest);
    assert_eq!(first, all);
    assert_eq!(last, end);
}

#[test]
fn entry_ids_are_stable_and_never_reused() {
    let mut map = RepLogMap::new();
    map.insert(key(1), vec![1]);
    map.insert(key(2), vec![2]);
    map.insert(key(1), vec![3]);
    let (rows, _) = map.snapshot_page(None, 10);
    assert_eq!(rows[0].0, 0);
    assert_eq!(rows[1].0, 1);
    map.remove(&key(1));
    map.insert(key(1), vec![4]);
    map.compact();
    map.clear();
    map.insert(key(1), vec![5]);
    let (rows, _) = map.snapshot_page(None, 10);
    assert_eq!(rows, vec![(3, key(1), vec![5])]);
    assert_eq!(map.next_entry_id(), 4);
    assert_eq!(map.get_value_by_id(3), Some(vec![5]));
    assert_eq!(map.get_value_by_id(0), None);
}

#[test]
fn sequence_numbers_never_decrease() {
    let mut map = RepLogMap::new();
    map.insert(key(1), vec![]);
    assert_eq!(map.current_seq(), 1);
    map.remove(&key(2));
    assert_eq!(map.current_seq(), 1);
    map.compact();
    assert_eq!(map.current_seq(), 1);
    map.clear();
    assert_eq!(map.current_seq(), 2);
    assert_eq!(map.epoch_start(), 2);
    map.clear();
    assert_eq!(map.current_seq(), 3);
}

#[test]
fn a_map_is_read_back_from_its_memories() {
    let mut numbers = Sequence(5);
    let mut map = RepLogMap::new();
    let mut expected = BTreeMap::new();
    churn(&mut map, &mut expected, &mut numbers, 120);
    map.compact();
    churn(&mut map, &mut expected, &mut numbers, 40);
    let epoch = map.epoch_start();
    let seq = map.current_seq();
    let next = map.next_entry_id();
    let changes = map.changes_since(epoch, u64::MAX);
    let rows = map.snapshot_page(None, u64::MAX);

    let (a, b, c, d, e) = map.into_memories();
    let mut again = RepLogMap::init(a, b, c, d, e);
    assert_eq!(contents(&again), expected);
    assert_eq!(again.epoch_start(), epoch);
    assert_eq!(again.current_seq(), seq);
    assert_eq!(again.next_entry_id(), next);
    assert_eq!(again.changes_since(epoch, u64::MAX), changes);
    assert_eq!(again.snapshot_page(None, u64::MAX), rows);
    churn(&mut again, &mut expected, &mut numbers, 40);
    assert_eq!(contents(&again), expected);
}

#[test]
fn limits_are_kept_across_memories() {
    let map = RepLogMap::init(
        Vec::new(),
        Vec::new(),
        PagedMemory { bytes: Vec::new(), max_pages: 2 },
        PagedMemory { bytes: Vec::new(), max_pages: 3 },
        Vec::new(),
    );
    let (a, b, c, d, e) = map.into_memories();
    assert_eq!(a.len(), 65536);
    assert_eq!(b.len(), 65536);
    assert_eq!(c.bytes.len(), 65536);
    assert_eq!(c.max_pages, 2);
    assert_eq!(d.bytes.len(), 65536);
    assert_eq!(d.max_pages, 3);
    assert_eq!(e.len(), 65536);
}

#[test]
fn syncing_in_batches_reproduces_the_map() {
    for limit in [1, 2, 7, 500] {
        let mut numbers = Sequence(40 + limit);
        let mut map = RepLogMap::new();
        let mut expected = BTreeMap::new();
        churn(&mut map, &mut expected, &mut numbers, 80);
        let mut client = contents(&map);
        let mut cursor = map.current_seq();
        churn(&mut map, &mut expected, &mut numbers, 60);
        let mut quiet = false;
        for round in 0..500 {
            let (changes, next) = map.changes_since(cursor, limit).unwrap();
            // The map goes on between the answer and the look-up of the values.
            if round < 40 {
                churn(&mut map, &mut expected, &mut numbers, 1);
            }
            replay(&mut client, &changes, &map);
            cursor = next;
            if changes.is_empty() && round >= 40 {
                quiet = true;
                break;
            }
            if round < 40 {
                churn(&mut map, &mut expected, &mut numbers, 2);
            }
        }
        assert!(quiet);
        assert_eq!(cursor, map.current_seq());
        assert_eq!(client, expected);
    }
}

fn rows_by_id(map: &RepLogMap) -> BTreeMap<u64, (Vec<u8>, Vec<u8>)> {
    let (rows, _) = map.snapshot_page(None, u64::MAX);
    rows.into_iter().map(|(id, k, v)| (id, (k, v))).collect()
}

fn resync_by_id(by_key: bool) {
    let mut numbers = Sequence(60);
    let mut map = RepLogMap::new();
    let mut expected = BTreeMap::new();
    churn(&mut map, &mut expected, &mut numbers, 300);
    map.compact();

    let mut client: BTreeMap<u64, (Vec<u8>, Vec<u8>)> = BTreeMap::new();
    let mut cursor = map.current_seq();
    let mut after: Option<Vec<u8>> = None;
    loop {
        let (page, _) = map.snapshot_page(after.as_ref(), 6);
        let done = page.len() < 6;
        for (id, k, v) in page {
            after = Some(k.clone());
            client.insert(id, (k, v));
        }
        if done {
            break;
        }
        churn(&mut map, &mut expected, &mut numbers, 11);
    }
    churn(&mut map, &mut expected, &mut numbers, 20);
    loop {
        let (changes, next) = map.changes_since(cursor, 5).unwrap();
        if changes.is_empty() {
            break;
        }
        for change in changes {
            if change.is_delete() {
                client.remove(&change.entry_id);
                continue;
            }
            let value = if by_key {
                map.get(&change.key)
            } else {
                map.get_value_by_id(change.entry_id)
            };
            if let Some(v) = value {
                client.insert(change.entry_id, (change.key, v));
            }
        }
        cursor = next;
    }
    assert_eq!(client, rows_by_id(&map));
    assert_eq!(contents(&map), expected);
}

#[test]
fn a_resync_by_entry_id_catches_up() {
    resync_by_id(false);
}

#[test]
fn a_resync_by_entry_id_catches_up_with_values_by_key() {
    resync_by_id(true);
}

#[test]
fn a_map_reopened_is_the_same() {
    let mut numbers = Sequence(70);
    let mut map = RepLogMap::new();
    let mut expected = BTreeMap::new();
    churn(&mut map, &mut expected, &mut numbers, 90);
    let changes = map.changes_since(0, u64::MAX);
    let rows = map.snapshot_page(None, u64::MAX);
    let next = map.next_entry_id();
    let mut map = map.reopened();
    assert_eq!(map.changes_since(0, u64::MAX), changes);
    assert_eq!(map.snapshot_page(None, u64::MAX), rows);
    assert_eq!(map.next_entry_id(), next);
    churn(&mut map, &mut expected, &mut numbers, 30);
    assert_eq!(contents(&map.reopened()), expected);
}

#[test]
fn trying_to_insert_is_inserting_where_there_is_room() {
    let mut numbers = Sequence(80);
    let mut one = RepLogMap::new();
    let mut other = RepLogMap::new();
    for _ in 0..100 {
        let k = key(numbers.below(20));
        let v = key(numbers.below(1000));
        if numbers.below(3) == 0 {
            assert_eq!(other.try_remove(&k).unwrap(), one.remove(&k));
        } else {
            assert_eq!(
                other.try_insert(k.clone(), v.clone()).unwrap(),
                one.insert(k, v)
            );
        }
    }
    assert_eq!(one.iter(), other.iter());
    assert_eq!(rows_by_id(&one), rows_by_id(&other));
    assert_eq!(one.changes_since(0, u64::MAX), other.changes_since(0, u64::MAX));
    assert_eq!(one.next_entry_id(), other.next_entry_id());
    assert_eq!(one.current_seq(), other.current_seq());
}

#[test]
fn entry_ids_over_a_history() {
    let mut numbers = Sequence(90);
    let mut map = RepLogMap::new();
    let mut ids: BTreeMap<Vec<u8>, u64> = BTreeMap::new();
    let mut given = 0;
    for round in 0..400u64 {
        let k = key(numbers.below(15));
        if round % 97 == 96 {
            map.clear();
            ids.clear();
        } else if numbers.below(3) == 0 {
            map.remove(&k);
            ids.remove(&k);
        } else {
            map.insert(k.clone(), vec![]);
            if !ids.contains_key(&k) {
                ids.insert(k, given);
                given += 1;
            }
        }
        assert_eq!(map.next_entry_id(), given);
        let (rows, _) = map.snapshot_page(None, map.len());
        let now: BTreeMap<Vec<u8>, u64> = rows.into_iter().map(|(id, k, _)| (k, id)).collect();
        assert_eq!(now, ids);
    }
}

#[test]
fn the_sequence_number_goes_up_step_by_step() {
    let mut map = RepLogMap::init(
        Vec::new(),
        Vec::new(),
        PagedMemory { bytes: Vec::new(), max_pages: 1 },
        PagedMemory { bytes: Vec::new(), max_pages: 1 },
        Vec::new(),
    );
    map.insert(key(1), vec![1]);
    map.insert(key(1), vec![1]);
    assert_eq!(map.current_seq(), 2);
    map.try_remove(&key(2)).unwrap();
    assert_eq!(map.current_seq(), 2);
    assert!(map.try_insert(vec![0; 70_000], vec![]).is_err());
    assert_eq!(map.current_seq(), 2);
    map.try_remove(&key(1)).unwrap();
    assert_eq!(map.current_seq(), 3);
    map.compact();
    assert_eq!(map.current_seq(), 3);
    assert_eq!(map.epoch_start() + map.changelog_len(), 3);
    map.clear();
    assert_eq!(map.current_seq(), 4);
}

type LateRows = BTreeMap<u64, (Vec<u8>, Option<Vec<u8>>)>;

/// Files the rows of `changes` with the values that are found by key.
fn note_by_key(client: &mut LateRows, changes: &[ChangeEntry<Vec<u8>>], map: &RepLogMap) {
    for change in changes {
        if change.is_upsert() {
            let value = map.get(&change.key);
            client.insert(change.entry_id, (change.key.clone(), value));
        } else {
            client.remove(&change.entry_id);
        }
    }
}

/// Files the rows of `changes` first, and fills in the values that are found by entry ID.
fn note_and_fill_in(client: &mut LateRows, changes: &[ChangeEntry<Vec<u8>>], map: &RepLogMap) {
    let mut upserts = Vec::new();
    for change in changes {
        if change.is_upsert() {
            upserts.push(change.entry_id);
            client.insert(change.entry_id, (change.key.clone(), None));
        } else {
            client.remove(&change.entry_id);
        }
    }
    for id in upserts {
        if let Some(value) = map.get_value_by_id(id) {
            if let Some(row) = client.get_mut(&id) {
                row.1 = Some(value);
            }
        }
    }
}

fn late_values(note: impl Fn(&mut LateRows, &[ChangeEntry<Vec<u8>>], &RepLogMap)) {
    let mut numbers = Sequence(100);
    let mut map = RepLogMap::new();
    let mut expected = BTreeMap::new();
    churn(&mut map, &mut expected, &mut numbers, 200);
    let mut client: LateRows = rows_by_id(&map)
        .into_iter()
        .map(|(id, (k, v))| (id, (k, Some(v))))
        .collect();
    let mut cursor = map.current_seq();
    churn(&mut map, &mut expected, &mut numbers, 100);
    let mut gaps = false;
    for round in 0..200 {
        let (changes, next) = map.changes_since(cursor, 4).unwrap();
        if round < 30 {
            churn(&mut map, &mut expected, &mut numbers, 3);
        }
        note(&mut client, &changes, &map);
        gaps = gaps || client.values().any(|(_, value)| value.is_none());
        cursor = next;
        if changes.is_empty() && round >= 30 {
            break;
        }
    }
    assert!(gaps);
    assert_eq!(cursor, map.current_seq());
    let complete: LateRows = rows_by_id(&map)
        .into_iter()
        .map(|(id, (k, v))| (id, (k, Some(v))))
        .collect();
    assert_eq!(client, complete);
}

#[test]
fn no_value_is_missing_in_the_end() {
    late_values(note_by_key);
}

#[test]
fn no_value_is_missing_in_the_end_when_filled_in_later() {
    late_values(note_and_fill_in);
}

#[test]
fn filling_in_later_is_noting_at_once() {
    let mut map = RepLogMap::new();
    map.insert(key(1), vec![1]);
    map.insert(key(2), vec![2]);
    map.insert(key(3), vec![3]);
    map.remove(&key(2));
    map.insert(key(2), vec![4]);
    let (changes, _) = map.changes_since(0, 3).unwrap();
    let mut later = LateRows::new();
    note_and_fill_in(&mut later, &changes, &map);
    let at_once: LateRows = changes
        .iter()
        .map(|c| (c.entry_id, (c.key.clone(), map.get_value_by_id(c.entry_id))))
        .collect();
    assert_eq!(later, at_once);
    assert_eq!(later[&1], (key(2), None));
    assert_eq!(later[&2], (key(3), Some(vec![3])));
}
