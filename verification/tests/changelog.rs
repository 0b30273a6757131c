use ic_stable_replog::{ChangeEntry, ChangeKind, Counters};

#[test]
fn change_entry_roundtrip_upsert() {
    let entry: ChangeEntry<Vec<u8>> = ChangeEntry {
        kind: ChangeKind::Upsert,
        entry_id: 42,
        key: vec![1, 2, 3, 4, 5],
    };
    let bytes = entry.to_bytes();
    let decoded = ChangeEntry::from_bytes(bytes);
    assert_eq!(decoded, entry);
}

#[test]
fn change_entry_roundtrip_delete() {
    let entry: ChangeEntry<Vec<u8>> = ChangeEntry {
        kind: ChangeKind::Delete,
        entry_id: 7,
        key: vec![10, 20],
    };
    let bytes = entry.to_bytes();
    let decoded = ChangeEntry::from_bytes(bytes);
    assert_eq!(decoded, entry);
}

#[test]
fn counters_roundtrip() {
    let c = Counters {
        next_entry_id: 1_000_000,
        epoch_start: 500,
    };
    let bytes = c.to_bytes();
    assert_eq!(bytes.len(), 16);
    let decoded = Counters::from_bytes(bytes);
    assert_eq!(decoded, c);
}

#[test]
fn stored_form_of_a_change() {
    let entry = ChangeEntry {
        kind: ChangeKind::Delete,
        entry_id: 0x0102_0304_0506_0708,
        key: vec![9, 10],
    };
    let expected = vec![1, 8, 7, 6, 5, 4, 3, 2, 1, 9, 10];
    assert_eq!(entry.to_bytes(), expected);
    assert_eq!(entry.into_bytes(), expected);
}

#[test]
fn stored_form_of_a_change_without_a_key() {
    let entry = ChangeEntry {
        kind: ChangeKind::Upsert,
        entry_id: u64::MAX,
        key: vec![],
    };
    let bytes = entry.to_bytes();
    assert_eq!(bytes, vec![0, 255, 255, 255, 255, 255, 255, 255, 255]);
    assert_eq!(ChangeEntry::from_bytes(bytes), entry);
}

#[test]
fn bytes_survive_a_roundtrip() {
    let bytes = vec![1, 2, 0, 0, 0, 0, 0, 0, 128, 7, 7, 7];
    let entry = ChangeEntry::from_bytes(bytes.clone());
    assert!(entry.is_delete());
    assert!(!entry.is_upsert());
    assert_eq!(entry.entry_id, 2 + (128 << 56));
    assert_eq!(entry.key, vec![7, 7, 7]);
    assert_eq!(entry.to_bytes(), bytes);
}

#[test]
fn stored_form_of_the_counters() {
    let c = Counters {
        next_entry_id: 258,
        epoch_start: 3,
    };
    let expected = vec![2, 1, 0, 0, 0, 0, 0, 0, 3, 0, 0, 0, 0, 0, 0, 0];
    assert_eq!(c.to_bytes(), expected);
    assert_eq!(c.into_bytes(), expected);
}

#[test]
fn counters_ignore_bytes_behind_the_sixteenth() {
    let mut bytes = Counters {
        next_entry_id: 5,
        epoch_start: 6,
    }
    .to_bytes();
    bytes.push(1);
    let c = Counters::from_bytes(bytes);
    assert_eq!(c.next_entry_id, 5);
    assert_eq!(c.epoch_start, 6);
}

#[test]
fn new_counters_are_zero() {
    let c = Counters::default();
    assert_eq!(c.next_entry_id, 0);
    assert_eq!(c.epoch_start, 0);
}

#[test]
fn readable_records() {
    let readable = |bytes: Vec<u8>| ChangeEntry::is_readable(&bytes);
    assert!(readable(vec![0; 9]));
    assert!(readable(vec![1, 0, 0, 0, 0, 0, 0, 0, 0, 5]));
    assert!(!readable(vec![0; 8]));
    assert!(!readable(vec![2, 0, 0, 0, 0, 0, 0, 0, 0, 5]));
    assert!(!readable(vec![]));
}

#[test]
fn a_stored_form_belongs_to_one_entry() {
    let entry = |kind, entry_id, key: &[u8]| ChangeEntry { kind, entry_id, key: key.to_vec() };
    let entries = [
        entry(ChangeKind::Upsert, 1, b"a"),
        entry(ChangeKind::Delete, 1, b"a"),
        entry(ChangeKind::Upsert, 2, b"a"),
        entry(ChangeKind::Upsert, 256, b"a"),
        entry(ChangeKind::Upsert, 1, b""),
        entry(ChangeKind::Upsert, 1, b"ab"),
    ];
    for (i, a) in entries.iter().enumerate() {
        for (j, b) in entries.iter().enumerate() {
            assert_eq!(a.to_bytes() == b.to_bytes(), i == j);
        }
    }
}

#[test]
fn an_entry_with_a_number_for_a_key_comes_back() {
    let stored = ChangeEntry {
        kind: ChangeKind::Delete,
        entry_id: 77,
        key: (-5i64).to_be_bytes().to_vec(),
    }
    .to_bytes();
    let entry = ChangeEntry::from_bytes(stored);
    let bytes: [u8; 8] = entry.key.try_into().unwrap();
    assert_eq!(
        (entry.kind, entry.entry_id, i64::from_be_bytes(bytes)),
        (ChangeKind::Delete, 77, -5)
    );
}
