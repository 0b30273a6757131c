//! What each operation that reads a map answers, in terms of its keys, entry IDs, values and
//! changes.

use vstd::prelude::*;

use crate::changelog::{ChangeEntry, ChangeKind};
use crate::model::{Change, RepLogState};
use crate::order::{
    in_order, in_order_lists_each_key_once_in_order, is_greatest, is_least, key_less,
    key_less_asymmetric, key_less_irreflexive, keys_after, keys_between, lemma_greatest_exists,
    lemma_greatest_unique, lemma_least_exists, lemma_least_unique, KeyBound,
};
use crate::replog::{
    changes_view, found_pair, key_view, keys_view, outcome, pairs_of, pairs_view, rows_view,
    valued_changes_view, values_of, RepLogError,
};
use crate::snapshot::rows_list_each_key_once_in_order;
use crate::storage::found_value;

verus! {

/// The rows of a list of keys in ascending order.
proof fn lemma_rows_of_list(s: RepLogState, list: Seq<Seq<u8>>)
    requires
        forall|i: int, j: int|
            0 <= i < j < list.len() ==> key_less(#[trigger] list[i], #[trigger] list[j]),
    ensures
        s.rows(list).len() <= list.len(),
        forall|i: int|
            0 <= i < s.rows(list).len() ==> {
                let row = #[trigger] s.rows(list)[i];
                &&& list.contains(row.1)
                &&& row.0 == s.index[row.1]
                &&& s.store.contains_key(row.0)
                &&& row.2 == s.store[row.0]
            },
        forall|i: int, j: int|
            0 <= i < j < s.rows(list).len() ==> key_less(
                (#[trigger] s.rows(list)[i]).1,
                (#[trigger] s.rows(list)[j]).1,
            ),
        forall|k: Seq<u8>| #[trigger]
            list.contains(k) && s.store.contains_key(s.index[k]) ==> exists|i: int|
                0 <= i < s.rows(list).len() && (#[trigger] s.rows(list)[i]).1 == k,
    decreases list.len(),
{
    if list.len() > 0 {
        let before = list.drop_last();
        let n = list.len() - 1;
        assert forall|i: int, j: int| 0 <= i < j < before.len() implies key_less(
            #[trigger] before[i],
            #[trigger] before[j],
        ) by {
            assert(before[i] == list[i] && before[j] == list[j]);
        }
        lemma_rows_of_list(s, before);
        let rows = s.rows(list);
        let old = s.rows(before);
        assert forall|k: Seq<u8>| before.contains(k) implies list.contains(k) && key_less(
            k,
            list[n],
        ) by {
            let i = choose|i: int| 0 <= i < before.len() && before[i] == k;
            assert(list[i] == k);
        }
        assert(list.contains(list[n]));
        assert forall|i: int| 0 <= i < rows.len() implies {
            let row = #[trigger] rows[i];
            &&& list.contains(row.1)
            &&& row.0 == s.index[row.1]
            &&& s.store.contains_key(row.0)
            &&& row.2 == s.store[row.0]
        } by {
            if i < old.len() {
                assert(rows[i] == old[i]);
                assert(before.contains(old[i].1));
            }
        }
        assert forall|i: int, j: int| 0 <= i < j < rows.len() implies key_less(
            (#[trigger] rows[i]).1,
            (#[trigger] rows[j]).1,
        ) by {
            assert(rows[i] == old[i]);
            assert(before.contains(old[i].1));
            if j < old.len() {
                assert(rows[j] == old[j]);
            }
        }
        assert forall|k: Seq<u8>| #[trigger]
            list.contains(k) && s.store.contains_key(s.index[k]) implies exists|i: int|
            0 <= i < rows.len() && (#[trigger] rows[i]).1 == k by {
            let j = choose|j: int| 0 <= j < list.len() && list[j] == k;
            if j < n {
                assert(before[j] == k);
                assert(before.contains(k));
                let i = choose|i: int| 0 <= i < old.len() && (#[trigger] old[i]).1 == k;
                assert(rows[i] == old[i]);
            } else {
                assert(rows[old.len() as int].1 == k);
            }
        }
    }
}

/// A range has a row for each key of the map that lies on the inner side of both ends, where
/// an included end is inside and an excluded one is not, and for no other key. Each row has
/// the key's entry ID and the value under it, and the rows are in ascending order of their
/// keys, so that no key is there twice. A key without a value has no row.
pub proof fn a_range_has_the_rows_between_its_ends(
    s: RepLogState,
    lower: KeyBound,
    upper: KeyBound,
)
    requires
        s.index.dom().finite(),
    ensures
        forall|i: int|
            0 <= i < s.rows_between(lower, upper).len() ==> {
                let (id, k, value) = #[trigger] s.rows_between(lower, upper)[i];
                &&& s.index.contains_key(k)
                &&& match lower {
                    KeyBound::Included(b) => k == b@ || key_less(b@, k),
                    KeyBound::Excluded(b) => key_less(b@, k),
                    KeyBound::Unbounded => true,
                }
                &&& match upper {
                    KeyBound::Included(b) => k == b@ || key_less(k, b@),
                    KeyBound::Excluded(b) => key_less(k, b@),
                    KeyBound::Unbounded => true,
                }
                &&& id == s.index[k]
                &&& s.store.contains_key(id)
                &&& value == s.store[id]
            },
        forall|k: Seq<u8>| #[trigger]
            s.index.contains_key(k) && s.store.contains_key(s.index[k]) && (match lower {
                KeyBound::Included(b) => k == b@ || key_less(b@, k),
                KeyBound::Excluded(b) => key_less(b@, k),
                KeyBound::Unbounded => true,
            }) && (match upper {
                KeyBound::Included(b) => k == b@ || key_less(k, b@),
                KeyBound::Excluded(b) => key_less(k, b@),
                KeyBound::Unbounded => true,
            }) ==> exists|i: int|
                0 <= i < s.rows_between(lower, upper).len() && (#[trigger] s.rows_between(
                    lower,
                    upper,
                )[i]).1 == k,
        forall|i: int, j: int|
            0 <= i < j < s.rows_between(lower, upper).len() ==> key_less(
                (#[trigger] s.rows_between(lower, upper)[i]).1,
                (#[trigger] s.rows_between(lower, upper)[j]).1,
            ),
{
    let keys = keys_between(s.index.dom(), lower, upper);
    let list = in_order(keys);
    let rows = s.rows_between(lower, upper);
    vstd::set_lib::lemma_set_subset_finite(s.index.dom(), keys);
    in_order_lists_each_key_once_in_order(keys);
    lemma_rows_of_list(s, list);
    assert(rows == s.rows(list));
    assert forall|k: Seq<u8>| #[trigger]
        s.index.contains_key(k) && s.store.contains_key(s.index[k]) && (match lower {
            KeyBound::Included(b) => k == b@ || key_less(b@, k),
            KeyBound::Excluded(b) => key_less(b@, k),
            KeyBound::Unbounded => true,
        }) && (match upper {
            KeyBound::Included(b) => k == b@ || key_less(k, b@),
            KeyBound::Excluded(b) => key_less(k, b@),
            KeyBound::Unbounded => true,
        }) implies exists|i: int| 0 <= i < rows.len() && (#[trigger] rows[i]).1 == k by {
        assert(keys.contains(k));
        assert(list.contains(k));
    }
}

/// All rows of a map: one for each key that has a value, with its entry ID and that value,
/// in ascending order of the keys; in a consistent map that is every key.
pub proof fn all_rows_are_those_of_every_key(s: RepLogState)
    requires
        s.index.dom().finite(),
    ensures
        forall|i: int|
            0 <= i < s.all_rows().len() ==> {
                let (id, k, value) = #[trigger] s.all_rows()[i];
                &&& s.index.contains_key(k)
                &&& id == s.index[k]
                &&& s.store.contains_key(id)
                &&& value == s.store[id]
            },
        forall|k: Seq<u8>| #[trigger]
            s.index.contains_key(k) && s.store.contains_key(s.index[k]) ==> exists|i: int|
                0 <= i < s.all_rows().len() && (#[trigger] s.all_rows()[i]).1 == k,
        forall|i: int, j: int|
            0 <= i < j < s.all_rows().len() ==> key_less(
                (#[trigger] s.all_rows()[i]).1,
                (#[trigger] s.all_rows()[j]).1,
            ),
        s.consistent() ==> s.all_rows().len() == s.index.len(),
{
    let dom = s.index.dom();
    let list = in_order(dom);
    in_order_lists_each_key_once_in_order(dom);
    lemma_rows_of_list(s, list);
    assert forall|k: Seq<u8>| #[trigger]
        s.index.contains_key(k) && s.store.contains_key(s.index[k]) implies exists|i: int|
        0 <= i < s.all_rows().len() && (#[trigger] s.all_rows()[i]).1 == k by {
        assert(dom.contains(k));
        assert(list.contains(k));
        let i = choose|i: int| 0 <= i < s.rows(list).len() && (#[trigger] s.rows(list)[i]).1 == k;
        assert(s.all_rows()[i].1 == k);
    }
    if s.consistent() {
        rows_list_each_key_once_in_order(s, dom);
    }
}

/// The keys, the values and the pairs of a map line up: the `i`-th value is the value of the
/// `i`-th key, equal values of different keys included, and the `i`-th pair is of both. There
/// is one of each for every key.
pub proof fn keys_values_and_pairs_line_up(s: RepLogState)
    requires
        s.consistent(),
    ensures
        ({
            let keys = in_order(s.index.dom());
            let values = values_of(s.all_rows());
            let pairs = pairs_of(s.all_rows());
            &&& keys.len() == s.index.len()
            &&& values.len() == s.index.len()
            &&& pairs.len() == s.index.len()
            &&& forall|k: Seq<u8>| #[trigger] s.index.contains_key(k) <==> keys.contains(k)
            &&& forall|i: int, j: int|
                0 <= i < j < keys.len() ==> key_less(#[trigger] keys[i], #[trigger] keys[j])
            &&& forall|i: int|
                0 <= i < keys.len() ==> {
                    &&& s.index.contains_key(#[trigger] keys[i])
                    &&& values[i] == s.store[s.index[keys[i]]]
                    &&& values[i] == s.contents()[keys[i]]
                    &&& pairs[i] == (keys[i], values[i])
                }
        }),
{
    let dom = s.index.dom();
    let keys = in_order(dom);
    in_order_lists_each_key_once_in_order(dom);
    rows_list_each_key_once_in_order(s, dom);
    assert forall|k: Seq<u8>| #[trigger] s.index.contains_key(k) <==> keys.contains(k) by {
        assert(keys.contains(k) <==> dom.contains(k));
    }
    assert forall|i: int| 0 <= i < keys.len() implies {
        &&& s.index.contains_key(#[trigger] keys[i])
        &&& values_of(s.all_rows())[i] == s.store[s.index[keys[i]]]
        &&& values_of(s.all_rows())[i] == s.contents()[keys[i]]
        &&& pairs_of(s.all_rows())[i] == (keys[i], values_of(s.all_rows())[i])
    } by {
        assert(keys.contains(keys[i]));
        assert(s.rows(keys)[i].1 == keys[i]);
    }
}

/// The keys and values of rows are as many as the rows, each with its own.
pub proof fn a_pair_and_a_value_for_each_row(rows: Seq<(u64, Seq<u8>, Seq<u8>)>)
    ensures
        pairs_of(rows).len() == rows.len(),
        values_of(rows).len() == rows.len(),
        forall|i: int|
            0 <= i < rows.len() ==> #[trigger] pairs_of(rows)[i] == (rows[i].1, rows[i].2),
        forall|i: int| 0 <= i < rows.len() ==> #[trigger] values_of(rows)[i] == rows[i].2,
{
}

/// The members of a set that come before the `n`-th one are `n`.
proof fn lemma_place(keys: Set<Seq<u8>>, n: int)
    requires
        keys.finite(),
        0 <= n < in_order(keys).len(),
    ensures
        keys.filter(|o: Seq<u8>| key_less(o, in_order(keys)[n])).len() == n,
{
    let list = in_order(keys);
    let before = keys.filter(|o: Seq<u8>| key_less(o, list[n]));
    let part = list.take(n);
    in_order_lists_each_key_once_in_order(keys);
    assert forall|o: Seq<u8>| before.contains(o) <==> part.to_set().contains(o) by {
        if before.contains(o) {
            assert(list.contains(o));
            let i = choose|i: int| 0 <= i < list.len() && list[i] == o;
            key_less_irreflexive(o);
            if i > n {
                key_less_asymmetric(list[n], list[i]);
            }
            assert(part[i] == o);
        }
        if part.contains(o) {
            let i = choose|i: int| 0 <= i < part.len() && part[i] == o;
            assert(list[i] == o);
            assert(list.contains(o));
        }
    }
    assert(before =~= part.to_set());
    assert forall|i: int, j: int| 0 <= i < part.len() && 0 <= j < part.len() && i
        != j implies part[i] != part[j] by {
        key_less_irreflexive(part[i]);
        if i < j {
            assert(key_less(list[i], list[j]));
        } else {
            assert(key_less(list[j], list[i]));
        }
    }
    part.unique_seq_to_set();
}

/// A page has a row for each key of the map behind `after` that has fewer than `limit` other
/// such keys before it, and for no other key. Each row has the key's entry ID and the value
/// under it, the rows are in ascending order of their keys, and there are no more than
/// `limit`. A key without a value has no row.
pub proof fn a_page_has_the_first_rows_behind_its_cursor(
    s: RepLogState,
    after: Option<Seq<u8>>,
    limit: u64,
)
    requires
        s.index.dom().finite(),
    ensures
        ({
            let page = s.page(after, limit);
            let behind = |k: Seq<u8>|
                s.index.contains_key(k) && (after matches Some(a) ==> key_less(a, k));
            let place = |k: Seq<u8>|
                s.index.dom().filter(|o: Seq<u8>| behind(o) && key_less(o, k)).len();
            &&& page.len() <= limit
            &&& forall|i: int|
                0 <= i < page.len() ==> {
                    let (id, k, value) = #[trigger] page[i];
                    &&& behind(k)
                    &&& place(k) < limit
                    &&& id == s.index[k]
                    &&& s.store.contains_key(id)
                    &&& value == s.store[id]
                }
            &&& forall|k: Seq<u8>|
                behind(k) && place(k) < limit && #[trigger] s.store.contains_key(s.index[k])
                    ==> exists|i: int| 0 <= i < page.len() && (#[trigger] page[i]).1 == k
            &&& forall|i: int, j: int|
                0 <= i < j < page.len() ==> key_less((#[trigger] page[i]).1, (#[trigger] page[j]).1)
        }),
{
    let dom = s.index.dom();
    let page = s.page(after, limit);
    let behind = |k: Seq<u8>|
        s.index.contains_key(k) && (after matches Some(a) ==> key_less(a, k));
    let place = |k: Seq<u8>|
        s.index.dom().filter(|o: Seq<u8>| behind(o) && key_less(o, k)).len();
    let keys = keys_after(dom, after);
    let list = in_order(keys);
    let first = s.page_keys(after, limit);
    vstd::set_lib::lemma_set_subset_finite(dom, keys);
    in_order_lists_each_key_once_in_order(keys);
    lemma_rows_of_list(s, first);
    assert forall|n: int| 0 <= n < list.len() implies place(#[trigger] list[n]) == n by {
        lemma_place(keys, n);
        assert(dom.filter(|o: Seq<u8>| behind(o) && key_less(o, list[n])) =~= keys.filter(
            |o: Seq<u8>| key_less(o, list[n]),
        ));
    }
    assert forall|i: int| 0 <= i < page.len() implies {
        let (id, k, value) = #[trigger] page[i];
        &&& behind(k)
        &&& place(k) < limit
        &&& id == s.index[k]
        &&& s.store.contains_key(id)
        &&& value == s.store[id]
    } by {
        let k = page[i].1;
        assert(first.contains(k));
        let n = choose|n: int| 0 <= n < first.len() && first[n] == k;
        assert(list[n] == k);
        assert(list.contains(k));
    }
    assert forall|k: Seq<u8>|
        behind(k) && place(k) < limit && #[trigger] s.store.contains_key(
            s.index[k],
        ) implies exists|i: int| 0 <= i < page.len() && (#[trigger] page[i]).1 == k by {
        assert(keys.contains(k));
        assert(list.contains(k));
        let n = choose|n: int| 0 <= n < list.len() && list[n] == k;
        assert(place(list[n]) == n);
        assert(first[n] == k);
        assert(first.contains(k));
    }
}

/// The first entry of a map is a key that no key comes before, with its value; the last one
/// a key that no key comes after. A consistent map has none only where it has no key.
pub proof fn the_first_and_the_last_entry(s: RepLogState)
    requires
        s.consistent(),
    ensures
        s.first() is None <==> s.index.len() == 0,
        s.last() is None <==> s.index.len() == 0,
        s.first() matches Some((k, v)) ==> {
            &&& s.index.contains_key(k)
            &&& v == s.store[s.index[k]]
            &&& v == s.contents()[k]
            &&& forall|o: Seq<u8>| #[trigger] s.index.contains_key(o) ==> o == k || key_less(k, o)
        },
        s.last() matches Some((k, v)) ==> {
            &&& s.index.contains_key(k)
            &&& v == s.store[s.index[k]]
            &&& v == s.contents()[k]
            &&& forall|o: Seq<u8>| #[trigger] s.index.contains_key(o) ==> o == k || key_less(o, k)
        },
{
    let dom = s.index.dom();
    if s.index.len() > 0 {
        assert(dom.contains(dom.choose()));
        lemma_least_exists(dom);
        lemma_greatest_exists(dom);
        assert forall|o: Seq<u8>| #[trigger] s.index.contains_key(o) implies dom.contains(o) by {}
    } else {
        assert(dom =~= Set::empty());
    }
}

/// A key that no key of the map comes before is the first entry, where it has a value; one
/// that no key comes after is the last entry. Where it has no value there is none, and there
/// is none in a map without keys.
pub proof fn an_outermost_key_is_the_first_or_the_last_entry(s: RepLogState, key: Seq<u8>)
    ensures
        s.index.contains_key(key) && (forall|o: Seq<u8>| #[trigger]
            s.index.contains_key(o) ==> o == key || key_less(key, o)) ==> s.first() == (
        if s.store.contains_key(s.index[key]) {
            Some((key, s.store[s.index[key]]))
        } else {
            None
        }),
        s.index.contains_key(key) && (forall|o: Seq<u8>| #[trigger]
            s.index.contains_key(o) ==> o == key || key_less(o, key)) ==> s.last() == (
        if s.store.contains_key(s.index[key]) {
            Some((key, s.store[s.index[key]]))
        } else {
            None
        }),
        (forall|o: Seq<u8>| !#[trigger] s.index.contains_key(o)) ==> s.first() is None
            && s.last() is None,
{
    let dom = s.index.dom();
    if s.index.contains_key(key) {
        assert(dom.contains(key));
        if forall|o: Seq<u8>| #[trigger] s.index.contains_key(o) ==> o == key || key_less(key, o) {
            assert forall|o: Seq<u8>| #[trigger] dom.contains(o) implies o == key || key_less(
                key,
                o,
            ) by {
                assert(s.index.contains_key(o));
            }
            assert(is_least(dom, key));
            lemma_least_unique(dom, key);
        }
        if forall|o: Seq<u8>| #[trigger] s.index.contains_key(o) ==> o == key || key_less(o, key) {
            assert forall|o: Seq<u8>| #[trigger] dom.contains(o) implies o == key || key_less(
                o,
                key,
            ) by {
                assert(s.index.contains_key(o));
            }
            assert(is_greatest(dom, key));
            lemma_greatest_unique(dom, key);
        }
    }
    if forall|o: Seq<u8>| !#[trigger] s.index.contains_key(o) {
        assert forall|o: Seq<u8>| !dom.contains(o) by {
            assert(!s.index.contains_key(o));
        }
        assert(dom =~= Set::empty());
    }
}

/// The first and the last entry are the ends of the rows of the map.
pub proof fn the_outermost_entries_are_the_outermost_rows(s: RepLogState)
    requires
        s.consistent(),
        s.index.len() > 0,
    ensures
        ({
            let pairs = pairs_of(s.all_rows());
            &&& pairs.len() == s.index.len()
            &&& s.first() == Some(pairs[0])
            &&& s.last() == Some(pairs[pairs.len() - 1])
        }),
{
    let keys = in_order(s.index.dom());
    keys_values_and_pairs_line_up(s);
    assert forall|o: Seq<u8>| #[trigger] s.index.contains_key(o) implies (o == keys[0] || key_less(
        keys[0],
        o,
    )) && (o == keys[keys.len() - 1] || key_less(o, keys[keys.len() - 1])) by {
        assert(keys.contains(o));
        let i = choose|i: int| 0 <= i < keys.len() && keys[i] == o;
        assert(keys[i] == o);
    }
    assert(s.index.contains_key(keys[0]));
    assert(s.index.contains_key(keys[keys.len() - 1]));
    an_outermost_key_is_the_first_or_the_last_entry(s, keys[0]);
    an_outermost_key_is_the_first_or_the_last_entry(s, keys[keys.len() - 1]);
}

/// An answer with values has the changes of the answer without, each unchanged, and beside
/// each the value that its key has now: none for a removal, and none for a key that is gone.
pub proof fn changes_with_values_are_the_changes(s: RepLogState, change: Change)
    ensures
        s.with_value(change).0 == change,
        s.with_value(change).0.kind == change.kind,
        s.with_value(change).0.entry_id == change.entry_id,
        s.with_value(change).0.key == change.key,
        change.kind == ChangeKind::Delete ==> s.with_value(change).1 is None,
        change.kind == ChangeKind::Upsert ==> s.with_value(change).1 == s.contents().get(
            change.key,
        ),
        change.kind == ChangeKind::Upsert && s.index.contains_key(change.key)
            ==> s.with_value(change).1 == s.store.get(s.index[change.key]),
        change.kind == ChangeKind::Upsert && !s.index.contains_key(change.key)
            ==> s.with_value(change).1 is None,
{
}

/// The answer to a request: none where the changelog begins after the cursor; nothing, and
/// the current sequence number, for a cursor that is not behind it; else the changes from the
/// cursor on, each as it is in the changelog, as many as asked for while there are any, with
/// the cursor behind the last of them.
pub proof fn an_answer_has_the_changes_as_logged(s: RepLogState, cursor: u64, limit: u64)
    ensures
        cursor < s.epoch_start ==> s.changes_since(cursor, limit) is None,
        cursor >= s.epoch_start ==> s.changes_since(cursor, limit) is Some,
        cursor >= s.epoch_start + s.log.len() ==> s.changes_since(cursor, limit) == Some(
            (Seq::<Change>::empty(), (s.epoch_start + s.log.len()) as nat),
        ),
        s.epoch_start <= cursor < s.epoch_start + s.log.len() ==> {
            let (changes, next) = s.changes_since(cursor, limit)->0;
            let left = s.epoch_start + s.log.len() - cursor;
            &&& changes.len() == (if limit < left {
                limit as int
            } else {
                left
            })
            &&& next == cursor + changes.len()
            &&& forall|i: int|
                0 <= i < changes.len() ==> #[trigger] changes[i] == s.log[cursor - s.epoch_start
                    + i]
        },
{
}

/// What an operation returns is seen in full: as a sequence it is the same bytes, and nothing
/// only where nothing was returned.
pub proof fn what_is_returned_is_seen_in_full(
    value: Option<Vec<u8>>,
    pair: Option<(Vec<u8>, Vec<u8>)>,
    key: Option<&Vec<u8>>,
    result: Result<Option<Vec<u8>>, RepLogError>,
)
    ensures
        value is None <==> found_value(value) is None,
        value matches Some(v) ==> found_value(value) == Some(v@),
        pair is None <==> found_pair(pair) is None,
        pair matches Some(p) ==> found_pair(pair) == Some((p.0@, p.1@)),
        key is None <==> key_view(key) is None,
        key matches Some(k) ==> key_view(key) == Some(k@),
        result is Ok <==> outcome(result) is Ok,
        result matches Ok(v) ==> outcome(result) == Ok::<Option<Seq<u8>>, RepLogError>(
            match v {
                Some(bytes) => Some(bytes@),
                None => None,
            },
        ),
{
}

/// A list that an operation returns is seen in full: item by item, and part by part.
pub proof fn what_is_listed_is_seen_in_full(
    keys: Seq<Vec<u8>>,
    pairs: Seq<(Vec<u8>, Vec<u8>)>,
    rows: Seq<(u64, Vec<u8>, Vec<u8>)>,
    changes: Seq<ChangeEntry<Vec<u8>>>,
    valued: Seq<(ChangeEntry<Vec<u8>>, Option<Vec<u8>>)>,
)
    ensures
        keys_view(keys).len() == keys.len(),
        forall|i: int| 0 <= i < keys.len() ==> #[trigger] keys_view(keys)[i] == keys[i]@,
        pairs_view(pairs).len() == pairs.len(),
        forall|i: int|
            0 <= i < pairs.len() ==> #[trigger] pairs_view(pairs)[i] == (pairs[i].0@, pairs[i].1@),
        rows_view(rows).len() == rows.len(),
        forall|i: int|
            0 <= i < rows.len() ==> #[trigger] rows_view(rows)[i] == (
                rows[i].0,
                rows[i].1@,
                rows[i].2@,
            ),
        changes_view(changes).len() == changes.len(),
        forall|i: int|
            0 <= i < changes.len() ==> {
                let change = #[trigger] changes_view(changes)[i];
                &&& change.kind == changes[i].kind
                &&& change.entry_id == changes[i].entry_id
                &&& change.key == changes[i].key@
            },
        valued_changes_view(valued).len() == valued.len(),
        forall|i: int|
            0 <= i < valued.len() ==> {
                let (change, value) = #[trigger] valued_changes_view(valued)[i];
                &&& change.kind == valued[i].0.kind
                &&& change.entry_id == valued[i].0.entry_id
                &&& change.key == valued[i].0.key@
                &&& value is None <==> valued[i].1 is None
                &&& valued[i].1 matches Some(v) ==> value == Some(v@)
            },
{
}

} // verus!
