//! How a client reads a replicated map page by page.

use vstd::prelude::*;

use crate::laws::every_key_has_its_value;
use crate::model::RepLogState;
use crate::order::{
    in_order, in_order_lists_each_key_once_in_order, in_order_resumes_after_a_key, key_less,
    key_less_irreflexive, keys_after,
};
use crate::sync::lemma_same_lookups;

verus! {

/// In a consistent map every listed key has a row.
pub(crate) proof fn lemma_rows(s: RepLogState, keys: Seq<Seq<u8>>)
    requires
        s.consistent(),
        forall|i: int| 0 <= i < keys.len() ==> s.index.contains_key(#[trigger] keys[i]),
    ensures
        s.rows(keys).len() == keys.len(),
        forall|i: int|
            0 <= i < keys.len() ==> #[trigger] s.rows(keys)[i] == (
                s.index[keys[i]],
                keys[i],
                s.store[s.index[keys[i]]],
            ),
    decreases keys.len(),
{
    if keys.len() > 0 {
        let before = keys.drop_last();
        assert forall|i: int| 0 <= i < before.len() implies s.index.contains_key(
            #[trigger] before[i],
        ) by {
            assert(before[i] == keys[i]);
        }
        lemma_rows(s, before);
        assert(s.index.contains_key(keys[keys.len() - 1]));
        assert forall|i: int| 0 <= i < keys.len() implies #[trigger] s.rows(keys)[i] == (
            s.index[keys[i]],
            keys[i],
            s.store[s.index[keys[i]]],
        ) by {
            if i < before.len() {
                assert(s.rows(keys)[i] == s.rows(before)[i]);
                assert(before[i] == keys[i]);
            }
        }
    }
}

/// The rows of a set of keys of the map: one for each key, with its entry ID and its
/// value, in ascending key order.
pub proof fn rows_list_each_key_once_in_order(s: RepLogState, keys: Set<Seq<u8>>)
    requires
        s.consistent(),
        keys.subset_of(s.index.dom()),
    ensures
        s.rows(in_order(keys)).len() == keys.len(),
        forall|i: int|
            0 <= i < keys.len() ==> {
                let row = #[trigger] s.rows(in_order(keys))[i];
                &&& keys.contains(row.1)
                &&& row.0 == s.index[row.1]
                &&& s.contents().contains_key(row.1)
                &&& row.2 == s.contents()[row.1]
                &&& row.1 == in_order(keys)[i]
            },
        forall|i: int, j: int|
            0 <= i < j < keys.len() ==> key_less(
                (#[trigger] s.rows(in_order(keys))[i]).1,
                (#[trigger] s.rows(in_order(keys))[j]).1,
            ),
        forall|k: Seq<u8>| #[trigger]
            keys.contains(k) ==> exists|i: int|
                0 <= i < keys.len() && (#[trigger] s.rows(in_order(keys))[i]).1 == k,
{
    let listing = in_order(keys);
    vstd::set_lib::lemma_set_subset_finite(s.index.dom(), keys);
    in_order_lists_each_key_once_in_order(keys);
    assert forall|i: int| 0 <= i < listing.len() implies s.index.contains_key(
        #[trigger] listing[i],
    ) by {
        assert(listing.contains(listing[i]));
    }
    lemma_rows(s, listing);
    assert forall|i: int| 0 <= i < keys.len() implies {
        let row = #[trigger] s.rows(listing)[i];
        &&& keys.contains(row.1)
        &&& row.0 == s.index[row.1]
        &&& s.contents().contains_key(row.1)
        &&& row.2 == s.contents()[row.1]
        &&& row.1 == listing[i]
    } by {
        assert(listing.contains(listing[i]));
    }
    assert forall|k: Seq<u8>| #[trigger] keys.contains(k) implies exists|i: int|
        0 <= i < keys.len() && (#[trigger] s.rows(listing)[i]).1 == k by {
        assert(listing.contains(k));
        let i = choose|i: int| 0 <= i < listing.len() && listing[i] == k;
        assert(s.rows(listing)[i].1 == k);
    }
}

/// All rows of a map, read as a map from keys to values, are its contents.
pub proof fn all_rows_are_the_contents(s: RepLogState)
    requires
        s.consistent(),
    ensures
        s.all_rows().len() == s.contents().len(),
        filed(Map::empty(), s.all_rows()) == s.contents(),
{
    let dom = s.index.dom();
    let rows = s.all_rows();
    rows_list_each_key_once_in_order(s, dom);
    every_key_has_its_value(s, Seq::empty());
    let client = filed(Map::empty(), rows);
    assert forall|k: Seq<u8>| #[trigger] client.get(k) == s.contents().get(k) by {
        if dom.contains(k) {
            let i = choose|i: int| 0 <= i < dom.len() && (#[trigger] rows[i]).1 == k;
            lemma_filed_found(Map::empty(), rows, i);
        } else {
            assert forall|i: int| 0 <= i < rows.len() implies (#[trigger] rows[i]).1 != k by {
                assert(dom.contains(rows[i].1));
            }
            lemma_filed_absent(Map::empty(), rows, k);
        }
    }
    lemma_same_lookups(client, s.contents());
}

/// The rows of a page with room for every key: as many as there are keys, no two with the
/// same entry ID, and each entry ID given out before.
pub proof fn the_rows_of_a_map_have_ids_of_their_own(s: RepLogState, limit: u64)
    requires
        s.consistent(),
        s.index.len() <= limit,
    ensures
        s.page(None, limit) == s.all_rows(),
        s.page(None, limit).len() == s.index.len(),
        forall|i: int|
            0 <= i < s.page(None, limit).len() ==> (#[trigger] s.page(None, limit)[i]).0
                < s.next_entry_id,
        forall|i: int, j: int|
            0 <= i < j < s.page(None, limit).len() ==> (#[trigger] s.page(None, limit)[i]).0 != (
            #[trigger] s.page(None, limit)[j]).0,
{
    let rows = s.all_rows();
    rows_list_each_key_once_in_order(s, s.index.dom());
    a_page_has_the_next_rows(s, 0, limit);
    assert(rows.subrange(0, rows.len() as int) =~= rows);
    assert(s.page(None, limit) == rows);
    assert forall|i: int| 0 <= i < rows.len() implies (#[trigger] rows[i]).0 < s.next_entry_id by {
        assert(s.index.contains_key(rows[i].1));
    }
    assert forall|i: int, j: int| 0 <= i < j < rows.len() implies (#[trigger] rows[i]).0 != (
    #[trigger] rows[j]).0 by {
        assert(key_less(rows[i].1, rows[j].1));
        key_less_irreflexive(rows[i].1);
        if rows[i].0 == rows[j].0 {
            assert(s.index[rows[i].1] == s.index[rows[j].1]);
        }
    }
}

/// What a client holds after it has filed the values of `rows` under their keys.
pub open spec fn filed(
    client: Map<Seq<u8>, Seq<u8>>,
    rows: Seq<(u64, Seq<u8>, Seq<u8>)>,
) -> Map<Seq<u8>, Seq<u8>>
    decreases rows.len(),
{
    if rows.len() == 0 {
        client
    } else {
        filed(client, rows.drop_last()).insert(rows.last().1, rows.last().2)
    }
}

pub(crate) proof fn lemma_filed_absent(
    client: Map<Seq<u8>, Seq<u8>>,
    rows: Seq<(u64, Seq<u8>, Seq<u8>)>,
    k: Seq<u8>,
)
    requires
        forall|i: int| 0 <= i < rows.len() ==> (#[trigger] rows[i]).1 != k,
    ensures
        filed(client, rows).get(k) == client.get(k),
    decreases rows.len(),
{
    if rows.len() > 0 {
        let before = rows.drop_last();
        assert forall|i: int| 0 <= i < before.len() implies (#[trigger] before[i]).1 != k by {
            assert(before[i] == rows[i]);
        }
        lemma_filed_absent(client, before, k);
        assert(rows[rows.len() - 1].1 != k);
    }
}

pub(crate) proof fn lemma_filed_found(
    client: Map<Seq<u8>, Seq<u8>>,
    rows: Seq<(u64, Seq<u8>, Seq<u8>)>,
    n: int,
)
    requires
        0 <= n < rows.len(),
        forall|i: int, j: int|
            0 <= i < j < rows.len() ==> key_less((#[trigger] rows[i]).1, (#[trigger] rows[j]).1),
    ensures
        filed(client, rows).get(rows[n].1) == Some(rows[n].2),
    decreases rows.len(),
{
    let before = rows.drop_last();
    if n < rows.len() - 1 {
        assert forall|i: int, j: int| 0 <= i < j < before.len() implies key_less(
            (#[trigger] before[i]).1,
            (#[trigger] before[j]).1,
        ) by {
            assert(before[i] == rows[i] && before[j] == rows[j]);
        }
        lemma_filed_found(client, before, n);
        assert(before[n] == rows[n]);
        assert(key_less(rows[n].1, rows[rows.len() - 1].1));
        key_less_irreflexive(rows[n].1);
    }
}

/// The key that the first `n` rows end with: the cursor of a client that has read them.
pub open spec fn cursor_after(s: RepLogState, n: int) -> Option<Seq<u8>> {
    if n == 0 {
        None
    } else {
        Some(s.all_rows()[n - 1].1)
    }
}

/// A page asked for with the last key of the `n` rows read so far has the next rows, as
/// many as asked for while there are any.
pub proof fn a_page_has_the_next_rows(s: RepLogState, n: int, limit: u64)
    requires
        s.consistent(),
        0 <= n <= s.all_rows().len(),
    ensures
        s.page(cursor_after(s, n), limit) == s.all_rows().subrange(
            n,
            if n + limit < s.all_rows().len() {
                n + limit
            } else {
                s.all_rows().len() as int
            },
        ),
{
    let dom = s.index.dom();
    let listing = in_order(dom);
    let after = cursor_after(s, n);
    rows_list_each_key_once_in_order(s, dom);
    in_order_lists_each_key_once_in_order(dom);
    assert(s.all_rows().len() == listing.len());
    let keys = in_order(keys_after(dom, after));
    if n == 0 {
        assert(listing.skip(0) =~= listing);
    } else {
        assert(s.all_rows()[n - 1].1 == listing[n - 1]);
        in_order_resumes_after_a_key(dom, n);
    }
    assert(keys == listing.skip(n));
    let end = if n + limit < listing.len() {
        n + limit
    } else {
        listing.len() as int
    };
    let page_keys = s.page_keys(after, limit);
    assert(page_keys =~= listing.subrange(n, end));
    assert forall|i: int| 0 <= i < listing.len() implies s.index.contains_key(
        #[trigger] listing[i],
    ) by {
        assert(listing.contains(listing[i]));
    }
    assert forall|i: int| 0 <= i < page_keys.len() implies s.index.contains_key(
        #[trigger] page_keys[i],
    ) by {
        assert(page_keys[i] == listing[i + n]);
    }
    lemma_rows(s, listing);
    lemma_rows(s, page_keys);
    assert(s.rows(page_keys) =~= s.all_rows().subrange(n, end)) by {
        assert forall|i: int| 0 <= i < page_keys.len() implies s.rows(page_keys)[i]
            == s.all_rows().subrange(n, end)[i] by {
            assert(page_keys[i] == listing[i + n]);
            assert(s.rows(page_keys)[i].1 == page_keys[i]);
            assert(s.rows(listing)[i + n].1 == listing[i + n]);
        }
    }
}

/// The rows of up to `n` pages of a map, each asked for with the last key of the page
/// before, up to the first page without rows.
pub open spec fn paged(s: RepLogState, after: Option<Seq<u8>>, limit: u64, n: nat) -> Seq<
    (u64, Seq<u8>, Seq<u8>),
>
    decreases n,
{
    let page = s.page(after, limit);
    if n == 0 || page.len() == 0 {
        Seq::empty()
    } else {
        page + paged(s, Some(page.last().1), limit, (n - 1) as nat)
    }
}

proof fn lemma_paged(s: RepLogState, read: int, limit: u64, n: nat)
    requires
        s.consistent(),
        limit > 0,
        0 <= read <= s.all_rows().len(),
        n >= s.all_rows().len() - read,
    ensures
        paged(s, cursor_after(s, read), limit, n) == s.all_rows().skip(read),
    decreases n,
{
    let rows = s.all_rows();
    let after = cursor_after(s, read);
    let page = s.page(after, limit);
    a_page_has_the_next_rows(s, read, limit);
    if read == rows.len() {
        assert(rows.skip(read) =~= Seq::empty());
    } else {
        let end = read + page.len();
        assert(page.last() == rows[end - 1]);
        lemma_paged(s, end, limit, (n - 1) as nat);
        assert(cursor_after(s, end) == Some(page.last().1));
        assert(page + rows.skip(end) =~= rows.skip(read));
    }
}

/// Reading a map page by page, with the last key received as the cursor, until a page
/// is empty, gives every row of the map, each once and in key order.
pub proof fn paging_through_gives_every_row(s: RepLogState, limit: u64, n: nat)
    requires
        s.consistent(),
        limit > 0,
        n >= s.all_rows().len(),
    ensures
        paged(s, None, limit, n) == s.all_rows(),
{
    lemma_paged(s, 0, limit, n);
    assert(s.all_rows().skip(0) =~= s.all_rows());
}

} // verus!
