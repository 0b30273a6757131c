//! How a client that files its rows under entry IDs resyncs page by page while the map goes
//! on changing.

use vstd::prelude::*;

use crate::history::{all_possible, run, Op};
use crate::model::{last_change_by_id, Change, RepLogState};
use crate::order::{key_less, key_less_irreflexive};
use crate::resync::{
    covered, lemma_page, lemma_page_value, lemma_seen, resync_cursor, resync_page, seen,
};
use crate::snapshot::rows_list_each_key_once_in_order;
use crate::sync::{
    answered, batch_cursor, lemma_follows_between, lemma_same_lookups, missed,
    one_after_the_other, reached, Request,
};
use crate::sync_by_id::{
    agrees_by_id, batched_by_id, follows_by_id, lemma_follows_between_by_id, lemma_has_key,
    lemma_key_of, lemma_unchanged_id, syncing_in_batches_brings_the_rows_up_to_date, Lookup,
};

verus! {

/// What a client holds after it has filed `rows` under their entry IDs.
pub open spec fn filed_by_id(
    client: Map<u64, (Seq<u8>, Seq<u8>)>,
    rows: Seq<(u64, Seq<u8>, Seq<u8>)>,
) -> Map<u64, (Seq<u8>, Seq<u8>)>
    decreases rows.len(),
{
    if rows.len() == 0 {
        client
    } else {
        filed_by_id(client, rows.drop_last()).insert(
            rows.last().0,
            (rows.last().1, rows.last().2),
        )
    }
}

proof fn lemma_filed_absent(
    client: Map<u64, (Seq<u8>, Seq<u8>)>,
    rows: Seq<(u64, Seq<u8>, Seq<u8>)>,
    id: u64,
)
    requires
        forall|i: int| 0 <= i < rows.len() ==> (#[trigger] rows[i]).0 != id,
    ensures
        filed_by_id(client, rows).get(id) == client.get(id),
    decreases rows.len(),
{
    if rows.len() > 0 {
        let before = rows.drop_last();
        assert forall|i: int| 0 <= i < before.len() implies (#[trigger] before[i]).0 != id by {
            assert(before[i] == rows[i]);
        }
        lemma_filed_absent(client, before, id);
        assert(rows[rows.len() - 1].0 != id);
    }
}

proof fn lemma_filed_found(
    client: Map<u64, (Seq<u8>, Seq<u8>)>,
    rows: Seq<(u64, Seq<u8>, Seq<u8>)>,
    n: int,
)
    requires
        0 <= n < rows.len(),
        forall|i: int, j: int|
            0 <= i < j < rows.len() ==> (#[trigger] rows[i]).0 != (#[trigger] rows[j]).0,
    ensures
        filed_by_id(client, rows).get(rows[n].0) == Some((rows[n].1, rows[n].2)),
    decreases rows.len(),
{
    let before = rows.drop_last();
    if n < rows.len() - 1 {
        assert forall|i: int, j: int| 0 <= i < j < before.len() implies (#[trigger] before[i]).0
            != (#[trigger] before[j]).0 by {
            assert(before[i] == rows[i] && before[j] == rows[j]);
        }
        lemma_filed_found(client, before, n);
        assert(before[n] == rows[n]);
        assert(rows[n].0 != rows[rows.len() - 1].0);
    }
}

/// All rows of a map, filed under their entry IDs, are its keys and values by entry ID.
pub proof fn all_rows_filed_are_the_rows_by_id(s: RepLogState)
    requires
        s.consistent(),
    ensures
        filed_by_id(Map::empty(), s.all_rows()) == s.contents_by_id(),
{
    let dom = s.index.dom();
    let rows = s.all_rows();
    rows_list_each_key_once_in_order(s, dom);
    assert forall|i: int, j: int| 0 <= i < j < rows.len() implies (#[trigger] rows[i]).0 != (
    #[trigger] rows[j]).0 by {
        assert(key_less(rows[i].1, rows[j].1));
        key_less_irreflexive(rows[i].1);
        if rows[i].0 == rows[j].0 {
            assert(s.index[rows[i].1] == s.index[rows[j].1]);
        }
    }
    let client = filed_by_id(Map::empty(), rows);
    assert forall|id: u64| #[trigger] client.get(id) == s.contents_by_id().get(id) by {
        if s.store.contains_key(id) {
            lemma_has_key(s, id);
            let k = s.key_of(id);
            assert(dom.contains(k));
            let i = choose|i: int| 0 <= i < dom.len() && (#[trigger] rows[i]).1 == k;
            assert(rows[i].0 == id);
            lemma_filed_found(Map::empty(), rows, i);
        } else {
            assert forall|i: int| 0 <= i < rows.len() implies (#[trigger] rows[i]).0 != id by {
                assert(s.index.contains_key(rows[i].1));
            }
            lemma_filed_absent(Map::empty(), rows, id);
        }
    }
    lemma_same_lookups(client, s.contents_by_id());
}

/// What a client holds after it has filed `n` pages.
pub open spec fn resynced_by_id(
    s: RepLogState,
    ops: Seq<Op>,
    cuts: Seq<nat>,
    limit: u64,
    n: nat,
) -> Map<u64, (Seq<u8>, Seq<u8>)>
    decreases n,
{
    if n == 0 {
        Map::empty()
    } else {
        filed_by_id(
            resynced_by_id(s, ops, cuts, limit, (n - 1) as nat),
            resync_page(s, ops, cuts, limit, n - 1),
        )
    }
}

/// Of the entry IDs without a change since the first page, those whose keys are up to the
/// cursor have their rows, and no row is other than in the map.
spec fn resync_in_step(
    client: Map<u64, (Seq<u8>, Seq<u8>)>,
    after: Option<Seq<u8>>,
    changes: Seq<Change>,
    t: RepLogState,
) -> bool {
    forall|id: u64|
        #![trigger client.get(id)]
        last_change_by_id(changes, id) is None ==> {
            &&& t.store.contains_key(id) && covered(after, t.key_of(id)) ==> client.get(id)
                == t.contents_by_id().get(id)
            &&& client.get(id) is Some ==> client.get(id) == t.contents_by_id().get(id)
        }
}

/// No two rows of a page have the same entry ID.
proof fn lemma_page_ids(u: RepLogState, after: Option<Seq<u8>>, limit: u64)
    requires
        u.consistent(),
    ensures
        forall|i: int, j: int|
            0 <= i < j < u.page(after, limit).len() ==> (#[trigger] u.page(after, limit)[i]).0 != (
            #[trigger] u.page(after, limit)[j]).0,
{
    let page = u.page(after, limit);
    assert forall|i: int, j: int| 0 <= i < j < page.len() implies (#[trigger] page[i]).0 != (
    #[trigger] page[j]).0 by {
        lemma_page(u, after, limit, page[i].1);
        assert(key_less(page[i].1, page[j].1));
        key_less_irreflexive(page[i].1);
        lemma_page_value(u, after, limit, i);
        lemma_page_value(u, after, limit, j);
        if page[i].0 == page[j].0 {
            assert(u.index[page[i].1] == u.index[page[j].1]);
        }
    }
}

/// A page in between keeps the client in step up to the new cursor; the last page, which
/// has fewer rows than asked for, for every entry ID.
proof fn lemma_resync_step(
    client: Map<u64, (Seq<u8>, Seq<u8>)>,
    after: Option<Seq<u8>>,
    limit: u64,
    s: RepLogState,
    u: RepLogState,
    t: RepLogState,
    id: u64,
)
    requires
        u.consistent(),
        follows_by_id(u, t),
        t.epoch_start <= s.current_seq() <= u.current_seq(),
        resync_in_step(client, after, missed(t, s.current_seq()), t),
        last_change_by_id(missed(t, s.current_seq()), id) is None,
    ensures
        ({
            let page = u.page(after, limit);
            let next = if page.len() == 0 {
                after
            } else {
                Some(page.last().1)
            };
            let result = filed_by_id(client, page);
            &&& t.store.contains_key(id) && (covered(next, t.key_of(id)) || page.len() < limit)
                ==> result.get(id) == t.contents_by_id().get(id)
            &&& result.get(id) is Some ==> result.get(id) == t.contents_by_id().get(id)
        }),
{
    let page = u.page(after, limit);
    lemma_unchanged_id(u, t, s.current_seq(), id);
    assert(t.contents_by_id().get(id) == u.contents_by_id().get(id));
    assert(client.get(id) == client.get(id));
    lemma_page_ids(u, after, limit);
    if exists|i: int| 0 <= i < page.len() && (#[trigger] page[i]).0 == id {
        let i = choose|i: int| 0 <= i < page.len() && (#[trigger] page[i]).0 == id;
        lemma_filed_found(client, page, i);
        lemma_page_value(u, after, limit, i);
        lemma_key_of(u, page[i].1, id);
    } else {
        lemma_filed_absent(client, page, id);
        if t.store.contains_key(id) {
            let k = t.key_of(id);
            assert(t.contents_by_id().contains_key(id));
            assert(u.contents_by_id().get(id) is Some);
            assert(u.store.contains_key(id));
            assert(u.contents_by_id()[id] == t.contents_by_id()[id]);
            lemma_has_key(u, id);
            assert(u.key_of(id) == k);
            lemma_page(u, after, limit, k);
            if exists|i: int| 0 <= i < page.len() && (#[trigger] page[i]).1 == k {
                let i = choose|i: int| 0 <= i < page.len() && (#[trigger] page[i]).1 == k;
                lemma_page_value(u, after, limit, i);
                assert(page[i].0 == id);
            }
        }
    }
}

proof fn lemma_resync(s: RepLogState, ops: Seq<Op>, cuts: Seq<nat>, limit: u64, n: nat)
    requires
        s.consistent(),
        s.current_seq() <= u64::MAX,
        all_possible(s, ops),
        n <= cuts.len(),
        forall|i: int| 0 <= i < cuts.len() ==> #[trigger] cuts[i] <= ops.len(),
        run(s, ops).epoch_start <= s.current_seq(),
    ensures
        resync_in_step(
            resynced_by_id(s, ops, cuts, limit, n),
            resync_cursor(s, ops, cuts, limit, n),
            missed(run(s, ops), s.current_seq()),
            run(s, ops),
        ),
    decreases n,
{
    if n > 0 {
        let t = run(s, ops);
        let before = (n - 1) as nat;
        lemma_resync(s, ops, cuts, limit, before);
        assert(cuts[n - 1] <= ops.len());
        let u = seen(s, ops, cuts, n - 1);
        lemma_seen(s, ops, cuts, n - 1);
        lemma_follows_between_by_id(s, ops, cuts[n - 1] as int, ops.len() as int);
        assert(ops.take(ops.len() as int) =~= ops);
        let next = resync_cursor(s, ops, cuts, limit, n);
        let result = resynced_by_id(s, ops, cuts, limit, n);
        assert forall|id: u64|
            #![trigger result.get(id)]
            last_change_by_id(missed(t, s.current_seq()), id) is None implies {
            &&& t.store.contains_key(id) && covered(next, t.key_of(id)) ==> result.get(id)
                == t.contents_by_id().get(id)
            &&& result.get(id) is Some ==> result.get(id) == t.contents_by_id().get(id)
        } by {
            lemma_resync_step(
                resynced_by_id(s, ops, cuts, limit, before),
                resync_cursor(s, ops, cuts, limit, before),
                limit,
                s,
                u,
                t,
                id,
            );
        }
    }
}

/// A client that reads a map page by page, each page asked for with the last key received,
/// and files the rows under their entry IDs, until a page has fewer rows than asked for,
/// agrees with the map on every entry ID without a change behind the sequence number that the
/// map had before the first page: whatever was done to the map between the pages and after
/// them, as long as its changelog reaches back to that sequence number.
pub proof fn a_paged_resync_agrees_by_id_where_nothing_changed(
    s: RepLogState,
    ops: Seq<Op>,
    cuts: Seq<nat>,
    limit: u64,
)
    requires
        s.consistent(),
        s.current_seq() <= u64::MAX,
        all_possible(s, ops),
        cuts.len() > 0,
        forall|i: int| 0 <= i < cuts.len() ==> #[trigger] cuts[i] <= ops.len(),
        resync_page(s, ops, cuts, limit, cuts.len() - 1).len() < limit,
        run(s, ops).epoch_start <= s.current_seq(),
    ensures
        agrees_by_id(
            resynced_by_id(s, ops, cuts, limit, cuts.len()),
            run(s, ops),
            s.current_seq(),
        ),
{
    let t = run(s, ops);
    let cursor = s.current_seq();
    let n = cuts.len();
    let before = (n - 1) as nat;
    lemma_resync(s, ops, cuts, limit, before);
    assert(cuts[n - 1] <= ops.len());
    let u = seen(s, ops, cuts, n - 1);
    lemma_seen(s, ops, cuts, n - 1);
    lemma_follows_between_by_id(s, ops, cuts[n - 1] as int, ops.len() as int);
    assert(ops.take(ops.len() as int) =~= ops);
    let result = resynced_by_id(s, ops, cuts, limit, n);
    assert forall|id: u64|
        #![trigger last_change_by_id(missed(t, cursor), id)]
        last_change_by_id(missed(t, cursor), id) is None implies result.get(id)
        == t.contents_by_id().get(id) by {
        lemma_resync_step(
            resynced_by_id(s, ops, cuts, limit, before),
            resync_cursor(s, ops, cuts, limit, before),
            limit,
            s,
            u,
            t,
            id,
        );
    }
}

/// A client that reads a map page by page, filing the rows under their entry IDs, until a
/// page has fewer rows than asked for, and then follows the map, from the sequence number that
/// it had before the first page, in requests of any size, holds the rows of the map once its
/// cursor has come up to the map's sequence number: whatever was done to the map between the
/// pages and the requests, as long as the client is not told to resync again, and whether it
/// looks values up by entry ID or by key.
pub proof fn paged_resync_and_catch_up_reproduces_the_rows(
    s: RepLogState,
    ops: Seq<Op>,
    cuts: Seq<nat>,
    limit: u64,
    more: Seq<Op>,
    requests: Seq<Request>,
    by: Lookup,
)
    requires
        s.consistent(),
        s.current_seq() <= u64::MAX,
        all_possible(s, ops),
        cuts.len() > 0,
        forall|i: int| 0 <= i < cuts.len() ==> #[trigger] cuts[i] <= ops.len(),
        resync_page(s, ops, cuts, limit, cuts.len() - 1).len() < limit,
        run(s, ops).epoch_start <= s.current_seq(),
        all_possible(run(s, ops), more),
        one_after_the_other(more, requests),
        answered(run(s, ops), s.current_seq(), more, requests, requests.len()),
        batch_cursor(run(s, ops), s.current_seq(), more, requests, requests.len()) == reached(
            run(s, ops),
            more,
            requests,
            requests.len(),
        ).current_seq(),
    ensures
        batched_by_id(
            resynced_by_id(s, ops, cuts, limit, cuts.len()),
            run(s, ops),
            s.current_seq(),
            more,
            requests,
            by,
            requests.len(),
        ) == reached(run(s, ops), more, requests, requests.len()).contents_by_id(),
{
    a_paged_resync_agrees_by_id_where_nothing_changed(s, ops, cuts, limit);
    lemma_follows_between(s, ops, 0, ops.len() as int);
    assert(ops.take(ops.len() as int) =~= ops);
    assert(ops.take(0) =~= Seq::empty());
    syncing_in_batches_brings_the_rows_up_to_date(
        resynced_by_id(s, ops, cuts, limit, cuts.len()),
        run(s, ops),
        s.current_seq(),
        more,
        requests,
        by,
    );
}

} // verus!
