//! How a client that files a changed row before it has the value, and without one where it
//! finds none, follows a replicated map, and why it ends without a missing value.

use vstd::prelude::*;

use crate::changelog::ChangeKind;
use crate::history::{all_possible, run, Op};
use crate::laws::changes_are_those_behind_the_cursor;
use crate::model::{last_change_by_id, Change, RepLogState};
use crate::resync::resync_page;
use crate::resync_by_id::{a_paged_resync_agrees_by_id_where_nothing_changed, resynced_by_id};
use crate::sync::{
    answered, asked_of, batch, batch_cursor, fetched_from, lemma_batch_cursor,
    lemma_follows_between, lemma_reached, lemma_same_lookups, missed, one_after_the_other, reached,
    Request,
};
use crate::sync_by_id::{
    agrees_by_id, follows_by_id, lemma_answered_id, lemma_follows_between_by_id, lemma_key_of,
    lemma_unchanged_id, looked_up, Lookup,
};

verus! {

/// Rows that all have their values.
pub open spec fn complete(rows: Map<u64, (Seq<u8>, Seq<u8>)>) -> Map<
    u64,
    (Seq<u8>, Option<Seq<u8>>),
> {
    rows.map_values(|row: (Seq<u8>, Seq<u8>)| (row.0, Some(row.1)))
}

/// What a client holds after one change: the key is filed under the entry ID with what is
/// found on the server, be it a value or none; a removal takes the entry ID out.
pub open spec fn noted(
    client: Map<u64, (Seq<u8>, Option<Seq<u8>>)>,
    change: Change,
    server: RepLogState,
    by: Lookup,
) -> Map<u64, (Seq<u8>, Option<Seq<u8>>)> {
    match change.kind {
        ChangeKind::Upsert => client.insert(
            change.entry_id,
            (change.key, looked_up(server, change, by)),
        ),
        ChangeKind::Delete => client.remove(change.entry_id),
    }
}

/// What a client holds after `changes`, in order, with the values that `server` has.
pub open spec fn all_noted(
    client: Map<u64, (Seq<u8>, Option<Seq<u8>>)>,
    changes: Seq<Change>,
    server: RepLogState,
    by: Lookup,
) -> Map<u64, (Seq<u8>, Option<Seq<u8>>)>
    decreases changes.len(),
{
    if changes.len() == 0 {
        client
    } else {
        noted(all_noted(client, changes.drop_last(), server, by), changes.last(), server, by)
    }
}

/// What a client holds after `changes`, in order, with every changed row filed without its
/// value.
pub open spec fn listed(
    client: Map<u64, (Seq<u8>, Option<Seq<u8>>)>,
    changes: Seq<Change>,
) -> Map<u64, (Seq<u8>, Option<Seq<u8>>)>
    decreases changes.len(),
{
    if changes.len() == 0 {
        client
    } else {
        let before = listed(client, changes.drop_last());
        let change = changes.last();
        match change.kind {
            ChangeKind::Upsert => before.insert(change.entry_id, (change.key, None)),
            ChangeKind::Delete => before.remove(change.entry_id),
        }
    }
}

/// What a client holds after it has filled in, in the rows that it has, the values that
/// `server` has under the entry IDs of `changes`.
pub open spec fn filled_in(
    client: Map<u64, (Seq<u8>, Option<Seq<u8>>)>,
    changes: Seq<Change>,
    server: RepLogState,
) -> Map<u64, (Seq<u8>, Option<Seq<u8>>)>
    decreases changes.len(),
{
    if changes.len() == 0 {
        client
    } else {
        let before = filled_in(client, changes.drop_last(), server);
        let change = changes.last();
        let id = change.entry_id;
        if change.kind == ChangeKind::Upsert && server.store.contains_key(id)
            && before.contains_key(id) {
            before.insert(id, (before[id].0, Some(server.store[id])))
        } else {
            before
        }
    }
}

/// A change of `changes` set a value under the entry ID.
spec fn sets(changes: Seq<Change>, id: u64) -> bool {
    exists|i: int|
        0 <= i < changes.len() && (#[trigger] changes[i]).entry_id == id && changes[i].kind
            == ChangeKind::Upsert
}

proof fn lemma_sets(changes: Seq<Change>, id: u64)
    requires
        changes.len() > 0,
    ensures
        sets(changes, id) <==> sets(changes.drop_last(), id) || (changes.last().entry_id == id
            && changes.last().kind == ChangeKind::Upsert),
{
    let before = changes.drop_last();
    let n = changes.len() - 1;
    if sets(before, id) {
        let i = choose|i: int|
            0 <= i < before.len() && (#[trigger] before[i]).entry_id == id && before[i].kind
                == ChangeKind::Upsert;
        assert(changes[i] == before[i]);
    }
    if sets(changes, id) && !(changes[n].entry_id == id && changes[n].kind
        == ChangeKind::Upsert) {
        let i = choose|i: int|
            0 <= i < changes.len() && (#[trigger] changes[i]).entry_id == id && changes[i].kind
                == ChangeKind::Upsert;
        assert(before[i] == changes[i]);
    }
}

/// What filling in does to one row.
proof fn lemma_filled_in(
    client: Map<u64, (Seq<u8>, Option<Seq<u8>>)>,
    changes: Seq<Change>,
    server: RepLogState,
    id: u64,
)
    ensures
        filled_in(client, changes, server).get(id) == (if sets(changes, id)
            && server.store.contains_key(id) && client.contains_key(id) {
            Some((client[id].0, Some(server.store[id])))
        } else {
            client.get(id)
        }),
    decreases changes.len(),
{
    if changes.len() > 0 {
        lemma_filled_in(client, changes.drop_last(), server, id);
        lemma_sets(changes, id);
        let before = filled_in(client, changes.drop_last(), server);
        assert(before.get(id) is Some <==> before.contains_key(id));
    }
}

/// How a row without its value and one with the value found under its entry ID compare.
proof fn lemma_listed(
    client: Map<u64, (Seq<u8>, Option<Seq<u8>>)>,
    changes: Seq<Change>,
    server: RepLogState,
    id: u64,
)
    ensures
        match last_change_by_id(changes, id) {
            None => {
                &&& !sets(changes, id)
                &&& listed(client, changes).get(id) == client.get(id)
                &&& all_noted(client, changes, server, Lookup::ById).get(id) == client.get(id)
            },
            Some(ChangeKind::Upsert) => {
                &&& sets(changes, id)
                &&& listed(client, changes).get(id) matches Some(row)
                &&& row.1 is None
                &&& all_noted(client, changes, server, Lookup::ById).get(id) == Some(
                    (row.0, server.store.get(id)),
                )
            },
            Some(ChangeKind::Delete) => {
                &&& listed(client, changes).get(id) is None
                &&& all_noted(client, changes, server, Lookup::ById).get(id) is None
            },
        },
    decreases changes.len(),
{
    if changes.len() > 0 {
        lemma_listed(client, changes.drop_last(), server, id);
        lemma_sets(changes, id);
    }
}

/// To file all rows of an answer first, and to fill in the values that are then found under
/// their entry IDs, is to file each row with the value that is found under its entry ID.
pub proof fn filling_in_later_is_noting_at_once(
    client: Map<u64, (Seq<u8>, Option<Seq<u8>>)>,
    changes: Seq<Change>,
    server: RepLogState,
)
    ensures
        filled_in(listed(client, changes), changes, server) == all_noted(
            client,
            changes,
            server,
            Lookup::ById,
        ),
{
    let rows = listed(client, changes);
    let filled = filled_in(rows, changes, server);
    let all = all_noted(client, changes, server, Lookup::ById);
    assert forall|id: u64| #[trigger] filled.get(id) == all.get(id) by {
        lemma_listed(client, changes, server, id);
        lemma_filled_in(rows, changes, server, id);
        assert(rows.get(id) is Some <==> rows.contains_key(id));
    }
    lemma_same_lookups(filled, all);
}

/// A client agrees with a map, values included, on every entry ID without a change behind
/// its cursor.
pub open spec fn agrees_with_values(
    client: Map<u64, (Seq<u8>, Option<Seq<u8>>)>,
    s: RepLogState,
    cursor: nat,
) -> bool {
    forall|id: u64|
        #![trigger last_change_by_id(missed(s, cursor), id)]
        last_change_by_id(missed(s, cursor), id) is None ==> client.get(id) == complete(
            s.contents_by_id(),
        ).get(id)
}

/// The rows of a client that agrees with a map agree with it when all have their values.
proof fn lemma_complete_agrees(
    client: Map<u64, (Seq<u8>, Seq<u8>)>,
    s: RepLogState,
    cursor: nat,
)
    requires
        agrees_by_id(client, s, cursor),
    ensures
        agrees_with_values(complete(client), s, cursor),
{
    assert forall|id: u64|
        #![trigger last_change_by_id(missed(s, cursor), id)]
        last_change_by_id(missed(s, cursor), id) is None implies complete(client).get(id)
        == complete(s.contents_by_id()).get(id) by {
        lemma_same_row(client, s.contents_by_id(), id);
    }
}

proof fn lemma_same_row(
    a: Map<u64, (Seq<u8>, Seq<u8>)>,
    b: Map<u64, (Seq<u8>, Seq<u8>)>,
    id: u64,
)
    requires
        a.get(id) == b.get(id),
    ensures
        complete(a).get(id) == complete(b).get(id),
{
    assert(a.contains_key(id) <==> a.get(id) is Some);
    assert(b.contains_key(id) <==> b.get(id) is Some);
}

/// What noting changes does to one entry ID.
proof fn lemma_all_noted(
    client: Map<u64, (Seq<u8>, Option<Seq<u8>>)>,
    changes: Seq<Change>,
    server: RepLogState,
    by: Lookup,
    id: u64,
)
    requires
        server.consistent(),
        forall|i: int|
            0 <= i < changes.len() && (#[trigger] changes[i]).entry_id == id
                && server.store.contains_key(id) ==> server.has_id(changes[i].key, id),
    ensures
        match last_change_by_id(changes, id) {
            None => all_noted(client, changes, server, by).get(id) == client.get(id),
            Some(ChangeKind::Upsert) => server.store.contains_key(id) ==> all_noted(
                client,
                changes,
                server,
                by,
            ).get(id) == complete(server.contents_by_id()).get(id),
            Some(ChangeKind::Delete) => all_noted(client, changes, server, by).get(id) is None,
        },
    decreases changes.len(),
{
    if changes.len() > 0 {
        let before = changes.drop_last();
        assert forall|i: int|
            0 <= i < before.len() && (#[trigger] before[i]).entry_id == id
                && server.store.contains_key(id) implies server.has_id(before[i].key, id) by {
            assert(before[i] == changes[i]);
        }
        lemma_all_noted(client, before, server, by, id);
        let last = changes[changes.len() - 1];
        if last.entry_id == id && server.store.contains_key(id) {
            lemma_key_of(server, last.key, id);
        }
    }
}

/// A client that agrees with a map behind its cursor goes on agreeing while the map
/// changes, as long as the changelog reaches back to the cursor.
pub proof fn a_client_goes_on_agreeing_with_values(
    client: Map<u64, (Seq<u8>, Option<Seq<u8>>)>,
    u: RepLogState,
    v: RepLogState,
    cursor: nat,
)
    requires
        follows_by_id(u, v),
        u.epoch_start <= cursor <= u.current_seq(),
        v.epoch_start <= cursor,
        agrees_with_values(client, u, cursor),
    ensures
        agrees_with_values(client, v, cursor),
{
    assert forall|id: u64|
        #![trigger last_change_by_id(missed(v, cursor), id)]
        last_change_by_id(missed(v, cursor), id) is None implies client.get(id) == complete(
        v.contents_by_id(),
    ).get(id) by {
        lemma_unchanged_id(u, v, cursor, id);
        lemma_same_row(u.contents_by_id(), v.contents_by_id(), id);
        assert(last_change_by_id(missed(u, cursor), id) is None);
    }
}

/// One answer of any size: a client that agrees with the map `v` behind its cursor, and
/// files the rows that `v` answers with, with what it finds, by entry ID or by key, in the
/// map `w`, agrees with `w` behind the cursor it was given: only rows with a change behind
/// that cursor may be without a value.
pub proof fn noting_an_answer_keeps_a_client_agreeing(
    client: Map<u64, (Seq<u8>, Option<Seq<u8>>)>,
    v: RepLogState,
    w: RepLogState,
    cursor: u64,
    limit: u64,
    by: Lookup,
)
    requires
        v.consistent(),
        follows_by_id(v, w),
        v.epoch_start <= cursor <= v.current_seq(),
        agrees_with_values(client, v, cursor as nat),
        w.epoch_start <= (v.changes_since(cursor, limit)->0).1,
    ensures
        ({
            let (changes, next) = v.changes_since(cursor, limit)->0;
            &&& next <= v.current_seq()
            &&& agrees_with_values(all_noted(client, changes, w, by), w, next)
        }),
{
    let (changes, next) = v.changes_since(cursor, limit)->0;
    changes_are_those_behind_the_cursor(v, cursor, limit);
    let result = all_noted(client, changes, w, by);
    assert forall|id: u64|
        #![trigger last_change_by_id(missed(w, next), id)]
        last_change_by_id(missed(w, next), id) is None implies result.get(id) == complete(
        w.contents_by_id(),
    ).get(id) by {
        lemma_answered_id(v, w, cursor, limit, id);
        lemma_all_noted(client, changes, w, by, id);
        lemma_same_row(v.contents_by_id(), w.contents_by_id(), id);
    }
}

/// A client that agrees with a map behind its cursor, and has the map's sequence number
/// for its cursor, holds the rows of the map, each with its value.
pub proof fn an_agreeing_client_at_the_end_has_every_value(
    client: Map<u64, (Seq<u8>, Option<Seq<u8>>)>,
    s: RepLogState,
)
    requires
        agrees_with_values(client, s, s.current_seq()),
    ensures
        client == complete(s.contents_by_id()),
{
    assert(missed(s, s.current_seq()) =~= Seq::empty());
    assert forall|id: u64| #[trigger] client.get(id) == complete(s.contents_by_id()).get(id) by {
        assert(last_change_by_id(missed(s, s.current_seq()), id) is None);
    }
    lemma_same_lookups(client, complete(s.contents_by_id()));
}

/// What a client holds after it has noted the answers to `n` requests.
pub open spec fn batched_with_values(
    client: Map<u64, (Seq<u8>, Option<Seq<u8>>)>,
    s: RepLogState,
    cursor: nat,
    ops: Seq<Op>,
    requests: Seq<Request>,
    by: Lookup,
    n: nat,
) -> Map<u64, (Seq<u8>, Option<Seq<u8>>)>
    decreases n,
{
    if n == 0 {
        client
    } else {
        all_noted(
            batched_with_values(client, s, cursor, ops, requests, by, (n - 1) as nat),
            batch(s, cursor, ops, requests, n - 1),
            fetched_from(s, ops, requests, n - 1),
            by,
        )
    }
}

/// After any number of requests, as long as each is answered, a client agrees behind its
/// cursor with the map it has reached.
proof fn lemma_batched(
    client: Map<u64, (Seq<u8>, Option<Seq<u8>>)>,
    s: RepLogState,
    cursor: nat,
    ops: Seq<Op>,
    requests: Seq<Request>,
    by: Lookup,
    n: nat,
)
    requires
        s.consistent(),
        s.current_seq() <= u64::MAX,
        s.epoch_start <= cursor <= s.current_seq(),
        agrees_with_values(client, s, cursor),
        all_possible(s, ops),
        one_after_the_other(ops, requests),
        n <= requests.len(),
        answered(s, cursor, ops, requests, n),
        reached(s, ops, requests, n).epoch_start <= batch_cursor(s, cursor, ops, requests, n),
    ensures
        agrees_with_values(
            batched_with_values(client, s, cursor, ops, requests, by, n),
            reached(s, ops, requests, n),
            batch_cursor(s, cursor, ops, requests, n),
        ),
    decreases n,
{
    if n > 0 {
        let before = (n - 1) as nat;
        let u = reached(s, ops, requests, before);
        let v = asked_of(s, ops, requests, n - 1);
        let c = batch_cursor(s, cursor, ops, requests, before);
        let asked = requests[n - 1].asked as int;
        lemma_reached(s, ops, requests, n - 1);
        lemma_batch_cursor(s, cursor, ops, requests, before);
        assert(v.epoch_start <= c);
        lemma_batched(client, s, cursor, ops, requests, by, before);
        if before == 0 {
            assert(ops.take(0) =~= Seq::empty());
            lemma_follows_between_by_id(s, ops, 0, asked);
        } else {
            assert(requests[n - 2].fetched <= requests[n - 1].asked);
            lemma_follows_between_by_id(s, ops, requests[n - 2].fetched as int, asked);
        }
        lemma_follows_between_by_id(s, ops, asked, requests[n - 1].fetched as int);
        let held = batched_with_values(client, s, cursor, ops, requests, by, before);
        a_client_goes_on_agreeing_with_values(held, u, v, c);
        noting_an_answer_keeps_a_client_agreeing(
            held,
            v,
            fetched_from(s, ops, requests, n - 1),
            c as u64,
            requests[n - 1].limit,
            by,
        );
    }
}

/// A client that agrees with a map, values included, on every entry ID without a change
/// behind its cursor, and follows it in requests of any size, filing rows without a value
/// where it finds none, holds the rows of the map with every value present once its cursor
/// has come up to the map's sequence number: whatever was done to the map before, between and
/// after the requests, as long as none of them tells the client to resync, and whether it
/// looks values up by entry ID or by key.
pub proof fn syncing_in_batches_fills_in_every_value(
    client: Map<u64, (Seq<u8>, Option<Seq<u8>>)>,
    s: RepLogState,
    cursor: nat,
    ops: Seq<Op>,
    requests: Seq<Request>,
    by: Lookup,
)
    requires
        s.consistent(),
        s.current_seq() <= u64::MAX,
        s.epoch_start <= cursor <= s.current_seq(),
        agrees_with_values(client, s, cursor),
        all_possible(s, ops),
        one_after_the_other(ops, requests),
        answered(s, cursor, ops, requests, requests.len()),
        batch_cursor(s, cursor, ops, requests, requests.len()) == reached(
            s,
            ops,
            requests,
            requests.len(),
        ).current_seq(),
    ensures
        batched_with_values(client, s, cursor, ops, requests, by, requests.len()) == complete(
            reached(s, ops, requests, requests.len()).contents_by_id(),
        ),
{
    let n = requests.len();
    lemma_batched(client, s, cursor, ops, requests, by, n);
    an_agreeing_client_at_the_end_has_every_value(
        batched_with_values(client, s, cursor, ops, requests, by, n),
        reached(s, ops, requests, n),
    );
}

/// A client that held the rows of a map with their values, and follows it from the sequence
/// number it had then in requests of any size, filing rows without a value where it finds
/// none, holds the rows that the map has now, with every value present, once its cursor has
/// come up to the map's sequence number: whatever was done to the map before, between and
/// after the requests, as long as none of them tells the client to resync, and whether it
/// looks values up by entry ID or by key.
pub proof fn syncing_in_batches_reproduces_the_rows_with_values(
    s: RepLogState,
    ops: Seq<Op>,
    requests: Seq<Request>,
    by: Lookup,
)
    requires
        s.consistent(),
        s.current_seq() <= u64::MAX,
        all_possible(s, ops),
        one_after_the_other(ops, requests),
        answered(s, s.current_seq(), ops, requests, requests.len()),
        batch_cursor(s, s.current_seq(), ops, requests, requests.len()) == reached(
            s,
            ops,
            requests,
            requests.len(),
        ).current_seq(),
    ensures
        batched_with_values(
            complete(s.contents_by_id()),
            s,
            s.current_seq(),
            ops,
            requests,
            by,
            requests.len(),
        ) == complete(reached(s, ops, requests, requests.len()).contents_by_id()),
{
    syncing_in_batches_fills_in_every_value(
        complete(s.contents_by_id()),
        s,
        s.current_seq(),
        ops,
        requests,
        by,
    );
}

/// A client that reads a map page by page, filing the rows under their entry IDs, until a
/// page has fewer rows than asked for, and then follows the map, from the sequence number that
/// it had before the first page, in requests of any size, filing rows without a value where it
/// finds none, holds the rows of the map with every value present once its cursor has come up
/// to the map's sequence number: whatever was done to the map between the pages and the
/// requests, as long as the client is not told to resync again, and whether it looks values
/// up by entry ID or by key.
pub proof fn paged_resync_and_catch_up_fills_in_every_value(
    s: RepLogState,
    ops: Seq<Op>,
    cuts: Seq<nat>,
    limit: u64,
    more: Seq<Op>,
    requests: Seq<Request>,
    by: Lookup,
)
    requires
        s.consistent(),
        s.current_seq() <= u64::MAX,
        all_possible(s, ops),
        cuts.len() > 0,
        forall|i: int| 0 <= i < cuts.len() ==> #[trigger] cuts[i] <= ops.len(),
        resync_page(s, ops, cuts, limit, cuts.len() - 1).len() < limit,
        run(s, ops).epoch_start <= s.current_seq(),
        all_possible(run(s, ops), more),
        one_after_the_other(more, requests),
        answered(run(s, ops), s.current_seq(), more, requests, requests.len()),
        batch_cursor(run(s, ops), s.current_seq(), more, requests, requests.len()) == reached(
            run(s, ops),
            more,
            requests,
            requests.len(),
        ).current_seq(),
    ensures
        batched_with_values(
            complete(resynced_by_id(s, ops, cuts, limit, cuts.len())),
            run(s, ops),
            s.current_seq(),
            more,
            requests,
            by,
            requests.len(),
        ) == complete(reached(run(s, ops), more, requests, requests.len()).contents_by_id()),
{
    let client = resynced_by_id(s, ops, cuts, limit, cuts.len());
    a_paged_resync_agrees_by_id_where_nothing_changed(s, ops, cuts, limit);
    lemma_complete_agrees(client, run(s, ops), s.current_seq());
    lemma_follows_between(s, ops, 0, ops.len() as int);
    assert(ops.take(ops.len() as int) =~= ops);
    assert(ops.take(0) =~= Seq::empty());
    syncing_in_batches_fills_in_every_value(
        complete(client),
        run(s, ops),
        s.current_seq(),
        more,
        requests,
        by,
    );
}

} // verus!
