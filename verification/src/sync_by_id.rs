//! How a client that files its rows under entry IDs follows a replicated map.

use vstd::prelude::*;

use crate::changelog::ChangeKind;
use crate::history::{
    all_possible, every_operation_keeps_a_map_consistent, lemma_between, possible, run, step, Op,
};
use crate::laws::{
    a_refused_insertion_changes_nothing, changes_are_those_behind_the_cursor,
    compacting_keeps_the_contents, inserting_sets_one_key, removing_takes_out_one_key,
};
use crate::model::{last_change_by_id, lemma_last_change_by_id_joined, Change, RepLogState};
use crate::sync::{
    answered, asked_of, batch, batch_cursor, fetched_from, keeps_changes, lemma_batch_cursor,
    lemma_reached, lemma_same_lookups, missed, one_after_the_other, reached, Request,
};

verus! {

/// By what a client looks up the value of a changed row.
pub enum Lookup {
    ById,
    ByKey,
}

/// The value that a client finds for a change.
pub open spec fn looked_up(server: RepLogState, change: Change, by: Lookup) -> Option<Seq<u8>> {
    match by {
        Lookup::ById => server.store.get(change.entry_id),
        Lookup::ByKey => server.get(change.key),
    }
}

/// What a client holds after one change: the key, with the value that is found on the
/// server, is filed under the entry ID, or nothing where none is found; a removal takes the
/// entry ID out.
pub open spec fn applied_by_id(
    client: Map<u64, (Seq<u8>, Seq<u8>)>,
    change: Change,
    server: RepLogState,
    by: Lookup,
) -> Map<u64, (Seq<u8>, Seq<u8>)> {
    match change.kind {
        ChangeKind::Upsert => match looked_up(server, change, by) {
            Some(value) => client.insert(change.entry_id, (change.key, value)),
            None => client,
        },
        ChangeKind::Delete => client.remove(change.entry_id),
    }
}

/// What a client holds after `changes`, in order, with the values that `server` has.
pub open spec fn replayed_by_id(
    client: Map<u64, (Seq<u8>, Seq<u8>)>,
    changes: Seq<Change>,
    server: RepLogState,
    by: Lookup,
) -> Map<u64, (Seq<u8>, Seq<u8>)>
    decreases changes.len(),
{
    if changes.len() == 0 {
        client
    } else {
        applied_by_id(
            replayed_by_id(client, changes.drop_last(), server, by),
            changes.last(),
            server,
            by,
        )
    }
}

/// A client agrees with a map on every entry ID without a change behind its cursor.
pub open spec fn agrees_by_id(
    client: Map<u64, (Seq<u8>, Seq<u8>)>,
    s: RepLogState,
    cursor: nat,
) -> bool {
    forall|id: u64|
        #![trigger last_change_by_id(missed(s, cursor), id)]
        last_change_by_id(missed(s, cursor), id) is None ==> client.get(id)
            == s.contents_by_id().get(id)
}

/// What the changes in `t` behind the sequence number of `s` tell of every entry ID: an
/// unchanged one is as it was in `s`, a changed one is in use if and only if its last
/// change was not a removal.
pub open spec fn ids_accounted_for(s: RepLogState, t: RepLogState) -> bool {
    let changes = missed(t, s.current_seq());
    forall|id: u64|
        match #[trigger] last_change_by_id(changes, id) {
            Some(ChangeKind::Upsert) => t.store.contains_key(id),
            Some(ChangeKind::Delete) => !t.store.contains_key(id),
            None => t.contents_by_id().get(id) == s.contents_by_id().get(id),
        }
}

/// `t` comes after `s`: its changelog keeps the changes of that of `s` or begins behind
/// them, and where it reaches back to `s`, it accounts for every entry ID.
pub open spec fn follows_by_id(s: RepLogState, t: RepLogState) -> bool {
    &&& t.consistent()
    &&& s.current_seq() <= t.current_seq() <= u64::MAX
    &&& s.epoch_start <= t.epoch_start
    &&& keeps_changes(s, t)
    &&& t.epoch_start <= s.current_seq() ==> ids_accounted_for(s, t)
}

pub(crate) proof fn lemma_key_of(s: RepLogState, k: Seq<u8>, id: u64)
    requires
        s.consistent(),
        s.has_id(k, id),
    ensures
        s.key_of(id) == k,
{
    let other = s.key_of(id);
    assert(s.has_id(other, id));
    assert(s.index[other] == s.index[k]);
}

/// A value under an entry ID has a key in a consistent map.
pub(crate) proof fn lemma_has_key(s: RepLogState, id: u64)
    requires
        s.consistent(),
        s.store.contains_key(id),
    ensures
        s.has_id(s.key_of(id), id),
{
    let k = choose|k: Seq<u8>| s.has_id(k, id);
    assert(s.has_id(k, id));
}

/// Giving a key a value changes the row of its entry ID alone.
pub proof fn inserting_sets_one_row(s: RepLogState, key: Seq<u8>, value: Seq<u8>)
    requires
        s.consistent(),
        s.can_hold(key),
    ensures
        s.upserted(key, value).contents_by_id() == s.contents_by_id().insert(
            s.id_for(key),
            (key, value),
        ),
{
    let t = s.upserted(key, value);
    let id = s.id_for(key);
    inserting_sets_one_key(s, key, value);
    assert(t.has_id(key, id));
    lemma_key_of(t, key, id);
    assert forall|i: u64| i != id && #[trigger] s.store.contains_key(i) implies t.key_of(i)
        == s.key_of(i) by {
        lemma_has_key(s, i);
        let k = s.key_of(i);
        assert(k != key);
        assert(t.has_id(k, i));
        lemma_key_of(t, k, i);
    }
    assert(t.contents_by_id() =~= s.contents_by_id().insert(id, (key, value)));
}

/// Removing a key takes out the row of its entry ID alone.
pub proof fn removing_takes_out_one_row(s: RepLogState, key: Seq<u8>)
    requires
        s.consistent(),
        s.index.contains_key(key),
    ensures
        s.removed(key).contents_by_id() == s.contents_by_id().remove(s.index[key]),
{
    let t = s.removed(key);
    let id = s.index[key];
    removing_takes_out_one_key(s, key);
    assert forall|i: u64| i != id && #[trigger] s.store.contains_key(i) implies t.key_of(i)
        == s.key_of(i) by {
        lemma_has_key(s, i);
        let k = s.key_of(i);
        assert(k != key);
        assert(t.has_id(k, i));
        lemma_key_of(t, k, i);
    }
    assert(t.contents_by_id() =~= s.contents_by_id().remove(id));
}

/// Compacting changes no row.
pub proof fn compacting_keeps_the_rows(s: RepLogState)
    requires
        s.consistent(),
        s.current_seq() <= u64::MAX,
    ensures
        s.compacted().contents_by_id() == s.contents_by_id(),
{
    let t = s.compacted();
    compacting_keeps_the_contents(s);
    assert forall|i: u64| #[trigger] s.store.contains_key(i) implies t.key_of(i) == s.key_of(i) by {
        lemma_has_key(s, i);
        assert(t.has_id(s.key_of(i), i));
        lemma_key_of(t, s.key_of(i), i);
    }
    assert(t.contents_by_id() =~= s.contents_by_id());
}

/// One more logged change keeps the account of every entry ID.
proof fn lemma_follows_logged(s: RepLogState, t: RepLogState, u: RepLogState, change: Change)
    requires
        follows_by_id(s, t),
        u.consistent(),
        u.current_seq() <= u64::MAX,
        u.epoch_start == t.epoch_start,
        u.log == t.log.push(change),
        change.kind == ChangeKind::Upsert ==> u.store.contains_key(change.entry_id),
        change.kind == ChangeKind::Delete ==> !u.store.contains_key(change.entry_id),
        forall|id: u64|
            id != change.entry_id ==> #[trigger] u.contents_by_id().get(id)
                == t.contents_by_id().get(id),
        forall|id: u64|
            id != change.entry_id ==> #[trigger] u.store.contains_key(id) == t.store.contains_key(
                id,
            ),
    ensures
        follows_by_id(s, u),
{
    if s.current_seq() > t.epoch_start {
        assert(u.log.take(s.log.len() as int) =~= t.log.take(s.log.len() as int));
    }
    if u.epoch_start <= s.current_seq() {
        let cursor = s.current_seq();
        assert(missed(u, cursor) =~= missed(t, cursor).push(change));
        assert(missed(u, cursor).drop_last() =~= missed(t, cursor));
        assert forall|id: u64|
            match #[trigger] last_change_by_id(missed(u, cursor), id) {
                Some(ChangeKind::Upsert) => u.store.contains_key(id),
                Some(ChangeKind::Delete) => !u.store.contains_key(id),
                None => u.contents_by_id().get(id) == s.contents_by_id().get(id),
            } by {
            if id != change.entry_id {
                assert(last_change_by_id(missed(u, cursor), id) == last_change_by_id(
                    missed(t, cursor),
                    id,
                ));
                assert(u.contents_by_id().get(id) == t.contents_by_id().get(id));
                assert(u.store.contains_key(id) == t.store.contains_key(id));
            }
        }
    }
}

proof fn lemma_follows_insertion(s: RepLogState, t: RepLogState, key: Seq<u8>, value: Seq<u8>)
    requires
        follows_by_id(s, t),
        t.can_hold(key),
        t.current_seq() < u64::MAX,
    ensures
        follows_by_id(s, t.upserted(key, value)),
{
    let u = t.upserted(key, value);
    inserting_sets_one_key(t, key, value);
    inserting_sets_one_row(t, key, value);
    lemma_follows_logged(s, t, u, u.log.last());
}

proof fn lemma_follows_removal(s: RepLogState, t: RepLogState, key: Seq<u8>)
    requires
        follows_by_id(s, t),
        t.current_seq() < u64::MAX,
    ensures
        follows_by_id(s, t.removed(key)),
{
    let u = t.removed(key);
    removing_takes_out_one_key(t, key);
    if t.index.contains_key(key) {
        removing_takes_out_one_row(t, key);
        lemma_follows_logged(s, t, u, u.log.last());
    }
}

proof fn lemma_follows_step(s: RepLogState, t: RepLogState, op: Op)
    requires
        follows_by_id(s, t),
        possible(t, op),
    ensures
        follows_by_id(s, step(t, op)),
{
    let u = step(t, op);
    every_operation_keeps_a_map_consistent(t, op);
    match op {
        Op::Insert { key, value } => lemma_follows_insertion(s, t, key, value),
        Op::TryInsert { key, value } => {
            lemma_follows_insertion(s, t, key, value);
            a_refused_insertion_changes_nothing(t, key);
        },
        Op::Remove { key } => lemma_follows_removal(s, t, key),
        Op::TryRemove { key } => lemma_follows_removal(s, t, key),
        Op::Compact => {
            compacting_keeps_the_rows(t);
            if u.epoch_start <= s.current_seq() {
                assert(missed(t, s.current_seq()) =~= Seq::empty());
                assert(missed(u, s.current_seq()) =~= Seq::empty());
                assert forall|id: u64|
                    u.contents_by_id().get(id) == s.contents_by_id().get(id) by {
                    assert(last_change_by_id(missed(t, s.current_seq()), id) is None);
                }
            }
        },
        Op::Clear => {},
    }
}

/// Whatever is done to a consistent map, the changes behind an earlier sequence number,
/// where the changelog still has them, account for every entry ID.
pub proof fn a_map_keeps_account_of_its_ids(s: RepLogState, ops: Seq<Op>)
    requires
        s.consistent(),
        s.current_seq() <= u64::MAX,
        all_possible(s, ops),
    ensures
        follows_by_id(s, run(s, ops)),
    decreases ops.len(),
{
    if ops.len() == 0 {
        assert(s.log.take(s.log.len() as int) =~= s.log);
        assert(missed(s, s.current_seq()) =~= Seq::empty());
    } else {
        a_map_keeps_account_of_its_ids(s, ops.drop_last());
        lemma_follows_step(s, run(s, ops.drop_last()), ops.last());
    }
}

/// Of two points of one history, the later one follows the earlier one.
pub(crate) proof fn lemma_follows_between_by_id(s: RepLogState, ops: Seq<Op>, a: int, b: int)
    requires
        s.consistent(),
        s.current_seq() <= u64::MAX,
        all_possible(s, ops),
        0 <= a <= b <= ops.len(),
    ensures
        follows_by_id(run(s, ops.take(a)), run(s, ops.take(b))),
{
    let between = lemma_between(s, ops, a, b);
    a_map_keeps_account_of_its_ids(run(s, ops.take(a)), between);
}

/// What replaying does to one entry ID.
proof fn lemma_replayed(
    client: Map<u64, (Seq<u8>, Seq<u8>)>,
    changes: Seq<Change>,
    server: RepLogState,
    by: Lookup,
    id: u64,
)
    requires
        server.consistent(),
        forall|i: int|
            0 <= i < changes.len() && (#[trigger] changes[i]).entry_id == id
                && server.store.contains_key(id) ==> server.has_id(changes[i].key, id),
    ensures
        last_change_by_id(changes, id) is None ==> replayed_by_id(
            client,
            changes,
            server,
            by,
        ).get(id) == client.get(id),
        last_change_by_id(changes, id) == Some(ChangeKind::Delete) ==> !replayed_by_id(
            client,
            changes,
            server,
            by,
        ).contains_key(id),
        last_change_by_id(changes, id) == Some(ChangeKind::Upsert) && server.store.contains_key(id)
            ==> replayed_by_id(client, changes, server, by).get(id)
            == server.contents_by_id().get(id),
    decreases changes.len(),
{
    if changes.len() > 0 {
        let before = changes.drop_last();
        assert forall|i: int|
            0 <= i < before.len() && (#[trigger] before[i]).entry_id == id
                && server.store.contains_key(id) implies server.has_id(before[i].key, id) by {
            assert(before[i] == changes[i]);
        }
        lemma_replayed(client, before, server, by, id);
        let last = changes[changes.len() - 1];
        if last.entry_id == id && server.store.contains_key(id) {
            lemma_key_of(server, last.key, id);
        }
    }
}

/// An entry ID without a change behind a cursor in the later of two maps has none in the
/// earlier one, and has in both the same row.
pub(crate) proof fn lemma_unchanged_id(u: RepLogState, v: RepLogState, cursor: nat, id: u64)
    requires
        follows_by_id(u, v),
        u.epoch_start <= cursor <= u.current_seq(),
        v.epoch_start <= cursor,
        last_change_by_id(missed(v, cursor), id) is None,
    ensures
        last_change_by_id(missed(u, cursor), id) is None,
        v.contents_by_id().get(id) == u.contents_by_id().get(id),
{
    let n = u.current_seq() - cursor;
    let changes = missed(v, cursor);
    let earlier = changes.take(n);
    let later = changes.skip(n);
    assert(earlier + later =~= changes);
    lemma_last_change_by_id_joined(earlier, later, id);
    assert(later =~= missed(v, u.current_seq()));
    assert(ids_accounted_for(u, v));
    assert(last_change_by_id(missed(v, u.current_seq()), id) is None);
    if u.current_seq() <= v.epoch_start {
        assert(missed(u, cursor) =~= Seq::empty());
    } else {
        assert(missed(u, cursor) =~= earlier);
    }
}

/// A client that agrees with a map behind its cursor goes on agreeing while the map
/// changes, as long as the changelog reaches back to the cursor.
pub proof fn a_client_goes_on_agreeing_by_id(
    client: Map<u64, (Seq<u8>, Seq<u8>)>,
    u: RepLogState,
    v: RepLogState,
    cursor: nat,
)
    requires
        follows_by_id(u, v),
        u.epoch_start <= cursor <= u.current_seq(),
        v.epoch_start <= cursor,
        agrees_by_id(client, u, cursor),
    ensures
        agrees_by_id(client, v, cursor),
{
    assert forall|id: u64|
        #![trigger last_change_by_id(missed(v, cursor), id)]
        last_change_by_id(missed(v, cursor), id) is None implies client.get(id)
        == v.contents_by_id().get(id) by {
        lemma_unchanged_id(u, v, cursor, id);
        assert(last_change_by_id(missed(u, cursor), id) is None);
    }
}

/// What the changes that the map `v` answers with tell of an entry ID that has no change
/// behind the cursor that goes with them in the later map `w`.
pub(crate) proof fn lemma_answered_id(
    v: RepLogState,
    w: RepLogState,
    cursor: u64,
    limit: u64,
    id: u64,
)
    requires
        v.consistent(),
        follows_by_id(v, w),
        v.epoch_start <= cursor <= v.current_seq(),
        w.epoch_start <= (v.changes_since(cursor, limit)->0).1,
        last_change_by_id(missed(w, (v.changes_since(cursor, limit)->0).1), id) is None,
    ensures
        w.contents_by_id().get(id) == v.contents_by_id().get(id),
        ({
            let (changes, next) = v.changes_since(cursor, limit)->0;
            &&& match last_change_by_id(changes, id) {
                Some(ChangeKind::Upsert) => w.store.contains_key(id),
                Some(ChangeKind::Delete) => !w.store.contains_key(id),
                None => last_change_by_id(missed(v, cursor as nat), id) is None,
            }
            &&& forall|i: int|
                0 <= i < changes.len() && (#[trigger] changes[i]).entry_id == id
                    && w.store.contains_key(id) ==> w.has_id(changes[i].key, id)
        }),
{
    let (changes, next) = v.changes_since(cursor, limit)->0;
    changes_are_those_behind_the_cursor(v, cursor, limit);
    let offset = cursor - v.epoch_start;
    let before = v.log.take(offset);
    let all = missed(v, cursor as nat);
    let rest = missed(v, next);
    assert(all =~= changes + rest);
    assert(v.log =~= before + all);
    lemma_unchanged_id(v, w, next, id);
    lemma_last_change_by_id_joined(changes, rest, id);
    lemma_last_change_by_id_joined(before, all, id);
    assert(w.contents_by_id().contains_key(id) <==> v.contents_by_id().contains_key(id)) by {
        assert(w.contents_by_id().get(id) == v.contents_by_id().get(id));
    }
    assert forall|i: int|
        0 <= i < changes.len() && (#[trigger] changes[i]).entry_id == id
            && w.store.contains_key(id) implies w.has_id(changes[i].key, id) by {
        assert(v.store.contains_key(id));
        assert(changes[i] == v.log[i + offset]);
        assert(v.has_id(v.log[i + offset].key, id));
        lemma_key_of(v, changes[i].key, id);
        assert(w.contents_by_id()[id] == v.contents_by_id()[id]);
        lemma_has_key(w, id);
    }
    assert(last_change_by_id(v.log, id) is Some ==> (last_change_by_id(v.log, id) == Some(
        ChangeKind::Upsert,
    ) <==> v.store.contains_key(id)));
}

/// One answer of any size: a client that agrees with the map `v` behind its cursor, and
/// replays the changes that `v` answers with, with the values that it finds, by entry ID or
/// by key, in the map `w`, agrees with `w` behind the cursor it was given.
pub proof fn replaying_an_answer_keeps_a_client_agreeing_by_id(
    client: Map<u64, (Seq<u8>, Seq<u8>)>,
    v: RepLogState,
    w: RepLogState,
    cursor: u64,
    limit: u64,
    by: Lookup,
)
    requires
        v.consistent(),
        follows_by_id(v, w),
        v.epoch_start <= cursor <= v.current_seq(),
        agrees_by_id(client, v, cursor as nat),
        w.epoch_start <= (v.changes_since(cursor, limit)->0).1,
    ensures
        ({
            let (changes, next) = v.changes_since(cursor, limit)->0;
            &&& next <= v.current_seq()
            &&& agrees_by_id(replayed_by_id(client, changes, w, by), w, next)
        }),
{
    let (changes, next) = v.changes_since(cursor, limit)->0;
    changes_are_those_behind_the_cursor(v, cursor, limit);
    let result = replayed_by_id(client, changes, w, by);
    assert forall|id: u64|
        #![trigger last_change_by_id(missed(w, next), id)]
        last_change_by_id(missed(w, next), id) is None implies result.get(id)
        == w.contents_by_id().get(id) by {
        lemma_answered_id(v, w, cursor, limit, id);
        lemma_replayed(client, changes, w, by, id);
    }
}

/// A client that agrees with a map behind its cursor, and has the map's sequence number
/// for its cursor, holds the rows of the map.
pub proof fn an_agreeing_client_at_the_end_holds_the_rows(
    client: Map<u64, (Seq<u8>, Seq<u8>)>,
    s: RepLogState,
)
    requires
        agrees_by_id(client, s, s.current_seq()),
    ensures
        client == s.contents_by_id(),
{
    assert(missed(s, s.current_seq()) =~= Seq::empty());
    assert forall|id: u64| #[trigger] client.get(id) == s.contents_by_id().get(id) by {
        assert(last_change_by_id(missed(s, s.current_seq()), id) is None);
    }
    lemma_same_lookups(client, s.contents_by_id());
}

/// What a client holds after it has replayed the answers to `n` requests.
pub open spec fn batched_by_id(
    client: Map<u64, (Seq<u8>, Seq<u8>)>,
    s: RepLogState,
    cursor: nat,
    ops: Seq<Op>,
    requests: Seq<Request>,
    by: Lookup,
    n: nat,
) -> Map<u64, (Seq<u8>, Seq<u8>)>
    decreases n,
{
    if n == 0 {
        client
    } else {
        replayed_by_id(
            batched_by_id(client, s, cursor, ops, requests, by, (n - 1) as nat),
            batch(s, cursor, ops, requests, n - 1),
            fetched_from(s, ops, requests, n - 1),
            by,
        )
    }
}

/// After any number of requests, as long as each is answered, a client agrees behind its
/// cursor with the map it has reached.
proof fn lemma_batched_by_id(
    client: Map<u64, (Seq<u8>, Seq<u8>)>,
    s: RepLogState,
    cursor: nat,
    ops: Seq<Op>,
    requests: Seq<Request>,
    by: Lookup,
    n: nat,
)
    requires
        s.consistent(),
        s.current_seq() <= u64::MAX,
        s.epoch_start <= cursor <= s.current_seq(),
        agrees_by_id(client, s, cursor),
        all_possible(s, ops),
        one_after_the_other(ops, requests),
        n <= requests.len(),
        answered(s, cursor, ops, requests, n),
        reached(s, ops, requests, n).epoch_start <= batch_cursor(s, cursor, ops, requests, n),
    ensures
        agrees_by_id(
            batched_by_id(client, s, cursor, ops, requests, by, n),
            reached(s, ops, requests, n),
            batch_cursor(s, cursor, ops, requests, n),
        ),
    decreases n,
{
    if n > 0 {
        let before = (n - 1) as nat;
        let u = reached(s, ops, requests, before);
        let v = asked_of(s, ops, requests, n - 1);
        let c = batch_cursor(s, cursor, ops, requests, before);
        let asked = requests[n - 1].asked as int;
        lemma_reached(s, ops, requests, n - 1);
        lemma_batch_cursor(s, cursor, ops, requests, before);
        assert(v.epoch_start <= c);
        lemma_batched_by_id(client, s, cursor, ops, requests, by, before);
        if before == 0 {
            assert(ops.take(0) =~= Seq::empty());
            lemma_follows_between_by_id(s, ops, 0, asked);
        } else {
            assert(requests[n - 2].fetched <= requests[n - 1].asked);
            lemma_follows_between_by_id(s, ops, requests[n - 2].fetched as int, asked);
        }
        lemma_follows_between_by_id(s, ops, asked, requests[n - 1].fetched as int);
        let held = batched_by_id(client, s, cursor, ops, requests, by, before);
        a_client_goes_on_agreeing_by_id(held, u, v, c);
        replaying_an_answer_keeps_a_client_agreeing_by_id(
            held,
            v,
            fetched_from(s, ops, requests, n - 1),
            c as u64,
            requests[n - 1].limit,
            by,
        );
    }
}

/// A client that agrees with a map on every entry ID without a change behind its cursor, and
/// follows it in requests of any size, holds the rows of the map once its cursor has come up
/// to the map's sequence number: whatever was done to the map before, between and after the
/// requests, as long as none of them tells the client to resync, and whether it looks values
/// up by entry ID or by key.
pub proof fn syncing_in_batches_brings_the_rows_up_to_date(
    client: Map<u64, (Seq<u8>, Seq<u8>)>,
    s: RepLogState,
    cursor: nat,
    ops: Seq<Op>,
    requests: Seq<Request>,
    by: Lookup,
)
    requires
        s.consistent(),
        s.current_seq() <= u64::MAX,
        s.epoch_start <= cursor <= s.current_seq(),
        agrees_by_id(client, s, cursor),
        all_possible(s, ops),
        one_after_the_other(ops, requests),
        answered(s, cursor, ops, requests, requests.len()),
        batch_cursor(s, cursor, ops, requests, requests.len()) == reached(
            s,
            ops,
            requests,
            requests.len(),
        ).current_seq(),
    ensures
        batched_by_id(client, s, cursor, ops, requests, by, requests.len()) == reached(
            s,
            ops,
            requests,
            requests.len(),
        ).contents_by_id(),
{
    let n = requests.len();
    lemma_batched_by_id(client, s, cursor, ops, requests, by, n);
    an_agreeing_client_at_the_end_holds_the_rows(
        batched_by_id(client, s, cursor, ops, requests, by, n),
        reached(s, ops, requests, n),
    );
}

/// A client that held the rows of a map under their entry IDs, and follows it from the
/// sequence number it had then in requests of any size, holds the rows that the map has now
/// once its cursor has come up to the map's sequence number: whatever was done to the map
/// before, between and after the requests, as long as none of them tells the client to
/// resync, and whether it looks values up by entry ID or by key.
pub proof fn syncing_in_batches_reproduces_the_rows(
    s: RepLogState,
    ops: Seq<Op>,
    requests: Seq<Request>,
    by: Lookup,
)
    requires
        s.consistent(),
        s.current_seq() <= u64::MAX,
        all_possible(s, ops),
        one_after_the_other(ops, requests),
        answered(s, s.current_seq(), ops, requests, requests.len()),
        batch_cursor(s, s.current_seq(), ops, requests, requests.len()) == reached(
            s,
            ops,
            requests,
            requests.len(),
        ).current_seq(),
    ensures
        batched_by_id(
            s.contents_by_id(),
            s,
            s.current_seq(),
            ops,
            requests,
            by,
            requests.len(),
        ) == reached(s, ops, requests, requests.len()).contents_by_id(),
{
    syncing_in_batches_brings_the_rows_up_to_date(
        s.contents_by_id(),
        s,
        s.current_seq(),
        ops,
        requests,
        by,
    );
}

} // verus!
