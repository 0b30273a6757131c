//! How a client follows a replicated map, and why it ends with the same contents.
//!
//! A client holds values under keys, and a cursor: a sequence number of the map. It asks
//! for a number of changes behind its cursor, looks up the values, replays the changes, and
//! asks again at the cursor it was given. The map may change at any time in between.

use vstd::prelude::*;

use crate::changelog::{ChangeEntry, ChangeKind};
use crate::history::{
    all_possible, every_operation_keeps_a_map_consistent, lemma_between, possible, run, step, Op,
};
use crate::laws::{
    a_new_map_is_consistent, a_refused_insertion_changes_nothing,
    changes_are_those_behind_the_cursor, compacting_keeps_the_contents, inserting_sets_one_key,
    removing_takes_out_one_key,
};
use crate::model::{last_change, lemma_last_change_joined, Change, RepLogState};

verus! {

/// What a client holds after one change: the value that the key has on the server is
/// set, or nothing where it is gone there again; a removal takes the key out.
pub open spec fn applied(
    client: Map<Seq<u8>, Seq<u8>>,
    change: Change,
    server: RepLogState,
) -> Map<Seq<u8>, Seq<u8>> {
    match server.with_value(change) {
        (ChangeEntry { kind: ChangeKind::Upsert, .. }, Some(value)) => client.insert(
            change.key,
            value,
        ),
        (ChangeEntry { kind: ChangeKind::Upsert, .. }, None) => client,
        (ChangeEntry { kind: ChangeKind::Delete, .. }, _) => client.remove(change.key),
    }
}

/// What a client holds after `changes`, in order, with the values that `server` has.
pub open spec fn replayed(
    client: Map<Seq<u8>, Seq<u8>>,
    changes: Seq<Change>,
    server: RepLogState,
) -> Map<Seq<u8>, Seq<u8>>
    decreases changes.len(),
{
    if changes.len() == 0 {
        client
    } else {
        applied(replayed(client, changes.drop_last(), server), changes.last(), server)
    }
}

/// The changes behind `cursor`.
pub open spec fn missed(s: RepLogState, cursor: nat) -> Seq<Change> {
    s.log.skip(cursor - s.epoch_start)
}

/// A client agrees with a map on every key without a change behind its cursor.
pub open spec fn agrees(client: Map<Seq<u8>, Seq<u8>>, s: RepLogState, cursor: nat) -> bool {
    forall|k: Seq<u8>|
        #![trigger last_change(missed(s, cursor), k)]
        last_change(missed(s, cursor), k) is None ==> client.get(k) == s.contents().get(k)
}

/// The changelog of `t` begins at the end of that of `s`, or behind it, or goes on where
/// that of `s` ends.
pub open spec fn keeps_changes(s: RepLogState, t: RepLogState) -> bool {
    ||| s.current_seq() <= t.epoch_start
    ||| s.epoch_start == t.epoch_start && s.log.len() <= t.log.len() && s.log == t.log.take(
        s.log.len() as int,
    )
}

/// What the changes in `t` behind the sequence number of `s` tell of every key: an
/// unchanged key is as it was in `s`, a changed one is there if and only if its last
/// change was not a removal.
pub open spec fn accounted_for(s: RepLogState, t: RepLogState) -> bool {
    let changes = missed(t, s.current_seq());
    forall|k: Seq<u8>|
        match #[trigger] last_change(changes, k) {
            Some(ChangeKind::Upsert) => t.contents().contains_key(k),
            Some(ChangeKind::Delete) => !t.contents().contains_key(k),
            None => t.contents().get(k) == s.contents().get(k),
        }
}

/// `t` comes after `s`: its changelog keeps the changes of that of `s` or begins behind
/// them, and where it reaches back to `s`, it accounts for every key.
pub open spec fn follows(s: RepLogState, t: RepLogState) -> bool {
    &&& t.consistent()
    &&& s.current_seq() <= t.current_seq() <= u64::MAX
    &&& s.epoch_start <= t.epoch_start
    &&& keeps_changes(s, t)
    &&& t.epoch_start <= s.current_seq() ==> accounted_for(s, t)
}

/// One more logged change keeps the account of every key.
proof fn lemma_follows_logged(s: RepLogState, t: RepLogState, u: RepLogState, change: Change)
    requires
        follows(s, t),
        u.consistent(),
        u.current_seq() <= u64::MAX,
        u.epoch_start == t.epoch_start,
        u.log == t.log.push(change),
        change.kind == ChangeKind::Upsert ==> u.contents().contains_key(change.key),
        change.kind == ChangeKind::Delete ==> !u.contents().contains_key(change.key),
        forall|k: Seq<u8>|
            k != change.key ==> #[trigger] u.contents().get(k) == t.contents().get(k),
    ensures
        follows(s, u),
{
    if s.current_seq() > t.epoch_start {
        assert(u.log.take(s.log.len() as int) =~= t.log.take(s.log.len() as int));
    }
    if u.epoch_start <= s.current_seq() {
        let cursor = s.current_seq();
        assert(missed(u, cursor) =~= missed(t, cursor).push(change));
        assert(missed(u, cursor).drop_last() =~= missed(t, cursor));
        assert forall|k: Seq<u8>|
            match #[trigger] last_change(missed(u, cursor), k) {
                Some(ChangeKind::Upsert) => u.contents().contains_key(k),
                Some(ChangeKind::Delete) => !u.contents().contains_key(k),
                None => u.contents().get(k) == s.contents().get(k),
            } by {
            if k != change.key {
                assert(last_change(missed(u, cursor), k) == last_change(missed(t, cursor), k));
                assert(u.contents().get(k) == t.contents().get(k));
            }
        }
    }
}

proof fn lemma_follows_insertion(s: RepLogState, t: RepLogState, key: Seq<u8>, value: Seq<u8>)
    requires
        follows(s, t),
        t.can_hold(key),
        t.current_seq() < u64::MAX,
    ensures
        follows(s, t.upserted(key, value)),
{
    let u = t.upserted(key, value);
    inserting_sets_one_key(t, key, value);
    assert forall|k: Seq<u8>| k != key implies #[trigger] u.contents().get(k)
        == t.contents().get(k) by {}
    assert(u.contents().contains_key(key));
    lemma_follows_logged(s, t, u, u.log.last());
}

proof fn lemma_follows_removal(s: RepLogState, t: RepLogState, key: Seq<u8>)
    requires
        follows(s, t),
        t.current_seq() < u64::MAX,
    ensures
        follows(s, t.removed(key)),
{
    let u = t.removed(key);
    removing_takes_out_one_key(t, key);
    if t.index.contains_key(key) {
        assert forall|k: Seq<u8>| k != key implies #[trigger] u.contents().get(k)
            == t.contents().get(k) by {}
        lemma_follows_logged(s, t, u, u.log.last());
    }
}

proof fn lemma_follows_step(s: RepLogState, t: RepLogState, op: Op)
    requires
        follows(s, t),
        possible(t, op),
    ensures
        follows(s, step(t, op)),
{
    let u = step(t, op);
    every_operation_keeps_a_map_consistent(t, op);
    match op {
        Op::Insert { key, value } => lemma_follows_insertion(s, t, key, value),
        Op::TryInsert { key, value } => {
            lemma_follows_insertion(s, t, key, value);
            a_refused_insertion_changes_nothing(t, key);
        },
        Op::Remove { key } => lemma_follows_removal(s, t, key),
        Op::TryRemove { key } => lemma_follows_removal(s, t, key),
        Op::Compact => {
            compacting_keeps_the_contents(t);
            if u.epoch_start <= s.current_seq() {
                assert(missed(t, s.current_seq()) =~= Seq::empty());
                assert(missed(u, s.current_seq()) =~= Seq::empty());
            }
        },
        Op::Clear => {},
    }
}

/// Whatever is done to a consistent map, the changes behind an earlier sequence number,
/// where the changelog still has them, account for every key.
pub proof fn a_map_keeps_account_of_its_changes(s: RepLogState, ops: Seq<Op>)
    requires
        s.consistent(),
        s.current_seq() <= u64::MAX,
        all_possible(s, ops),
    ensures
        follows(s, run(s, ops)),
    decreases ops.len(),
{
    if ops.len() == 0 {
        assert(s.log.take(s.log.len() as int) =~= s.log);
        assert(missed(s, s.current_seq()) =~= Seq::empty());
    } else {
        a_map_keeps_account_of_its_changes(s, ops.drop_last());
        lemma_follows_step(s, run(s, ops.drop_last()), ops.last());
    }
}

/// Of two points of one history, the later one follows the earlier one.
pub(crate) proof fn lemma_follows_between(s: RepLogState, ops: Seq<Op>, a: int, b: int)
    requires
        s.consistent(),
        s.current_seq() <= u64::MAX,
        all_possible(s, ops),
        0 <= a <= b <= ops.len(),
    ensures
        run(s, ops.take(a)).consistent(),
        s.current_seq() <= run(s, ops.take(a)).current_seq(),
        follows(run(s, ops.take(a)), run(s, ops.take(b))),
{
    let between = lemma_between(s, ops, a, b);
    a_map_keeps_account_of_its_changes(run(s, ops.take(a)), between);
}

/// What replaying does to one key.
proof fn lemma_replayed(
    client: Map<Seq<u8>, Seq<u8>>,
    changes: Seq<Change>,
    server: RepLogState,
    key: Seq<u8>,
)
    requires
        server.consistent(),
    ensures
        last_change(changes, key) is None ==> replayed(client, changes, server).get(key)
            == client.get(key),
        last_change(changes, key) == Some(ChangeKind::Delete) ==> !replayed(
            client,
            changes,
            server,
        ).contains_key(key),
        last_change(changes, key) == Some(ChangeKind::Upsert) && server.contents().contains_key(
            key,
        ) ==> replayed(client, changes, server).get(key) == server.contents().get(key),
    decreases changes.len(),
{
    if changes.len() > 0 {
        lemma_replayed(client, changes.drop_last(), server, key);
        assert(server.contents().contains_key(key) ==> server.get(key)
            == server.contents().get(key));
    }
}

/// A key without a change behind a cursor in the later of two maps has none in the earlier
/// one, and is in both the same.
pub(crate) proof fn lemma_unchanged(u: RepLogState, v: RepLogState, cursor: nat, k: Seq<u8>)
    requires
        follows(u, v),
        u.epoch_start <= cursor <= u.current_seq(),
        v.epoch_start <= cursor,
        last_change(missed(v, cursor), k) is None,
    ensures
        last_change(missed(u, cursor), k) is None,
        v.contents().get(k) == u.contents().get(k),
{
    let n = u.current_seq() - cursor;
    let changes = missed(v, cursor);
    let earlier = changes.take(n);
    let later = changes.skip(n);
    assert(earlier + later =~= changes);
    lemma_last_change_joined(earlier, later, k);
    assert(later =~= missed(v, u.current_seq()));
    assert(accounted_for(u, v));
    assert(last_change(missed(v, u.current_seq()), k) is None);
    if u.current_seq() <= v.epoch_start {
        assert(missed(u, cursor) =~= Seq::empty());
    } else {
        assert(missed(u, cursor) =~= earlier);
    }
}

/// A client that agrees with a map behind its cursor goes on agreeing while the map
/// changes, as long as the changelog reaches back to the cursor.
pub proof fn a_client_goes_on_agreeing(
    client: Map<Seq<u8>, Seq<u8>>,
    u: RepLogState,
    v: RepLogState,
    cursor: nat,
)
    requires
        follows(u, v),
        u.epoch_start <= cursor <= u.current_seq(),
        v.epoch_start <= cursor,
        agrees(client, u, cursor),
    ensures
        agrees(client, v, cursor),
{
    assert forall|k: Seq<u8>|
        #![trigger last_change(missed(v, cursor), k)]
        last_change(missed(v, cursor), k) is None implies client.get(k)
        == v.contents().get(k) by {
        lemma_unchanged(u, v, cursor, k);
        assert(last_change(missed(u, cursor), k) is None);
    }
}

/// One answer of any size: a client that agrees with the map `v` behind its cursor, and
/// replays the changes that `v` answers with, with the values that the map has when it
/// looks them up, in `w`, agrees with `w` behind the cursor it was given.
pub proof fn replaying_an_answer_keeps_a_client_agreeing(
    client: Map<Seq<u8>, Seq<u8>>,
    v: RepLogState,
    w: RepLogState,
    cursor: u64,
    limit: u64,
)
    requires
        v.consistent(),
        follows(v, w),
        v.epoch_start <= cursor <= v.current_seq(),
        agrees(client, v, cursor as nat),
        w.epoch_start <= (v.changes_since(cursor, limit)->0).1,
    ensures
        ({
            let (changes, next) = v.changes_since(cursor, limit)->0;
            &&& next <= v.current_seq()
            &&& agrees(replayed(client, changes, w), w, next)
        }),
{
    let (changes, next) = v.changes_since(cursor, limit)->0;
    changes_are_those_behind_the_cursor(v, cursor, limit);
    let result = replayed(client, changes, w);
    let before = v.log.take(cursor - v.epoch_start);
    let all = missed(v, cursor as nat);
    let rest = missed(v, next);
    assert(all =~= changes + rest);
    assert(v.log =~= before + all);
    assert forall|k: Seq<u8>|
        #![trigger last_change(missed(w, next), k)]
        last_change(missed(w, next), k) is None implies result.get(k) == w.contents().get(k) by {
        lemma_unchanged(v, w, next, k);
        lemma_last_change_joined(changes, rest, k);
        lemma_last_change_joined(before, all, k);
        lemma_replayed(client, changes, w, k);
        assert(last_change(all, k) == last_change(missed(v, cursor as nat), k));
        assert(last_change(v.log, k) is Some ==> (last_change(v.log, k)
            == Some(ChangeKind::Upsert) <==> v.index.contains_key(k)));
        assert(v.contents().contains_key(k) <==> v.index.contains_key(k));
    }
}

/// A client that agrees with a map behind its cursor, and has the map's sequence number
/// for its cursor, holds the contents of the map.
pub proof fn an_agreeing_client_at_the_end_holds_the_map(
    client: Map<Seq<u8>, Seq<u8>>,
    s: RepLogState,
)
    requires
        agrees(client, s, s.current_seq()),
    ensures
        client == s.contents(),
{
    assert(missed(s, s.current_seq()) =~= Seq::empty());
    assert forall|k: Seq<u8>| #[trigger] client.get(k) == s.contents().get(k) by {
        assert(last_change(missed(s, s.current_seq()), k) is None);
    }
    lemma_same_lookups(client, s.contents());
}

pub(crate) proof fn lemma_same_lookups<K, V>(a: Map<K, V>, b: Map<K, V>)
    requires
        forall|k: K| #[trigger] a.get(k) == b.get(k),
    ensures
        a == b,
{
    assert forall|k: K| a.contains_key(k) <==> b.contains_key(k) by {
        assert(a.get(k) == b.get(k));
    }
    assert forall|k: K| a.contains_key(k) implies a[k] == b[k] by {
        assert(a.get(k) == b.get(k));
    }
    assert(a =~= b);
}

/// One request of a client: it is answered when the first `asked` operations of a history
/// have been done, with up to `limit` changes, and the client looks the values up when the
/// first `fetched` have been done.
pub struct Request {
    pub asked: nat,
    pub fetched: nat,
    pub limit: u64,
}

/// The requests are made one after the other.
pub open spec fn one_after_the_other(ops: Seq<Op>, requests: Seq<Request>) -> bool {
    &&& forall|i: int|
        0 <= i < requests.len() ==> (#[trigger] requests[i]).asked <= requests[i].fetched
            <= ops.len()
    &&& forall|i: int, j: int|
        0 <= i < j < requests.len() ==> (#[trigger] requests[i]).fetched <= (
        #[trigger] requests[j]).asked
}

/// The map that answers the `i`-th request.
pub open spec fn asked_of(
    s: RepLogState,
    ops: Seq<Op>,
    requests: Seq<Request>,
    i: int,
) -> RepLogState {
    run(s, ops.take(requests[i].asked as int))
}

/// The map that the values of the `i`-th request are looked up in.
pub open spec fn fetched_from(
    s: RepLogState,
    ops: Seq<Op>,
    requests: Seq<Request>,
    i: int,
) -> RepLogState {
    run(s, ops.take(requests[i].fetched as int))
}

/// The cursor of a client after `n` requests, where it was `cursor` before.
pub open spec fn batch_cursor(
    s: RepLogState,
    cursor: nat,
    ops: Seq<Op>,
    requests: Seq<Request>,
    n: nat,
) -> nat
    decreases n,
{
    if n == 0 {
        cursor
    } else {
        let before = batch_cursor(s, cursor, ops, requests, (n - 1) as nat);
        (asked_of(s, ops, requests, n - 1).changes_since(
            before as u64,
            requests[n - 1].limit,
        )->0).1
    }
}

/// The changes in the answer to the `i`-th request.
pub open spec fn batch(
    s: RepLogState,
    cursor: nat,
    ops: Seq<Op>,
    requests: Seq<Request>,
    i: int,
) -> Seq<Change> {
    (asked_of(s, ops, requests, i).changes_since(
        batch_cursor(s, cursor, ops, requests, i as nat) as u64,
        requests[i].limit,
    )->0).0
}

/// What a client holds after it has replayed the answers to `n` requests.
pub open spec fn batched(
    client: Map<Seq<u8>, Seq<u8>>,
    s: RepLogState,
    cursor: nat,
    ops: Seq<Op>,
    requests: Seq<Request>,
    n: nat,
) -> Map<Seq<u8>, Seq<u8>>
    decreases n,
{
    if n == 0 {
        client
    } else {
        replayed(
            batched(client, s, cursor, ops, requests, (n - 1) as nat),
            batch(s, cursor, ops, requests, n - 1),
            fetched_from(s, ops, requests, n - 1),
        )
    }
}

/// None of the first `n` requests finds that the changelog begins after its cursor.
pub open spec fn answered(
    s: RepLogState,
    cursor: nat,
    ops: Seq<Op>,
    requests: Seq<Request>,
    n: nat,
) -> bool {
    forall|i: int|
        0 <= i < n ==> (#[trigger] asked_of(s, ops, requests, i)).epoch_start <= batch_cursor(
            s,
            cursor,
            ops,
            requests,
            i as nat,
        )
}

/// The map in which a client stands after `n` requests.
pub open spec fn reached(
    s: RepLogState,
    ops: Seq<Op>,
    requests: Seq<Request>,
    n: nat,
) -> RepLogState {
    if n == 0 {
        s
    } else {
        fetched_from(s, ops, requests, n - 1)
    }
}

/// Between two requests the map goes on from where the first one left it.
pub(crate) proof fn lemma_reached(s: RepLogState, ops: Seq<Op>, requests: Seq<Request>, i: int)
    requires
        s.consistent(),
        s.current_seq() <= u64::MAX,
        all_possible(s, ops),
        one_after_the_other(ops, requests),
        0 <= i < requests.len(),
    ensures
        reached(s, ops, requests, i as nat).consistent(),
        asked_of(s, ops, requests, i).consistent(),
        follows(reached(s, ops, requests, i as nat), asked_of(s, ops, requests, i)),
        follows(asked_of(s, ops, requests, i), fetched_from(s, ops, requests, i)),
{
    let asked = requests[i].asked as int;
    if i == 0 {
        assert(ops.take(0) =~= Seq::empty());
        lemma_follows_between(s, ops, 0, asked);
    } else {
        assert(requests[i - 1].fetched <= requests[i].asked);
        lemma_follows_between(s, ops, requests[i - 1].fetched as int, asked);
    }
    lemma_follows_between(s, ops, asked, requests[i].fetched as int);
}

/// The cursor never runs ahead of the map.
pub(crate) proof fn lemma_batch_cursor(
    s: RepLogState,
    cursor: nat,
    ops: Seq<Op>,
    requests: Seq<Request>,
    n: nat,
)
    requires
        s.consistent(),
        s.current_seq() <= u64::MAX,
        s.epoch_start <= cursor <= s.current_seq(),
        all_possible(s, ops),
        one_after_the_other(ops, requests),
        n <= requests.len(),
        answered(s, cursor, ops, requests, n),
    ensures
        batch_cursor(s, cursor, ops, requests, n) <= reached(s, ops, requests, n).current_seq(),
        n > 0 ==> batch_cursor(s, cursor, ops, requests, n) <= asked_of(
            s,
            ops,
            requests,
            n - 1,
        ).current_seq(),
        reached(s, ops, requests, n).current_seq() <= u64::MAX,
    decreases n,
{
    if n > 0 {
        let before = (n - 1) as nat;
        lemma_batch_cursor(s, cursor, ops, requests, before);
        lemma_reached(s, ops, requests, n - 1);
        let v = asked_of(s, ops, requests, n - 1);
        let c = batch_cursor(s, cursor, ops, requests, before);
        assert(v.epoch_start <= c);
        changes_are_those_behind_the_cursor(v, c as u64, requests[n - 1].limit);
    }
}

/// After any number of requests, as long as each is answered, a client agrees behind its
/// cursor with the map it has reached.
proof fn lemma_batched(
    client: Map<Seq<u8>, Seq<u8>>,
    s: RepLogState,
    cursor: nat,
    ops: Seq<Op>,
    requests: Seq<Request>,
    n: nat,
)
    requires
        s.consistent(),
        s.current_seq() <= u64::MAX,
        s.epoch_start <= cursor <= s.current_seq(),
        agrees(client, s, cursor),
        all_possible(s, ops),
        one_after_the_other(ops, requests),
        n <= requests.len(),
        answered(s, cursor, ops, requests, n),
        reached(s, ops, requests, n).epoch_start <= batch_cursor(s, cursor, ops, requests, n),
    ensures
        agrees(
            batched(client, s, cursor, ops, requests, n),
            reached(s, ops, requests, n),
            batch_cursor(s, cursor, ops, requests, n),
        ),
    decreases n,
{
    if n > 0 {
        let before = (n - 1) as nat;
        let u = reached(s, ops, requests, before);
        let v = asked_of(s, ops, requests, n - 1);
        let c = batch_cursor(s, cursor, ops, requests, before);
        lemma_reached(s, ops, requests, n - 1);
        lemma_batch_cursor(s, cursor, ops, requests, before);
        assert(v.epoch_start <= c);
        lemma_batched(client, s, cursor, ops, requests, before);
        let held = batched(client, s, cursor, ops, requests, before);
        a_client_goes_on_agreeing(held, u, v, c);
        replaying_an_answer_keeps_a_client_agreeing(
            held,
            v,
            fetched_from(s, ops, requests, n - 1),
            c as u64,
            requests[n - 1].limit,
        );
    }
}

/// A client that agrees with a map on every key without a change behind its cursor, and
/// follows it in requests of any size, holds the contents of the map once its cursor has
/// come up to the map's sequence number: whatever was done to the map before, between and
/// after the requests, as long as none of them tells the client to resync.
pub proof fn syncing_in_batches_brings_a_client_up_to_date(
    client: Map<Seq<u8>, Seq<u8>>,
    s: RepLogState,
    cursor: nat,
    ops: Seq<Op>,
    requests: Seq<Request>,
)
    requires
        s.consistent(),
        s.current_seq() <= u64::MAX,
        s.epoch_start <= cursor <= s.current_seq(),
        agrees(client, s, cursor),
        all_possible(s, ops),
        one_after_the_other(ops, requests),
        answered(s, cursor, ops, requests, requests.len()),
        batch_cursor(s, cursor, ops, requests, requests.len()) == reached(
            s,
            ops,
            requests,
            requests.len(),
        ).current_seq(),
    ensures
        batched(client, s, cursor, ops, requests, requests.len()) == reached(
            s,
            ops,
            requests,
            requests.len(),
        ).contents(),
{
    let n = requests.len();
    lemma_batched(client, s, cursor, ops, requests, n);
    an_agreeing_client_at_the_end_holds_the_map(
        batched(client, s, cursor, ops, requests, n),
        reached(s, ops, requests, n),
    );
}

/// A client that held the contents of a map, and follows it from the sequence number it had
/// then in requests of any size, holds the contents that the map has now once its cursor has
/// come up to the map's sequence number: whatever was done to the map before, between and
/// after the requests, as long as none of them tells the client to resync.
pub proof fn syncing_in_batches_reproduces_the_map(
    s: RepLogState,
    ops: Seq<Op>,
    requests: Seq<Request>,
)
    requires
        s.consistent(),
        s.current_seq() <= u64::MAX,
        all_possible(s, ops),
        one_after_the_other(ops, requests),
        answered(s, s.current_seq(), ops, requests, requests.len()),
        batch_cursor(s, s.current_seq(), ops, requests, requests.len()) == reached(
            s,
            ops,
            requests,
            requests.len(),
        ).current_seq(),
    ensures
        batched(s.contents(), s, s.current_seq(), ops, requests, requests.len()) == reached(
            s,
            ops,
            requests,
            requests.len(),
        ).contents(),
{
    syncing_in_batches_brings_a_client_up_to_date(
        s.contents(),
        s,
        s.current_seq(),
        ops,
        requests,
    );
}

/// While a map does not change, every request for at least one change is answered and
/// brings the cursor nearer to the map's sequence number, until it is there.
pub proof fn requests_reach_the_end_of_an_unchanged_map(
    s: RepLogState,
    cursor: nat,
    requests: Seq<Request>,
    n: nat,
)
    requires
        s.epoch_start <= cursor <= s.current_seq() <= u64::MAX,
        one_after_the_other(Seq::empty(), requests),
        forall|i: int| 0 <= i < requests.len() ==> (#[trigger] requests[i]).limit > 0,
        n <= requests.len(),
    ensures
        answered(s, cursor, Seq::empty(), requests, n),
        batch_cursor(s, cursor, Seq::empty(), requests, n) <= s.current_seq(),
        batch_cursor(s, cursor, Seq::empty(), requests, n) >= cursor + n || batch_cursor(
            s,
            cursor,
            Seq::empty(),
            requests,
            n,
        ) == s.current_seq(),
    decreases n,
{
    let ops = Seq::<Op>::empty();
    if n > 0 {
        let before = (n - 1) as nat;
        requests_reach_the_end_of_an_unchanged_map(s, cursor, requests, before);
        assert(requests[n - 1].asked == 0);
        assert(ops.take(0) =~= ops);
        let c = batch_cursor(s, cursor, ops, requests, before);
        assert(asked_of(s, ops, requests, n - 1) == s);
        changes_are_those_behind_the_cursor(s, c as u64, requests[n - 1].limit);
        assert(requests[n - 1].limit > 0);
    }
}

/// A client that held the contents of a map, and replays what `changes_since` returns in one
/// answer for the sequence number it had then, holds the contents that the map has now:
/// whatever was done to the map in between, unless the client is told to resync.
pub proof fn incremental_sync_reproduces_the_map(s: RepLogState, ops: Seq<Op>, limit: u64)
    requires
        s.consistent(),
        s.current_seq() <= u64::MAX,
        all_possible(s, ops),
    ensures
        ({
            let t = run(s, ops);
            t.changes_since(s.current_seq() as u64, limit) matches Some((changes, next)) ==> {
                &&& next <= t.current_seq()
                &&& agrees(replayed(s.contents(), changes, t), t, next)
                &&& next == t.current_seq() ==> replayed(s.contents(), changes, t)
                    == t.contents()
                &&& changes.len() < limit ==> next == t.current_seq()
            }
        }),
{
    let t = run(s, ops);
    let cursor = s.current_seq();
    a_map_keeps_account_of_its_changes(s, ops);
    if t.epoch_start <= cursor {
        let (changes, next) = t.changes_since(cursor as u64, limit)->0;
        assert(agrees(s.contents(), s, cursor));
        a_client_goes_on_agreeing(s.contents(), s, t, cursor);
        a_map_keeps_account_of_its_changes(t, Seq::empty());
        changes_are_those_behind_the_cursor(t, cursor as u64, limit);
        replaying_an_answer_keeps_a_client_agreeing(s.contents(), t, t, cursor as u64, limit);
        if next == t.current_seq() {
            an_agreeing_client_at_the_end_holds_the_map(replayed(s.contents(), changes, t), t);
        }
    }
}

/// A client that starts with nothing and replays the whole changelog of a map that was
/// new at first, never compacted and never cleared, holds the contents of the map.
pub proof fn replaying_everything_reproduces_the_map(
    index_pages: u64,
    data_pages: u64,
    ops: Seq<Op>,
)
    requires
        all_possible(RepLogState::empty(index_pages, data_pages), ops),
        run(RepLogState::empty(index_pages, data_pages), ops).epoch_start == 0,
    ensures
        ({
            let t = run(RepLogState::empty(index_pages, data_pages), ops);
            &&& t.changes_since(0, u64::MAX) matches Some((changes, next))
            &&& changes == t.log
            &&& next == t.current_seq()
            &&& replayed(Map::empty(), changes, t) == t.contents()
        }),
{
    let s = RepLogState::empty(index_pages, data_pages);
    let t = run(s, ops);
    a_new_map_is_consistent(index_pages, data_pages);
    a_map_keeps_account_of_its_changes(s, ops);
    incremental_sync_reproduces_the_map(s, ops, u64::MAX);
    assert((t.changes_since(0, u64::MAX)->0).0 =~= t.log);
}

} // verus!
