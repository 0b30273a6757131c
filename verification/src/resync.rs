//! How a client resyncs page by page while the map goes on changing.

use vstd::prelude::*;

use crate::history::{all_possible, run, Op};
use crate::laws::every_key_has_its_value;
use crate::model::{last_change, Change, RepLogState};
use crate::order::{
    in_order, in_order_lists_each_key_once_in_order, key_less, key_less_asymmetric,
    key_less_irreflexive, key_less_total, key_less_transitive, keys_after,
};
use crate::snapshot::{filed, lemma_filed_absent, lemma_filed_found, lemma_rows};
use crate::sync::{
    agrees, answered, batch_cursor, batched, follows, lemma_follows_between, lemma_unchanged,
    missed, one_after_the_other, reached, syncing_in_batches_brings_a_client_up_to_date, Request,
};

verus! {

/// The map as each of the pages found it: the `i`-th page is read when the first
/// `cuts[i]` of `ops` have been done.
pub open spec fn seen(s: RepLogState, ops: Seq<Op>, cuts: Seq<nat>, i: int) -> RepLogState {
    run(s, ops.take(cuts[i] as int))
}

/// The key that a client passes for the page after `n` pages: the last key received.
pub open spec fn resync_cursor(
    s: RepLogState,
    ops: Seq<Op>,
    cuts: Seq<nat>,
    limit: u64,
    n: nat,
) -> Option<Seq<u8>>
    decreases n,
{
    if n == 0 {
        None
    } else {
        let before = resync_cursor(s, ops, cuts, limit, (n - 1) as nat);
        let page = seen(s, ops, cuts, n - 1).page(before, limit);
        if page.len() == 0 {
            before
        } else {
            Some(page.last().1)
        }
    }
}

/// What the `i`-th page has.
pub open spec fn resync_page(
    s: RepLogState,
    ops: Seq<Op>,
    cuts: Seq<nat>,
    limit: u64,
    i: int,
) -> Seq<(u64, Seq<u8>, Seq<u8>)> {
    seen(s, ops, cuts, i).page(resync_cursor(s, ops, cuts, limit, i as nat), limit)
}

/// What a client holds after it has filed `n` pages.
pub open spec fn resynced(
    s: RepLogState,
    ops: Seq<Op>,
    cuts: Seq<nat>,
    limit: u64,
    n: nat,
) -> Map<Seq<u8>, Seq<u8>>
    decreases n,
{
    if n == 0 {
        Map::empty()
    } else {
        filed(
            resynced(s, ops, cuts, limit, (n - 1) as nat),
            resync_page(s, ops, cuts, limit, n - 1),
        )
    }
}

/// `k` is not behind the cursor `after`.
pub(crate) open spec fn covered(after: Option<Seq<u8>>, k: Seq<u8>) -> bool {
    match after {
        Some(a) => k == a || key_less(k, a),
        None => false,
    }
}

/// One page: each key behind the cursor and up to the last key of the page has its
/// value in the page if it is in the map, and no other key is in the page.
pub(crate) proof fn lemma_page(u: RepLogState, after: Option<Seq<u8>>, limit: u64, k: Seq<u8>)
    requires
        u.consistent(),
    ensures
        ({
            let page = u.page(after, limit);
            let next = if page.len() == 0 {
                after
            } else {
                Some(page.last().1)
            };
            &&& page.len() <= limit
            &&& forall|i: int, j: int|
                0 <= i < j < page.len() ==> key_less(
                    (#[trigger] page[i]).1,
                    (#[trigger] page[j]).1,
                )
            &&& covered(after, k) ==> covered(next, k) && (forall|i: int|
                0 <= i < page.len() ==> (#[trigger] page[i]).1 != k)
            &&& !covered(after, k) && (page.len() < limit || covered(next, k))
                && u.contents().contains_key(k) ==> exists|i: int|
                0 <= i < page.len() && (#[trigger] page[i]).1 == k && page[i].2 == u.contents()[k]
            &&& !u.contents().contains_key(k) || !covered(next, k) ==> forall|i: int|
                0 <= i < page.len() ==> (#[trigger] page[i]).1 != k
        }),
{
    let dom = u.index.dom();
    let rest = keys_after(dom, after);
    let listing = in_order(rest);
    let page_keys = u.page_keys(after, limit);
    let page = u.page(after, limit);
    assert(rest.subset_of(dom));
    vstd::set_lib::lemma_set_subset_finite(dom, rest);
    in_order_lists_each_key_once_in_order(rest);
    every_key_has_its_value(u, k);
    assert forall|i: int| 0 <= i < page_keys.len() implies u.index.contains_key(
        #[trigger] page_keys[i],
    ) by {
        assert(page_keys[i] == listing[i]);
        assert(listing.contains(listing[i]));
    }
    lemma_rows(u, page_keys);
    assert forall|i: int, j: int| 0 <= i < j < page.len() implies key_less(
        (#[trigger] page[i]).1,
        (#[trigger] page[j]).1,
    ) by {
        assert(page[i].1 == listing[i] && page[j].1 == listing[j]);
    }
    let next = if page.len() == 0 {
        after
    } else {
        Some(page.last().1)
    };
    assert forall|i: int| 0 <= i < page.len() implies rest.contains((#[trigger] page[i]).1) by {
        assert(page[i].1 == listing[i]);
        assert(listing.contains(listing[i]));
    }
    if page.len() > 0 {
        let last = page[page.len() - 1].1;
        assert(rest.contains(last));
        if after is Some && covered(after, k) {
            let a = after->0;
            assert(key_less(a, last));
            if k != a {
                key_less_transitive(k, a, last);
            }
            assert forall|i: int| 0 <= i < page.len() implies (#[trigger] page[i]).1 != k by {
                assert(key_less(a, page[i].1));
                if page[i].1 == k {
                    if k == a {
                        key_less_irreflexive(a);
                    } else {
                        key_less_asymmetric(k, a);
                    }
                }
            }
        }
        if !covered(next, k) {
            assert forall|i: int| 0 <= i < page.len() implies (#[trigger] page[i]).1 != k by {
                if i < page.len() - 1 {
                    assert(key_less(page[i].1, page[page.len() - 1].1));
                }
            }
        }
    }
    if !covered(after, k) && (page.len() < limit || covered(next, k))
        && u.contents().contains_key(k) {
        assert(rest.contains(k)) by {
            if after is Some {
                key_less_total(k, after->0);
            }
        }
        assert(listing.contains(k));
        let i = choose|i: int| 0 <= i < listing.len() && listing[i] == k;
        if i >= page.len() {
            assert(page.len() == limit);
            assert(covered(next, k));
            assert(page.len() > 0);
            let last = page[page.len() - 1].1;
            assert(last == listing[page.len() - 1]);
            assert(key_less(last, k));
            key_less_irreflexive(k);
            if k != last {
                key_less_asymmetric(k, last);
            }
        }
        assert(page[i].1 == k && page[i].2 == u.contents()[k]);
    }
    if !u.contents().contains_key(k) {
        assert forall|i: int| 0 <= i < page.len() implies (#[trigger] page[i]).1 != k by {
            assert(rest.contains(page[i].1));
        }
    }
}

/// Of the keys up to the cursor, those without a change since the first page are as in
/// the map; of the others, none is held.
spec fn resync_in_step(
    client: Map<Seq<u8>, Seq<u8>>,
    after: Option<Seq<u8>>,
    changes: Seq<Change>,
    t: RepLogState,
) -> bool {
    forall|k: Seq<u8>|
        #![trigger client.get(k)]
        (covered(after, k) && last_change(changes, k) is None ==> client.get(k)
            == t.contents().get(k)) && (!covered(after, k) ==> client.get(k) is None)
}

/// A page in between keeps the client in step up to the new cursor; the last page, which
/// has fewer rows than asked for, for every key.
proof fn lemma_resync_step(
    client: Map<Seq<u8>, Seq<u8>>,
    after: Option<Seq<u8>>,
    limit: u64,
    s: RepLogState,
    u: RepLogState,
    t: RepLogState,
    k: Seq<u8>,
)
    requires
        u.consistent(),
        follows(u, t),
        t.epoch_start <= s.current_seq() <= u.current_seq(),
        resync_in_step(client, after, missed(t, s.current_seq()), t),
    ensures
        ({
            let page = u.page(after, limit);
            let next = if page.len() == 0 {
                after
            } else {
                Some(page.last().1)
            };
            let result = filed(client, page);
            &&& last_change(missed(t, s.current_seq()), k) is None && (covered(next, k)
                || page.len() < limit) ==> result.get(k) == t.contents().get(k)
            &&& !covered(next, k) ==> result.get(k) is None
        }),
{
    let page = u.page(after, limit);
    let changes = missed(t, s.current_seq());
    lemma_page(u, after, limit, k);
    assert(client.get(k) == client.get(k));
    if last_change(changes, k) is None {
        lemma_unchanged(u, t, s.current_seq(), k);
    }
    if exists|i: int| 0 <= i < page.len() && (#[trigger] page[i]).1 == k {
        let i = choose|i: int| 0 <= i < page.len() && (#[trigger] page[i]).1 == k;
        lemma_filed_found(client, page, i);
        if u.contents().contains_key(k) {
            if covered(after, k) {
                assert(page[i].1 != k);
            } else {
                lemma_page_value(u, after, limit, i);
            }
        }
    } else {
        lemma_filed_absent(client, page, k);
    }
}

/// A row of a page has the entry ID and the value of its key.
pub(crate) proof fn lemma_page_value(u: RepLogState, after: Option<Seq<u8>>, limit: u64, i: int)
    requires
        u.consistent(),
        0 <= i < u.page(after, limit).len(),
    ensures
        u.contents().contains_key(u.page(after, limit)[i].1),
        u.page(after, limit)[i].2 == u.contents()[u.page(after, limit)[i].1],
        u.has_id(u.page(after, limit)[i].1, u.page(after, limit)[i].0),
{
    let dom = u.index.dom();
    let rest = keys_after(dom, after);
    let page_keys = u.page_keys(after, limit);
    vstd::set_lib::lemma_set_subset_finite(dom, rest);
    in_order_lists_each_key_once_in_order(rest);
    assert forall|j: int| 0 <= j < page_keys.len() implies u.index.contains_key(
        #[trigger] page_keys[j],
    ) by {
        assert(page_keys[j] == in_order(rest)[j]);
        assert(in_order(rest).contains(page_keys[j]));
    }
    lemma_rows(u, page_keys);
}

proof fn lemma_resync(s: RepLogState, ops: Seq<Op>, cuts: Seq<nat>, limit: u64, n: nat)
    requires
        s.consistent(),
        s.current_seq() <= u64::MAX,
        all_possible(s, ops),
        n <= cuts.len(),
        forall|i: int| 0 <= i < cuts.len() ==> #[trigger] cuts[i] <= ops.len(),
        run(s, ops).epoch_start <= s.current_seq(),
    ensures
        resync_in_step(
            resynced(s, ops, cuts, limit, n),
            resync_cursor(s, ops, cuts, limit, n),
            missed(run(s, ops), s.current_seq()),
            run(s, ops),
        ),
    decreases n,
{
    if n > 0 {
        let t = run(s, ops);
        let before = (n - 1) as nat;
        lemma_resync(s, ops, cuts, limit, before);
        let u = seen(s, ops, cuts, n - 1);
        lemma_seen(s, ops, cuts, n - 1);
        let client = resynced(s, ops, cuts, limit, before);
        let after = resync_cursor(s, ops, cuts, limit, before);
        let page = resync_page(s, ops, cuts, limit, n - 1);
        let next = resync_cursor(s, ops, cuts, limit, n);
        let result = resynced(s, ops, cuts, limit, n);
        assert forall|k: Seq<u8>|
            #![trigger result.get(k)]
            (covered(next, k) && last_change(missed(t, s.current_seq()), k) is None ==> result.get(
                k,
            ) == t.contents().get(k)) && (!covered(next, k) ==> result.get(k) is None) by {
            lemma_resync_step(client, after, limit, s, u, t, k);
        }
    }
}

/// The map as a page found it lies between the first and the present one.
pub(crate) proof fn lemma_seen(s: RepLogState, ops: Seq<Op>, cuts: Seq<nat>, i: int)
    requires
        s.consistent(),
        s.current_seq() <= u64::MAX,
        all_possible(s, ops),
        0 <= i < cuts.len(),
        cuts[i] <= ops.len(),
    ensures
        seen(s, ops, cuts, i).consistent(),
        s.current_seq() <= seen(s, ops, cuts, i).current_seq(),
        follows(seen(s, ops, cuts, i), run(s, ops)),
{
    lemma_follows_between(s, ops, cuts[i] as int, ops.len() as int);
    assert(ops.take(ops.len() as int) =~= ops);
}

/// A client that reads a map page by page, each page asked for with the last key received,
/// until one has fewer rows than asked for, agrees with the map on every key without a
/// change behind the sequence number that the map had before the first page: whatever was
/// done to the map between the pages and after them, as long as its changelog reaches back to
/// that sequence number.
pub proof fn a_paged_resync_agrees_where_nothing_changed(
    s: RepLogState,
    ops: Seq<Op>,
    cuts: Seq<nat>,
    limit: u64,
)
    requires
        s.consistent(),
        s.current_seq() <= u64::MAX,
        all_possible(s, ops),
        cuts.len() > 0,
        forall|i: int| 0 <= i < cuts.len() ==> #[trigger] cuts[i] <= ops.len(),
        resync_page(s, ops, cuts, limit, cuts.len() - 1).len() < limit,
        run(s, ops).epoch_start <= s.current_seq(),
    ensures
        agrees(resynced(s, ops, cuts, limit, cuts.len()), run(s, ops), s.current_seq()),
{
    let t = run(s, ops);
    let cursor = s.current_seq();
    let n = cuts.len();
    let before = (n - 1) as nat;
    lemma_resync(s, ops, cuts, limit, before);
    assert(cuts[n - 1] <= ops.len());
    lemma_seen(s, ops, cuts, n - 1);
    let u = seen(s, ops, cuts, n - 1);
    let result = resynced(s, ops, cuts, limit, n);
    assert forall|k: Seq<u8>|
        #![trigger last_change(missed(t, cursor), k)]
        last_change(missed(t, cursor), k) is None implies result.get(k)
        == t.contents().get(k) by {
        lemma_resync_step(
            resynced(s, ops, cuts, limit, before),
            resync_cursor(s, ops, cuts, limit, before),
            limit,
            s,
            u,
            t,
            k,
        );
    }
}

/// A client that reads a map page by page until a page has fewer rows than asked for, and
/// then follows it, from the sequence number that the map had before the first page, in
/// requests of any size, holds the contents of the map once its cursor has come up to the
/// map's sequence number: whatever was done to the map between the pages and the requests,
/// as long as the client is not told to resync again.
pub proof fn paged_resync_and_catch_up_reproduces_the_map(
    s: RepLogState,
    ops: Seq<Op>,
    cuts: Seq<nat>,
    limit: u64,
    more: Seq<Op>,
    requests: Seq<Request>,
)
    requires
        s.consistent(),
        s.current_seq() <= u64::MAX,
        all_possible(s, ops),
        cuts.len() > 0,
        forall|i: int| 0 <= i < cuts.len() ==> #[trigger] cuts[i] <= ops.len(),
        resync_page(s, ops, cuts, limit, cuts.len() - 1).len() < limit,
        run(s, ops).epoch_start <= s.current_seq(),
        all_possible(run(s, ops), more),
        one_after_the_other(more, requests),
        answered(run(s, ops), s.current_seq(), more, requests, requests.len()),
        batch_cursor(run(s, ops), s.current_seq(), more, requests, requests.len()) == reached(
            run(s, ops),
            more,
            requests,
            requests.len(),
        ).current_seq(),
    ensures
        batched(
            resynced(s, ops, cuts, limit, cuts.len()),
            run(s, ops),
            s.current_seq(),
            more,
            requests,
            requests.len(),
        ) == reached(run(s, ops), more, requests, requests.len()).contents(),
{
    let t = run(s, ops);
    a_paged_resync_agrees_where_nothing_changed(s, ops, cuts, limit);
    lemma_follows_between(s, ops, 0, ops.len() as int);
    assert(ops.take(ops.len() as int) =~= ops);
    assert(ops.take(0) =~= Seq::empty());
    syncing_in_batches_brings_a_client_up_to_date(
        resynced(s, ops, cuts, limit, cuts.len()),
        t,
        s.current_seq(),
        more,
        requests,
    );
}

} // verus!
