//! The order of keys, and the listing of a set of keys in that order.

use vstd::prelude::*;

verus! {

/// The lexicographic order of byte strings: the first byte that differs
/// decides, and a proper prefix comes before the longer string.
pub open spec fn key_less(a: Seq<u8>, b: Seq<u8>) -> bool
    decreases a.len(),
{
    if b.len() == 0 {
        false
    } else if a.len() == 0 {
        true
    } else if a[0] != b[0] {
        a[0] < b[0]
    } else {
        key_less(a.drop_first(), b.drop_first())
    }
}

/// One key comes before another if and only if the two agree up to some place at which the
/// first one ends and the other does not, or has the smaller byte.
pub proof fn the_first_difference_decides(a: Seq<u8>, b: Seq<u8>)
    ensures
        key_less(a, b) <==> exists|n: int| #[trigger] differs_at(a, b, n),
    decreases a.len(),
{
    if a.len() > 0 && b.len() > 0 && a[0] == b[0] {
        let (c, d) = (a.drop_first(), b.drop_first());
        the_first_difference_decides(c, d);
        if key_less(a, b) {
            let n = choose|n: int| #[trigger] differs_at(c, d, n);
            assert forall|i: int| 0 <= i < n + 1 implies #[trigger] a[i] == b[i] by {
                if i > 0 {
                    assert(c[i - 1] == d[i - 1]);
                }
            }
            assert(differs_at(a, b, n + 1));
        }
        if exists|n: int| #[trigger] differs_at(a, b, n) {
            let n = choose|n: int| #[trigger] differs_at(a, b, n);
            assert(n > 0);
            assert forall|i: int| 0 <= i < n - 1 implies #[trigger] c[i] == d[i] by {
                assert(a[i + 1] == b[i + 1]);
            }
            assert(differs_at(c, d, n - 1));
        }
    } else if key_less(a, b) {
        assert(differs_at(a, b, 0));
    }
}

/// `a` and `b` agree up to the place `n`, where `a` ends and `b` does not, or has the smaller
/// byte.
pub open spec fn differs_at(a: Seq<u8>, b: Seq<u8>, n: int) -> bool {
    &&& 0 <= n <= a.len() && n < b.len()
    &&& forall|i: int| 0 <= i < n ==> #[trigger] a[i] == b[i]
    &&& n == a.len() || a[n] < b[n]
}

/// An included end of a range is inside, an excluded one is not; the other keys inside come
/// after a lower end and before an upper one.
pub proof fn the_ends_of_a_range(keys: Set<Seq<u8>>, lower: KeyBound, upper: KeyBound, k: Seq<u8>)
    ensures
        keys_between(keys, lower, upper).contains(k) <==> {
            &&& keys.contains(k)
            &&& match lower {
                KeyBound::Included(b) => k == b@ || key_less(b@, k),
                KeyBound::Excluded(b) => k != b@ && key_less(b@, k),
                KeyBound::Unbounded => true,
            }
            &&& match upper {
                KeyBound::Included(b) => k == b@ || key_less(k, b@),
                KeyBound::Excluded(b) => k != b@ && key_less(k, b@),
                KeyBound::Unbounded => true,
            }
        },
        keys_after(keys, None).contains(k) <==> keys.contains(k),
        forall|a: Seq<u8>| #[trigger]
            keys_after(keys, Some(a)).contains(k) <==> keys.contains(k) && key_less(a, k),
{
    key_less_irreflexive(k);
}

/// No key comes before itself.
pub proof fn key_less_irreflexive(a: Seq<u8>)
    ensures
        !key_less(a, a),
    decreases a.len(),
{
    if a.len() > 0 {
        key_less_irreflexive(a.drop_first());
    }
}

/// Of two different keys, one comes before the other.
pub proof fn key_less_total(a: Seq<u8>, b: Seq<u8>)
    ensures
        a == b || key_less(a, b) || key_less(b, a),
    decreases a.len(),
{
    if a.len() > 0 && b.len() > 0 && a[0] == b[0] {
        key_less_total(a.drop_first(), b.drop_first());
        if a.drop_first() == b.drop_first() {
            assert forall|i: int| 0 <= i < a.len() implies a[i] == b[i] by {
                if i > 0 {
                    assert(a[i] == a.drop_first()[i - 1]);
                    assert(b[i] == b.drop_first()[i - 1]);
                }
            }
            assert(a.len() == a.drop_first().len() + 1);
            assert(b.len() == b.drop_first().len() + 1);
            assert(a =~= b);
        }
    } else if a.len() == 0 && b.len() == 0 {
        assert(a =~= b);
    }
}

/// The order of keys is transitive.
pub proof fn key_less_transitive(a: Seq<u8>, b: Seq<u8>, c: Seq<u8>)
    requires
        key_less(a, b),
        key_less(b, c),
    ensures
        key_less(a, c),
    decreases a.len(),
{
    if a.len() > 0 && a[0] == b[0] && b[0] == c[0] {
        key_less_transitive(a.drop_first(), b.drop_first(), c.drop_first());
    }
}

/// Two keys never come before each other.
pub proof fn key_less_asymmetric(a: Seq<u8>, b: Seq<u8>)
    requires
        key_less(a, b),
    ensures
        !key_less(b, a),
{
    if key_less(b, a) {
        key_less_transitive(a, b, a);
        key_less_irreflexive(a);
    }
}

/// One end of a range of keys.
pub enum KeyBound {
    Included(Vec<u8>),
    Excluded(Vec<u8>),
    Unbounded,
}

impl KeyBound {
    /// Whether `k` lies on the inner side of `self`, taken as a lower end.
    pub open spec fn admits_above(self, k: Seq<u8>) -> bool {
        match self {
            KeyBound::Included(b) => k == b@ || key_less(b@, k),
            KeyBound::Excluded(b) => key_less(b@, k),
            KeyBound::Unbounded => true,
        }
    }

    /// Whether `k` lies on the inner side of `self`, taken as an upper end.
    pub open spec fn admits_below(self, k: Seq<u8>) -> bool {
        match self {
            KeyBound::Included(b) => k == b@ || key_less(k, b@),
            KeyBound::Excluded(b) => key_less(k, b@),
            KeyBound::Unbounded => true,
        }
    }
}

/// `k` is the first key of `keys`.
pub open spec fn is_least(keys: Set<Seq<u8>>, k: Seq<u8>) -> bool {
    &&& keys.contains(k)
    &&& forall|o: Seq<u8>| #[trigger] keys.contains(o) ==> o == k || key_less(k, o)
}

/// `k` is the last key of `keys`.
pub open spec fn is_greatest(keys: Set<Seq<u8>>, k: Seq<u8>) -> bool {
    &&& keys.contains(k)
    &&& forall|o: Seq<u8>| #[trigger] keys.contains(o) ==> o == k || key_less(o, k)
}

/// The first key of `keys`, where there is one.
pub open spec fn least(keys: Set<Seq<u8>>) -> Seq<u8> {
    choose|k: Seq<u8>| is_least(keys, k)
}

/// The last key of `keys`, where there is one.
pub open spec fn greatest(keys: Set<Seq<u8>>) -> Seq<u8> {
    choose|k: Seq<u8>| is_greatest(keys, k)
}

/// The members of a finite set of keys, each once, in key order.
pub open spec fn in_order(keys: Set<Seq<u8>>) -> Seq<Seq<u8>>
    decreases keys.len(),
{
    if keys.finite() && keys.contains(least(keys)) {
        seq![least(keys)] + in_order(keys.remove(least(keys)))
    } else {
        Seq::empty()
    }
}

/// The keys of `keys` that come after `after`; all of them where `after` is `None`.
pub open spec fn keys_after(keys: Set<Seq<u8>>, after: Option<Seq<u8>>) -> Set<Seq<u8>> {
    match after {
        Some(a) => keys.filter(|k: Seq<u8>| key_less(a, k)),
        None => keys,
    }
}

/// The keys of `keys` between the two ends of a range.
pub open spec fn keys_between(keys: Set<Seq<u8>>, lower: KeyBound, upper: KeyBound) -> Set<
    Seq<u8>,
> {
    keys.filter(|k: Seq<u8>| lower.admits_above(k) && upper.admits_below(k))
}

/// A set of keys has at most one first key.
pub(crate) proof fn lemma_least_unique(keys: Set<Seq<u8>>, k: Seq<u8>)
    requires
        is_least(keys, k),
    ensures
        least(keys) == k,
{
    let l = least(keys);
    assert(is_least(keys, l));
    if l != k {
        key_less_asymmetric(k, l);
    }
}

/// A set of keys has at most one last key.
pub(crate) proof fn lemma_greatest_unique(keys: Set<Seq<u8>>, k: Seq<u8>)
    requires
        is_greatest(keys, k),
    ensures
        greatest(keys) == k,
{
    let g = greatest(keys);
    assert(is_greatest(keys, g));
    if g != k {
        key_less_asymmetric(g, k);
    }
}

/// Every finite set of keys that is not empty has a first key.
pub(crate) proof fn lemma_least_exists(keys: Set<Seq<u8>>)
    requires
        keys.finite(),
        keys.len() > 0,
    ensures
        is_least(keys, least(keys)),
    decreases keys.len(),
{
    let a = keys.choose();
    assert(keys.contains(a));
    let rest = keys.remove(a);
    if rest.len() == 0 {
        assert forall|o: Seq<u8>| #[trigger] keys.contains(o) implies o == a || key_less(a, o) by {
            if o != a {
                assert(rest.contains(o));
            }
        }
        assert(is_least(keys, a));
    } else {
        lemma_least_exists(rest);
        let m = least(rest);
        key_less_total(a, m);
        if key_less(a, m) {
            assert forall|o: Seq<u8>| #[trigger] keys.contains(o) implies o == a || key_less(
                a,
                o,
            ) by {
                if o != a {
                    assert(rest.contains(o));
                    if o != m {
                        key_less_transitive(a, m, o);
                    }
                }
            }
            assert(is_least(keys, a));
        } else {
            assert forall|o: Seq<u8>| #[trigger] keys.contains(o) implies o == m || key_less(
                m,
                o,
            ) by {
                if o != a {
                    assert(rest.contains(o));
                }
            }
            assert(is_least(keys, m));
        }
    }
}

/// Every finite set of keys that is not empty has a last key.
pub(crate) proof fn lemma_greatest_exists(keys: Set<Seq<u8>>)
    requires
        keys.finite(),
        keys.len() > 0,
    ensures
        is_greatest(keys, greatest(keys)),
{
    in_order_lists_each_key_once_in_order(keys);
    let listing = in_order(keys);
    let n = listing.len() - 1;
    assert(listing.contains(listing[n]));
    assert forall|o: Seq<u8>| #[trigger] keys.contains(o) implies o == listing[n] || key_less(
        o,
        listing[n],
    ) by {
        assert(listing.contains(o));
        let i = choose|i: int| 0 <= i < listing.len() && listing[i] == o;
        assert(listing[i] == o);
    }
    assert(is_greatest(keys, listing[n]));
}

/// The listing of a set without its first key is the rest of its listing.
pub(crate) proof fn lemma_in_order_step(keys: Set<Seq<u8>>, k: Seq<u8>)
    requires
        keys.finite(),
        is_least(keys, k),
    ensures
        in_order(keys) == seq![k] + in_order(keys.remove(k)),
{
    lemma_least_unique(keys, k);
}

/// The listing of no keys is empty.
pub(crate) proof fn lemma_in_order_empty(keys: Set<Seq<u8>>)
    requires
        forall|k: Seq<u8>| !keys.contains(k),
    ensures
        in_order(keys) == Seq::<Seq<u8>>::empty(),
{
}

/// The listing of a finite set of keys holds exactly its members, each once,
/// in strictly ascending key order.
pub proof fn in_order_lists_each_key_once_in_order(keys: Set<Seq<u8>>)
    requires
        keys.finite(),
    ensures
        in_order(keys).len() == keys.len(),
        forall|k: Seq<u8>| #[trigger] in_order(keys).contains(k) <==> keys.contains(k),
        forall|i: int, j: int|
            0 <= i < j < in_order(keys).len() ==> key_less(
                #[trigger] in_order(keys)[i],
                #[trigger] in_order(keys)[j],
            ),
    decreases keys.len(),
{
    if keys.len() == 0 {
        assert(keys =~= Set::empty());
        lemma_in_order_empty(keys);
    } else {
        lemma_least_exists(keys);
        let m = least(keys);
        let rest = keys.remove(m);
        let listing = in_order(keys);
        let tail = in_order(rest);
        in_order_lists_each_key_once_in_order(rest);
        assert(listing == seq![m] + tail);
        assert forall|k: Seq<u8>| #[trigger] listing.contains(k) <==> keys.contains(k) by {
            if listing.contains(k) {
                let i = choose|i: int| 0 <= i < listing.len() && listing[i] == k;
                if i > 0 {
                    assert(tail[i - 1] == k);
                    assert(tail.contains(k));
                    assert(rest.contains(k));
                }
            }
            if keys.contains(k) {
                if k == m {
                    assert(listing[0] == k);
                } else {
                    assert(rest.contains(k));
                    assert(tail.contains(k));
                    let i = choose|i: int| 0 <= i < tail.len() && tail[i] == k;
                    assert(listing[i + 1] == k);
                }
            }
        }
        assert forall|i: int, j: int| 0 <= i < j < listing.len() implies key_less(
            #[trigger] listing[i],
            #[trigger] listing[j],
        ) by {
            assert(listing[j] == tail[j - 1]);
            assert(tail.contains(tail[j - 1]));
            assert(rest.contains(listing[j]));
            if i > 0 {
                assert(listing[i] == tail[i - 1]);
            }
        }
    }
}

/// Listing the keys after the `n`-th one continues the listing where it stopped.
pub proof fn in_order_resumes_after_a_key(keys: Set<Seq<u8>>, n: int)
    requires
        keys.finite(),
        0 < n <= in_order(keys).len(),
    ensures
        in_order(keys_after(keys, Some(in_order(keys)[n - 1]))) == in_order(keys).skip(n),
    decreases n,
{
    in_order_lists_each_key_once_in_order(keys);
    let listing = in_order(keys);
    assert(keys.len() > 0);
    lemma_least_exists(keys);
    let m = least(keys);
    let rest = keys.remove(m);
    let tail = in_order(rest);
    assert(listing == seq![m] + tail);
    if n == 1 {
        let after = keys_after(keys, Some(m));
        assert(after =~= rest) by {
            key_less_irreflexive(m);
        }
        assert(listing.skip(1) =~= tail);
    } else {
        in_order_resumes_after_a_key(rest, n - 1);
        let last = listing[n - 1];
        assert(last == tail[n - 2]);
        assert(key_less(listing[0], listing[n - 1]));
        assert(keys_after(keys, Some(last)) =~= keys_after(rest, Some(last))) by {
            key_less_asymmetric(m, last);
        }
        assert(listing.skip(n) =~= tail.skip(n - 1));
    }
}

} // verus!
