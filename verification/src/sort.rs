//! Stable sorting: the order in which items stand when sorted by their keys.

use vstd::prelude::*;
use vstd::utf8::encode_utf8;
use crate::ordered::{key_order, lemma_key_order, lemma_key_order_transitive, Key, OrderedValue};
use crate::text::{
    compare_text, int_order, lemma_bytes_order_transitive, lemma_text_order, text_order, Order,
};

verus! {

/// What keys are, and how they are ordered.
pub trait Rank: Sized {
    /// The order of two keys.
    spec fn ranking(self, other: Self) -> Order;

    /// Comparing the other way round flips the result.
    proof fn lemma_flips(a: Self, b: Self)
        ensures
            b.ranking(a) == a.ranking(b).flipped(),
    ;

    /// The order is transitive.
    proof fn lemma_chains(a: Self, b: Self, c: Self)
        requires
            a.ranking(b) != Order::Greater,
            b.ranking(c) != Order::Greater,
        ensures
            a.ranking(c) != Order::Greater,
    ;
}

/// Keys that can be sorted by.
pub trait Ranked: View + Sized where Self::V: Rank {
    fn rank(&self, other: &Self) -> (r: Order)
        ensures
            r == self@.ranking(other@),
    ;
}

impl Rank for Key {
    open spec fn ranking(self, other: Key) -> Order {
        key_order(self, other)
    }

    proof fn lemma_flips(a: Key, b: Key) {
        lemma_key_order(a, b);
    }

    proof fn lemma_chains(a: Key, b: Key, c: Key) {
        lemma_key_order_transitive(a, b, c);
    }
}

impl Ranked for OrderedValue {
    fn rank(&self, other: &OrderedValue) -> (r: Order) {
        self.order(other)
    }
}

impl Rank for u64 {
    open spec fn ranking(self, other: u64) -> Order {
        int_order(self as int, other as int)
    }

    proof fn lemma_flips(a: u64, b: u64) {
    }

    proof fn lemma_chains(a: u64, b: u64, c: u64) {
    }
}

impl Ranked for u64 {
    fn rank(&self, other: &u64) -> (r: Order) {
        if *self < *other {
            Order::Less
        } else if *self == *other {
            Order::Equal
        } else {
            Order::Greater
        }
    }
}

impl Rank for Seq<char> {
    open spec fn ranking(self, other: Seq<char>) -> Order {
        text_order(self, other)
    }

    proof fn lemma_flips(a: Seq<char>, b: Seq<char>) {
        lemma_text_order(a, b);
    }

    proof fn lemma_chains(a: Seq<char>, b: Seq<char>, c: Seq<char>) {
        lemma_bytes_order_transitive(encode_utf8(a), encode_utf8(b), encode_utf8(c));
    }
}

impl Ranked for String {
    fn rank(&self, other: &String) -> (r: Order) {
        compare_text(self.as_str(), other.as_str())
    }
}

/// What a row of keys is.
pub open spec fn views<T: View>(keys: Seq<T>) -> Seq<T::V> {
    keys.map_values(|k: T| k@)
}

/// Whether the `i`th key may stand before the `j`th.
pub open spec fn in_order<K: Rank>(keys: Seq<K>, descending: bool, i: int, j: int) -> bool {
    if descending {
        keys[j].ranking(keys[i]) != Order::Greater
    } else {
        keys[i].ranking(keys[j]) != Order::Greater
    }
}

/// The places with one more put behind all that may stand before it.
pub open spec fn inserted<K: Rank>(
    keys: Seq<K>,
    descending: bool,
    places: Seq<int>,
    x: int,
) -> Seq<int>
    decreases places.len(),
{
    if places.len() == 0 || in_order(keys, descending, places.last(), x) {
        places.push(x)
    } else {
        inserted(keys, descending, places.drop_last(), x).push(places.last())
    }
}

/// The places from `from` to `to`, sorted by their keys; equal keys keep the
/// order in which they stand.
pub open spec fn sorted_places<K: Rank>(
    keys: Seq<K>,
    descending: bool,
    from: int,
    to: int,
) -> Seq<int>
    decreases to - from,
{
    if to <= from {
        Seq::empty()
    } else {
        inserted(keys, descending, sorted_places(keys, descending, from, to - 1), to - 1)
    }
}

/// Whether places are those from `from` to `to`, each once.
pub open spec fn covers(places: Seq<int>, from: int, to: int) -> bool {
    &&& places.len() == to - from
    &&& places.no_duplicates()
    &&& forall|i: int| 0 <= i < places.len() ==> from <= #[trigger] places[i] < to
}

/// Whether places are sorted by their keys, with equal keys in the order in
/// which they stand.
pub open spec fn stably_sorted<K: Rank>(
    keys: Seq<K>,
    descending: bool,
    places: Seq<int>,
) -> bool {
    forall|a: int, b: int|
        0 <= a < b < places.len() ==> in_order(
            keys,
            descending,
            #[trigger] places[a],
            #[trigger] places[b],
        ) && (places[a] < places[b] || !in_order(keys, descending, places[b], places[a]))
}

proof fn lemma_in_order<K: Rank>(keys: Seq<K>, descending: bool, i: int, j: int, k: int)
    ensures
        in_order(keys, descending, i, j) || in_order(keys, descending, j, i),
        in_order(keys, descending, i, j) && in_order(keys, descending, j, k) ==> in_order(
            keys,
            descending,
            i,
            k,
        ),
{
    K::lemma_flips(keys[i], keys[j]);
    if in_order(keys, descending, i, j) && in_order(keys, descending, j, k) {
        if descending {
            K::lemma_chains(keys[k], keys[j], keys[i]);
        } else {
            K::lemma_chains(keys[i], keys[j], keys[k]);
        }
    }
}

proof fn lemma_inserted<K: Rank>(keys: Seq<K>, descending: bool, places: Seq<int>, from: int, x: int)
    requires
        covers(places, from, x),
        stably_sorted(keys, descending, places),
    ensures
        covers(inserted(keys, descending, places, x), from, x + 1),
        stably_sorted(keys, descending, inserted(keys, descending, places, x)),
{
    lemma_inserted_part(keys, descending, places, x);
    let all = inserted(keys, descending, places, x);
    assert forall|i: int| 0 <= i < all.len() implies from <= #[trigger] all[i] < x + 1 by {
        if all[i] != x {
            let j = choose|j: int| 0 <= j < places.len() && places[j] == all[i];
            assert(places[j] == all[i]);
        }
    }
}

proof fn lemma_inserted_part<K: Rank>(keys: Seq<K>, descending: bool, places: Seq<int>, x: int)
    requires
        places.no_duplicates(),
        forall|i: int| 0 <= i < places.len() ==> #[trigger] places[i] < x,
        stably_sorted(keys, descending, places),
    ensures
        ({
            let all = inserted(keys, descending, places, x);
            &&& all.len() == places.len() + 1
            &&& all.no_duplicates()
            &&& stably_sorted(keys, descending, all)
            &&& forall|i: int|
                0 <= i < all.len() ==> (#[trigger] all[i]) == x || places.contains(all[i])
        }),
    decreases places.len(),
{
    let all = inserted(keys, descending, places, x);
    if places.len() == 0 || in_order(keys, descending, places.last(), x) {
        assert forall|i: int| 0 <= i < all.len() implies (#[trigger] all[i]) == x
            || places.contains(all[i]) by {
            if i < places.len() {
                assert(places[i] == all[i]);
            }
        }
        assert forall|a: int, b: int| 0 <= a < b < all.len() implies in_order(
            keys,
            descending,
            #[trigger] all[a],
            #[trigger] all[b],
        ) && (all[a] < all[b] || !in_order(keys, descending, all[b], all[a])) by {
            if b < places.len() {
                assert(places[a] == all[a] && places[b] == all[b]);
            } else {
                let n = places.len() - 1;
                assert(places[a] < x);
                if a < n {
                    assert(in_order(keys, descending, places[a], places[n]));
                    lemma_in_order(keys, descending, places[a], places[n], x);
                }
            }
        }
    } else {
        let head = places.drop_last();
        let last = places.last();
        assert forall|a: int, b: int| 0 <= a < b < head.len() implies in_order(
            keys,
            descending,
            #[trigger] head[a],
            #[trigger] head[b],
        ) && (head[a] < head[b] || !in_order(keys, descending, head[b], head[a])) by {
            assert(head[a] == places[a] && head[b] == places[b]);
        }
        lemma_inserted_part(keys, descending, head, x);
        let most = inserted(keys, descending, head, x);
        assert forall|i: int| 0 <= i < most.len() implies (#[trigger] most[i]) == x || exists|j: int|
            0 <= j < head.len() && places[j] == most[i] by {
            if most[i] != x {
                let j = choose|j: int| 0 <= j < head.len() && head[j] == most[i];
                assert(places[j] == most[i]);
            }
        }
        assert forall|i: int| 0 <= i < all.len() implies (#[trigger] all[i]) == x
            || places.contains(all[i]) by {
            if i < most.len() {
                assert(all[i] == most[i]);
            } else {
                assert(places[places.len() - 1] == all[i]);
            }
        }
        assert forall|a: int, b: int| 0 <= a < b < all.len() implies in_order(
            keys,
            descending,
            #[trigger] all[a],
            #[trigger] all[b],
        ) && (all[a] < all[b] || !in_order(keys, descending, all[b], all[a])) by {
            if b < most.len() {
                assert(most[a] == all[a] && most[b] == all[b]);
            } else {
                assert(all[b] == last);
                assert(most[a] == all[a]);
                if all[a] == x {
                    lemma_in_order(keys, descending, x, last, x);
                } else {
                    let j = choose|j: int| 0 <= j < head.len() && places[j] == most[a];
                    assert(in_order(keys, descending, places[j], places[places.len() - 1]));
                }
            }
        }
        assert forall|a: int, b: int|
            0 <= a < all.len() && 0 <= b < all.len() && a != b implies all[a] != all[b] by {
            if a < most.len() && b < most.len() {
                assert(most[a] != most[b]);
            } else {
                let m = if a < most.len() {
                    a
                } else {
                    b
                };
                assert(all[m] == most[m]);
                if most[m] != x {
                    let j = choose|j: int| 0 <= j < head.len() && places[j] == most[m];
                    assert(places[j] != places[places.len() - 1]);
                } else {
                    assert(places[places.len() - 1] < x);
                }
            }
        }
    }
}

/// Sorting keeps every place once, puts the keys in order, and keeps the order
/// of equal keys.
pub proof fn lemma_sorted_places<K: Rank>(keys: Seq<K>, descending: bool, from: int, to: int)
    requires
        from <= to,
    ensures
        covers(sorted_places(keys, descending, from, to), from, to),
        stably_sorted(keys, descending, sorted_places(keys, descending, from, to)),
    decreases to - from,
{
    if from < to {
        lemma_sorted_places(keys, descending, from, to - 1);
        lemma_inserted(
            keys,
            descending,
            sorted_places(keys, descending, from, to - 1),
            from,
            to - 1,
        );
    }
}

/// Two sorted rows of places put together; of two equal keys the one in the
/// first row stands first.
spec fn merged<K: Rank>(keys: Seq<K>, descending: bool, p: Seq<int>, q: Seq<int>) -> Seq<int>
    decreases p.len() + q.len(),
{
    if p.len() == 0 {
        q
    } else if q.len() == 0 {
        p
    } else if in_order(keys, descending, p.last(), q.last()) {
        merged(keys, descending, p, q.drop_last()).push(q.last())
    } else {
        merged(keys, descending, p.drop_last(), q).push(p.last())
    }
}

proof fn lemma_merged_inserted<K: Rank>(
    keys: Seq<K>,
    descending: bool,
    p: Seq<int>,
    q: Seq<int>,
    x: int,
)
    ensures
        merged(keys, descending, p, inserted(keys, descending, q, x)) == inserted(
            keys,
            descending,
            merged(keys, descending, p, q),
            x,
        ),
    decreases p.len() + q.len(),
{
    if p.len() > 0 {
        if q.len() == 0 || in_order(keys, descending, q.last(), x) {
            assert(q.push(x).drop_last() =~= q);
            if !in_order(keys, descending, p.last(), x) {
                lemma_merged_inserted(keys, descending, p.drop_last(), q, x);
                if q.len() > 0 {
                    lemma_in_order(keys, descending, p.last(), q.last(), x);
                    let m = merged(keys, descending, p.drop_last(), q);
                    assert(m.push(p.last()).drop_last() =~= m);
                } else {
                    assert(merged(keys, descending, p.drop_last(), q) =~= p.drop_last());
                }
            }
        } else {
            let q1 = inserted(keys, descending, q.drop_last(), x);
            assert(q1.push(q.last()).drop_last() =~= q1);
            if in_order(keys, descending, p.last(), q.last()) {
                lemma_merged_inserted(keys, descending, p, q.drop_last(), x);
                let m = merged(keys, descending, p, q.drop_last());
                assert(m.push(q.last()).drop_last() =~= m);
            } else {
                lemma_merged_inserted(keys, descending, p.drop_last(), q, x);
                lemma_in_order(keys, descending, x, q.last(), x);
                lemma_in_order(keys, descending, p.last(), x, q.last());
                let m = merged(keys, descending, p.drop_last(), q);
                assert(m.push(p.last()).drop_last() =~= m);
            }
        }
    }
}

proof fn lemma_merged<K: Rank>(keys: Seq<K>, descending: bool, from: int, mid: int, to: int)
    requires
        from <= mid <= to,
    ensures
        merged(
            keys,
            descending,
            sorted_places(keys, descending, from, mid),
            sorted_places(keys, descending, mid, to),
        ) == sorted_places(keys, descending, from, to),
    decreases to - mid,
{
    if mid < to {
        lemma_merged(keys, descending, from, mid, to - 1);
        lemma_merged_inserted(
            keys,
            descending,
            sorted_places(keys, descending, from, mid),
            sorted_places(keys, descending, mid, to - 1),
            to - 1,
        );
    }
}

/// Places as integers.
pub open spec fn as_ints(v: Seq<usize>) -> Seq<int> {
    v.map_values(|i: usize| i as int)
}

/// Whether the `i`th key may stand before the `j`th.
fn may_precede<T: Ranked>(keys: &Vec<T>, descending: bool, i: usize, j: usize) -> (r: bool) where T::V: Rank
    requires
        i < keys.len(),
        j < keys.len(),
    ensures
        r == in_order(views(keys@), descending, i as int, j as int),
{
    if descending {
        keys[j].rank(&keys[i]) != Order::Greater
    } else {
        keys[i].rank(&keys[j]) != Order::Greater
    }
}

fn merge<T: Ranked>(keys: &Vec<T>, descending: bool, p: &Vec<usize>, q: &Vec<usize>) -> (r: Vec<
    usize,
>) where T::V: Rank
    requires
        forall|i: int| 0 <= i < p@.len() ==> (#[trigger] p@[i]) < keys.len(),
        forall|i: int| 0 <= i < q@.len() ==> (#[trigger] q@[i]) < keys.len(),
    ensures
        as_ints(r@) == merged(views(keys@), descending, as_ints(p@), as_ints(q@)),
{
    let ghost ps = as_ints(p@);
    let ghost qs = as_ints(q@);
    let mut back: Vec<usize> = Vec::new();
    let mut i: usize = p.len();
    let mut j: usize = q.len();
    proof {
        assert(ps.take(i as int) =~= ps);
        assert(qs.take(j as int) =~= qs);
        assert(merged(views(keys@), descending, ps, qs) + as_ints(back@).reverse() =~= merged(
            views(keys@),
            descending,
            ps,
            qs,
        ));
    }
    while i > 0 && j > 0
        invariant
            i <= p.len(),
            j <= q.len(),
            ps == as_ints(p@),
            qs == as_ints(q@),
            forall|k: int| 0 <= k < p@.len() ==> (#[trigger] p@[k]) < keys.len(),
            forall|k: int| 0 <= k < q@.len() ==> (#[trigger] q@[k]) < keys.len(),
            merged(views(keys@), descending, ps, qs) == merged(
                views(keys@),
                descending,
                ps.take(i as int),
                qs.take(j as int),
            ) + as_ints(back@).reverse(),
        decreases i + j,
    {
        let ghost pt = ps.take(i as int);
        let ghost qt = qs.take(j as int);
        let ghost was = as_ints(back@);
        assert(pt.drop_last() =~= ps.take(i - 1));
        assert(qt.drop_last() =~= qs.take(j - 1));
        if may_precede(keys, descending, p[i - 1], q[j - 1]) {
            j = j - 1;
            back.push(q[j]);
            assert(as_ints(back@) =~= was.push(qt.last()));
            assert(was.push(qt.last()).reverse() =~= seq![qt.last()] + was.reverse());
            let ghost m = merged(views(keys@), descending, pt, qt.drop_last());
            assert(m.push(qt.last()) + was.reverse() =~= m + (seq![qt.last()] + was.reverse()));
        } else {
            i = i - 1;
            back.push(p[i]);
            assert(as_ints(back@) =~= was.push(pt.last()));
            assert(was.push(pt.last()).reverse() =~= seq![pt.last()] + was.reverse());
            let ghost m = merged(views(keys@), descending, pt.drop_last(), qt);
            assert(m.push(pt.last()) + was.reverse() =~= m + (seq![pt.last()] + was.reverse()));
        }
    }
    let ghost front = merged(views(keys@), descending, ps.take(i as int), qs.take(j as int));
    assert(front == if i == 0 {
        qs.take(j as int)
    } else {
        ps.take(i as int)
    });
    let mut out: Vec<usize> = Vec::new();
    let from_p = i > 0;
    let n: usize = if from_p {
        i
    } else {
        j
    };
    let mut k: usize = 0;
    while k < n
        invariant
            k <= n,
            from_p ==> n <= p.len() && front == as_ints(p@).take(n as int),
            !from_p ==> n <= q.len() && front == as_ints(q@).take(n as int),
            as_ints(out@) == front.take(k as int),
        decreases n - k,
    {
        let ghost was = as_ints(out@);
        if from_p {
            out.push(p[k]);
        } else {
            out.push(q[k]);
        }
        assert(as_ints(out@) =~= was.push(front[k as int]));
        assert(front.take(k + 1) =~= was.push(front[k as int]));
        k = k + 1;
    }
    assert(front.take(n as int) =~= front);
    let mut m: usize = back.len();
    let ghost tail = as_ints(back@).reverse();
    assert(front + tail.take(0) =~= front);
    while m > 0
        invariant
            m <= back.len(),
            tail == as_ints(back@).reverse(),
            as_ints(out@) == front + tail.take(back@.len() - m),
        decreases m,
    {
        m = m - 1;
        let ghost was = as_ints(out@);
        out.push(back[m]);
        let ghost d = back@.len() - m;
        assert(as_ints(out@) =~= was.push(back@[m as int] as int));
        assert(tail[d - 1] == back@[m as int] as int);
        assert(front + tail.take(d) =~= was.push(tail[d - 1]));
    }
    assert(tail.take(tail.len() as int) =~= tail);
    out
}

/// The places from `from` to `to`, sorted by their keys; equal keys keep the
/// order in which they stand.
fn sort_range<T: Ranked>(keys: &Vec<T>, descending: bool, from: usize, to: usize) -> (r: Vec<usize>) where
    T::V: Rank,

    requires
        from <= to <= keys.len(),
    ensures
        as_ints(r@) == sorted_places(views(keys@), descending, from as int, to as int),
        forall|i: int| 0 <= i < r@.len() ==> from <= (#[trigger] r@[i]) < to,
    decreases to - from,
{
    if to - from < 2 {
        let mut out: Vec<usize> = Vec::new();
        reveal_with_fuel(sorted_places, 2);
        if from < to {
            out.push(from);
        }
        assert(as_ints(out@) =~= sorted_places(views(keys@), descending, from as int, to as int));
        out
    } else {
        let mid: usize = from + (to - from) / 2;
        let p = sort_range(keys, descending, from, mid);
        let q = sort_range(keys, descending, mid, to);
        let r = merge(keys, descending, &p, &q);
        proof {
            lemma_merged(views(keys@), descending, from as int, mid as int, to as int);
            lemma_sorted_places(views(keys@), descending, from as int, to as int);
            assert forall|i: int| 0 <= i < r@.len() implies from <= (#[trigger] r@[i]) < to by {
                assert(as_ints(r@)[i] == r@[i] as int);
            }
        }
        r
    }
}

/// The places of the keys, sorted; equal keys keep the order in which they
/// stand.
pub fn sort_places<T: Ranked>(keys: &Vec<T>, descending: bool) -> (r: Vec<usize>) where T::V: Rank
    ensures
        as_ints(r@) == sorted_places(views(keys@), descending, 0, keys.len() as int),
        covers(as_ints(r@), 0, keys.len() as int),
        stably_sorted(views(keys@), descending, as_ints(r@)),
{
    proof {
        lemma_sorted_places(views(keys@), descending, 0, keys.len() as int);
    }
    sort_range(keys, descending, 0, keys.len())
}

/// Places that are all different and below their number reach every place.
pub proof fn lemma_covers_reaches(ps: Seq<int>, n: int, k: int)
    requires
        covers(ps, 0, n),
        0 <= k < n,
    ensures
        ps.contains(k),
{
    let all = vstd::set_lib::set_int_range(0, n);
    vstd::set_lib::lemma_int_range(0, n);
    ps.unique_seq_to_set();
    assert(ps.to_set().subset_of(all)) by {
        assert forall|x: int| ps.to_set().contains(x) implies all.contains(x) by {
            let i = choose|i: int| 0 <= i < ps.len() && ps[i] == x;
            assert(0 <= ps[i] < n);
        }
    }
    vstd::set_lib::lemma_subset_equality(ps.to_set(), all);
    assert(all.contains(k));
}

} // verus!
