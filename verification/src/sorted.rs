//! Indexes from field values to hashes, in the order of the values.

use vstd::prelude::*;
use crate::json::JsonValue;
use crate::keyed::Keyed;
use crate::ordered::{
    key_of, key_order, lemma_key_order, lemma_key_order_transitive, Key, OrderedValue,
};
use crate::text::{same_text, Order};

verus! {

/// The hashes under each value, by ascending value.
pub type BucketsV = Seq<(Key, Seq<Seq<char>>)>;

/// Whether the values ascend.
pub open spec fn ascending(bs: BucketsV) -> bool {
    forall|i: int, j: int|
        0 <= i < j < bs.len() ==> key_order((#[trigger] bs[i]).0, (#[trigger] bs[j]).0)
            == Order::Less
}

/// How many values are below a value.
pub open spec fn below(bs: BucketsV, k: Key) -> int
    decreases bs.len(),
{
    if bs.len() == 0 {
        0
    } else if key_order(bs.last().0, k) == Order::Less {
        bs.len() as int
    } else {
        below(bs.drop_last(), k)
    }
}

/// Whether a value stands at `p`.
pub open spec fn stands_at(bs: BucketsV, k: Key, p: int) -> bool {
    p < bs.len() && key_order(bs[p].0, k) == Order::Equal
}

/// The hashes with one more under a value.
pub open spec fn bucket_add(bs: BucketsV, k: Key, hash: Seq<char>) -> BucketsV {
    let p = below(bs, k);
    if stands_at(bs, k, p) {
        bs.update(p, (bs[p].0, bs[p].1.push(hash)))
    } else {
        bs.insert(p, (k, seq![hash]))
    }
}

/// The hashes without one of them.
pub open spec fn without_hash(hs: Seq<Seq<char>>, hash: Seq<char>) -> Seq<Seq<char>>
    decreases hs.len(),
{
    if hs.len() == 0 {
        Seq::empty()
    } else if hs.last() == hash {
        without_hash(hs.drop_last(), hash)
    } else {
        without_hash(hs.drop_last(), hash).push(hs.last())
    }
}

/// The hashes with one taken from under a value; a value with none left goes.
pub open spec fn bucket_remove(bs: BucketsV, k: Key, hash: Seq<char>) -> BucketsV {
    let p = below(bs, k);
    if stands_at(bs, k, p) {
        let rest = without_hash(bs[p].1, hash);
        if rest.len() == 0 {
            bs.remove(p)
        } else {
            bs.update(p, (bs[p].0, rest))
        }
    } else {
        bs
    }
}

/// All hashes by ascending value.
pub open spec fn flat_asc(bs: BucketsV) -> Seq<Seq<char>>
    decreases bs.len(),
{
    if bs.len() == 0 {
        Seq::empty()
    } else {
        flat_asc(bs.drop_last()) + bs.last().1
    }
}

/// All hashes by descending value; under one value in the order in which they
/// came.
pub open spec fn flat_desc(bs: BucketsV) -> Seq<Seq<char>>
    decreases bs.len(),
{
    if bs.len() == 0 {
        Seq::empty()
    } else {
        bs.last().1 + flat_desc(bs.drop_last())
    }
}

/// The first items, at most `k`.
pub open spec fn first<T>(s: Seq<T>, k: int) -> Seq<T> {
    if s.len() <= k {
        s
    } else {
        s.take(k)
    }
}

/// The number of lower values splits the values at a value.
pub proof fn lemma_below(bs: BucketsV, k: Key)
    requires
        ascending(bs),
    ensures
        0 <= below(bs, k) <= bs.len(),
        forall|i: int|
            0 <= i < below(bs, k) ==> key_order((#[trigger] bs[i]).0, k) == Order::Less,
        forall|i: int|
            below(bs, k) <= i < bs.len() ==> key_order((#[trigger] bs[i]).0, k) != Order::Less,
    decreases bs.len(),
{
    if bs.len() > 0 {
        let n = bs.len() - 1;
        if key_order(bs.last().0, k) == Order::Less {
            assert forall|i: int| 0 <= i < bs.len() implies key_order((#[trigger] bs[i]).0, k)
                == Order::Less by {
                if i < n {
                    assert(key_order(bs[i].0, bs[n].0) == Order::Less);
                    lemma_key_order_transitive(bs[i].0, bs[n].0, k);
                }
            }
        } else {
            let head = bs.drop_last();
            assert forall|i: int, j: int| 0 <= i < j < head.len() implies key_order(
                (#[trigger] head[i]).0,
                (#[trigger] head[j]).0,
            ) == Order::Less by {
                assert(head[i] == bs[i] && head[j] == bs[j]);
            }
            lemma_below(head, k);
            assert forall|i: int| 0 <= i < below(bs, k) implies key_order((#[trigger] bs[i]).0, k)
                == Order::Less by {
                assert(head[i] == bs[i]);
            }
            assert forall|i: int| below(bs, k) <= i < bs.len() implies key_order(
                (#[trigger] bs[i]).0,
                k,
            ) != Order::Less by {
                if i < n {
                    assert(head[i] == bs[i]);
                }
            }
        }
    }
}

proof fn lemma_below_is(bs: BucketsV, k: Key, p: int)
    requires
        ascending(bs),
        0 <= p <= bs.len(),
        forall|i: int| 0 <= i < p ==> key_order((#[trigger] bs[i]).0, k) == Order::Less,
        forall|i: int| p <= i < bs.len() ==> key_order((#[trigger] bs[i]).0, k) != Order::Less,
    ensures
        below(bs, k) == p,
{
    lemma_below(bs, k);
    let b = below(bs, k);
    if b < p {
        assert(key_order(bs[b].0, k) != Order::Less);
    } else if p < b {
        assert(key_order(bs[p].0, k) == Order::Less);
    }
}

/// Adding a hash keeps the values ascending.
pub proof fn lemma_bucket_add(bs: BucketsV, k: Key, hash: Seq<char>)
    requires
        ascending(bs),
    ensures
        ascending(bucket_add(bs, k, hash)),
{
    lemma_below(bs, k);
    let p = below(bs, k);
    let w = bucket_add(bs, k, hash);
    assert forall|i: int, j: int| 0 <= i < j < w.len() implies key_order(
        (#[trigger] w[i]).0,
        (#[trigger] w[j]).0,
    ) == Order::Less by {
        if stands_at(bs, k, p) {
            assert(key_order(bs[i].0, bs[j].0) == Order::Less);
        } else {
            if j < p {
                assert(key_order(bs[i].0, bs[j].0) == Order::Less);
            } else if j == p {
                assert(key_order(bs[i].0, k) == Order::Less);
            } else if i == p {
                let x = bs[j - 1].0;
                assert(key_order(x, k) != Order::Less);
                lemma_key_order(x, k);
                if j - 1 > p {
                    let y = bs[p].0;
                    assert(key_order(y, x) == Order::Less);
                    assert(key_order(y, k) == Order::Greater);
                    lemma_key_order(y, k);
                    lemma_key_order_transitive(k, y, x);
                }
            } else if i < p {
                assert(key_order(bs[i].0, bs[j - 1].0) == Order::Less);
            } else {
                assert(key_order(bs[i - 1].0, bs[j - 1].0) == Order::Less);
            }
        }
    }
}

/// Taking a hash out keeps the values ascending.
pub proof fn lemma_bucket_remove(bs: BucketsV, k: Key, hash: Seq<char>)
    requires
        ascending(bs),
    ensures
        ascending(bucket_remove(bs, k, hash)),
{
    lemma_below(bs, k);
    let p = below(bs, k);
    let w = bucket_remove(bs, k, hash);
    assert forall|i: int, j: int| 0 <= i < j < w.len() implies key_order(
        (#[trigger] w[i]).0,
        (#[trigger] w[j]).0,
    ) == Order::Less by {
        if stands_at(bs, k, p) && without_hash(bs[p].1, hash).len() == 0 {
            let a = if i < p {
                i
            } else {
                i + 1
            };
            let b = if j < p {
                j
            } else {
                j + 1
            };
            assert(key_order(bs[a].0, bs[b].0) == Order::Less);
        } else {
            assert(key_order(bs[i].0, bs[j].0) == Order::Less);
        }
    }
}

/// The hashes under one value.
struct Bucket {
    key: OrderedValue,
    hashes: Vec<String>,
}

spec fn strings(v: Seq<String>) -> Seq<Seq<char>> {
    v.map_values(|s: String| s@)
}

spec fn buckets_view(bs: Seq<Bucket>) -> BucketsV {
    bs.map_values(|b: Bucket| (b.key@, strings(b.hashes@)))
}

/// Sorted indexes for fields of collections.
pub struct SortedIndexes {
    inner: Keyed<Keyed<Vec<Bucket>>>,
}

impl View for SortedIndexes {
    type V = Map<(Seq<char>, Seq<char>), BucketsV>;

    /// The index of each field that has one.
    closed spec fn view(&self) -> Map<(Seq<char>, Seq<char>), BucketsV> {
        Map::new(
            |p: (Seq<char>, Seq<char>)|
                self.inner@.contains_key(p.0) && self.inner@[p.0]@.contains_key(p.1),
            |p: (Seq<char>, Seq<char>)| buckets_view(self.inner@[p.0]@[p.1]@),
        )
    }
}

/// The place of a value among ascending values.
fn find(bs: &Vec<Bucket>, key: &OrderedValue) -> (r: usize)
    requires
        ascending(buckets_view(bs@)),
    ensures
        r == below(buckets_view(bs@), key@),
        r <= bs.len(),
{
    let ghost v = buckets_view(bs@);
    let mut lo: usize = 0;
    let mut hi: usize = bs.len();
    while lo < hi
        invariant
            lo <= hi <= bs.len(),
            v == buckets_view(bs@),
            ascending(v),
            forall|i: int| 0 <= i < lo ==> key_order((#[trigger] v[i]).0, key@) == Order::Less,
            forall|i: int| hi <= i < v.len() ==> key_order((#[trigger] v[i]).0, key@) != Order::Less,
        decreases hi - lo,
    {
        let mid: usize = lo + (hi - lo) / 2;
        assert(v[mid as int].0 == bs@[mid as int].key@);
        if bs[mid].key.order(key) == Order::Less {
            proof {
                assert forall|i: int| 0 <= i < mid + 1 implies key_order((#[trigger] v[i]).0, key@)
                    == Order::Less by {
                    if i < mid {
                        assert(key_order(v[i].0, v[mid as int].0) == Order::Less);
                        lemma_key_order_transitive(v[i].0, v[mid as int].0, key@);
                    }
                }
            }
            lo = mid + 1;
        } else {
            proof {
                assert forall|i: int| mid <= i < v.len() implies key_order(
                    (#[trigger] v[i]).0,
                    key@,
                ) != Order::Less by {
                    if i > mid && key_order(v[i].0, key@) == Order::Less {
                        assert(key_order(v[mid as int].0, v[i].0) == Order::Less);
                        lemma_key_order_transitive(v[mid as int].0, v[i].0, key@);
                    }
                }
            }
            hi = mid;
        }
    }
    proof {
        lemma_below_is(v, key@, lo as int);
    }
    lo
}

fn add_to(bs: &mut Vec<Bucket>, key: OrderedValue, hash: &str)
    requires
        ascending(buckets_view(old(bs)@)),
    ensures
        buckets_view(final(bs)@) == bucket_add(buckets_view(old(bs)@), key@, hash@),
{
    let ghost v = buckets_view(bs@);
    let p = find(bs, &key);
    if p < bs.len() {
        assert(v[p as int].0 == bs@[p as int].key@);
        if bs[p].key.order(&key) == Order::Equal {
            let ghost was = strings(bs@[p as int].hashes@);
            bs[p].hashes.push(hash.to_owned());
            assert(strings(bs@[p as int].hashes@) =~= was.push(hash@));
            assert(buckets_view(bs@) =~= bucket_add(v, key@, hash@));
            return;
        }
    }
    let mut hashes: Vec<String> = Vec::new();
    hashes.push(hash.to_owned());
    assert(strings(hashes@) =~= seq![hash@]);
    bs.insert(p, Bucket { key, hashes });
    assert(buckets_view(bs@) =~= bucket_add(v, key@, hash@));
}

fn take_from(bs: &mut Vec<Bucket>, key: &OrderedValue, hash: &str)
    requires
        ascending(buckets_view(old(bs)@)),
    ensures
        buckets_view(final(bs)@) == bucket_remove(buckets_view(old(bs)@), key@, hash@),
{
    let ghost v = buckets_view(bs@);
    let p = find(bs, key);
    if p < bs.len() {
        assert(v[p as int].0 == bs@[p as int].key@);
        if bs[p].key.order(key) == Order::Equal {
            let ghost hs = strings(bs@[p as int].hashes@);
            let mut rest: Vec<String> = Vec::new();
            let mut i: usize = 0;
            assert(strings(rest@) =~= without_hash(hs.take(0), hash@));
            while i < bs[p].hashes.len()
                invariant
                    *bs == *old(bs),
                    p < bs.len(),
                    hs == strings(bs@[p as int].hashes@),
                    i <= hs.len(),
                    strings(rest@) == without_hash(hs.take(i as int), hash@),
                decreases hs.len() - i,
            {
                assert(hs.take(i + 1).drop_last() =~= hs.take(i as int));
                assert(hs.take(i + 1).last() == bs@[p as int].hashes@[i as int]@);
                if !same_text(bs[p].hashes[i].as_str(), hash) {
                    let ghost was = strings(rest@);
                    rest.push(bs[p].hashes[i].clone());
                    assert(strings(rest@) =~= was.push(hs[i as int]));
                }
                i = i + 1;
            }
            assert(hs.take(i as int) =~= hs);
            if rest.len() == 0 {
                bs.remove(p);
                assert(buckets_view(bs@) =~= v.remove(p as int));
            } else {
                bs[p].hashes = rest;
                assert(buckets_view(bs@) =~= bucket_remove(v, key@, hash@));
            }
        }
    }
    assert(buckets_view(bs@) =~= bucket_remove(v, key@, hash@));
}

/// Puts hashes behind others, up to `k` in all.
fn extend_to(out: &mut Vec<String>, more: &Vec<String>, k: usize)
    requires
        old(out)@.len() <= k,
    ensures
        strings(final(out)@) == first(strings(old(out)@) + strings(more@), k as int),
{
    let ghost was = strings(out@);
    let mut i: usize = 0;
    assert(was + strings(more@).take(0) =~= was);
    while i < more.len() && out.len() < k
        invariant
            i <= more.len(),
            out.len() <= k,
            strings(out@) == was + strings(more@).take(i as int),
        decreases more.len() - i,
    {
        let ghost before = strings(out@);
        out.push(more[i].clone());
        assert(strings(out@) =~= before.push(strings(more@)[i as int]));
        assert(was + strings(more@).take(i + 1) =~= before.push(strings(more@)[i as int]));
        i = i + 1;
    }
    proof {
        let all = was + strings(more@);
        if i == more.len() {
            assert(strings(more@).take(i as int) =~= strings(more@));
        } else {
            assert(strings(out@) =~= all.take(k as int));
        }
    }
}

impl SortedIndexes {
    pub closed spec fn wf(&self) -> bool {
        &&& self.inner.wf()
        &&& forall|c: Seq<char>| #[trigger]
            self.inner@.contains_key(c) ==> self.inner@[c].wf() && self.inner@[c].keys().len() > 0
        &&& forall|c: Seq<char>, f: Seq<char>|
            self.inner@.contains_key(c) && #[trigger] self.inner@[c]@.contains_key(f) ==> ascending(
                buckets_view(self.inner@[c]@[f]@),
            )
    }

    /// The values of each index ascend.
    pub proof fn lemma_wf(&self)
        requires
            self.wf(),
        ensures
            forall|p: (Seq<char>, Seq<char>)| #[trigger]
                self@.contains_key(p) ==> ascending(self@[p]),
    {
    }

    /// No index.
    pub fn new() -> (r: SortedIndexes)
        ensures
            r.wf(),
            r@ == Map::<(Seq<char>, Seq<char>), BucketsV>::empty(),
    {
        let r = SortedIndexes { inner: Keyed::new() };
        assert(r@ =~= Map::<(Seq<char>, Seq<char>), BucketsV>::empty());
        r
    }

    /// Whether there is an index for a field.
    pub fn has(&self, coll: &str, field: &str) -> (r: bool)
        requires
            self.wf(),
        ensures
            r == self@.contains_key((coll@, field@)),
    {
        match self.inner.get(coll) {
            Some(fields) => fields.contains(field),
            None => false,
        }
    }

    /// Whether there is no index.
    pub fn is_empty(&self) -> (r: bool)
        requires
            self.wf(),
        ensures
            r == (self@ == Map::<(Seq<char>, Seq<char>), BucketsV>::empty()),
    {
        proof {
            self.inner.lemma_entries();
            if self.inner.keys().len() > 0 {
                let c = self.inner.keys()[0];
                assert(self.inner@.contains_key(c));
                self.inner@[c].lemma_entries();
                let f = self.inner@[c].keys()[0];
                assert(self.inner@[c]@.contains_key(f));
                assert(self@.contains_key((c, f)));
            } else {
                assert forall|p: (Seq<char>, Seq<char>)| !self@.contains_key(p) by {
                    if self.inner@.contains_key(p.0) {
                        assert(self.inner.keys().contains(p.0));
                    }
                }
                assert(self@ =~= Map::<(Seq<char>, Seq<char>), BucketsV>::empty());
            }
        }
        self.inner.len() == 0
    }

    /// Makes an index for a field. One that is there stays as it is.
    pub fn ensure(&mut self, coll: &str, field: &str)
        requires
            old(self).wf(),
        ensures
            final(self).wf(),
            final(self)@ == if old(self)@.contains_key((coll@, field@)) {
                old(self)@
            } else {
                old(self)@.insert((coll@, field@), Seq::empty())
            },
    {
        if self.has(coll, field) {
            return;
        }
        let none: Vec<Bucket> = Vec::new();
        assert(buckets_view(none@) =~= Seq::empty());
        match self.inner.get_mut(coll) {
            Some(fields) => {
                proof {
                    fields.lemma_entries();
                }
                fields.insert(field.to_owned(), none);
            },
            None => {
                let mut fields: Keyed<Vec<Bucket>> = Keyed::new();
                fields.insert(field.to_owned(), none);
                self.inner.insert(coll.to_owned(), fields);
            },
        }
        assert(self@ =~= old(self)@.insert((coll@, field@), Seq::empty()));
    }

    /// Adds a hash under a value, where the field has an index.
    pub fn insert(&mut self, coll: &str, field: &str, value: &JsonValue, hash: &str)
        requires
            old(self).wf(),
        ensures
            final(self).wf(),
            final(self)@ == if old(self)@.contains_key((coll@, field@)) {
                old(self)@.insert(
                    (coll@, field@),
                    bucket_add(old(self)@[(coll@, field@)], key_of(value@), hash@),
                )
            } else {
                old(self)@
            },
    {
        let ghost p = (coll@, field@);
        let ghost v = self@;
        if let Some(fields) = self.inner.get_mut(coll) {
            if let Some(bs) = fields.get_mut(field) {
                let key = OrderedValue::of(value);
                proof {
                    lemma_bucket_add(buckets_view(bs@), key@, hash@);
                }
                add_to(bs, key, hash);
            }
        }
        assert(self@ =~= if v.contains_key(p) {
            v.insert(p, bucket_add(v[p], key_of(value@), hash@))
        } else {
            v
        });
    }

    /// Takes a hash from under a value, where the field has an index.
    pub fn remove(&mut self, coll: &str, field: &str, value: &JsonValue, hash: &str)
        requires
            old(self).wf(),
        ensures
            final(self).wf(),
            final(self)@ == if old(self)@.contains_key((coll@, field@)) {
                old(self)@.insert(
                    (coll@, field@),
                    bucket_remove(old(self)@[(coll@, field@)], key_of(value@), hash@),
                )
            } else {
                old(self)@
            },
    {
        let ghost p = (coll@, field@);
        let ghost v = self@;
        if let Some(fields) = self.inner.get_mut(coll) {
            if let Some(bs) = fields.get_mut(field) {
                let key = OrderedValue::of(value);
                proof {
                    lemma_bucket_remove(buckets_view(bs@), key@, hash@);
                }
                take_from(bs, &key, hash);
            }
        }
        assert(self@ =~= if v.contains_key(p) {
            v.insert(p, bucket_remove(v[p], key_of(value@), hash@))
        } else {
            v
        });
    }

    /// The first hashes by ascending value, at most `k`.
    pub fn top_k_asc(&self, coll: &str, field: &str, k: usize) -> (r: Vec<String>)
        requires
            self.wf(),
        ensures
            r@.map_values(|s: String| s@) == if self@.contains_key((coll@, field@)) {
                first(flat_asc(self@[(coll@, field@)]), k as int)
            } else {
                Seq::empty()
            },
    {
        let mut out: Vec<String> = Vec::new();
        assert(strings(out@) =~= Seq::<Seq<char>>::empty());
        if let Some(fields) = self.inner.get(coll) {
            if let Some(bs) = fields.get(field) {
                let ghost v = buckets_view(bs@);
                let mut i: usize = 0;
                while i < bs.len()
                    invariant
                        i <= bs.len(),
                        v == buckets_view(bs@),
                        out@.len() <= k,
                        strings(out@) == first(flat_asc(v.take(i as int)), k as int),
                    decreases bs.len() - i,
                {
                    let ghost was = strings(out@);
                    extend_to(&mut out, &bs[i].hashes, k);
                    proof {
                        assert(v.take(i + 1).drop_last() =~= v.take(i as int));
                        assert(v.take(i + 1).last() == v[i as int]);
                        lemma_first_add(
                            flat_asc(v.take(i as int)),
                            strings(bs@[i as int].hashes@),
                            k as int,
                        );
                        assert(strings(out@).len() == out@.len());
                    }
                    i = i + 1;
                }
                assert(v.take(i as int) =~= v);
            }
        }
        assert(strings(out@) == out@.map_values(|s: String| s@));
        out
    }

    /// The first hashes by descending value, at most `k`.
    pub fn top_k_desc(&self, coll: &str, field: &str, k: usize) -> (r: Vec<String>)
        requires
            self.wf(),
        ensures
            r@.map_values(|s: String| s@) == if self@.contains_key((coll@, field@)) {
                first(flat_desc(self@[(coll@, field@)]), k as int)
            } else {
                Seq::empty()
            },
    {
        let mut out: Vec<String> = Vec::new();
        assert(strings(out@) =~= Seq::<Seq<char>>::empty());
        if let Some(fields) = self.inner.get(coll) {
            if let Some(bs) = fields.get(field) {
                let ghost v = buckets_view(bs@);
                let mut i: usize = bs.len();
                assert(v.skip(i as int) =~= Seq::empty());
                while i > 0
                    invariant
                        i <= bs.len(),
                        v == buckets_view(bs@),
                        out@.len() <= k,
                        strings(out@) == first(flat_desc(v.skip(i as int)), k as int),
                    decreases i,
                {
                    i = i - 1;
                    let ghost was = strings(out@);
                    extend_to(&mut out, &bs[i].hashes, k);
                    proof {
                        lemma_flat_desc_front(v.skip(i as int));
                        assert(v.skip(i as int).drop_first() =~= v.skip(i + 1));
                        assert(v.skip(i as int)[0] == v[i as int]);
                        lemma_first_add(
                            flat_desc(v.skip(i + 1)),
                            strings(bs@[i as int].hashes@),
                            k as int,
                        );
                        assert(strings(out@).len() == out@.len());
                    }
                }
                assert(v.skip(0) =~= v);
            }
        }
        assert(strings(out@) == out@.map_values(|s: String| s@));
        out
    }
}

proof fn lemma_first_add<T>(a: Seq<T>, b: Seq<T>, k: int)
    requires
        k >= 0,
    ensures
        first(first(a, k) + b, k) == first(a + b, k),
{
    assert(first(first(a, k) + b, k) =~= first(a + b, k));
}

proof fn lemma_flat_desc_front(bs: BucketsV)
    requires
        bs.len() > 0,
    ensures
        flat_desc(bs) == flat_desc(bs.drop_first()) + bs[0].1,
    decreases bs.len(),
{
    if bs.len() == 1 {
        assert(bs.drop_last() =~= Seq::empty());
        assert(bs.drop_first() =~= Seq::empty());
        assert(flat_desc(bs) =~= flat_desc(bs.drop_first()) + bs[0].1);
    } else {
        lemma_flat_desc_front(bs.drop_last());
        assert(bs.drop_last().drop_first() =~= bs.drop_first().drop_last());
        assert(flat_desc(bs) =~= flat_desc(bs.drop_first()) + bs[0].1);
    }
}

} // verus!
