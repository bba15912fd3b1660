//! What sorted indexes promise: they hold the current versions, and no others,
//! through every write.

use vstd::prelude::*;
use crate::db::{
    backfilled, current, doc_fields, empty_db, fields_added, fields_taken, ordered_by, settled,
    sort_key, superseded, tombstone, unsorted, version, versions, DbV, SortedV,
};
use crate::guarantees::lemma_history_kept;
use crate::history::{delete_step, lemma_delete_fresh, lemma_put_fresh, orderly, put_step};
use crate::index::{hash_of, id_wf, ids_in, is_hash};
use crate::json::{field_of, json_get, keys_ascend, Json, Num};
use crate::node::NodeV;
use crate::ordered::{key_of, key_order, lemma_key_order, lemma_key_order_transitive, Key};
use crate::query_laws::{in_field_order, may_precede};
use crate::sorted::{
    ascending, below, bucket_add, bucket_remove, first, flat_asc, flat_desc, lemma_below,
    lemma_bucket_add, lemma_bucket_remove, stands_at, without_hash, BucketsV,
};
use crate::store::{read_result, StoreError};
use crate::text::{lemma_text_order, Order};

verus! {

/// Whether two values are of the same rank.
pub open spec fn same_rank(a: Key, b: Key) -> bool {
    key_order(a, b) == Order::Equal
}

/// Whether a hash is under a value.
pub open spec fn under(bs: BucketsV, k: Key, hash: Seq<char>) -> bool {
    exists|p: int| 0 <= p < bs.len() && same_rank(#[trigger] bs[p].0, k) && bs[p].1.contains(hash)
}

/// Whether one of the fields has a name and a value.
pub open spec fn valued(fields: Seq<(Seq<char>, Json)>, name: Seq<char>, k: Key) -> bool {
    exists|i: int|
        0 <= i < fields.len() && (#[trigger] fields[i]).0 == name && same_rank(
            key_of(fields[i].1),
            k,
        )
}

/// Whether a hash is that of the current version of a document, which has a
/// value in a field.
pub open spec fn entry(
    v: DbV,
    coll: Seq<char>,
    field: Seq<char>,
    k: Key,
    hash: Seq<char>,
    id: Seq<char>,
) -> bool {
    &&& hash_of(v.ids, coll, id) == Some(hash)
    &&& version(v.objects, hash) matches Some(n) && valued(doc_fields(n.data), field, k)
}

/// Whether a hash belongs under a value of an index.
pub open spec fn belongs(
    v: DbV,
    coll: Seq<char>,
    field: Seq<char>,
    k: Key,
    hash: Seq<char>,
) -> bool {
    exists|id: Seq<char>| #[trigger] entry(v, coll, field, k, hash, id)
}

/// Whether an index holds just what belongs in it.
pub open spec fn index_exact(v: DbV, coll: Seq<char>, field: Seq<char>) -> bool {
    let bs = v.sorted[(coll, field)];
    &&& ascending(bs)
    &&& forall|k: Key, hash: Seq<char>| #[trigger]
        under(bs, k, hash) <==> belongs(v, coll, field, k, hash)
}

/// Whether the current version of each document is that of the document, with
/// each field once.
pub open spec fn documents_true(v: DbV) -> bool {
    forall|c: Seq<char>, i: Seq<char>|
        (#[trigger] current(v, c, i)) matches Some(n) ==> n.coll == c && n.id == i && keys_ascend(
            doc_fields(n.data),
        )
}

/// Whether all sorted indexes hold just what belongs in them.
pub open spec fn indexes_exact(v: DbV) -> bool {
    &&& documents_true(v)
    &&& forall|c: Seq<char>, f: Seq<char>| #[trigger]
        v.sorted.contains_key((c, f)) ==> index_exact(v, c, f)
}

proof fn lemma_same_rank(a: Key, b: Key, c: Key)
    ensures
        same_rank(a, a),
        same_rank(a, b) ==> same_rank(b, a),
        same_rank(a, b) && same_rank(b, c) ==> same_rank(a, c),
{
    lemma_key_order(a, b);
    if same_rank(a, b) && same_rank(b, c) {
        lemma_key_order_transitive(a, b, c);
    }
}

proof fn lemma_without_hash(hs: Seq<Seq<char>>, hash: Seq<char>, x: Seq<char>)
    ensures
        without_hash(hs, hash).contains(x) <==> hs.contains(x) && x != hash,
    decreases hs.len(),
{
    if hs.len() > 0 {
        let head = hs.drop_last();
        let before = without_hash(head, hash);
        let all = without_hash(hs, hash);
        lemma_without_hash(head, hash, x);
        if hs.contains(x) && hs.last() != x {
            let i = choose|i: int| 0 <= i < hs.len() && hs[i] == x;
            assert(head[i] == x);
        }
        if head.contains(x) {
            let i = choose|i: int| 0 <= i < head.len() && head[i] == x;
            assert(hs[i] == x);
        }
        if before.contains(x) {
            let i = choose|i: int| 0 <= i < before.len() && before[i] == x;
            assert(all[i] == x);
        }
        assert(hs[hs.len() - 1] == hs.last());
        if hs.last() != hash {
            assert(all[all.len() - 1] == hs.last());
            if all.contains(x) && !before.contains(x) {
                let i = choose|i: int| 0 <= i < all.len() && all[i] == x;
                if i < before.len() {
                    assert(before[i] == x);
                }
            }
        }
    }
}

/// Adding a hash under a value puts it there, and leaves all else.
#[verifier::rlimit(40)]
pub proof fn lemma_under_added(bs: BucketsV, k: Key, hash: Seq<char>, x: Key, y: Seq<char>)
    requires
        ascending(bs),
    ensures
        under(bucket_add(bs, k, hash), x, y) <==> under(bs, x, y) || same_rank(k, x) && y == hash,
{
    lemma_below(bs, k);
    let p = below(bs, k);
    let w = bucket_add(bs, k, hash);
    if stands_at(bs, k, p) {
        let old = bs[p].1;
        let new = old.push(hash);
        lemma_same_rank(bs[p].0, k, x);
        lemma_same_rank(k, bs[p].0, x);
        assert(new[old.len() as int] == hash);
        if under(bs, x, y) {
            let q = choose|q: int|
                0 <= q < bs.len() && same_rank(#[trigger] bs[q].0, x) && bs[q].1.contains(y);
            assert(same_rank(w[q].0, x));
            if q == p {
                let i = choose|i: int| 0 <= i < old.len() && old[i] == y;
                assert(new[i] == y);
            }
            assert(w[q].1.contains(y));
        }
        if same_rank(k, x) && y == hash {
            assert(same_rank(w[p].0, x));
            assert(w[p].1.contains(y));
        }
        if under(w, x, y) {
            let q = choose|q: int|
                0 <= q < w.len() && same_rank(#[trigger] w[q].0, x) && w[q].1.contains(y);
            assert(same_rank(bs[q].0, x));
            if q == p {
                let i = choose|i: int| 0 <= i < new.len() && new[i] == y;
                if i < old.len() {
                    assert(old[i] == y);
                }
            }
        }
    } else {
        let one = seq![hash];
        assert(one[0] == hash);
        if under(bs, x, y) {
            let q = choose|q: int|
                0 <= q < bs.len() && same_rank(#[trigger] bs[q].0, x) && bs[q].1.contains(y);
            let r = if q < p {
                q
            } else {
                q + 1
            };
            assert(w[r] == bs[q]);
            assert(same_rank(w[r].0, x));
        }
        if same_rank(k, x) && y == hash {
            assert(w[p] == (k, one));
            assert(same_rank(w[p].0, x));
            assert(w[p].1.contains(y));
        }
        if under(w, x, y) {
            let q = choose|q: int|
                0 <= q < w.len() && same_rank(#[trigger] w[q].0, x) && w[q].1.contains(y);
            if q < p {
                assert(w[q] == bs[q]);
                assert(same_rank(bs[q].0, x));
            } else if q > p {
                assert(w[q] == bs[q - 1]);
                assert(same_rank(bs[q - 1].0, x));
            } else {
                assert(w[q] == (k, one));
            }
        }
    }
}

/// Taking a hash from under a value takes it from there, and leaves all else.
pub proof fn lemma_under_removed(bs: BucketsV, k: Key, hash: Seq<char>, x: Key, y: Seq<char>)
    requires
        ascending(bs),
    ensures
        under(bucket_remove(bs, k, hash), x, y) <==> under(bs, x, y) && !(same_rank(k, x) && y
            == hash),
{
    lemma_below(bs, k);
    let p = below(bs, k);
    if stands_at(bs, k, p) {
        if under(bs, x, y) && !(same_rank(k, x) && y == hash) {
            lemma_still_under(bs, k, hash, x, y, p);
        }
        if under(bucket_remove(bs, k, hash), x, y) {
            lemma_was_under(bs, k, hash, x, y, p);
        }
    } else if under(bs, x, y) && same_rank(k, x) {
        let q = choose|q: int|
            0 <= q < bs.len() && same_rank(#[trigger] bs[q].0, x) && bs[q].1.contains(y);
        lemma_same_rank(k, x, bs[q].0);
        lemma_same_rank(bs[q].0, x, k);
        lemma_same_rank(x, k, bs[q].0);
        lemma_not_there(bs, k, p, q);
    }
}

proof fn lemma_still_under(bs: BucketsV, k: Key, hash: Seq<char>, x: Key, y: Seq<char>, p: int)
    requires
        p == below(bs, k),
        0 <= p,
        stands_at(bs, k, p),
        under(bs, x, y) && !(same_rank(k, x) && y == hash),
    ensures
        under(bucket_remove(bs, k, hash), x, y),
{
    let w = bucket_remove(bs, k, hash);
    let rest = without_hash(bs[p].1, hash);
    lemma_without_hash(bs[p].1, hash, y);
    lemma_same_rank(k, bs[p].0, x);
    lemma_same_rank(bs[p].0, k, x);
    let q = choose|q: int|
        0 <= q < bs.len() && same_rank(#[trigger] bs[q].0, x) && bs[q].1.contains(y);
    if rest.len() == 0 {
        assert(q != p);
        let r = if q < p {
            q
        } else {
            q - 1
        };
        assert(w[r] == bs[q]);
        assert(same_rank(w[r].0, x));
    } else {
        assert(same_rank(w[q].0, x));
        assert(w[q].1.contains(y));
    }
}

proof fn lemma_was_under(bs: BucketsV, k: Key, hash: Seq<char>, x: Key, y: Seq<char>, p: int)
    requires
        ascending(bs),
        p == below(bs, k),
        0 <= p,
        stands_at(bs, k, p),
        under(bucket_remove(bs, k, hash), x, y),
    ensures
        under(bs, x, y) && !(same_rank(k, x) && y == hash),
{
    let w = bucket_remove(bs, k, hash);
    let rest = without_hash(bs[p].1, hash);
    lemma_without_hash(bs[p].1, hash, y);
    let q = choose|q: int|
        0 <= q < w.len() && same_rank(#[trigger] w[q].0, x) && w[q].1.contains(y);
    let r = if rest.len() == 0 && q >= p {
        q + 1
    } else {
        q
    };
    assert(same_rank(bs[r].0, x));
    assert(bs[r].1.contains(y));
    if same_rank(k, x) && y == hash {
        lemma_one_bucket(bs, p, r, k, x);
    }
}

proof fn lemma_one_bucket(bs: BucketsV, p: int, r: int, k: Key, x: Key)
    requires
        ascending(bs),
        0 <= p < bs.len(),
        0 <= r < bs.len(),
        same_rank(bs[p].0, k),
        same_rank(k, x),
        same_rank(bs[r].0, x),
    ensures
        p == r,
{
    lemma_same_rank(bs[p].0, k, x);
    lemma_same_rank(bs[r].0, x, bs[p].0);
    lemma_same_rank(x, bs[p].0, bs[p].0);
    lemma_same_rank(bs[p].0, x, x);
    lemma_key_order(bs[p].0, bs[r].0);
    if p < r {
        assert(key_order(bs[p].0, bs[r].0) == Order::Less);
    }
    if r < p {
        assert(key_order(bs[r].0, bs[p].0) == Order::Less);
    }
}

proof fn lemma_not_there(bs: BucketsV, k: Key, p: int, q: int)
    requires
        ascending(bs),
        p == below(bs, k),
        !stands_at(bs, k, p),
        0 <= q < bs.len(),
    ensures
        !same_rank(bs[q].0, k),
{
    lemma_below(bs, k);
    if q < p {
        assert(key_order(bs[q].0, k) == Order::Less);
    } else if q > p {
        assert(key_order(bs[p].0, k) != Order::Less);
        assert(key_order(bs[p].0, bs[q].0) == Order::Less);
        if same_rank(bs[q].0, k) {
            lemma_key_order_transitive(bs[p].0, bs[q].0, k);
            assert(key_order(bs[p].0, k) == Order::Equal);
        }
    }
}

proof fn lemma_fields_added(
    m: SortedV,
    coll: Seq<char>,
    fields: Seq<(Seq<char>, Json)>,
    hash: Seq<char>,
    c: Seq<char>,
    f: Seq<char>,
)
    requires
        m.contains_key((c, f)) ==> ascending(m[(c, f)]),
    ensures
        fields_added(m, coll, fields, hash).contains_key((c, f)) == m.contains_key((c, f)),
        m.contains_key((c, f)) && c != coll ==> fields_added(m, coll, fields, hash)[(c, f)] == m[(
            c,
            f,
        )],
        m.contains_key((c, f)) ==> ascending(fields_added(m, coll, fields, hash)[(c, f)]),
        m.contains_key((c, f)) && c == coll ==> forall|x: Key, y: Seq<char>| #[trigger]
            under(fields_added(m, coll, fields, hash)[(c, f)], x, y) <==> under(m[(c, f)], x, y) || y
                == hash && valued(fields, f, x),
    decreases fields.len(),
{
    if fields.len() > 0 {
        let head = fields.drop_last();
        let last = fields.last();
        let before = fields_added(m, coll, head, hash);
        let after = fields_added(m, coll, fields, hash);
        lemma_fields_added(m, coll, head, hash, c, f);
        if m.contains_key((c, f)) && c == coll {
            let k = key_of(last.1);
            let bs = before[(c, f)];
            if last.0 == f {
                lemma_bucket_add(bs, k, hash);
            }
            assert forall|x: Key, y: Seq<char>| #[trigger]
                under(after[(c, f)], x, y) <==> under(m[(c, f)], x, y) || y == hash && valued(
                    fields,
                    f,
                    x,
                ) by {
                assert(under(bs, x, y) <==> under(m[(c, f)], x, y) || y == hash && valued(
                    head,
                    f,
                    x,
                ));
                lemma_valued(fields, f, x);
                if last.0 == f {
                    lemma_under_added(bs, k, hash, x, y);
                }
            }
        }
    }
}

proof fn lemma_valued(fields: Seq<(Seq<char>, Json)>, f: Seq<char>, x: Key)
    requires
        fields.len() > 0,
    ensures
        valued(fields, f, x) <==> valued(fields.drop_last(), f, x) || fields.last().0 == f
            && same_rank(key_of(fields.last().1), x),
{
    let head = fields.drop_last();
    if valued(head, f, x) {
        let i = choose|i: int|
            0 <= i < head.len() && (#[trigger] head[i]).0 == f && same_rank(key_of(head[i].1), x);
        assert(fields[i] == head[i]);
    }
    assert(fields[fields.len() - 1] == fields.last());
    if valued(fields, f, x) {
        let i = choose|i: int|
            0 <= i < fields.len() && (#[trigger] fields[i]).0 == f && same_rank(
                key_of(fields[i].1),
                x,
            );
        if i < head.len() {
            assert(head[i] == fields[i]);
        }
    }
}

proof fn lemma_fields_taken(
    m: SortedV,
    coll: Seq<char>,
    fields: Seq<(Seq<char>, Json)>,
    hash: Seq<char>,
    c: Seq<char>,
    f: Seq<char>,
)
    requires
        m.contains_key((c, f)) ==> ascending(m[(c, f)]),
    ensures
        fields_taken(m, coll, fields, hash).contains_key((c, f)) == m.contains_key((c, f)),
        m.contains_key((c, f)) && c != coll ==> fields_taken(m, coll, fields, hash)[(c, f)] == m[(
            c,
            f,
        )],
        m.contains_key((c, f)) ==> ascending(fields_taken(m, coll, fields, hash)[(c, f)]),
        m.contains_key((c, f)) && c == coll ==> forall|x: Key, y: Seq<char>| #[trigger]
            under(fields_taken(m, coll, fields, hash)[(c, f)], x, y) <==> under(m[(c, f)], x, y)
                && !(y == hash && valued(fields, f, x)),
    decreases fields.len(),
{
    if fields.len() > 0 {
        let head = fields.drop_last();
        let last = fields.last();
        let before = fields_taken(m, coll, head, hash);
        let after = fields_taken(m, coll, fields, hash);
        lemma_fields_taken(m, coll, head, hash, c, f);
        if m.contains_key((c, f)) && c == coll {
            let k = key_of(last.1);
            let bs = before[(c, f)];
            if last.0 == f {
                lemma_bucket_remove(bs, k, hash);
            }
            assert forall|x: Key, y: Seq<char>| #[trigger]
                under(after[(c, f)], x, y) <==> under(m[(c, f)], x, y) && !(y == hash && valued(
                    fields,
                    f,
                    x,
                )) by {
                assert(under(bs, x, y) <==> under(m[(c, f)], x, y) && !(y == hash && valued(
                    head,
                    f,
                    x,
                )));
                lemma_valued(fields, f, x);
                if last.0 == f {
                    lemma_under_removed(bs, k, hash, x, y);
                }
            }
        }
    }
}

/// Taking the current version of a document out of the indexes leaves all that
/// belongs to other documents.
proof fn lemma_superseded(
    v: DbV,
    coll: Seq<char>,
    id: Seq<char>,
    c: Seq<char>,
    f: Seq<char>,
    x: Key,
    y: Seq<char>,
)
    requires
        indexes_exact(v),
        v.sorted.contains_key((c, f)),
    ensures
        ({
            let m = superseded(v.sorted, v.objects, coll, hash_of(v.ids, coll, id));
            &&& m.contains_key((c, f))
            &&& ascending(m[(c, f)])
            &&& under(m[(c, f)], x, y) <==> exists|i: Seq<char>| #[trigger]
                entry(v, c, f, x, y, i) && (c, i) != (coll, id)
        }),
{
    let m = superseded(v.sorted, v.objects, coll, hash_of(v.ids, coll, id));
    let bs = v.sorted[(c, f)];
    assert(index_exact(v, c, f));
    assert(under(bs, x, y) <==> belongs(v, c, f, x, y));
    if let Some(prev) = hash_of(v.ids, coll, id) {
        if let Ok(old) = read_result(v.objects, prev) {
            lemma_fields_taken(v.sorted, coll, doc_fields(old.data), prev, c, f);
            assert(current(v, coll, id) == Some(old));
        }
    }
    if under(m[(c, f)], x, y) {
        let i = choose|i: Seq<char>| #[trigger] entry(v, c, f, x, y, i);
        if (c, i) == (coll, id) {
            assert(hash_of(v.ids, coll, id) == Some(y));
        }
        assert(entry(v, c, f, x, y, i) && (c, i) != (coll, id));
    }
    if exists|i: Seq<char>| #[trigger] entry(v, c, f, x, y, i) && (c, i) != (coll, id) {
        let i = choose|i: Seq<char>| #[trigger] entry(v, c, f, x, y, i) && (c, i) != (coll, id);
        assert(belongs(v, c, f, x, y));
        if c == coll && hash_of(v.ids, coll, id) == Some(y) {
            assert(current(v, coll, id) matches Some(n) && n.id == id);
            assert(current(v, c, i) matches Some(n) && n.id == i);
        }
    }
}

/// A database that holds nothing has exact indexes.
pub proof fn lemma_empty_exact()
    ensures
        indexes_exact(empty_db()),
        hashes_true(empty_db()),
        id_wf(empty_db().ids),
{
    let v = empty_db();
    assert forall|c: Seq<char>, i: Seq<char>| (#[trigger] current(v, c, i)) is None by {
        assert(hash_of(v.ids, c, i) is None);
    }
    assert forall|c: Seq<char>| (#[trigger] ids_in(v.ids, c)).len() == 0 by {}
}

/// Objects that give the same for all current versions keep all sorted indexes
/// exact.
pub proof fn lemma_objects_keep_indexes(v: DbV, w: DbV)
    requires
        indexes_exact(v),
        w.ids == v.ids,
        w.sorted == v.sorted,
        forall|k: Seq<char>| #[trigger]
            is_hash(v.ids, k) ==> read_result(w.objects, k) == read_result(v.objects, k),
    ensures
        indexes_exact(w),
        hashes_true(v) ==> hashes_true(w),
{
    assert forall|c: Seq<char>, i: Seq<char>| #[trigger] current(w, c, i) == current(v, c, i) by {
        if let Some(h) = hash_of(v.ids, c, i) {
            assert(is_hash(v.ids, h));
        }
    }
    assert forall|c: Seq<char>, f: Seq<char>| #[trigger]
        w.sorted.contains_key((c, f)) implies index_exact(w, c, f) by {
        assert(index_exact(v, c, f));
        assert forall|x: Key, y: Seq<char>| #[trigger]
            under(w.sorted[(c, f)], x, y) <==> belongs(w, c, f, x, y) by {
            assert(under(v.sorted[(c, f)], x, y) <==> belongs(v, c, f, x, y));
            assert forall|i: Seq<char>| #[trigger] entry(w, c, f, x, y, i) == entry(
                v,
                c,
                f,
                x,
                y,
                i,
            ) by {
                if hash_of(v.ids, c, i) == Some(y) {
                    assert(is_hash(v.ids, y));
                }
            }
            if belongs(v, c, f, x, y) {
                let i = choose|i: Seq<char>| #[trigger] entry(v, c, f, x, y, i);
                assert(entry(w, c, f, x, y, i));
            }
            if belongs(w, c, f, x, y) {
                let i = choose|i: Seq<char>| #[trigger] entry(w, c, f, x, y, i);
                assert(entry(v, c, f, x, y, i));
            }
        }
    }
}

/// Making a version that was written current keeps all sorted indexes exact.
pub proof fn lemma_settling_keeps_indexes(v: DbV, n: NodeV, w: DbV)
    requires
        indexes_exact(v),
        w == settled(unsorted(v, n.coll, n.id), n),
        read_result(v.objects, n.hash) == Ok::<NodeV, StoreError>(n),
        keys_ascend(doc_fields(n.data)),
        !is_hash(v.ids, n.hash),
    ensures
        indexes_exact(w),
        hashes_true(v) ==> hashes_true(w),
{
    let hash = n.hash;
    assert forall|c: Seq<char>, i: Seq<char>|
        (#[trigger] current(w, c, i)) matches Some(m) ==> m.coll == c && m.id == i && keys_ascend(
            doc_fields(m.data),
        ) by {
        if (c, i) != (n.coll, n.id) {
            assert(hash_of(w.ids, c, i) == hash_of(v.ids, c, i));
            assert(current(w, c, i) == current(v, c, i));
        }
    }
    if hashes_true(v) {
        assert forall|c: Seq<char>, i: Seq<char>|
            (#[trigger] current(w, c, i)) matches Some(m) ==> hash_of(w.ids, c, i) == Some(m.hash) by {
            if (c, i) != (n.coll, n.id) {
                assert(current(w, c, i) == current(v, c, i));
            }
        }
    }
    let mid = superseded(v.sorted, v.objects, n.coll, hash_of(v.ids, n.coll, n.id));
    assert forall|c: Seq<char>, f: Seq<char>| #[trigger]
        w.sorted.contains_key((c, f)) implies index_exact(w, c, f) by {
        lemma_sorted_keys(v, n.coll, n.id, c, f);
        assert(mid.contains_key((c, f)) ==> ascending(mid[(c, f)])) by {
            if v.sorted.contains_key((c, f)) {
                lemma_superseded(v, n.coll, n.id, c, f, Key::Null, hash);
            }
        }
        lemma_fields_added(mid, n.coll, doc_fields(n.data), hash, c, f);
        assert(v.sorted.contains_key((c, f)));
        assert forall|x: Key, y: Seq<char>| #[trigger]
            under(w.sorted[(c, f)], x, y) <==> belongs(w, c, f, x, y) by {
            lemma_superseded(v, n.coll, n.id, c, f, x, y);
            if under(w.sorted[(c, f)], x, y) {
                if c == n.coll && y == hash && valued(doc_fields(n.data), f, x) {
                    assert(entry(w, c, f, x, y, n.id));
                } else {
                    assert(under(mid[(c, f)], x, y));
                    let i = choose|i: Seq<char>| #[trigger]
                        entry(v, c, f, x, y, i) && (c, i) != (n.coll, n.id);
                    assert(hash_of(v.ids, c, i) == Some(y));
                    assert(entry(w, c, f, x, y, i));
                }
            }
            if belongs(w, c, f, x, y) {
                let i = choose|i: Seq<char>| #[trigger] entry(w, c, f, x, y, i);
                if (c, i) != (n.coll, n.id) {
                    assert(hash_of(v.ids, c, i) == Some(y));
                    assert(y != hash);
                    assert(entry(v, c, f, x, y, i) && (c, i) != (n.coll, n.id));
                    assert(under(mid[(c, f)], x, y));
                }
            }
        }
    }
}

/// A write keeps all sorted indexes exact.
pub proof fn lemma_put_keeps_indexes(v: DbV, n: NodeV, hash: Seq<char>, w: DbV)
    requires
        indexes_exact(v),
        orderly(v),
        put_step(v, n, hash, w),
    ensures
        indexes_exact(w),
        hashes_true(v) ==> hashes_true(w),
{
    lemma_put_fresh(v, n, hash, w);
    let x = DbV { objects: w.objects, seq: w.seq, ..v };
    lemma_objects_keep_indexes(v, x);
    assert(hash_of(v.ids, n.coll, n.id) != Some(hash));
    assert(unsorted(x, n.coll, n.id).sorted == unsorted(v, n.coll, n.id).sorted);
    lemma_settling_keeps_indexes(x, NodeV { hash, ..n }, w);
}

proof fn lemma_sorted_keys(v: DbV, coll: Seq<char>, id: Seq<char>, c: Seq<char>, f: Seq<char>)
    requires
        indexes_exact(v),
    ensures
        superseded(v.sorted, v.objects, coll, hash_of(v.ids, coll, id)).contains_key((c, f))
            == v.sorted.contains_key((c, f)),
{
    if v.sorted.contains_key((c, f)) {
        assert(index_exact(v, c, f));
    }
    if let Some(prev) = hash_of(v.ids, coll, id) {
        if let Ok(old) = read_result(v.objects, prev) {
            lemma_fields_taken(v.sorted, coll, doc_fields(old.data), prev, c, f);
        }
    }
}

/// A deletion keeps all sorted indexes exact.
pub proof fn lemma_delete_keeps_indexes(
    v: DbV,
    coll: Seq<char>,
    id: Seq<char>,
    prev: Seq<char>,
    ts: Num,
    hash: Seq<char>,
    w: DbV,
)
    requires
        indexes_exact(v),
        orderly(v),
        delete_step(v, coll, id, prev, ts, hash, w),
    ensures
        indexes_exact(w),
        hashes_true(v) ==> hashes_true(w),
{
    let n = tombstone(v, coll, id, prev, ts);
    lemma_delete_fresh(v, coll, id, prev, ts, hash, w);
    lemma_history_kept(v.objects, n, hash, w.objects);
    assert forall|c: Seq<char>, i: Seq<char>|
        (#[trigger] current(w, c, i)) matches Some(m) ==> m.coll == c && m.id == i && keys_ascend(
            doc_fields(m.data),
        ) by {
        if (c, i) != (coll, id) {
            assert(hash_of(w.ids, c, i) == hash_of(v.ids, c, i));
            assert(hash_of(v.ids, c, i) != Some(hash));
            assert(current(w, c, i) == current(v, c, i));
        }
    }
    if hashes_true(v) {
        assert forall|c: Seq<char>, i: Seq<char>|
            (#[trigger] current(w, c, i)) matches Some(m) ==> hash_of(w.ids, c, i) == Some(m.hash) by {
            if (c, i) != (coll, id) {
                assert(hash_of(v.ids, c, i) != Some(hash));
                assert(current(w, c, i) == current(v, c, i));
            }
        }
    }
    assert forall|c: Seq<char>, f: Seq<char>| #[trigger]
        w.sorted.contains_key((c, f)) implies index_exact(w, c, f) by {
        lemma_sorted_keys(v, coll, id, c, f);
        assert(v.sorted.contains_key((c, f)));
        lemma_superseded(v, coll, id, c, f, Key::Null, hash);
        assert forall|x: Key, y: Seq<char>| #[trigger]
            under(w.sorted[(c, f)], x, y) <==> belongs(w, c, f, x, y) by {
            lemma_superseded(v, coll, id, c, f, x, y);
            if under(w.sorted[(c, f)], x, y) {
                let i = choose|i: Seq<char>| #[trigger]
                    entry(v, c, f, x, y, i) && (c, i) != (coll, id);
                assert(hash_of(v.ids, c, i) == Some(y));
                assert(y != hash);
                assert(entry(w, c, f, x, y, i));
            }
            if belongs(w, c, f, x, y) {
                let i = choose|i: Seq<char>| #[trigger] entry(w, c, f, x, y, i);
                assert((c, i) != (coll, id));
                assert(hash_of(v.ids, c, i) == Some(y));
                assert(y != hash);
                assert(entry(v, c, f, x, y, i) && (c, i) != (coll, id));
            }
        }
    }
}

proof fn lemma_valued_once(fields: Seq<(Seq<char>, Json)>, name: Seq<char>, k: Key)
    requires
        keys_ascend(fields),
    ensures
        valued(fields, name, k) <==> (field_of(fields, name) matches Some(j) && same_rank(
            key_of(j),
            k,
        )),
    decreases fields.len(),
{
    if fields.len() > 0 {
        let rest = fields.drop_first();
        assert(keys_ascend(rest)) by {
            assert forall|i: int, j: int| 0 <= i < j < rest.len() implies crate::text::text_order(
                #[trigger] rest[i].0,
                #[trigger] rest[j].0,
            ) == Order::Less by {
                assert(crate::text::text_order(fields[i + 1].0, fields[j + 1].0) == Order::Less);
            }
        }
        lemma_valued_once(rest, name, k);
        if valued(rest, name, k) {
            let i = choose|i: int|
                0 <= i < rest.len() && (#[trigger] rest[i]).0 == name && same_rank(
                    key_of(rest[i].1),
                    k,
                );
            assert(fields[i + 1] == rest[i]);
            assert(crate::text::text_order(fields[0].0, fields[i + 1].0) == Order::Less);
            lemma_text_order(name, name);
        }
        if valued(fields, name, k) {
            let i = choose|i: int|
                0 <= i < fields.len() && (#[trigger] fields[i]).0 == name && same_rank(
                    key_of(fields[i].1),
                    k,
                );
            if i > 0 {
                assert(rest[i - 1] == fields[i]);
            }
        }
        if fields[0].0 == name {
            assert(fields[0].0 == name);
            if valued(rest, name, k) {
                let i = choose|i: int|
                    0 <= i < rest.len() && (#[trigger] rest[i]).0 == name && same_rank(
                        key_of(rest[i].1),
                        k,
                    );
                assert(crate::text::text_order(fields[0].0, fields[i + 1].0) == Order::Less);
                lemma_text_order(name, name);
            }
        }
    }
}

proof fn lemma_backfilled(v: DbV, coll: Seq<char>, field: Seq<char>, ids: Seq<Seq<char>>)
    requires
        documents_true(v),
        v.sorted.contains_key((coll, field)) ==> ascending(v.sorted[(coll, field)]),
    ensures
        ({
            let m = backfilled(v, coll, field, ids);
            &&& m.contains_key((coll, field))
            &&& ascending(m[(coll, field)])
            &&& forall|c: Seq<char>, f: Seq<char>|
                (c, f) != (coll, field) ==> (#[trigger] m.contains_key((c, f))
                    == v.sorted.contains_key((c, f))) && m[(c, f)] == v.sorted[(c, f)]
            &&& forall|x: Key, y: Seq<char>| #[trigger]
                under(m[(coll, field)], x, y) <==> v.sorted.contains_key((coll, field)) && under(
                    v.sorted[(coll, field)],
                    x,
                    y,
                ) || exists|i: Seq<char>|
                    ids.contains(i) && filled(v, coll, field, x, y, i)
        }),
    decreases ids.len(),
{
    let m = backfilled(v, coll, field, ids);
    if ids.len() == 0 {
        assert forall|x: Key, y: Seq<char>| #[trigger]
            under(m[(coll, field)], x, y) <==> v.sorted.contains_key((coll, field)) && under(
                v.sorted[(coll, field)],
                x,
                y,
            ) || exists|i: Seq<char>| ids.contains(i) && filled(v, coll, field, x, y, i) by {
            if !v.sorted.contains_key((coll, field)) {
                assert(m[(coll, field)] =~= Seq::empty());
            }
        }
    } else {
        let head = ids.drop_last();
        let last = ids.last();
        let before = backfilled(v, coll, field, head);
        lemma_backfilled(v, coll, field, head);
        let bs = before[(coll, field)];
        assert forall|x: Key, y: Seq<char>| #[trigger]
            under(m[(coll, field)], x, y) <==> v.sorted.contains_key((coll, field)) && under(
                v.sorted[(coll, field)],
                x,
                y,
            ) || exists|i: Seq<char>| ids.contains(i) && filled(v, coll, field, x, y, i) by {
            lemma_filled(v, coll, field, x, y, ids);
            assert(under(bs, x, y) <==> v.sorted.contains_key((coll, field)) && under(
                v.sorted[(coll, field)],
                x,
                y,
            ) || exists|i: Seq<char>| head.contains(i) && filled(v, coll, field, x, y, i));
            if let Some(n) = current(v, coll, last) {
                if let Some(j) = json_get(n.data, field) {
                    lemma_under_added(bs, key_of(j), n.hash, x, y);
                }
            }
        }
        if let Some(n) = current(v, coll, last) {
            if let Some(j) = json_get(n.data, field) {
                lemma_bucket_add(bs, key_of(j), n.hash);
            }
        }
    }
}

/// Whether filling an index puts a hash under a value for a document.
pub open spec fn filled(
    v: DbV,
    coll: Seq<char>,
    field: Seq<char>,
    k: Key,
    hash: Seq<char>,
    id: Seq<char>,
) -> bool {
    &&& current(v, coll, id) matches Some(n)
    &&& n.hash == hash
    &&& json_get(n.data, field) matches Some(j)
    &&& same_rank(key_of(j), k)
}

proof fn lemma_filled(
    v: DbV,
    coll: Seq<char>,
    field: Seq<char>,
    k: Key,
    hash: Seq<char>,
    ids: Seq<Seq<char>>,
)
    requires
        ids.len() > 0,
    ensures
        (exists|i: Seq<char>| ids.contains(i) && filled(v, coll, field, k, hash, i)) <==> (exists|
            i: Seq<char>,
        | ids.drop_last().contains(i) && filled(v, coll, field, k, hash, i)) || filled(
            v,
            coll,
            field,
            k,
            hash,
            ids.last(),
        ),
{
    let head = ids.drop_last();
    assert(ids[ids.len() - 1] == ids.last());
    assert(ids.contains(ids.last()));
    if exists|i: Seq<char>| ids.contains(i) && filled(v, coll, field, k, hash, i) {
        let i = choose|i: Seq<char>| ids.contains(i) && filled(v, coll, field, k, hash, i);
        if i != ids.last() {
            let j = choose|j: int| 0 <= j < ids.len() && ids[j] == i;
            assert(head[j] == i);
            assert(head.contains(i) && filled(v, coll, field, k, hash, i));
        }
    }
    if exists|i: Seq<char>| head.contains(i) && filled(v, coll, field, k, hash, i) {
        let i = choose|i: Seq<char>| head.contains(i) && filled(v, coll, field, k, hash, i);
        let j = choose|j: int| 0 <= j < head.len() && head[j] == i;
        assert(ids[j] == i);
        assert(ids.contains(i) && filled(v, coll, field, k, hash, i));
    }
    if filled(v, coll, field, k, hash, ids.last()) {
        assert(ids.contains(ids.last()) && filled(v, coll, field, k, hash, ids.last()));
    }
}

/// Whether every current version knows the hash that it is kept under.
pub open spec fn hashes_true(v: DbV) -> bool {
    forall|c: Seq<char>, i: Seq<char>|
        (#[trigger] current(v, c, i)) matches Some(n) ==> hash_of(v.ids, c, i) == Some(n.hash)
}

/// An index that is made for a field holds just what belongs in it, and the
/// others stay exact.
pub proof fn lemma_new_index_exact(v: DbV, coll: Seq<char>, field: Seq<char>)
    requires
        indexes_exact(v),
        id_wf(v.ids),
        hashes_true(v),
    ensures
        indexes_exact(
            (DbV { sorted: backfilled(v, coll, field, ids_in(v.ids, coll)), ..v }),
        ),
{
    let ids = ids_in(v.ids, coll);
    let m = backfilled(v, coll, field, ids);
    let w = DbV { sorted: m, ..v };
    if v.sorted.contains_key((coll, field)) {
        assert(index_exact(v, coll, field));
    }
    lemma_backfilled(v, coll, field, ids);
    assert forall|c: Seq<char>, i: Seq<char>|
        (#[trigger] current(w, c, i)) matches Some(n) ==> n.coll == c && n.id == i && keys_ascend(
            doc_fields(n.data),
        ) by {
        assert(current(w, c, i) == current(v, c, i));
    }
    assert forall|c: Seq<char>, f: Seq<char>| #[trigger] w.sorted.contains_key((c, f)) implies index_exact(
        w,
        c,
        f,
    ) by {
        assert forall|x: Key, y: Seq<char>| #[trigger]
            under(w.sorted[(c, f)], x, y) <==> belongs(w, c, f, x, y) by {
            assert(belongs(w, c, f, x, y) <==> belongs(v, c, f, x, y)) by {
                if belongs(w, c, f, x, y) {
                    let i = choose|i: Seq<char>| #[trigger] entry(w, c, f, x, y, i);
                    assert(entry(v, c, f, x, y, i));
                }
                if belongs(v, c, f, x, y) {
                    let i = choose|i: Seq<char>| #[trigger] entry(v, c, f, x, y, i);
                    assert(entry(w, c, f, x, y, i));
                }
            }
            if (c, f) != (coll, field) {
                assert(v.sorted.contains_key((c, f)));
                assert(index_exact(v, c, f));
            } else {
                if v.sorted.contains_key((c, f)) {
                    assert(under(v.sorted[(c, f)], x, y) <==> belongs(v, c, f, x, y));
                }
                if belongs(v, c, f, x, y) {
                    let i = choose|i: Seq<char>| #[trigger] entry(v, c, f, x, y, i);
                    let n = version(v.objects, y)->0;
                    assert(current(v, c, i) == Some(n));
                    lemma_valued_once(doc_fields(n.data), f, x);
                    lemma_get_field(n.data, f);
                    assert(v.ids.docs.contains_key((c, i)));
                    assert(ids.contains(i) && filled(v, c, f, x, y, i));
                }
                if exists|i: Seq<char>| ids.contains(i) && filled(v, c, f, x, y, i) {
                    let i = choose|i: Seq<char>| ids.contains(i) && filled(v, c, f, x, y, i);
                    let n = current(v, c, i)->0;
                    lemma_valued_once(doc_fields(n.data), f, x);
                    lemma_get_field(n.data, f);
                    assert(entry(v, c, f, x, y, i));
                }
            }
        }
        if (c, f) != (coll, field) {
            assert(v.sorted.contains_key((c, f)));
            assert(index_exact(v, c, f));
        }
    }
}

proof fn lemma_get_field(j: Json, f: Seq<char>)
    ensures
        json_get(j, f) == field_of(doc_fields(j), f),
{
    match j {
        Json::Object(_) => {},
        _ => {
            assert(doc_fields(j).len() == 0);
        },
    }
}

proof fn lemma_flat_asc(bs: BucketsV, a: int) -> (p: int)
    requires
        0 <= a < flat_asc(bs).len(),
    ensures
        0 <= p < bs.len(),
        bs[p].1.contains(flat_asc(bs)[a]),
    decreases bs.len(),
{
    let head = bs.drop_last();
    let n = flat_asc(head).len();
    if a < n {
        let p = lemma_flat_asc(head, a);
        assert(head[p] == bs[p]);
        p
    } else {
        assert(bs.last().1[a - n] == flat_asc(bs)[a]);
        bs.len() - 1
    }
}

proof fn lemma_flat_asc_order(bs: BucketsV, a: int, b: int) -> (r: (int, int))
    requires
        0 <= a < b < flat_asc(bs).len(),
    ensures
        0 <= r.0 <= r.1 < bs.len(),
        bs[r.0].1.contains(flat_asc(bs)[a]),
        bs[r.1].1.contains(flat_asc(bs)[b]),
    decreases bs.len(),
{
    let head = bs.drop_last();
    let n = flat_asc(head).len();
    if b < n {
        let r = lemma_flat_asc_order(head, a, b);
        assert(head[r.0] == bs[r.0] && head[r.1] == bs[r.1]);
        r
    } else {
        assert(bs.last().1[b - n] == flat_asc(bs)[b]);
        if a < n {
            let p = lemma_flat_asc(head, a);
            assert(head[p] == bs[p]);
            (p, bs.len() - 1)
        } else {
            assert(bs.last().1[a - n] == flat_asc(bs)[a]);
            (bs.len() - 1, bs.len() - 1)
        }
    }
}

proof fn lemma_flat_desc(bs: BucketsV, a: int) -> (p: int)
    requires
        0 <= a < flat_desc(bs).len(),
    ensures
        0 <= p < bs.len(),
        bs[p].1.contains(flat_desc(bs)[a]),
    decreases bs.len(),
{
    let n = bs.last().1.len();
    if a < n {
        assert(bs.last().1[a] == flat_desc(bs)[a]);
        bs.len() - 1
    } else {
        let head = bs.drop_last();
        let p = lemma_flat_desc(head, a - n);
        assert(head[p] == bs[p]);
        p
    }
}

proof fn lemma_flat_desc_order(bs: BucketsV, a: int, b: int) -> (r: (int, int))
    requires
        0 <= a < b < flat_desc(bs).len(),
    ensures
        0 <= r.1 <= r.0 < bs.len(),
        bs[r.0].1.contains(flat_desc(bs)[a]),
        bs[r.1].1.contains(flat_desc(bs)[b]),
    decreases bs.len(),
{
    let head = bs.drop_last();
    let n = bs.last().1.len();
    if a >= n {
        let r = lemma_flat_desc_order(head, a - n, b - n);
        assert(head[r.0] == bs[r.0] && head[r.1] == bs[r.1]);
        r
    } else {
        assert(bs.last().1[a] == flat_desc(bs)[a]);
        if b >= n {
            let p = lemma_flat_desc(head, b - n);
            assert(head[p] == bs[p]);
            (bs.len() - 1, p)
        } else {
            assert(bs.last().1[b] == flat_desc(bs)[b]);
            (bs.len() - 1, bs.len() - 1)
        }
    }
}

proof fn lemma_all_read(v: DbV, hashes: Seq<Seq<char>>)
    requires
        forall|i: int| 0 <= i < hashes.len() ==> version(v.objects, #[trigger] hashes[i]) is Some,
    ensures
        versions(v.objects, hashes).len() == hashes.len(),
        forall|i: int|
            0 <= i < hashes.len() ==> (#[trigger] versions(v.objects, hashes)[i]) == version(
                v.objects,
                hashes[i],
            )->0,
    decreases hashes.len(),
{
    if hashes.len() > 0 {
        let head = hashes.drop_last();
        assert forall|i: int| 0 <= i < head.len() implies version(
            v.objects,
            #[trigger] head[i],
        ) is Some by {
            assert(head[i] == hashes[i]);
        }
        lemma_all_read(v, head);
        assert(hashes[hashes.len() - 1] == hashes.last());
        assert(version(v.objects, hashes.last()) is Some);
        assert forall|i: int| 0 <= i < hashes.len() implies (#[trigger] versions(
            v.objects,
            hashes,
        )[i]) == version(v.objects, hashes[i])->0 by {
            if i < head.len() {
                assert(versions(v.objects, head)[i] == version(v.objects, head[i])->0);
            }
        }
    }
}

/// The value of a field, of a version that is under a value of an index, is of
/// the same rank.
proof fn lemma_under_its_value(
    v: DbV,
    coll: Seq<char>,
    field: Seq<char>,
    p: int,
    hash: Seq<char>,
)
    requires
        indexes_exact(v),
        v.sorted.contains_key((coll, field)),
        0 <= p < v.sorted[(coll, field)].len(),
        v.sorted[(coll, field)][p].1.contains(hash),
    ensures
        version(v.objects, hash) is Some,
        same_rank(
            sort_key(version(v.objects, hash)->0, field),
            v.sorted[(coll, field)][p].0,
        ),
        exists|id: Seq<char>| #[trigger]
            current(v, coll, id) == version(v.objects, hash) && hash_of(v.ids, coll, id) == Some(
                hash,
            ),
{
    let bs = v.sorted[(coll, field)];
    let k = bs[p].0;
    assert(index_exact(v, coll, field));
    lemma_same_rank(k, k, k);
    assert(same_rank(bs[p].0, k) && bs[p].1.contains(hash));
    assert(under(bs, k, hash));
    assert(belongs(v, coll, field, k, hash));
    let id = choose|id: Seq<char>| #[trigger] entry(v, coll, field, k, hash, id);
    let n = version(v.objects, hash)->0;
    assert(current(v, coll, id) == Some(n));
    lemma_valued_once(doc_fields(n.data), field, k);
    lemma_get_field(n.data, field);
}

/// Ordering by a field with an index gives the versions in the order of the
/// field, each of them the current version of a document that has the field.
pub proof fn lemma_index_orders(
    v: DbV,
    coll: Seq<char>,
    field: Seq<char>,
    descending: bool,
    limit: int,
)
    requires
        indexes_exact(v),
        v.sorted.contains_key((coll, field)),
        limit >= 0,
    ensures
        in_field_order(ordered_by(v, coll, field, descending, limit), field, descending),
        ordered_by(v, coll, field, descending, limit).len() <= limit,
        forall|n: NodeV| #[trigger]
            ordered_by(v, coll, field, descending, limit).contains(n) ==> exists|id: Seq<char>|
                #[trigger]
                current(v, coll, id) == Some(n),
{
    let bs = v.sorted[(coll, field)];
    let all = if descending {
        flat_desc(bs)
    } else {
        flat_asc(bs)
    };
    let hashes = first(all, limit);
    let out = ordered_by(v, coll, field, descending, limit);
    assert forall|i: int| 0 <= i < hashes.len() implies version(
        v.objects,
        #[trigger] hashes[i],
    ) is Some by {
        assert(hashes[i] == all[i]);
        let p = if descending {
            lemma_flat_desc(bs, i)
        } else {
            lemma_flat_asc(bs, i)
        };
        lemma_under_its_value(v, coll, field, p, hashes[i]);
    }
    lemma_all_read(v, hashes);
    assert(index_exact(v, coll, field));
    assert forall|a: int, b: int| 0 <= a < b < out.len() implies may_precede(
        #[trigger] out[a],
        #[trigger] out[b],
        field,
        descending,
    ) by {
        assert(hashes[a] == all[a] && hashes[b] == all[b]);
        let (p, q) = if descending {
            lemma_flat_desc_order(bs, a, b)
        } else {
            lemma_flat_asc_order(bs, a, b)
        };
        lemma_under_its_value(v, coll, field, p, hashes[a]);
        lemma_under_its_value(v, coll, field, q, hashes[b]);
        let x = sort_key(out[a], field);
        let y = sort_key(out[b], field);
        lemma_between(x, bs[p].0, bs[q].0, y, descending, p, q, bs);
    }
    assert forall|n: NodeV| #[trigger] out.contains(n) implies exists|id: Seq<char>| #[trigger]
        current(v, coll, id) == Some(n) by {
        let i = choose|i: int| 0 <= i < out.len() && out[i] == n;
        assert(hashes[i] == all[i]);
        let p = if descending {
            lemma_flat_desc(bs, i)
        } else {
            lemma_flat_asc(bs, i)
        };
        lemma_under_its_value(v, coll, field, p, hashes[i]);
    }
}

proof fn lemma_between(
    x: Key,
    a: Key,
    b: Key,
    y: Key,
    descending: bool,
    p: int,
    q: int,
    bs: BucketsV,
)
    requires
        same_rank(x, a),
        same_rank(y, b),
        ascending(bs),
        0 <= p < bs.len(),
        0 <= q < bs.len(),
        a == bs[p].0,
        b == bs[q].0,
        if descending {
            q <= p
        } else {
            p <= q
        },
    ensures
        key_order(x, y) != if descending {
            Order::Less
        } else {
            Order::Greater
        },
{
    lemma_key_order(a, b);
    lemma_key_order(y, b);
    lemma_key_order(x, a);
    lemma_key_order(x, y);
    lemma_key_order(a, a);
    if descending {
        assert(key_order(b, a) != Order::Greater);
        lemma_key_order_transitive(y, b, a);
        lemma_key_order_transitive(y, a, x);
        lemma_key_order(y, x);
    } else {
        assert(key_order(a, b) != Order::Greater);
        lemma_key_order_transitive(x, a, b);
        lemma_key_order_transitive(x, b, y);
    }
}

/// Ordering by a field with an index, without a limit that cuts it short,
/// leaves out no document that has the field.
pub proof fn lemma_index_complete(
    v: DbV,
    coll: Seq<char>,
    field: Seq<char>,
    descending: bool,
    limit: int,
    id: Seq<char>,
)
    requires
        indexes_exact(v),
        v.sorted.contains_key((coll, field)),
        flat_asc(v.sorted[(coll, field)]).len() <= limit,
        flat_desc(v.sorted[(coll, field)]).len() <= limit,
        current(v, coll, id) matches Some(n) && json_get(n.data, field) is Some,
    ensures
        ordered_by(v, coll, field, descending, limit).contains(current(v, coll, id)->0),
{
    let bs = v.sorted[(coll, field)];
    let n = current(v, coll, id)->0;
    let hash = hash_of(v.ids, coll, id)->0;
    let k = key_of(json_get(n.data, field)->0);
    lemma_index_orders(v, coll, field, descending, limit);
    assert(index_exact(v, coll, field));
    lemma_get_field(n.data, field);
    lemma_same_rank(k, k, k);
    lemma_valued_once(doc_fields(n.data), field, k);
    assert(entry(v, coll, field, k, hash, id));
    assert(belongs(v, coll, field, k, hash));
    assert(under(bs, k, hash));
    let p = choose|p: int|
        0 <= p < bs.len() && same_rank(#[trigger] bs[p].0, k) && bs[p].1.contains(hash);
    let hashes = if descending {
        flat_desc(bs)
    } else {
        flat_asc(bs)
    };
    lemma_flat_holds(bs, p, hash);
    let i = choose|i: int| 0 <= i < hashes.len() && hashes[i] == hash;
    assert forall|j: int| 0 <= j < hashes.len() implies version(
        v.objects,
        #[trigger] hashes[j],
    ) is Some by {
        let q = if descending {
            lemma_flat_desc(bs, j)
        } else {
            lemma_flat_asc(bs, j)
        };
        lemma_under_its_value(v, coll, field, q, hashes[j]);
    }
    lemma_all_read(v, hashes);
    assert(versions(v.objects, hashes)[i] == n);
}

proof fn lemma_flat_holds(bs: BucketsV, p: int, hash: Seq<char>)
    requires
        0 <= p < bs.len(),
        bs[p].1.contains(hash),
    ensures
        flat_asc(bs).contains(hash),
        flat_desc(bs).contains(hash),
    decreases bs.len(),
{
    let head = bs.drop_last();
    let last = bs.last().1;
    if p < head.len() {
        assert(head[p] == bs[p]);
        lemma_flat_holds(head, p, hash);
        let i = choose|i: int| 0 <= i < flat_asc(head).len() && flat_asc(head)[i] == hash;
        assert(flat_asc(bs)[i] == hash);
        let j = choose|j: int| 0 <= j < flat_desc(head).len() && flat_desc(head)[j] == hash;
        assert(flat_desc(bs)[last.len() + j] == hash);
    } else {
        let i = choose|i: int| 0 <= i < last.len() && last[i] == hash;
        assert(flat_asc(bs)[flat_asc(head).len() + i] == hash);
        assert(flat_desc(bs)[i] == hash);
    }
}

} // verus!
