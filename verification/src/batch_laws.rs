//! What a batch of writes promises: each of its versions is written, the last
//! one of each document becomes current, and the sorted indexes stay exact.

use vstd::prelude::*;
use crate::db::{
    all_settled, as_of, batch_tried, batch_version, current, doc_fields, first_error, settled,
    unsorted, wrote, DbV, PutOp,
};
use crate::history::{
    clash, follows, fresh, hashes_of, lemma_new_object, lemma_writes_keep, lemma_writes_orderly,
    objects_orderly, orderly, writes,
};
use crate::index::{hash_of, is_hash};
use crate::index_laws::{
    hashes_true, indexes_exact, lemma_objects_keep_indexes, lemma_settling_keeps_indexes,
};
use crate::json::{keys_ascend, Num};
use crate::node::{storable, NodeV};
use crate::store::{read_result, undamaged, ObjV, StoreError};

verus! {

/// Whether each version of a batch that was written can be read back, and the
/// digest tells it from what was there, which is not damaged.
pub open spec fn told_apart(
    v: DbV,
    ops: Seq<PutOp>,
    ts: Num,
    nodes: Seq<NodeV>,
    errors: Seq<Option<StoreError>>,
    os: Seq<ObjV>,
) -> bool {
    forall|i: int|
        0 <= i < nodes.len() && errors[i] is None ==> storable(#[trigger] nodes[i]) && !clash(
            os[i],
            batch_version(v, ops[i], i, ts),
            nodes[i].hash,
        ) && undamaged(os[i], nodes[i].hash)
}

proof fn lemma_no_error(errors: Seq<Option<StoreError>>, i: int)
    requires
        first_error(errors) is None,
        0 <= i < errors.len(),
    ensures
        errors[i] is None,
    decreases errors.len(),
{
    if i < errors.len() - 1 {
        lemma_no_error(errors.drop_last(), i);
    }
}

proof fn lemma_no_errors(errors: Seq<Option<StoreError>>)
    requires
        first_error(errors) is None,
    ensures
        forall|i: int| 0 <= i < errors.len() ==> #[trigger] errors[i] is None,
{
    assert forall|i: int| 0 <= i < errors.len() implies #[trigger] errors[i] is None by {
        lemma_no_error(errors, i);
    }
}

/// The versions of a batch are read back under their hashes, which are new;
/// what other hashes give is as it was.
pub proof fn lemma_batch_written(
    v: DbV,
    ops: Seq<PutOp>,
    ts: Num,
    nodes: Seq<NodeV>,
    errors: Seq<Option<StoreError>>,
    os: Seq<ObjV>,
    k: int,
)
    requires
        batch_tried(v, ops, ts, nodes, errors, os),
        orderly(v),
        told_apart(v, ops, ts, nodes, errors, os),
        v.seq + nodes.len() <= u64::MAX,
        0 <= k <= nodes.len(),
    ensures
        objects_orderly(os[k], v.seq + k),
        forall|i: int|
            0 <= i < k && errors[i] is None ==> read_result(os[k], (#[trigger] nodes[i]).hash) == Ok::<
                NodeV,
                StoreError,
            >(nodes[i]) && fresh(v.objects, nodes[i].hash) && !is_hash(v.ids, nodes[i].hash),
        forall|i: int, j: int|
            0 <= i < j < k && errors[i] is None && errors[j] is None ==> (#[trigger] nodes[i]).hash
                != (#[trigger] nodes[j]).hash,
        forall|h: Seq<char>|
            (forall|i: int| 0 <= i < k && errors[i] is None ==> (#[trigger] nodes[i]).hash != h)
                ==> #[trigger] read_result(os[k], h) == read_result(v.objects, h),
    decreases k,
{
    if k > 0 {
        let j = k - 1;
        lemma_batch_written(v, ops, ts, nodes, errors, os, j);
        assert(nodes[j] == (NodeV { hash: nodes[j].hash, ..batch_version(v, ops[j], j, ts) }));
        if errors[j] is None {
            lemma_one_written(v, ops, ts, nodes, errors, os, j);
        } else {
            assert(os[k] == os[j]);
            assert(objects_orderly(os[k], v.seq + k));
            assert forall|h: Seq<char>|
                (forall|i: int| 0 <= i < k && errors[i] is None ==> (#[trigger] nodes[i]).hash != h) implies #[trigger]
            read_result(os[k], h) == read_result(v.objects, h) by {
                assert(read_result(os[j], h) == read_result(v.objects, h));
            }
        }
    }
}

proof fn lemma_one_written(
    v: DbV,
    ops: Seq<PutOp>,
    ts: Num,
    nodes: Seq<NodeV>,
    errors: Seq<Option<StoreError>>,
    os: Seq<ObjV>,
    j: int,
)
    requires
        batch_tried(v, ops, ts, nodes, errors, os),
        orderly(v),
        told_apart(v, ops, ts, nodes, errors, os),
        v.seq + nodes.len() <= u64::MAX,
        0 <= j < nodes.len(),
        errors[j] is None,
        objects_orderly(os[j], v.seq + j),
        forall|i: int|
            0 <= i < j && errors[i] is None ==> read_result(os[j], (#[trigger] nodes[i]).hash) == Ok::<
                NodeV,
                StoreError,
            >(nodes[i]) && fresh(v.objects, nodes[i].hash) && !is_hash(v.ids, nodes[i].hash),
        forall|i: int, m: int|
            0 <= i < m < j && errors[i] is None && errors[m] is None ==> (#[trigger] nodes[i]).hash
                != (#[trigger] nodes[m]).hash,
        forall|h: Seq<char>|
            (forall|i: int| 0 <= i < j && errors[i] is None ==> (#[trigger] nodes[i]).hash != h)
                ==> #[trigger] read_result(os[j], h) == read_result(v.objects, h),
    ensures
        objects_orderly(os[j + 1], v.seq + j + 1),
        forall|i: int|
            0 <= i < j + 1 && errors[i] is None ==> read_result(os[j + 1], (#[trigger] nodes[i]).hash)
                == Ok::<NodeV, StoreError>(nodes[i]) && fresh(v.objects, nodes[i].hash) && !is_hash(
                v.ids,
                nodes[i].hash,
            ),
        forall|i: int, m: int|
            0 <= i < m < j + 1 && errors[i] is None && errors[m] is None ==> (#[trigger] nodes[i]).hash
                != (#[trigger] nodes[m]).hash,
        forall|h: Seq<char>|
            (forall|i: int| 0 <= i < j + 1 && errors[i] is None ==> (#[trigger] nodes[i]).hash != h)
                ==> #[trigger] read_result(os[j + 1], h) == read_result(v.objects, h),
{
    let k = j + 1;
    let n = batch_version(v, ops[j], j, ts);
    let hash = nodes[j].hash;
    assert(storable(nodes[j]));
    assert(wrote(os[j], n, hash, os[k]));
    if let Some(p) = n.prev {
        assert(hash_of(v.ids, n.coll, n.id) == Some(p));
        assert(read_result(v.objects, p) is Ok);
        assert forall|i: int| 0 <= i < j && errors[i] is None implies (#[trigger] nodes[i]).hash != p by {
            assert(fresh(v.objects, nodes[i].hash));
        }
    }
    lemma_new_object(os[j], n, hash, os[k]);
    assert forall|i: int| 0 <= i < j && errors[i] is None implies (#[trigger] nodes[i]).hash != hash by {
        assert(read_result(os[j], nodes[i].hash) is Ok);
    }
    assert(read_result(v.objects, hash) == read_result(os[j], hash));
    assert(fresh(v.objects, hash));
    assert(!is_hash(v.ids, hash)) by {
        if is_hash(v.ids, hash) {
            let (c, i) = choose|c: Seq<char>, i: Seq<char>| #[trigger]
                hash_of(v.ids, c, i) == Some(hash);
            assert(hash_of(v.ids, c, i) == Some(hash));
        }
    }
    assert forall|i: int| 0 <= i < k && errors[i] is None implies read_result(
        os[k],
        (#[trigger] nodes[i]).hash,
    ) == Ok::<NodeV, StoreError>(nodes[i]) && fresh(v.objects, nodes[i].hash) && !is_hash(
        v.ids,
        nodes[i].hash,
    ) by {
        if i < j {
            assert(nodes[i].hash != nodes[j].hash);
        }
    }
    assert forall|h: Seq<char>|
        (forall|i: int| 0 <= i < k && errors[i] is None ==> (#[trigger] nodes[i]).hash != h) implies #[trigger]
    read_result(os[k], h) == read_result(v.objects, h) by {
        assert(nodes[j].hash != h);
        assert(read_result(os[j], h) == read_result(v.objects, h));
    }
}

/// What settling versions one by one makes of the index: the hash of a document
/// is that of the last version of it, or else what it was.
pub proof fn lemma_settled_hash(v: DbV, ns: Seq<NodeV>, c: Seq<char>, i: Seq<char>)
    ensures
        all_settled(v, ns).objects == v.objects,
        forall|k: int|
            #![trigger ns[k]]
            0 <= k < ns.len() && (ns[k].coll, ns[k].id) == (c, i) && (forall|m: int|
                k < m < ns.len() ==> ((#[trigger] ns[m]).coll, ns[m].id) != (c, i)) ==> hash_of(
                all_settled(v, ns).ids,
                c,
                i,
            ) == Some(ns[k].hash),
        (forall|m: int| 0 <= m < ns.len() ==> ((#[trigger] ns[m]).coll, ns[m].id) != (c, i))
            ==> hash_of(all_settled(v, ns).ids, c, i) == hash_of(v.ids, c, i),
        forall|h: Seq<char>|
            is_hash_of(all_settled(v, ns), c, i, h) ==> is_hash_of(v, c, i, h) || exists|m: int|
                0 <= m < ns.len() && (#[trigger] ns[m]).hash == h,
    decreases ns.len(),
{
    if ns.len() > 0 {
        let head = ns.drop_last();
        let n = ns.last();
        lemma_settled_hash(v, head, c, i);
        let u = all_settled(v, head);
        let w = all_settled(v, ns);
        assert(w == settled(unsorted(u, n.coll, n.id), n));
        assert(ns[ns.len() - 1] == n);
        if (n.coll, n.id) == (c, i) {
            assert(hash_of(w.ids, c, i) == Some(n.hash));
        } else {
            assert(hash_of(w.ids, c, i) == hash_of(u.ids, c, i));
            assert forall|k: int|
                #![trigger ns[k]]
                0 <= k < ns.len() && (ns[k].coll, ns[k].id) == (c, i) && (forall|m: int|
                    k < m < ns.len() ==> ((#[trigger] ns[m]).coll, ns[m].id) != (c, i)) implies hash_of(
                w.ids,
                c,
                i,
            ) == Some(ns[k].hash) by {
                assert(head[k] == ns[k]);
                assert forall|m: int| k < m < head.len() implies ((#[trigger] head[m]).coll, head[m].id)
                    != (c, i) by {
                    assert(head[m] == ns[m]);
                }
            }
        }
        if forall|m: int| 0 <= m < ns.len() ==> ((#[trigger] ns[m]).coll, ns[m].id) != (c, i) {
            assert forall|m: int| 0 <= m < head.len() implies ((#[trigger] head[m]).coll, head[m].id)
                != (c, i) by {
                assert(head[m] == ns[m]);
            }
        }
        assert forall|h: Seq<char>| is_hash_of(w, c, i, h) implies is_hash_of(v, c, i, h) || exists|
            m: int,
        |
            0 <= m < ns.len() && (#[trigger] ns[m]).hash == h by {
            if is_hash_of(u, c, i, h) && !is_hash_of(v, c, i, h) {
                let m = choose|m: int| 0 <= m < head.len() && (#[trigger] head[m]).hash == h;
                assert(ns[m] == head[m]);
            }
        }
    }
}

pub open spec fn is_hash_of(v: DbV, c: Seq<char>, i: Seq<char>, h: Seq<char>) -> bool {
    hash_of(v.ids, c, i) == Some(h)
}

/// After a batch, the last version that it wrote of a document is the current
/// one. Documents that it did not write are as they were.
pub proof fn lemma_batch_then_get(
    v: DbV,
    ops: Seq<PutOp>,
    ts: Num,
    nodes: Seq<NodeV>,
    errors: Seq<Option<StoreError>>,
    os: Seq<ObjV>,
    w: DbV,
    c: Seq<char>,
    i: Seq<char>,
)
    requires
        batch_tried(v, ops, ts, nodes, errors, os),
        orderly(v),
        told_apart(v, ops, ts, nodes, errors, os),
        first_error(errors) is None,
        v.seq + nodes.len() <= u64::MAX,
        w == all_settled(
            DbV { objects: os.last(), seq: (v.seq + nodes.len()) as u64, ..v },
            nodes,
        ),
    ensures
        forall|k: int|
            #![trigger nodes[k]]
            0 <= k < nodes.len() && (nodes[k].coll, nodes[k].id) == (c, i) && (forall|m: int|
                k < m < nodes.len() ==> ((#[trigger] nodes[m]).coll, nodes[m].id) != (c, i))
                ==> current(w, c, i) == Some(nodes[k]),
        (forall|m: int| 0 <= m < nodes.len() ==> ((#[trigger] nodes[m]).coll, nodes[m].id) != (c, i))
            ==> current(w, c, i) == current(v, c, i),
{
    let tried = DbV { objects: os.last(), seq: (v.seq + nodes.len()) as u64, ..v };
    lemma_batch_written(v, ops, ts, nodes, errors, os, nodes.len() as int);
    lemma_no_errors(errors);
    lemma_settled_hash(tried, nodes, c, i);
    if let Some(h) = hash_of(v.ids, c, i) {
        assert(is_hash(v.ids, h));
        assert forall|m: int| 0 <= m < nodes.len() implies (#[trigger] nodes[m]).hash != h by {}
        assert(read_result(os.last(), h) == read_result(v.objects, h));
    }
}

/// Time travel: a batch changes nothing of what was current at earlier writes,
/// for any document, and keeps the past in order.
pub proof fn lemma_batch_time_travel(
    v: DbV,
    ops: Seq<PutOp>,
    ts: Num,
    nodes: Seq<NodeV>,
    errors: Seq<Option<StoreError>>,
    os: Seq<ObjV>,
    w: DbV,
    c: Seq<char>,
    i: Seq<char>,
    target: u64,
)
    requires
        batch_tried(v, ops, ts, nodes, errors, os),
        orderly(v),
        told_apart(v, ops, ts, nodes, errors, os),
        first_error(errors) is None,
        v.seq + nodes.len() <= u64::MAX,
        w == all_settled(
            DbV { objects: os.last(), seq: (v.seq + nodes.len()) as u64, ..v },
            nodes,
        ),
    ensures
        orderly(w),
        target < v.seq ==> as_of(w, c, i, target) == as_of(v, c, i, target),
{
    lemma_batch_writes(v, ops, ts, nodes, errors, os, w);
    lemma_writes_orderly(v, nodes, w);
    if target < v.seq {
        lemma_writes_keep(v, nodes, w, c, i, target);
    }
}

proof fn lemma_batch_writes(
    v: DbV,
    ops: Seq<PutOp>,
    ts: Num,
    nodes: Seq<NodeV>,
    errors: Seq<Option<StoreError>>,
    os: Seq<ObjV>,
    w: DbV,
)
    requires
        batch_tried(v, ops, ts, nodes, errors, os),
        orderly(v),
        told_apart(v, ops, ts, nodes, errors, os),
        first_error(errors) is None,
        v.seq + nodes.len() <= u64::MAX,
        w == all_settled(
            DbV { objects: os.last(), seq: (v.seq + nodes.len()) as u64, ..v },
            nodes,
        ),
    ensures
        writes(v, nodes, w),
        objects_orderly(w.objects, w.seq as int),
{
    let tried = DbV { objects: os.last(), seq: (v.seq + nodes.len()) as u64, ..v };
    let news = hashes_of(nodes);
    lemma_batch_written(v, ops, ts, nodes, errors, os, nodes.len() as int);
    lemma_no_errors(errors);
    lemma_settled_seq(tried, nodes);
    lemma_settled_hash(tried, nodes, Seq::empty(), Seq::empty());
    assert forall|k: Seq<char>| !news.contains(k) implies #[trigger] read_result(w.objects, k)
        == read_result(v.objects, k) by {
        assert forall|m: int| 0 <= m < nodes.len() implies (#[trigger] nodes[m]).hash != k by {}
    }
    assert forall|k: int| 0 <= k < nodes.len() implies follows(v, #[trigger] nodes[k], w) by {
        let n = batch_version(v, ops[k], k, ts);
        assert(nodes[k] == (NodeV { hash: nodes[k].hash, ..n }));
    }
    assert forall|c: Seq<char>, i: Seq<char>| #[trigger]
        hash_of(w.ids, c, i) == hash_of(v.ids, c, i) || exists|k: int|
            0 <= k < nodes.len() && nodes[k].coll == c && nodes[k].id == i && hash_of(w.ids, c, i)
                == Some((#[trigger] nodes[k]).hash) by {
        lemma_settled_hash(tried, nodes, c, i);
        lemma_last_of(nodes, c, i);
        let k = last_of(nodes, c, i);
        if k >= 0 {
            assert(hash_of(w.ids, c, i) == Some(nodes[k].hash));
        }
    }
}

/// The versions of a batch that were written.
pub open spec fn written_ones(nodes: Seq<NodeV>, errors: Seq<Option<StoreError>>) -> Seq<NodeV>
    decreases nodes.len(),
{
    if nodes.len() == 0 {
        Seq::empty()
    } else {
        let before = written_ones(nodes.drop_last(), errors);
        if errors[nodes.len() - 1] is None {
            before.push(nodes.last())
        } else {
            before
        }
    }
}

proof fn lemma_written_ones(nodes: Seq<NodeV>, errors: Seq<Option<StoreError>>)
    ensures
        forall|k: int|
            0 <= k < written_ones(nodes, errors).len() ==> was_written(
                nodes,
                errors,
                #[trigger] written_ones(nodes, errors)[k],
            ),
        forall|i: int|
            0 <= i < nodes.len() && errors[i] is None ==> written_ones(nodes, errors).contains(
                #[trigger] nodes[i],
            ),
    decreases nodes.len(),
{
    if nodes.len() > 0 {
        let head = nodes.drop_last();
        let before = written_ones(head, errors);
        let all = written_ones(nodes, errors);
        lemma_written_ones(head, errors);
        assert forall|k: int| 0 <= k < all.len() implies was_written(
            nodes,
            errors,
            #[trigger] all[k],
        ) by {
            if k < before.len() {
                assert(all[k] == before[k]);
                assert(was_written(head, errors, before[k]));
                let i = choose|i: int|
                    0 <= i < head.len() && errors[i] is None && #[trigger] head[i] == before[k];
                assert(nodes[i] == before[k]);
            } else {
                assert(nodes[nodes.len() - 1] == all[k]);
            }
        }
        assert forall|i: int| 0 <= i < nodes.len() && errors[i] is None implies all.contains(
            #[trigger] nodes[i],
        ) by {
            if i < head.len() {
                assert(head[i] == nodes[i]);
                let k = choose|k: int| 0 <= k < before.len() && before[k] == nodes[i];
                assert(all[k] == nodes[i]);
            } else {
                assert(all[all.len() - 1] == nodes[i]);
            }
        }
    }
}

/// Whether a version is one of a batch that was written.
pub open spec fn was_written(
    nodes: Seq<NodeV>,
    errors: Seq<Option<StoreError>>,
    n: NodeV,
) -> bool {
    exists|i: int| 0 <= i < nodes.len() && errors[i] is None && #[trigger] nodes[i] == n
}

/// Time travel: a batch of which a write failed changes no document, and
/// nothing of what was current at earlier writes. The past stays in order.
pub proof fn lemma_failed_batch(
    v: DbV,
    ops: Seq<PutOp>,
    ts: Num,
    nodes: Seq<NodeV>,
    errors: Seq<Option<StoreError>>,
    os: Seq<ObjV>,
    w: DbV,
    c: Seq<char>,
    i: Seq<char>,
    target: u64,
)
    requires
        batch_tried(v, ops, ts, nodes, errors, os),
        orderly(v),
        told_apart(v, ops, ts, nodes, errors, os),
        v.seq + nodes.len() <= u64::MAX,
        w == (DbV { objects: os.last(), seq: (v.seq + nodes.len()) as u64, ..v }),
    ensures
        orderly(w),
        current(w, c, i) == current(v, c, i),
        target < v.seq ==> as_of(w, c, i, target) == as_of(v, c, i, target),
{
    let n = nodes.len() as int;
    let ns = written_ones(nodes, errors);
    lemma_batch_written(v, ops, ts, nodes, errors, os, n);
    lemma_written_ones(nodes, errors);
    assert forall|h: Seq<char>| #[trigger] hashes_of(ns).contains(h) implies fresh(v.objects, h) by {
        let k = choose|k: int| 0 <= k < ns.len() && (#[trigger] ns[k]).hash == h;
        assert(was_written(nodes, errors, ns[k]));
        let m = choose|m: int|
            0 <= m < nodes.len() && errors[m] is None && #[trigger] nodes[m] == ns[k];
        assert(fresh(v.objects, nodes[m].hash));
    }
    assert forall|h: Seq<char>| !hashes_of(ns).contains(h) implies #[trigger] read_result(
        w.objects,
        h,
    ) == read_result(v.objects, h) by {
        assert forall|m: int| 0 <= m < n && errors[m] is None implies (#[trigger] nodes[m]).hash != h by {
            assert(ns.contains(nodes[m]));
            let k = choose|k: int| 0 <= k < ns.len() && ns[k] == nodes[m];
            assert(ns[k].hash == nodes[m].hash);
        }
    }
    assert forall|k: int| 0 <= k < ns.len() implies follows(v, #[trigger] ns[k], w) by {
        assert(was_written(nodes, errors, ns[k]));
        let m = choose|m: int|
            0 <= m < nodes.len() && errors[m] is None && #[trigger] nodes[m] == ns[k];
        assert(nodes[m] == (NodeV { hash: nodes[m].hash, ..batch_version(v, ops[m], m, ts) }));
    }
    assert(writes(v, ns, w));
    lemma_writes_orderly(v, ns, w);
    if target < v.seq {
        lemma_writes_keep(v, ns, w, c, i, target);
    }
    if let Some(h) = hash_of(v.ids, c, i) {
        if hashes_of(ns).contains(h) {
            assert(fresh(v.objects, h));
        }
        assert(read_result(w.objects, h) == read_result(v.objects, h));
    }
}

/// The last version of a document, if there is one.
spec fn last_of(ns: Seq<NodeV>, c: Seq<char>, i: Seq<char>) -> int
    decreases ns.len(),
{
    if ns.len() == 0 {
        -1
    } else if (ns.last().coll, ns.last().id) == (c, i) {
        ns.len() - 1
    } else {
        last_of(ns.drop_last(), c, i)
    }
}

proof fn lemma_last_of(ns: Seq<NodeV>, c: Seq<char>, i: Seq<char>)
    ensures
        -1 <= last_of(ns, c, i) < ns.len(),
        last_of(ns, c, i) >= 0 ==> (ns[last_of(ns, c, i)].coll, ns[last_of(ns, c, i)].id) == (c, i),
        forall|m: int|
            last_of(ns, c, i) < m < ns.len() ==> ((#[trigger] ns[m]).coll, ns[m].id) != (c, i),
    decreases ns.len(),
{
    if ns.len() > 0 {
        let head = ns.drop_last();
        lemma_last_of(head, c, i);
        assert(ns[ns.len() - 1] == ns.last());
        if (ns.last().coll, ns.last().id) != (c, i) {
            assert forall|m: int| last_of(ns, c, i) < m < ns.len() implies ((
            #[trigger] ns[m]).coll, ns[m].id) != (c, i) by {
                if m < head.len() {
                    assert(ns[m] == head[m]);
                }
            }
        }
    }
}

proof fn lemma_settled_seq(v: DbV, ns: Seq<NodeV>)
    ensures
        all_settled(v, ns).seq == v.seq,
    decreases ns.len(),
{
    if ns.len() > 0 {
        lemma_settled_seq(v, ns.drop_last());
    }
}

proof fn lemma_settling_all(v: DbV, ns: Seq<NodeV>, k: int)
    requires
        indexes_exact(v),
        0 <= k <= ns.len(),
        forall|i: int|
            0 <= i < ns.len() ==> read_result(v.objects, (#[trigger] ns[i]).hash) == Ok::<
                NodeV,
                StoreError,
            >(ns[i]) && keys_ascend(doc_fields(ns[i].data)) && !is_hash(v.ids, ns[i].hash),
        forall|i: int, j: int|
            0 <= i < j < ns.len() ==> (#[trigger] ns[i]).hash != (#[trigger] ns[j]).hash,
    ensures
        indexes_exact(all_settled(v, ns.take(k))),
        hashes_true(v) ==> hashes_true(all_settled(v, ns.take(k))),
    decreases k,
{
    if k == 0 {
        assert(all_settled(v, ns.take(0)) == v);
    } else {
        let j = k - 1;
        lemma_settling_all(v, ns, j);
        let before = ns.take(j);
        let u = all_settled(v, before);
        let n = ns[j];
        assert(ns.take(k).drop_last() =~= before);
        assert(ns.take(k).last() == n);
        lemma_settled_hash(v, before, n.coll, n.id);
        assert(!is_hash(u.ids, n.hash)) by {
            if is_hash(u.ids, n.hash) {
                let (c, i) = choose|c: Seq<char>, i: Seq<char>| #[trigger]
                    hash_of(u.ids, c, i) == Some(n.hash);
                lemma_settled_hash(v, before, c, i);
                assert(is_hash_of(u, c, i, n.hash));
                if is_hash_of(v, c, i, n.hash) {
                    assert(is_hash(v.ids, n.hash));
                } else {
                    let m = choose|m: int| 0 <= m < before.len() && (#[trigger] before[m]).hash == n.hash;
                    assert(before[m] == ns[m]);
                    assert(ns[m].hash != ns[j].hash);
                }
            }
        }
        lemma_settling_keeps_indexes(u, n, all_settled(v, ns.take(k)));
    }
}

/// A batch keeps all sorted indexes exact.
pub proof fn lemma_batch_keeps_indexes(
    v: DbV,
    ops: Seq<PutOp>,
    ts: Num,
    nodes: Seq<NodeV>,
    errors: Seq<Option<StoreError>>,
    os: Seq<ObjV>,
    w: DbV,
)
    requires
        batch_tried(v, ops, ts, nodes, errors, os),
        orderly(v),
        told_apart(v, ops, ts, nodes, errors, os),
        first_error(errors) is None,
        v.seq + nodes.len() <= u64::MAX,
        w == all_settled(
            DbV { objects: os.last(), seq: (v.seq + nodes.len()) as u64, ..v },
            nodes,
        ),
        indexes_exact(v),
    ensures
        indexes_exact(w),
        hashes_true(v) ==> hashes_true(w),
{
    let tried = DbV { objects: os.last(), seq: (v.seq + nodes.len()) as u64, ..v };
    lemma_batch_written(v, ops, ts, nodes, errors, os, nodes.len() as int);
    lemma_no_errors(errors);
    assert forall|h: Seq<char>| #[trigger] is_hash(v.ids, h) implies read_result(os.last(), h)
        == read_result(v.objects, h) by {
        assert forall|m: int| 0 <= m < nodes.len() implies (#[trigger] nodes[m]).hash != h by {}
    }
    lemma_objects_keep_indexes(v, tried);
    assert forall|i: int| 0 <= i < nodes.len() implies read_result(
        tried.objects,
        (#[trigger] nodes[i]).hash,
    ) == Ok::<NodeV, StoreError>(nodes[i]) && keys_ascend(doc_fields(nodes[i].data)) && !is_hash(
        tried.ids,
        nodes[i].hash,
    ) by {
        assert(storable(nodes[i]));
    }
    lemma_settling_all(tried, nodes, nodes.len() as int);
    assert(nodes.take(nodes.len() as int) =~= nodes);
}

} // verus!
