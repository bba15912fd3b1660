//! Where the bytes of objects live makes no difference: databases that differ
//! in nothing else answer alike, and go on doing so.

use vstd::prelude::*;
use crate::db::{
    as_of, back_to, before_deletion, current, first_noted, lemma_first_noted, listed, no_later, noted, ordered_by, put_done, unsorted, version,
    versions, walked_back, DbV,
};
use crate::history::{clash, lemma_read_back, lemma_same_way_back};
use crate::index::{hash_of, ids_in};
use crate::node::{storable, NodeV};
use crate::nql::{answer_of, candidates, result_nodes, walked};
use crate::parser::QueryV;
use crate::query_laws::{lemma_all_as_of_same, lists_all};
use crate::store::{read_result, undamaged, written, ObjV};

verus! {

/// Whether two stores give the same for every hash.
pub open spec fn same_objects(a: ObjV, b: ObjV) -> bool {
    forall|k: Seq<char>| #[trigger] read_result(a, k) == read_result(b, k)
}

/// Whether two databases differ at most in where the bytes of their objects
/// live.
pub open spec fn alike(v: DbV, w: DbV) -> bool {
    &&& same_objects(v.objects, w.objects)
    &&& v.ids == w.ids
    &&& v.sorted == w.sorted
    &&& v.graph == w.graph
    &&& v.seq == w.seq
    &&& v.head == w.head
}

proof fn lemma_versions_alike(a: ObjV, b: ObjV, hashes: Seq<Seq<char>>)
    requires
        same_objects(a, b),
    ensures
        versions(a, hashes) == versions(b, hashes),
    decreases hashes.len(),
{
    if hashes.len() > 0 {
        lemma_versions_alike(a, b, hashes.drop_last());
        assert(read_result(a, hashes.last()) == read_result(b, hashes.last()));
    }
}

proof fn lemma_listed_alike(v: DbV, w: DbV, coll: Seq<char>, ids: Seq<Seq<char>>)
    requires
        alike(v, w),
    ensures
        listed(v, coll, ids) == listed(w, coll, ids),
    decreases ids.len(),
{
    if ids.len() > 0 {
        lemma_listed_alike(v, w, coll, ids.drop_last());
        lemma_reads_alike(v, w, coll, ids.last(), 0);
    }
}

proof fn lemma_back_to_alike(a: ObjV, b: ObjV, hash: Seq<char>, target: u64, n: nat)
    requires
        same_objects(a, b),
    ensures
        back_to(a, hash, target, n) == back_to(b, hash, target, n),
    decreases n,
{
    assert(read_result(a, hash) == read_result(b, hash));
    if n > 0 {
        if let Ok(node) = read_result(a, hash) {
            if let Some(p) = node.prev {
                lemma_back_to_alike(a, b, p, target, (n - 1) as nat);
            }
        }
    }
}

proof fn lemma_ways_alike(a: ObjV, b: ObjV, hash: Seq<char>, target: u64)
    requires
        same_objects(a, b),
    ensures
        forall|n: nat| #[trigger] back_to(a, hash, target, n) is Some ==> exists|m: nat| #[trigger]
            back_to(b, hash, target, m) == back_to(a, hash, target, n),
{
    assert forall|n: nat| #[trigger] back_to(a, hash, target, n) is Some implies exists|m: nat|
        #[trigger]
        back_to(b, hash, target, m) == back_to(a, hash, target, n) by {
        lemma_back_to_alike(a, b, hash, target, n);
        assert(back_to(b, hash, target, n) == back_to(a, hash, target, n));
    }
}

pub(crate) proof fn lemma_walks_alike(a: ObjV, b: ObjV, hash: Seq<char>, target: u64)
    requires
        same_objects(a, b),
    ensures
        walked_back(a, hash, target) == walked_back(b, hash, target),
{
    lemma_ways_alike(a, b, hash, target);
    lemma_ways_alike(b, a, hash, target);
    lemma_same_way_back(a, hash, b, hash, target);
}

pub(crate) proof fn lemma_notes_alike(
    a: ObjV,
    b: ObjV,
    coll: Seq<char>,
    id: Seq<char>,
    target: u64,
    h: Seq<char>,
)
    requires
        same_objects(a, b),
    ensures
        noted(a, coll, id, target, h) == noted(b, coll, id, target, h),
        version(a, h) == version(b, h),
{
    assert(read_result(a, h) == read_result(b, h));
    if let Ok(n) = read_result(a, h) {
        if let Some(p) = n.prev {
            assert(read_result(a, p) == read_result(b, p));
        }
    }
}

proof fn lemma_first_alike(
    a: ObjV,
    b: ObjV,
    coll: Seq<char>,
    id: Seq<char>,
    target: u64,
    h: Seq<char>,
)
    requires
        same_objects(a, b),
        first_noted(a, coll, id, target, h),
    ensures
        first_noted(b, coll, id, target, h),
{
    lemma_notes_alike(a, b, coll, id, target, h);
    assert forall|k: Seq<char>| #[trigger] noted(b, coll, id, target, k) implies no_later(
        b,
        h,
        k,
    ) by {
        lemma_notes_alike(a, b, coll, id, target, k);
        assert(no_later(a, h, k));
    }
}

proof fn lemma_deletions_alike(a: ObjV, b: ObjV, coll: Seq<char>, id: Seq<char>, target: u64)
    requires
        same_objects(a, b),
    ensures
        before_deletion(a, coll, id, target) == before_deletion(b, coll, id, target),
{
    if exists|h: Seq<char>| first_noted(a, coll, id, target, h) {
        let x = choose|h: Seq<char>| first_noted(a, coll, id, target, h);
        lemma_first_alike(a, b, coll, id, target, x);
        let y = choose|h: Seq<char>| first_noted(b, coll, id, target, h);
        lemma_first_noted(b, coll, id, target, x, y);
        lemma_notes_alike(a, b, coll, id, target, x);
        lemma_walks_alike(a, b, version(a, x)->0.prev->0, target);
    } else if exists|h: Seq<char>| first_noted(b, coll, id, target, h) {
        let y = choose|h: Seq<char>| first_noted(b, coll, id, target, h);
        lemma_first_alike(b, a, coll, id, target, y);
    }
}

/// Databases that are alike have the same current versions, and had the same
/// at every write.
pub proof fn lemma_reads_alike(v: DbV, w: DbV, coll: Seq<char>, id: Seq<char>, target: u64)
    requires
        alike(v, w),
    ensures
        current(v, coll, id) == current(w, coll, id),
        as_of(v, coll, id, target) == as_of(w, coll, id, target),
{
    if let Some(h) = hash_of(v.ids, coll, id) {
        assert(read_result(v.objects, h) == read_result(w.objects, h));
        lemma_walks_alike(v.objects, w.objects, h, target);
    }
    lemma_deletions_alike(v.objects, w.objects, coll, id, target);
}

proof fn lemma_ordered_alike(
    v: DbV,
    w: DbV,
    coll: Seq<char>,
    field: Seq<char>,
    descending: bool,
    limit: int,
)
    requires
        alike(v, w),
    ensures
        ordered_by(v, coll, field, descending, limit) == ordered_by(
            w,
            coll,
            field,
            descending,
            limit,
        ),
{
    lemma_listed_alike(v, w, coll, ids_in(v.ids, coll));
    assert forall|hs: Seq<Seq<char>>| #[trigger] versions(v.objects, hs) == versions(
        w.objects,
        hs,
    ) by {
        lemma_versions_alike(v.objects, w.objects, hs);
    }
}

proof fn lemma_walked_alike(v: DbV, w: DbV, ns: Seq<NodeV>, reverse: bool, limit: nat)
    requires
        alike(v, w),
    ensures
        walked(v, ns, reverse, limit) == walked(w, ns, reverse, limit),
    decreases ns.len(),
{
    if ns.len() > 0 {
        lemma_walked_alike(v, w, ns.drop_last(), reverse, limit);
        assert forall|hs: Seq<Seq<char>>| #[trigger] versions(v.objects, hs) == versions(
            w.objects,
            hs,
        ) by {
            lemma_versions_alike(v.objects, w.objects, hs);
        }
    }
}

/// Databases that are alike answer every query alike.
pub proof fn lemma_answers_alike(v: DbV, w: DbV, q: QueryV)
    requires
        alike(v, w),
        lists_all(v),
        lists_all(w),
    ensures
        answer_of(v, q) == answer_of(w, q),
{
    let ids = ids_in(v.ids, q.coll);
    lemma_listed_alike(v, w, q.coll, ids);
    if let Some(target) = q.as_of {
        assert forall|i: Seq<char>| #[trigger] as_of(w, q.coll, i, target) == as_of(
            v,
            q.coll,
            i,
            target,
        ) by {
            lemma_reads_alike(v, w, q.coll, i, target);
        }
        lemma_all_as_of_same(v, w, q.coll, target);
    }
    if let Some(field) = q.order_by {
        let limit = crate::nql::fetch_limit(q) as int;
        lemma_ordered_alike(v, w, q.coll, field, q.order_desc, limit);
    }
    assert(candidates(v, q) == candidates(w, q));
    assert forall|ns: Seq<NodeV>, reverse: bool, limit: nat| #[trigger]
        walked(v, ns, reverse, limit) == walked(w, ns, reverse, limit) by {
        lemma_walked_alike(v, w, ns, reverse, limit);
    }
    assert(result_nodes(v, q) == result_nodes(w, q));
}

/// The same write, on databases that are alike and not encrypted, goes under
/// the same hash and leaves them alike.
pub proof fn lemma_writes_alike(
    v: DbV,
    w: DbV,
    n: NodeV,
    a: Seq<char>,
    v2: DbV,
    b: Seq<char>,
    w2: DbV,
)
    requires
        alike(v, w),
        undamaged(v.objects, a),
        undamaged(w.objects, b),
        v.objects.dek is None,
        w.objects.dek is None,
        storable(n),
        put_done(v, n, a, v2),
        put_done(w, n, b, w2),
        !clash(v.objects, n, a),
        !clash(w.objects, n, b),
    ensures
        a == b,
        alike(v2, w2),
{
    let x = choose|content: Seq<u8>| written(v.objects, n, content, a, v2.objects);
    let y = choose|content: Seq<u8>| written(w.objects, n, content, b, w2.objects);
    assert(x == y);
    lemma_read_back(v.objects, n, a, v2.objects);
    lemma_read_back(w.objects, n, b, w2.objects);
    assert forall|k: Seq<char>| #[trigger] read_result(v2.objects, k) == read_result(
        w2.objects,
        k,
    ) by {
        if k != a {
            assert(read_result(v.objects, k) == read_result(w.objects, k));
        }
    }
    if let Some(h) = hash_of(v.ids, n.coll, n.id) {
        assert(read_result(v.objects, h) == read_result(w.objects, h));
    }
    assert(unsorted(v, n.coll, n.id).sorted == unsorted(w, n.coll, n.id).sorted);
}

} // verus!
