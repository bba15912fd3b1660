//! The past: what was written is read back, and what was current at a write
//! stays what a read at that write gives, whatever is written later.

use vstd::prelude::*;
use vstd::utf8::encode_utf8;
use crate::db::{
    as_of, back_to, before_deletion, current, deleted_id, delete_done, first_noted, float_time,
    lemma_back_to, lemma_first_noted, no_later, noted, put_done, tombstone, traced_back, version,
    walked_back, wrote, DbV,
};
use crate::digest::content_hash;
use crate::guarantees::{lemma_history_kept, lemma_written_is_read};
use crate::index::{hash_of, is_hash};
use crate::json::{by_key, field_set, json_fits, json_wf, Json, Num, MAX_DEPTH};
use crate::node::{lemma_by_key, node_bytes, storable, NodeV};
use crate::segment::{found, Found};
use crate::store::{
    content_stored, decoded, holds, plain, read_result, undamaged, written, ObjV, StoreError,
};

verus! {

/// Whether an object that is there and the bytes of a version, though
/// different, have one digest.
pub open spec fn same_digest(v: ObjV, n: NodeV, hash: Seq<char>, there: Seq<u8>, new: Seq<u8>) -> bool {
    &&& there != new
    &&& content_hash(there) == hash
    &&& content_hash(new) == hash
    &&& decoded(there, v.dek, hash) == read_result(v, hash)
    &&& plain(new, v.dek) == Ok::<Seq<u8>, crate::crypto::CryptoError>(node_bytes(n))
}

/// Whether the digest fails to tell a version from another object: one that is
/// there, with other bytes, has the hash that the version is written under.
pub open spec fn clash(v: ObjV, n: NodeV, hash: Seq<char>) -> bool {
    exists|there: Seq<u8>, new: Seq<u8>| same_digest(v, n, hash, there, new)
}

/// What is held or read was stored under its digest.
proof fn lemma_content_of(v: ObjV, hash: Seq<char>)
    requires
        undamaged(v, hash),
        encode_utf8(hash).len() >= 3,
        holds(v, hash) || read_result(v, hash) is Ok,
    ensures
        exists|a: Seq<u8>| #[trigger]
            content_hash(a) == hash && decoded(a, v.dek, hash) == read_result(v, hash),
{
    match v.packed {
        Some(s) => match found(s, hash) {
            Found::Content(c) => {
                assert(content_hash(c) == hash);
            },
            _ => {
                assert(!s.index.locs.contains_key(hash));
                assert(content_hash(v.loose[hash]) == hash);
            },
        },
        None => {
            assert(content_hash(v.loose[hash]) == hash);
        },
    }
}

/// Reading gives back what was written: a version that was written is read
/// under its hash, whether or not the same bytes were there before, and every
/// other hash gives what it gave. What is damaged elsewhere makes no difference.
pub proof fn lemma_read_back(v: ObjV, n: NodeV, hash: Seq<char>, w: ObjV)
    requires
        wrote(v, n, hash, w),
        undamaged(v, hash),
        storable(n),
        !clash(v, n, hash),
    ensures
        read_result(w, hash) == Ok::<NodeV, StoreError>(NodeV { hash, ..n }),
        holds(v, hash) || read_result(v, hash) is Ok ==> read_result(v, hash) == read_result(
            w,
            hash,
        ),
        forall|k: Seq<char>| k != hash ==> #[trigger] read_result(w, k) == read_result(v, k),
        holds(w, hash),
        undamaged(w, hash),
        forall|k: Seq<char>| k != hash ==> #[trigger] undamaged(w, k) == undamaged(v, k),
{
    let content = choose|content: Seq<u8>| written(v, n, content, hash, w);
    assert(content_stored(v, content, w));
    lemma_history_kept(v, n, hash, w);
    if holds(v, hash) || read_result(v, hash) is Ok {
        lemma_content_of(v, hash);
        let a = choose|a: Seq<u8>| #[trigger]
            content_hash(a) == hash && decoded(a, v.dek, hash) == read_result(v, hash);
        if a != content {
            assert(same_digest(v, n, hash, a, content));
        }
    }
    if !holds(v, hash) {
        lemma_written_is_read(v, n, hash, w);
    }
}

/// Whether objects are numbered below a number, and each version that one of
/// them follows is there.
pub open spec fn objects_orderly(v: ObjV, seq: int) -> bool {
    &&& forall|h: Seq<char>| (#[trigger] read_result(v, h)) matches Ok(n) ==> n.seq < seq
    &&& forall|h: Seq<char>| (#[trigger] read_result(v, h)) matches Ok(n) ==> (n.prev matches Some(p)
        ==> read_result(v, p) is Ok)
}

/// Whether a hash is new to the objects: no version is under it, and none
/// names it as the one before it.
pub open spec fn fresh(v: ObjV, hash: Seq<char>) -> bool {
    &&& read_result(v, hash) is Err
    &&& forall|k: Seq<char>| (#[trigger] read_result(v, k)) matches Ok(m) ==> m.prev != Some(hash)
}

/// A version with the next number goes under a new hash, and is read back.
pub proof fn lemma_new_object(v: ObjV, n: NodeV, hash: Seq<char>, w: ObjV)
    requires
        objects_orderly(v, n.seq as int),
        wrote(v, n, hash, w),
        storable(n),
        !clash(v, n, hash),
        undamaged(v, hash),
        n.prev matches Some(p) ==> read_result(v, p) is Ok,
    ensures
        fresh(v, hash),
        read_result(w, hash) == Ok::<NodeV, StoreError>(NodeV { hash, ..n }),
        forall|k: Seq<char>| k != hash ==> #[trigger] read_result(w, k) == read_result(v, k),
        objects_orderly(w, n.seq + 1),
{
    lemma_read_back(v, n, hash, w);
    if let Ok(m) = read_result(v, hash) {
        assert(m.seq < n.seq);
    }
    assert forall|h: Seq<char>| (#[trigger] read_result(w, h)) matches Ok(m) implies (
    read_result(w, h)->Ok_0.prev matches Some(p) ==> read_result(w, p) is Ok) by {
        if h != hash {
            assert(read_result(w, h) == read_result(v, h));
        }
        if let Some(p) = read_result(w, h)->Ok_0.prev {
            assert(read_result(v, p) is Ok);
            assert(p != hash);
            assert(read_result(w, p) == read_result(v, p));
        }
    }
    assert forall|h: Seq<char>| (#[trigger] read_result(w, h)) matches Ok(m) implies read_result(
        w,
        h,
    )->Ok_0.seq < n.seq + 1 by {
        if h != hash {
            assert(read_result(w, h) == read_result(v, h));
        }
    }
}

/// Whether every document that is there can be read, and is the one it is
/// listed as.
pub open spec fn documents_own(v: DbV) -> bool {
    forall|c: Seq<char>, i: Seq<char>|
        (#[trigger] hash_of(v.ids, c, i)) matches Some(h) ==> (version(v.objects, h) matches Some(
            m,
        ) && m.coll == c && m.id == i)
}

/// Whether no document goes back past one of its deletions.
pub open spec fn lives_apart(v: DbV) -> bool {
    forall|c: Seq<char>, i: Seq<char>, t: u64, h: Seq<char>|
        #![trigger traced_back(v, c, i, t), noted(v.objects, c, i, t, h)]
        traced_back(v, c, i, t) is Some ==> !noted(v.objects, c, i, t, h)
}

/// Whether the past of a database is in order: numbers are below that of the
/// next write, nothing that a version follows is missing, and the documents
/// are their own.
pub open spec fn orderly(v: DbV) -> bool {
    &&& objects_orderly(v.objects, v.seq as int)
    &&& documents_own(v)
    &&& lives_apart(v)
}

/// A new database is in order.
pub proof fn lemma_empty_orderly()
    ensures
        orderly(crate::db::empty_db()),
{
}

/// Whether hashes are new to the objects.
pub open spec fn all_fresh(v: ObjV, hashes: Set<Seq<char>>) -> bool {
    forall|h: Seq<char>| #[trigger] hashes.contains(h) ==> fresh(v, h)
}

/// Whether two stores give the same but for some hashes.
pub open spec fn same_but_for(v: ObjV, w: ObjV, hashes: Set<Seq<char>>) -> bool {
    forall|k: Seq<char>| !hashes.contains(k) ==> #[trigger] read_result(w, k) == read_result(v, k)
}

proof fn lemma_way_kept(
    v: ObjV,
    w: ObjV,
    hashes: Set<Seq<char>>,
    from: Seq<char>,
    target: u64,
    n: nat,
)
    requires
        all_fresh(v, hashes),
        same_but_for(v, w, hashes),
        !hashes.contains(from),
    ensures
        back_to(w, from, target, n) == back_to(v, from, target, n),
    decreases n,
{
    assert(read_result(w, from) == read_result(v, from));
    if let Ok(node) = read_result(v, from) {
        if node.seq > target && n > 0 {
            if let Some(p) = node.prev {
                if hashes.contains(p) {
                    assert(fresh(v, p));
                }
                lemma_way_kept(v, w, hashes, p, target, (n - 1) as nat);
            }
        }
    }
}

/// Ways back that find the same come to the same.
pub(crate) proof fn lemma_same_way_back(v: ObjV, a: Seq<char>, w: ObjV, b: Seq<char>, target: u64)
    requires
        forall|n: nat| #[trigger] back_to(v, a, target, n) is Some ==> exists|m: nat| #[trigger]
            back_to(w, b, target, m) == back_to(v, a, target, n),
        forall|m: nat| #[trigger] back_to(w, b, target, m) is Some ==> exists|n: nat| #[trigger]
            back_to(v, a, target, n) == back_to(w, b, target, m),
    ensures
        walked_back(v, a, target) == walked_back(w, b, target),
{
    if exists|n: nat| #[trigger] back_to(v, a, target, n) is Some {
        let n = choose|n: nat| #[trigger] back_to(v, a, target, n) is Some;
        let m = choose|m: nat| #[trigger] back_to(w, b, target, m) == back_to(v, a, target, n);
        assert(back_to(w, b, target, m) is Some);
        let c = choose|n: nat| #[trigger] back_to(w, b, target, n) is Some;
        if c <= m {
            lemma_back_to(w, b, target, c, m);
        } else {
            lemma_back_to(w, b, target, m, c);
        }
    } else if exists|m: nat| #[trigger] back_to(w, b, target, m) is Some {
        let m = choose|m: nat| #[trigger] back_to(w, b, target, m) is Some;
        let n = choose|n: nat| #[trigger] back_to(v, a, target, n) == back_to(w, b, target, m);
        assert(back_to(v, a, target, n) is Some);
    }
}

proof fn lemma_walk_kept(
    v: ObjV,
    w: ObjV,
    hashes: Set<Seq<char>>,
    from: Seq<char>,
    target: u64,
)
    requires
        all_fresh(v, hashes),
        same_but_for(v, w, hashes),
        !hashes.contains(from),
    ensures
        walked_back(w, from, target) == walked_back(v, from, target),
{
    assert forall|m: nat| #[trigger] back_to(v, from, target, m) is Some implies exists|k: nat|
        #[trigger]
        back_to(w, from, target, k) == back_to(v, from, target, m) by {
        lemma_way_kept(v, w, hashes, from, target, m);
        assert(back_to(w, from, target, m) == back_to(v, from, target, m));
    }
    assert forall|m: nat| #[trigger] back_to(w, from, target, m) is Some implies exists|k: nat|
        #[trigger]
        back_to(v, from, target, k) == back_to(w, from, target, m) by {
        lemma_way_kept(v, w, hashes, from, target, m);
        assert(back_to(v, from, target, m) == back_to(w, from, target, m));
    }
    lemma_same_way_back(v, from, w, from, target);
}

/// From a version that was written no later than the write asked for, the way
/// back ends at once; else it goes on at the version before.
proof fn lemma_first_step(v: ObjV, hash: Seq<char>, target: u64)
    requires
        read_result(v, hash) is Ok,
    ensures
        read_result(v, hash)->Ok_0.seq <= target ==> walked_back(v, hash, target) == Some(
            read_result(v, hash)->Ok_0,
        ),
        read_result(v, hash)->Ok_0.seq > target ==> walked_back(v, hash, target) == (match read_result(
            v,
            hash,
        )->Ok_0.prev {
            Some(p) => walked_back(v, p, target),
            None => None,
        }),
{
    let n = read_result(v, hash)->Ok_0;
    if n.seq <= target {
        assert(back_to(v, hash, target, 0) == Some(n));
        let m = choose|m: nat| #[trigger] back_to(v, hash, target, m) is Some;
        lemma_back_to(v, hash, target, 0, m);
    } else {
        match n.prev {
            None => {
                assert forall|m: nat| (#[trigger] back_to(v, hash, target, m)) is None by {}
            },
            Some(p) => {
                assert forall|m: nat| #[trigger] back_to(v, p, target, m) is Some implies exists|
                    k: nat,
                | #[trigger] back_to(v, hash, target, k) == back_to(v, p, target, m) by {
                    assert(back_to(v, hash, target, m + 1) == back_to(v, p, target, m));
                }
                assert forall|k: nat| #[trigger] back_to(v, hash, target, k) is Some implies exists|
                    m: nat,
                | #[trigger] back_to(v, p, target, m) == back_to(v, hash, target, k) by {
                    assert(k > 0);
                    assert(back_to(v, hash, target, k) == back_to(v, p, target, (k - 1) as nat));
                }
                lemma_same_way_back(v, p, v, hash, target);
            },
        }
    }
}

proof fn lemma_note_kept(
    v: ObjV,
    w: ObjV,
    hashes: Set<Seq<char>>,
    c: Seq<char>,
    i: Seq<char>,
    target: u64,
    k: Seq<char>,
)
    requires
        all_fresh(v, hashes),
        same_but_for(v, w, hashes),
        !hashes.contains(k),
    ensures
        noted(w, c, i, target, k) == noted(v, c, i, target, k),
        version(w, k) == version(v, k),
        version(v, k) matches Some(n) ==> (n.prev matches Some(p) ==> !hashes.contains(p)),
{
    assert(read_result(w, k) == read_result(v, k));
    if let Some(n) = version(v, k) {
        if let Some(p) = n.prev {
            if hashes.contains(p) {
                assert(fresh(v, p));
            }
            assert(read_result(w, p) == read_result(v, p));
        }
    }
}

/// What a document was before a deletion is as it was, when no new object notes
/// a deletion of it.
proof fn lemma_before_deletion_kept(
    v: ObjV,
    w: ObjV,
    hashes: Set<Seq<char>>,
    c: Seq<char>,
    i: Seq<char>,
    target: u64,
)
    requires
        all_fresh(v, hashes),
        same_but_for(v, w, hashes),
        forall|k: Seq<char>| hashes.contains(k) ==> !(#[trigger] noted(w, c, i, target, k)),
    ensures
        before_deletion(w, c, i, target) == before_deletion(v, c, i, target),
{
    assert forall|k: Seq<char>| #[trigger] noted(w, c, i, target, k) == noted(
        v,
        c,
        i,
        target,
        k,
    ) by {
        if hashes.contains(k) {
            assert(fresh(v, k));
        } else {
            lemma_note_kept(v, w, hashes, c, i, target, k);
        }
    }
    lemma_same_notes(v, w, hashes, c, i, target);
}

proof fn lemma_same_first(
    v: ObjV,
    w: ObjV,
    c: Seq<char>,
    i: Seq<char>,
    target: u64,
    h: Seq<char>,
)
    requires
        forall|k: Seq<char>| #[trigger]
            noted(w, c, i, target, k) == noted(v, c, i, target, k),
        forall|k: Seq<char>| #[trigger]
            noted(v, c, i, target, k) ==> version(w, k) == version(v, k),
    ensures
        first_noted(v, c, i, target, h) ==> first_noted(w, c, i, target, h),
{
    if first_noted(v, c, i, target, h) {
        assert(noted(w, c, i, target, h) == noted(v, c, i, target, h));
        assert forall|k: Seq<char>| #[trigger] noted(w, c, i, target, k) implies no_later(
            w,
            h,
            k,
        ) by {
            assert(noted(w, c, i, target, k) == noted(v, c, i, target, k));
            assert(no_later(v, h, k));
        }
    }
}

proof fn lemma_same_notes(
    v: ObjV,
    w: ObjV,
    hashes: Set<Seq<char>>,
    c: Seq<char>,
    i: Seq<char>,
    target: u64,
)
    requires
        all_fresh(v, hashes),
        same_but_for(v, w, hashes),
        forall|k: Seq<char>| #[trigger]
            noted(w, c, i, target, k) == noted(v, c, i, target, k),
    ensures
        before_deletion(w, c, i, target) == before_deletion(v, c, i, target),
{
    assert forall|k: Seq<char>| #[trigger] noted(v, c, i, target, k) implies !hashes.contains(k) by {
        if hashes.contains(k) {
            assert(fresh(v, k));
        }
    }
    assert forall|k: Seq<char>| #[trigger] noted(v, c, i, target, k) implies version(w, k)
        == version(v, k) by {
        lemma_note_kept(v, w, hashes, c, i, target, k);
    }
    assert forall|h: Seq<char>| #[trigger] first_noted(w, c, i, target, h) == first_noted(
        v,
        c,
        i,
        target,
        h,
    ) by {
        lemma_same_first(v, w, c, i, target, h);
        lemma_same_first(w, v, c, i, target, h);
    }
    if exists|h: Seq<char>| first_noted(v, c, i, target, h) {
        let a = choose|h: Seq<char>| first_noted(v, c, i, target, h);
        assert(first_noted(w, c, i, target, a));
        let b = choose|h: Seq<char>| first_noted(w, c, i, target, h);
        lemma_first_noted(w, c, i, target, a, b);
        lemma_note_kept(v, w, hashes, c, i, target, a);
        lemma_walk_kept(v, w, hashes, version(v, a)->0.prev->0, target);
    } else {
        assert forall|h: Seq<char>| !first_noted(w, c, i, target, h) by {
            assert(first_noted(w, c, i, target, h) == first_noted(v, c, i, target, h));
        }
    }
}

/// The hashes of versions.
pub open spec fn hashes_of(ns: Seq<NodeV>) -> Set<Seq<char>> {
    Set::new(|h: Seq<char>| exists|i: int| 0 <= i < ns.len() && (#[trigger] ns[i]).hash == h)
}

/// Whether a version was written that follows what was current of its document.
pub open spec fn follows(v: DbV, n: NodeV, w: DbV) -> bool {
    &&& read_result(w.objects, n.hash) == Ok::<NodeV, StoreError>(n)
    &&& n.prev == hash_of(v.ids, n.coll, n.id)
    &&& v.seq <= n.seq
}

/// Whether versions were written, under new hashes, and made current, and
/// nothing else changed.
pub open spec fn writes(v: DbV, ns: Seq<NodeV>, w: DbV) -> bool {
    &&& all_fresh(v.objects, hashes_of(ns))
    &&& same_but_for(v.objects, w.objects, hashes_of(ns))
    &&& forall|k: int| 0 <= k < ns.len() ==> follows(v, #[trigger] ns[k], w)
    &&& forall|c: Seq<char>, i: Seq<char>| #[trigger]
        hash_of(w.ids, c, i) == hash_of(v.ids, c, i) || exists|k: int|
            0 <= k < ns.len() && ns[k].coll == c && ns[k].id == i && hash_of(w.ids, c, i) == Some(
                (#[trigger] ns[k]).hash,
            )
}

proof fn lemma_known_hash(v: DbV, hashes: Set<Seq<char>>, c: Seq<char>, i: Seq<char>)
    requires
        all_fresh(v.objects, hashes),
        documents_own(v),
    ensures
        hash_of(v.ids, c, i) matches Some(h) ==> !hashes.contains(h),
{
    if let Some(h) = hash_of(v.ids, c, i) {
        if hashes.contains(h) {
            assert(fresh(v.objects, h));
        }
    }
}

proof fn lemma_writes_traced(v: DbV, ns: Seq<NodeV>, w: DbV, c: Seq<char>, i: Seq<char>, target: u64)
    requires
        writes(v, ns, w),
        documents_own(v),
        target < v.seq || hash_of(w.ids, c, i) == hash_of(v.ids, c, i),
    ensures
        traced_back(w, c, i, target) == traced_back(v, c, i, target),
{
    let hashes = hashes_of(ns);
    lemma_known_hash(v, hashes, c, i);
    if let Some(h) = hash_of(v.ids, c, i) {
        lemma_walk_kept(v.objects, w.objects, hashes, h, target);
    }
    if hash_of(w.ids, c, i) != hash_of(v.ids, c, i) {
        let k = choose|k: int|
            0 <= k < ns.len() && ns[k].coll == c && ns[k].id == i && hash_of(w.ids, c, i) == Some(
                (#[trigger] ns[k]).hash,
            );
        assert(follows(v, ns[k], w));
        lemma_first_step(w.objects, ns[k].hash, target);
    }
}

/// A version that was put is no note of a deletion.
proof fn lemma_writes_unnoted(
    v: DbV,
    ns: Seq<NodeV>,
    w: DbV,
    c: Seq<char>,
    i: Seq<char>,
    target: u64,
    h: Seq<char>,
)
    requires
        writes(v, ns, w),
        documents_own(v),
        hashes_of(ns).contains(h),
    ensures
        !noted(w.objects, c, i, target, h),
{
    let k = choose|k: int| 0 <= k < ns.len() && (#[trigger] ns[k]).hash == h;
    let n = ns[k];
    assert(follows(v, n, w));
    lemma_known_hash(v, hashes_of(ns), n.coll, n.id);
    if let Some(p) = n.prev {
        assert(hash_of(v.ids, n.coll, n.id) == Some(p));
        assert(read_result(w.objects, p) == read_result(v.objects, p));
        reveal_strlit("_del_");
        assert(("_del_"@ + n.id).len() == n.id.len() + 5);
    }
}

/// Writes change nothing of what was current at earlier writes, for any
/// document, and for documents that they leave alone nothing at all.
proof fn lemma_writes_past(v: DbV, ns: Seq<NodeV>, w: DbV, c: Seq<char>, i: Seq<char>, target: u64)
    requires
        writes(v, ns, w),
        documents_own(v),
        target < v.seq || hash_of(w.ids, c, i) == hash_of(v.ids, c, i),
    ensures
        as_of(w, c, i, target) == as_of(v, c, i, target),
{
    lemma_writes_traced(v, ns, w, c, i, target);
    assert forall|h: Seq<char>| hashes_of(ns).contains(h) implies !(#[trigger] noted(
        w.objects,
        c,
        i,
        target,
        h,
    )) by {
        lemma_writes_unnoted(v, ns, w, c, i, target, h);
    }
    lemma_before_deletion_kept(v.objects, w.objects, hashes_of(ns), c, i, target);
}

/// After writes the documents are their own.
proof fn lemma_writes_own(v: DbV, ns: Seq<NodeV>, w: DbV)
    requires
        writes(v, ns, w),
        documents_own(v),
    ensures
        documents_own(w),
{
    assert forall|c: Seq<char>, i: Seq<char>| (#[trigger] hash_of(w.ids, c, i)) matches Some(
        h,
    ) implies (version(w.objects, hash_of(w.ids, c, i)->0) matches Some(m) && m.coll == c && m.id
        == i) by {
        if hash_of(w.ids, c, i) == hash_of(v.ids, c, i) {
            lemma_known_hash(v, hashes_of(ns), c, i);
            let h = hash_of(v.ids, c, i)->0;
            assert(read_result(w.objects, h) == read_result(v.objects, h));
        } else {
            let k = choose|k: int|
                0 <= k < ns.len() && ns[k].coll == c && ns[k].id == i && hash_of(w.ids, c, i)
                    == Some((#[trigger] ns[k]).hash);
            assert(follows(v, ns[k], w));
        }
    }
}

/// The past stays in order when versions are written.
pub(crate) proof fn lemma_writes_orderly(v: DbV, ns: Seq<NodeV>, w: DbV)
    requires
        orderly(v),
        writes(v, ns, w),
        objects_orderly(w.objects, w.seq as int),
    ensures
        orderly(w),
{
    lemma_writes_own(v, ns, w);
    assert forall|c: Seq<char>, i: Seq<char>, t: u64, h: Seq<char>|
        #![trigger traced_back(w, c, i, t), noted(w.objects, c, i, t, h)]
        traced_back(w, c, i, t) is Some implies !noted(w.objects, c, i, t, h) by {
        if noted(w.objects, c, i, t, h) {
            if hashes_of(ns).contains(h) {
                lemma_writes_unnoted(v, ns, w, c, i, t, h);
            } else {
                lemma_note_kept(v.objects, w.objects, hashes_of(ns), c, i, t, h);
                assert(noted(v.objects, c, i, t, h));
                assert(read_result(v.objects, h)->Ok_0.seq < v.seq);
                lemma_writes_traced(v, ns, w, c, i, t);
                assert(traced_back(v, c, i, t) is Some);
            }
        }
    }
}

pub(crate) proof fn lemma_writes_keep(
    v: DbV,
    ns: Seq<NodeV>,
    w: DbV,
    c: Seq<char>,
    i: Seq<char>,
    target: u64,
)
    requires
        orderly(v),
        writes(v, ns, w),
        target < v.seq,
    ensures
        as_of(w, c, i, target) == as_of(v, c, i, target),
{
    lemma_writes_past(v, ns, w, c, i, target);
}

/// Whether a version, the next of its document, was put.
pub open spec fn put_step(v: DbV, n: NodeV, hash: Seq<char>, w: DbV) -> bool {
    &&& put_done(v, n, hash, w)
    &&& n.seq == v.seq
    &&& v.seq < u64::MAX
    &&& n.prev == hash_of(v.ids, n.coll, n.id)
    &&& storable(n)
    &&& !clash(v.objects, n, hash)
    &&& undamaged(v.objects, hash)
}

proof fn lemma_put_writes(v: DbV, n: NodeV, hash: Seq<char>, w: DbV)
    requires
        orderly(v),
        put_step(v, n, hash, w),
    ensures
        writes(v, seq![NodeV { hash, ..n }], w),
        objects_orderly(w.objects, w.seq as int),
        w.seq == v.seq + 1,
{
    let m = NodeV { hash, ..n };
    let ns = seq![m];
    if let Some(p) = n.prev {
        assert(hash_of(v.ids, n.coll, n.id) == Some(p));
        assert(version(v.objects, p) is Some);
    }
    lemma_new_object(v.objects, n, hash, w.objects);
    assert(ns[0] == m);
    assert(hashes_of(ns).contains(hash));
    assert forall|h: Seq<char>| #[trigger] hashes_of(ns).contains(h) implies h == hash by {}
    assert forall|k: Seq<char>| !hashes_of(ns).contains(k) implies #[trigger] read_result(
        w.objects,
        k,
    ) == read_result(v.objects, k) by {
        assert(k != hash);
    }
    assert(follows(v, m, w));
    assert forall|c: Seq<char>, i: Seq<char>| #[trigger]
        hash_of(w.ids, c, i) == hash_of(v.ids, c, i) || exists|k: int|
            0 <= k < ns.len() && ns[k].coll == c && ns[k].id == i && hash_of(w.ids, c, i) == Some(
                (#[trigger] ns[k]).hash,
            ) by {
        if c == n.coll && i == n.id {
            assert(hash_of(w.ids, c, i) == Some(ns[0].hash));
        }
    }
}

/// A version that is put goes under a new hash.
pub proof fn lemma_put_fresh(v: DbV, n: NodeV, hash: Seq<char>, w: DbV)
    requires
        orderly(v),
        put_step(v, n, hash, w),
    ensures
        fresh(v.objects, hash),
        !is_hash(v.ids, hash),
        read_result(w.objects, hash) == Ok::<NodeV, StoreError>(NodeV { hash, ..n }),
        forall|k: Seq<char>| k != hash ==> #[trigger] read_result(w.objects, k) == read_result(
            v.objects,
            k,
        ),
{
    if let Some(p) = n.prev {
        assert(hash_of(v.ids, n.coll, n.id) == Some(p));
        assert(version(v.objects, p) is Some);
    }
    lemma_new_object(v.objects, n, hash, w.objects);
    lemma_no_document(v, hash);
}

proof fn lemma_no_document(v: DbV, hash: Seq<char>)
    requires
        documents_own(v),
        fresh(v.objects, hash),
    ensures
        !is_hash(v.ids, hash),
{
    if is_hash(v.ids, hash) {
        let (c, i) = choose|c: Seq<char>, i: Seq<char>| #[trigger]
            hash_of(v.ids, c, i) == Some(hash);
        assert(hash_of(v.ids, c, i) == Some(hash));
    }
}

/// Whether nothing that is missing has a hash: either it is there, or no
/// version and no document names it.
pub open spec fn unmissed(v: DbV, hash: Seq<char>) -> bool {
    read_result(v.objects, hash) is Ok || fresh(v.objects, hash) && !is_hash(v.ids, hash)
}

/// Whether what is current of a document, if it can be read, is a version of
/// that document.
pub open spec fn owned(v: DbV, c: Seq<char>, i: Seq<char>) -> bool {
    hash_of(v.ids, c, i) matches Some(h) ==> (version(v.objects, h) matches Some(m) ==> m.coll == c
        && m.id == i)
}

/// Time travel: a write changes nothing of what was current at earlier writes,
/// for any document. This holds of any database, whatever it misses or has
/// damaged, unless the write brings back just what was missing.
pub proof fn lemma_put_keeps_past(
    v: DbV,
    n: NodeV,
    hash: Seq<char>,
    w: DbV,
    c: Seq<char>,
    i: Seq<char>,
    target: u64,
)
    requires
        put_step(v, n, hash, w),
        unmissed(v, hash),
        owned(v, n.coll, n.id),
        target < v.seq,
    ensures
        as_of(w, c, i, target) == as_of(v, c, i, target),
{
    let o = v.objects;
    let p = w.objects;
    let m = NodeV { hash, ..n };
    lemma_read_back(o, n, hash, p);
    let hashes: Set<Seq<char>> = if read_result(o, hash) is Ok {
        Set::empty()
    } else {
        set![hash]
    };
    assert(all_fresh(o, hashes));
    assert forall|k: Seq<char>| !hashes.contains(k) implies #[trigger] read_result(p, k)
        == read_result(o, k) by {
        if k == hash {
            assert(read_result(o, hash) is Ok);
        }
    }
    assert forall|d: Seq<char>, j: Seq<char>| (#[trigger] hash_of(v.ids, d, j)) matches Some(
        h,
    ) implies !hashes.contains(hash_of(v.ids, d, j)->0) by {
        if hashes.contains(hash_of(v.ids, d, j)->0) {
            assert(is_hash(v.ids, hash));
        }
    }
    if let Some(h) = hash_of(v.ids, c, i) {
        lemma_walk_kept(o, p, hashes, h, target);
    }
    if (c, i) == (n.coll, n.id) {
        lemma_first_step(p, hash, target);
    }
    assert(traced_back(w, c, i, target) == traced_back(v, c, i, target));
    assert forall|k: Seq<char>| hashes.contains(k) implies !(#[trigger] noted(p, c, i, target, k)) by {
        if let Some(q) = n.prev {
            assert(hash_of(v.ids, n.coll, n.id) == Some(q));
            assert(read_result(p, q) == read_result(o, q));
            reveal_strlit("_del_");
            assert(("_del_"@ + n.id).len() == n.id.len() + 5);
        }
        assert(version(p, hash) == Some(m));
    }
    lemma_before_deletion_kept(o, p, hashes, c, i, target);
}

/// Time travel: a write changes nothing of what was current at earlier writes,
/// for any document. From the write on, the version that was written is what
/// was current. The past stays in order.
pub proof fn lemma_time_travel(
    v: DbV,
    n: NodeV,
    hash: Seq<char>,
    w: DbV,
    c: Seq<char>,
    i: Seq<char>,
    target: u64,
)
    requires
        orderly(v),
        put_step(v, n, hash, w),
    ensures
        orderly(w),
        (c, i) != (n.coll, n.id) || target < n.seq ==> as_of(w, c, i, target) == as_of(
            v,
            c,
            i,
            target,
        ),
        (c, i) == (n.coll, n.id) && target >= n.seq ==> as_of(w, c, i, target) == Some(
            (NodeV { hash, ..n }),
        ),
{
    let ns = seq![NodeV { hash, ..n }];
    lemma_put_writes(v, n, hash, w);
    lemma_writes_orderly(v, ns, w);
    if (c, i) != (n.coll, n.id) || target < n.seq {
        lemma_writes_past(v, ns, w, c, i, target);
    } else {
        assert(follows(v, ns[0], w));
        lemma_first_step(w.objects, hash, target);
    }
}

/// A snapshot: what is current of a document is what is read as of the number
/// of the last write.
pub proof fn lemma_snapshot(v: DbV, c: Seq<char>, i: Seq<char>)
    requires
        orderly(v),
        v.seq > 0,
    ensures
        as_of(v, c, i, (v.seq - 1) as u64) == current(v, c, i),
{
    let last = (v.seq - 1) as u64;
    match hash_of(v.ids, c, i) {
        Some(h) => {
            assert(version(v.objects, h) is Some);
            lemma_first_step(v.objects, h, last);
        },
        None => {
            assert forall|h: Seq<char>| !first_noted(v.objects, c, i, last, h) by {
                if noted(v.objects, c, i, last, h) {
                    assert(read_result(v.objects, h)->Ok_0.seq < v.seq);
                }
            }
        },
    }
}

/// Putting a document: the version that was written has the next number and a
/// hash of 64 hexadecimal digits, and is the current one afterwards. The
/// current versions of other documents, and the version before it, are as they
/// were. This holds whether or not the same bytes were there before, and
/// whatever else is damaged.
pub proof fn lemma_put_then_get(v: DbV, n: NodeV, hash: Seq<char>, w: DbV)
    requires
        put_done(v, n, hash, w),
        undamaged(v.objects, hash),
        storable(n),
        !clash(v.objects, n, hash),
        v.seq < u64::MAX,
    ensures
        w.seq == v.seq + 1,
        hash.len() == 64,
        crate::digest::is_hex(hash),
        hash_of(w.ids, n.coll, n.id) == Some(hash),
        current(w, n.coll, n.id) == Some((NodeV { hash, ..n })),
        version(w.objects, hash) == Some((NodeV { hash, ..n })),
        forall|c: Seq<char>, i: Seq<char>|
            (c, i) != (n.coll, n.id) && (current(v, c, i) is Some || hash_of(v.ids, c, i) != Some(
                hash,
            )) ==> #[trigger] current(w, c, i) == current(v, c, i),
        forall|k: Seq<char>|
            version(v.objects, k) is Some ==> #[trigger] version(w.objects, k) == version(
                v.objects,
                k,
            ),
        undamaged(w.objects, hash),
{
    lemma_read_back(v.objects, n, hash, w.objects);
    let content = choose|content: Seq<u8>| written(v.objects, n, content, hash, w.objects);
    crate::digest::lemma_content_hash(content);
    assert forall|k: Seq<char>| version(v.objects, k) is Some implies #[trigger] version(
        w.objects,
        k,
    ) == version(v.objects, k) by {
        if k != hash {
            assert(read_result(w.objects, k) == read_result(v.objects, k));
        }
    }
    assert forall|c: Seq<char>, i: Seq<char>|
        (c, i) != (n.coll, n.id) && (current(v, c, i) is Some || hash_of(v.ids, c, i) != Some(
            hash,
        )) implies #[trigger] current(w, c, i) == current(v, c, i) by {
        assert(hash_of(w.ids, c, i) == hash_of(v.ids, c, i));
        if let Some(h) = hash_of(v.ids, c, i) {
            if h != hash {
                assert(read_result(w.objects, h) == read_result(v.objects, h));
            }
        }
    }
}

/// A write that failed changes nothing of the past.
pub(crate) proof fn lemma_failed_write(v: DbV, w: DbV, c: Seq<char>, i: Seq<char>, target: u64)
    requires
        orderly(v),
        v.seq < u64::MAX,
        w == (DbV { seq: (v.seq + 1) as u64, ..v }),
    ensures
        orderly(w),
        as_of(w, c, i, target) == as_of(v, c, i, target),
{
    let ns = Seq::<NodeV>::empty();
    assert(hashes_of(ns) =~= Set::empty());
    assert forall|h: Seq<char>| (#[trigger] read_result(w.objects, h)) matches Ok(n) implies read_result(
        w.objects,
        h,
    )->Ok_0.seq < w.seq by {
        assert(read_result(v.objects, h)->Ok_0.seq < v.seq);
    }
    assert(writes(v, ns, w));
    lemma_writes_orderly(v, ns, w);
    lemma_writes_past(v, ns, w, c, i, target);
}

/// Whether every object that can be read is listed.
pub open spec fn lists_readable(v: ObjV) -> bool {
    forall|h: Seq<char>| (#[trigger] read_result(v, h)) is Ok ==> crate::store::all_keys(v).contains(
        h,
    )
}

proof fn lemma_first_among(
    v: ObjV,
    c: Seq<char>,
    i: Seq<char>,
    target: u64,
    keys: Seq<Seq<char>>,
    k: Seq<char>,
) -> (h: Seq<char>)
    requires
        keys.contains(k),
        noted(v, c, i, target, k),
    ensures
        noted(v, c, i, target, h),
        forall|x: Seq<char>|
            keys.contains(x) && #[trigger] noted(v, c, i, target, x) ==> no_later(v, h, x),
    decreases keys.len(),
{
    let head = keys.drop_last();
    let last = keys.last();
    assert forall|x: Seq<char>| #[trigger] keys.contains(x) implies x == last || head.contains(x) by {
        let j = choose|j: int| 0 <= j < keys.len() && keys[j] == x;
        if j < head.len() {
            assert(head[j] == x);
        }
    }
    if exists|x: Seq<char>| head.contains(x) && #[trigger] noted(v, c, i, target, x) {
        let x = choose|x: Seq<char>| head.contains(x) && #[trigger] noted(v, c, i, target, x);
        let a = lemma_first_among(v, c, i, target, head, x);
        if !noted(v, c, i, target, last) || no_later(v, a, last) {
            assert forall|y: Seq<char>|
                keys.contains(y) && #[trigger] noted(v, c, i, target, y) implies no_later(
                v,
                a,
                y,
            ) by {}
            a
        } else {
            crate::text::lemma_text_order(a, last);
            crate::text::lemma_text_order(last, last);
            assert forall|y: Seq<char>|
                keys.contains(y) && #[trigger] noted(v, c, i, target, y) implies no_later(
                v,
                last,
                y,
            ) by {
                if y != last {
                    assert(no_later(v, a, y));
                    if version(v, a)->0.seq == version(v, last)->0.seq && version(v, a)->0.seq
                        == version(v, y)->0.seq {
                        crate::text::lemma_bytes_order_transitive(
                            encode_utf8(last),
                            encode_utf8(a),
                            encode_utf8(y),
                        );
                    }
                }
            }
            last
        }
    } else {
        crate::text::lemma_text_order(last, last);
        last
    }
}

/// Where a deletion is noted, one is the first.
proof fn lemma_first_there(v: ObjV, c: Seq<char>, i: Seq<char>, target: u64, k: Seq<char>)
    requires
        lists_readable(v),
        noted(v, c, i, target, k),
    ensures
        exists|h: Seq<char>| first_noted(v, c, i, target, h),
{
    let keys = crate::store::all_keys(v);
    assert(read_result(v, k) is Ok);
    let h = lemma_first_among(v, c, i, target, keys, k);
    assert forall|x: Seq<char>| #[trigger] noted(v, c, i, target, x) implies no_later(v, h, x) by {
        assert(read_result(v, x) is Ok);
    }
    assert(first_noted(v, c, i, target, h));
}

proof fn lemma_all_texts(fields: Seq<(Seq<char>, Json)>, key: Seq<char>, value: Json)
    requires
        value is Text,
        forall|i: int| 0 <= i < fields.len() ==> (#[trigger] fields[i]).1 is Text,
    ensures
        forall|i: int|
            0 <= i < field_set(fields, key, value).len() ==> (#[trigger] field_set(
                fields,
                key,
                value,
            )[i]).1 is Text,
    decreases fields.len(),
{
    if fields.len() > 0 {
        let rest = fields.drop_first();
        assert forall|i: int| 0 <= i < rest.len() implies (#[trigger] rest[i]).1 is Text by {
            assert(rest[i] == fields[i + 1]);
        }
        lemma_all_texts(rest, key, value);
    }
}

/// The note of a deletion can be read back.
pub proof fn lemma_tombstone_storable(
    v: DbV,
    coll: Seq<char>,
    id: Seq<char>,
    prev: Seq<char>,
    ts: Num,
)
    requires
        float_time(ts),
    ensures
        storable(tombstone(v, coll, id, prev, ts)),
{
    let fields = seq![("_deleted"@, Json::Text(id)), ("_prev"@, Json::Text(prev))];
    reveal_strlit("_deleted");
    reveal_strlit("_prev");
    assert("_deleted"@[1] == 'd' && "_prev"@[1] == 'p');
    lemma_by_key(fields);
    assert(fields.drop_last().drop_last() =~= Seq::empty());
    let none = Seq::<(Seq<char>, Json)>::empty();
    assert(by_key(fields.drop_last().drop_last()) =~= none);
    lemma_all_texts(none, fields[0].0, fields[0].1);
    assert(fields.drop_last().last() == fields[0]);
    assert(by_key(fields.drop_last()) == field_set(none, fields[0].0, fields[0].1));
    lemma_all_texts(by_key(fields.drop_last()), fields[1].0, fields[1].1);
    let o = by_key(fields);
    assert(o == field_set(by_key(fields.drop_last()), fields[1].0, fields[1].1));
    assert forall|i: int| 0 <= i < o.len() implies json_wf((#[trigger] o[i]).1) && json_fits(
        o[i].1,
        MAX_DEPTH - 2,
    ) by {
        assert(o[i].1 is Text);
    }
    assert(json_wf(Json::Object(o)));
    assert(json_fits(Json::Object(o), MAX_DEPTH - 1));
}

/// Whether a document that was there was deleted.
pub open spec fn delete_step(
    v: DbV,
    coll: Seq<char>,
    id: Seq<char>,
    prev: Seq<char>,
    ts: Num,
    hash: Seq<char>,
    w: DbV,
) -> bool {
    &&& delete_done(v, tombstone(v, coll, id, prev, ts), prev, coll, id, hash, w)
    &&& hash_of(v.ids, coll, id) == Some(prev)
    &&& float_time(ts)
    &&& v.seq < u64::MAX
    &&& !clash(v.objects, tombstone(v, coll, id, prev, ts), hash)
    &&& undamaged(v.objects, hash)
}

proof fn lemma_delete_objects(
    v: DbV,
    coll: Seq<char>,
    id: Seq<char>,
    prev: Seq<char>,
    ts: Num,
    hash: Seq<char>,
    w: DbV,
)
    requires
        orderly(v),
        delete_step(v, coll, id, prev, ts, hash, w),
    ensures
        all_fresh(v.objects, set![hash]),
        same_but_for(v.objects, w.objects, set![hash]),
        objects_orderly(w.objects, w.seq as int),
        w.seq == v.seq + 1,
        hash != prev,
        forall|c: Seq<char>, i: Seq<char>, t: u64| #[trigger]
            noted(w.objects, c, i, t, hash) <==> c == coll && i == id && t < v.seq,
        version(w.objects, hash) == Some((NodeV { hash, ..tombstone(v, coll, id, prev, ts) })),
{
    let n = tombstone(v, coll, id, prev, ts);
    lemma_tombstone_storable(v, coll, id, prev, ts);
    assert(version(v.objects, prev) is Some);
    lemma_new_object(v.objects, n, hash, w.objects);
    assert(read_result(w.objects, prev) == read_result(v.objects, prev));
    let m = version(v.objects, prev)->0;
    assert(m.coll == coll && m.id == id);
    assert(version(w.objects, hash) == Some((NodeV { hash, ..n })));
    assert(deleted_id(w.objects, NodeV { hash, ..n }) == Some(id));
    assert forall|h: Seq<char>| #[trigger] set![hash].contains(h) implies fresh(v.objects, h) by {}
}

/// The note of a deletion goes under a new hash.
pub proof fn lemma_delete_fresh(
    v: DbV,
    coll: Seq<char>,
    id: Seq<char>,
    prev: Seq<char>,
    ts: Num,
    hash: Seq<char>,
    w: DbV,
)
    requires
        orderly(v),
        delete_step(v, coll, id, prev, ts, hash, w),
    ensures
        fresh(v.objects, hash),
        !is_hash(v.ids, hash),
{
    lemma_delete_objects(v, coll, id, prev, ts, hash, w);
    assert(set![hash].contains(hash));
    lemma_no_document(v, hash);
}

/// Time travel: a deletion changes nothing of what was current at earlier
/// writes, of the document that was deleted as of any other. From the deletion
/// on the document is not there. The past stays in order.
pub proof fn lemma_delete_time_travel(
    v: DbV,
    coll: Seq<char>,
    id: Seq<char>,
    prev: Seq<char>,
    ts: Num,
    hash: Seq<char>,
    w: DbV,
    c: Seq<char>,
    i: Seq<char>,
    target: u64,
)
    requires
        orderly(v),
        lists_readable(v.objects),
        delete_step(v, coll, id, prev, ts, hash, w),
    ensures
        orderly(w),
        (c, i) != (coll, id) || target < v.seq ==> as_of(w, c, i, target) == as_of(v, c, i, target),
        (c, i) == (coll, id) && target >= v.seq ==> as_of(w, c, i, target) is None,
{
    lemma_delete_objects(v, coll, id, prev, ts, hash, w);
    lemma_delete_orderly(v, coll, id, prev, ts, hash, w);
    let o = v.objects;
    let p = w.objects;
    let hashes = set![hash];
    if (c, i) != (coll, id) {
        lemma_known_hash(v, hashes, c, i);
        if let Some(h) = hash_of(v.ids, c, i) {
            lemma_walk_kept(o, p, hashes, h, target);
        }
        lemma_before_deletion_kept(o, p, hashes, c, i, target);
    } else if target >= v.seq {
        assert forall|h: Seq<char>| !first_noted(p, c, i, target, h) by {
            if noted(p, c, i, target, h) {
                assert(read_result(p, h)->Ok_0.seq < w.seq);
            }
        }
    } else {
        lemma_deleted_past(v, coll, id, prev, ts, hash, w, target);
    }
}

proof fn lemma_deleted_past(
    v: DbV,
    coll: Seq<char>,
    id: Seq<char>,
    prev: Seq<char>,
    ts: Num,
    hash: Seq<char>,
    w: DbV,
    target: u64,
)
    requires
        orderly(v),
        lists_readable(v.objects),
        delete_step(v, coll, id, prev, ts, hash, w),
        target < v.seq,
    ensures
        as_of(w, coll, id, target) == as_of(v, coll, id, target),
{
    lemma_delete_objects(v, coll, id, prev, ts, hash, w);
    let o = v.objects;
    let p = w.objects;
    let hashes = set![hash];
    assert(noted(p, coll, id, target, hash));
    assert(traced_back(w, coll, id, target) is None);
    let b = choose|h: Seq<char>| first_noted(p, coll, id, target, h);
    if exists|h: Seq<char>| first_noted(o, coll, id, target, h) {
        let a = choose|h: Seq<char>| first_noted(o, coll, id, target, h);
        assert(noted(o, coll, id, target, a));
        assert(!hashes.contains(a)) by {
            if a == hash {
                assert(fresh(o, a));
            }
        }
        lemma_note_kept(o, p, hashes, coll, id, target, a);
        assert forall|k: Seq<char>| #[trigger] noted(p, coll, id, target, k) implies no_later(
            p,
            a,
            k,
        ) by {
            if k == hash {
                assert(read_result(o, a)->Ok_0.seq < v.seq);
            } else {
                lemma_note_kept(o, p, hashes, coll, id, target, k);
                assert(no_later(o, a, k));
            }
        }
        assert(first_noted(p, coll, id, target, a));
        lemma_first_noted(p, coll, id, target, a, b);
        lemma_walk_kept(o, p, hashes, version(o, a)->0.prev->0, target);
        assert(traced_back(v, coll, id, target) is None);
    } else {
        assert forall|k: Seq<char>| #[trigger] noted(p, coll, id, target, k) implies k == hash by {
            if k != hash {
                lemma_note_kept(o, p, hashes, coll, id, target, k);
                lemma_first_there(o, coll, id, target, k);
            }
        }
        crate::text::lemma_text_order(hash, hash);
        assert(first_noted(p, coll, id, target, hash));
        lemma_first_noted(p, coll, id, target, hash, b);
        lemma_walk_kept(o, p, hashes, prev, target);
    }
}

/// The past stays in order when a document is deleted.
proof fn lemma_delete_orderly(
    v: DbV,
    coll: Seq<char>,
    id: Seq<char>,
    prev: Seq<char>,
    ts: Num,
    hash: Seq<char>,
    w: DbV,
)
    requires
        orderly(v),
        delete_step(v, coll, id, prev, ts, hash, w),
    ensures
        orderly(w),
{
    lemma_delete_objects(v, coll, id, prev, ts, hash, w);
    let hashes = set![hash];
    assert forall|c: Seq<char>, i: Seq<char>| (#[trigger] hash_of(w.ids, c, i)) matches Some(
        h,
    ) implies (version(w.objects, hash_of(w.ids, c, i)->0) matches Some(m) && m.coll == c && m.id
        == i) by {
        assert((c, i) != (coll, id));
        assert(hash_of(v.ids, c, i) == hash_of(w.ids, c, i));
        lemma_known_hash(v, hashes, c, i);
        let h = hash_of(v.ids, c, i)->0;
        assert(read_result(w.objects, h) == read_result(v.objects, h));
    }
    assert forall|c: Seq<char>, i: Seq<char>, t: u64, h: Seq<char>|
        #![trigger traced_back(w, c, i, t), noted(w.objects, c, i, t, h)]
        traced_back(w, c, i, t) is Some implies !noted(w.objects, c, i, t, h) by {
        assert((c, i) != (coll, id));
        assert(hash_of(v.ids, c, i) == hash_of(w.ids, c, i));
        lemma_known_hash(v, hashes, c, i);
        lemma_walk_kept(v.objects, w.objects, hashes, hash_of(v.ids, c, i)->0, t);
        assert(traced_back(v, c, i, t) is Some);
        if noted(w.objects, c, i, t, h) {
            assert(h != hash);
            lemma_note_kept(v.objects, w.objects, hashes, c, i, t, h);
            assert(noted(v.objects, c, i, t, h));
        }
    }
}

} // verus!
