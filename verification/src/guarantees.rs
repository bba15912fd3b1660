//! What the database promises over several operations.

use vstd::prelude::*;
use vstd::utf8::encode_utf8;
use crate::db::{
    causes_added, current, delete_done, delete_outcome, head_after, live_hashes, manifest_read,
    max_seq, put_done, scanned, started, version, versions, wrote, DbV,
};
use crate::digest::content_hash;
use crate::graph::{
    edge_added, edges_added, lemma_traced, reverse_type, successors, traced, EdgeV, GraphV,
};
use crate::index::{hash_of, id_wf, ids_in, is_hash};
use crate::json::Num;
use crate::keyed::without_key;
use crate::node::{storable, NodeV};
use crate::segment::{compacted, data_of, found, Found, SegV};
use crate::store::{
    all_keys, content_put, content_stored, decoded, holds, lemma_only_loose, only_loose, read_result,
    unreadable, written, ObjV, StoreError,
};

verus! {

/// Writing a version keeps what every other hash gives.
pub proof fn lemma_history_kept(v: ObjV, n: NodeV, hash: Seq<char>, w: ObjV)
    requires
        wrote(v, n, hash, w),
    ensures
        forall|k: Seq<char>| k != hash ==> #[trigger] read_result(w, k) == read_result(v, k),
        holds(v, hash) ==> w == v,
{
    let content = choose|content: Seq<u8>| written(v, n, content, hash, w);
    assert(content_stored(v, content, w));
}

/// A version that is written under a hash that is not held is read back under
/// it.
pub(crate) proof fn lemma_written_is_read(v: ObjV, n: NodeV, hash: Seq<char>, w: ObjV)
    requires
        wrote(v, n, hash, w),
        storable(n),
        !holds(v, hash),
    ensures
        read_result(w, hash) == Ok::<NodeV, StoreError>(NodeV { hash, ..n }),
{
    let content = choose|content: Seq<u8>| written(v, n, content, hash, w);
    assert(content_stored(v, content, w));
}

/// Writing a version that is written already, in a store that is not encrypted,
/// gives the same hash and changes nothing.
pub proof fn lemma_write_idempotent(
    v: ObjV,
    n: NodeV,
    a: Seq<char>,
    w: ObjV,
    b: Seq<char>,
    x: ObjV,
)
    requires
        wrote(v, n, a, w),
        wrote(w, NodeV { hash: a, ..n }, b, x),
        v.dek is None,
    ensures
        a == b,
        x == w,
{
    let first = choose|content: Seq<u8>| written(v, n, content, a, w);
    let again = choose|content: Seq<u8>| written(w, NodeV { hash: a, ..n }, content, b, x);
    assert(content_stored(v, first, w));
    assert(again == first);
    assert(content_stored(w, again, x));
}

/// A document that was deleted has no current version and is not listed. What
/// was current of other documents, and every version, is kept.
pub proof fn lemma_deleted(v: DbV, coll: Seq<char>, id: Seq<char>, ts: Num, w: DbV)
    requires
        delete_outcome(v, coll, id, ts, Ok::<bool, StoreError>(true), w),
        id_wf(v.ids),
    ensures
        current(w, coll, id) is None,
        !ids_in(w.ids, coll).contains(id),
        forall|c: Seq<char>, i: Seq<char>|
            (c, i) != (coll, id) ==> #[trigger] hash_of(w.ids, c, i) == hash_of(v.ids, c, i),
        exists|hash: Seq<char>| #[trigger]
            head_after(v.head, v.seq, hash) == w.head && forall|k: Seq<char>|
                k != hash ==> #[trigger] read_result(w.objects, k) == read_result(v.objects, k),
{
    let prev = hash_of(v.ids, coll, id)->0;
    let n = crate::db::tombstone(v, coll, id, prev, ts);
    let hash = choose|hash: Seq<char>| #[trigger] delete_done(v, n, prev, coll, id, hash, w);
    lemma_history_kept(v.objects, n, hash, w.objects);
    let before = ids_in(v.ids, coll);
    assert(v.ids.docs.contains_key((coll, id)));
    assert(before.contains(id));
    assert(before.no_duplicates());
    let after = ids_in(w.ids, coll);
    assert(after == without_key(before, id));
    lemma_without_key(before, id);
}

proof fn lemma_without_key(keys: Seq<Seq<char>>, key: Seq<char>)
    requires
        keys.no_duplicates(),
        keys.contains(key),
    ensures
        !without_key(keys, key).contains(key),
{
    let at = keys.index_of(key);
    let rest = without_key(keys, key);
    assert(keys[at] == key);
    if rest.contains(key) {
        let k = choose|k: int| 0 <= k < rest.len() && rest[k] == key;
        if k == at {
            assert(keys[keys.len() - 1] == key);
            assert(at == keys.len() - 1);
        } else {
            assert(keys[k] == key);
        }
    }
}

/// What is read from files is what was written under the hash: the content has
/// the hash that it was asked for by.
pub proof fn lemma_tamper_evident(v: ObjV, hash: Seq<char>)
    requires
        !v.memory,
        read_result(v, hash) is Ok,
    ensures
        exists|content: Seq<u8>| #[trigger]
            content_hash(content) == hash && decoded(content, v.dek, hash) == read_result(v, hash),
{
    match v.packed {
        Some(s) => {
            match found(s, hash) {
                Found::Content(c) => {
                    assert(content_hash(c) == hash);
                },
                _ => {
                    assert(content_hash(v.loose[hash]) == hash);
                },
            }
        },
        None => {
            assert(content_hash(v.loose[hash]) == hash);
        },
    }
}

/// Verifying finds exactly the objects that cannot be read.
pub proof fn lemma_verify_finds(v: ObjV, keys: Seq<Seq<char>>, hash: Seq<char>)
    ensures
        unreadable(v, keys).contains(hash) <==> keys.contains(hash) && read_result(
            v,
            hash,
        ) is Err,
    decreases keys.len(),
{
    if keys.len() > 0 {
        let head = keys.drop_last();
        let before = unreadable(v, head);
        let all = unreadable(v, keys);
        lemma_verify_finds(v, head, hash);
        if keys.contains(hash) && keys.last() != hash {
            let k = choose|k: int| 0 <= k < keys.len() && keys[k] == hash;
            assert(head[k] == hash);
        }
        if head.contains(hash) {
            let k = choose|k: int| 0 <= k < head.len() && head[k] == hash;
            assert(keys[k] == hash);
        }
        if before.contains(hash) {
            let k = choose|k: int| 0 <= k < before.len() && before[k] == hash;
            assert(all[k] == hash);
        }
        assert(keys[keys.len() - 1] == keys.last());
        if read_result(v, keys.last()) is Err {
            assert(all[all.len() - 1] == keys.last());
            if all.contains(hash) && !before.contains(hash) {
                let k = choose|k: int| 0 <= k < all.len() && all[k] == hash;
                if k < before.len() {
                    assert(before[k] == hash);
                }
            }
        }
    }
}

proof fn lemma_unreadable_once(v: ObjV, keys: Seq<Seq<char>>)
    requires
        keys.no_duplicates(),
    ensures
        unreadable(v, keys).no_duplicates(),
    decreases keys.len(),
{
    if keys.len() > 0 {
        let head = keys.drop_last();
        let before = unreadable(v, head);
        let all = unreadable(v, keys);
        lemma_unreadable_once(v, head);
        lemma_verify_finds(v, head, keys.last());
        assert forall|i: int, j: int| 0 <= i < j < all.len() implies all[i] != all[j] by {
            if j == before.len() {
                assert(all[i] == before[i]);
                assert(before.contains(before[i]));
                if before[i] == keys.last() {
                    let k = choose|k: int| 0 <= k < head.len() && head[k] == keys.last();
                    assert(keys[k] == keys[keys.len() - 1]);
                }
            } else {
                assert(all[i] == before[i] && all[j] == before[j]);
            }
        }
    }
}

/// The bytes that stand in files under a hash.
pub open spec fn bytes_at(v: ObjV, hash: Seq<char>) -> Option<Seq<u8>> {
    if v.packed is Some && v.packed->0.index.locs.contains_key(hash) {
        let loc = v.packed->0.index.locs[hash];
        match data_of(v.packed->0.files, loc.segment_id) {
            Some(data) => if loc.offset + loc.len <= data.len() {
                Some(data.subrange(loc.offset as int, loc.offset + loc.len))
            } else {
                None
            },
            None => None,
        }
    } else if v.loose.contains_key(hash) {
        Some(v.loose[hash])
    } else {
        None
    }
}

/// Whether the bytes under some of the hashes of a store were changed from
/// outside, so that they no longer have those hashes, and nothing else was.
pub open spec fn tampered(v: ObjV, changed: Set<Seq<char>>, w: ObjV) -> bool {
    &&& !v.memory && !w.memory
    &&& w.dek == v.dek
    &&& all_keys(w) == all_keys(v)
    &&& forall|h: Seq<char>| #[trigger]
        changed.contains(h) ==> all_keys(v).contains(h) && (bytes_at(w, h) matches Some(b)
            && content_hash(b) != h)
    &&& forall|h: Seq<char>|
        all_keys(v).contains(h) && !changed.contains(h) ==> #[trigger] bytes_at(w, h) == bytes_at(v, h)
}

/// What is read from files depends on the bytes under the hash alone.
proof fn lemma_read_bytes(v: ObjV, hash: Seq<char>)
    requires
        !v.memory,
    ensures
        (read_result(v, hash) matches Ok(n) ==> (bytes_at(v, hash) matches Some(b) && content_hash(b)
            == hash)),
        encode_utf8(hash).len() >= 3 ==> (bytes_at(v, hash) matches Some(b) ==> read_result(v, hash)
            == (if content_hash(b) == hash {
            decoded(b, v.dek, hash)
        } else {
            Err(StoreError::Tampered)
        })),
{
    match v.packed {
        Some(s) => {
            assert(found(s, hash) is Absent <==> !s.index.locs.contains_key(hash));
        },
        None => {},
    }
}

/// Tampering is found: where the bytes under some hashes were changed from
/// outside, verifying lists just these hashes, each of them once. None of them
/// can be read, and all others give what they gave. It lists nothing just where
/// nothing was changed.
pub proof fn lemma_tampering_found(v: ObjV, changed: Set<Seq<char>>, w: ObjV)
    requires
        tampered(v, changed, w),
        all_keys(v).no_duplicates(),
        healthy(v),
    ensures
        forall|h: Seq<char>| #[trigger]
            unreadable(w, all_keys(w)).contains(h) <==> changed.contains(h),
        unreadable(w, all_keys(w)).no_duplicates(),
        unreadable(w, all_keys(w)).len() == 0 <==> changed == Set::<Seq<char>>::empty(),
        forall|h: Seq<char>| #[trigger]
            changed.contains(h) ==> read_result(w, h) == Err::<NodeV, StoreError>(
                StoreError::Tampered,
            ),
        forall|h: Seq<char>|
            all_keys(v).contains(h) && !changed.contains(h) ==> #[trigger] read_result(w, h)
                == read_result(v, h) && read_result(v, h) is Ok,
{
    let keys = all_keys(v);
    let bad = unreadable(w, keys);
    assert forall|h: Seq<char>| #[trigger] keys.contains(h) implies read_result(v, h) is Ok by {
        lemma_verify_finds(v, keys, h);
        if read_result(v, h) is Err {
            assert(unreadable(v, keys).contains(h));
            let k = choose|k: int| 0 <= k < unreadable(v, keys).len() && unreadable(v, keys)[k] == h;
        }
    }
    assert forall|h: Seq<char>| keys.contains(h) && !changed.contains(h) implies #[trigger] read_result(
        w,
        h,
    ) == read_result(v, h) && read_result(v, h) is Ok by {
        lemma_read_bytes(v, h);
        lemma_read_bytes(w, h);
        assert(bytes_at(w, h) == bytes_at(v, h));
    }
    assert forall|h: Seq<char>| #[trigger] changed.contains(h) implies read_result(w, h) == Err::<
        NodeV,
        StoreError,
    >(StoreError::Tampered) by {
        assert(keys.contains(h));
        assert(read_result(v, h) is Ok);
        lemma_read_bytes(w, h);
    }
    assert forall|h: Seq<char>| #[trigger] bad.contains(h) <==> changed.contains(h) by {
        lemma_verify_finds(w, keys, h);
        if keys.contains(h) && !changed.contains(h) {
            assert(read_result(w, h) == read_result(v, h));
        }
    }
    lemma_unreadable_once(w, keys);
    if bad.len() == 0 {
        assert forall|h: Seq<char>| !changed.contains(h) by {
            assert(bad.contains(h) <==> changed.contains(h));
        }
        assert(changed =~= Set::empty());
    } else {
        assert(bad.contains(bad[0]));
    }
}

proof fn lemma_max_seq(ns: Seq<NodeV>, i: int)
    requires
        0 <= i < ns.len(),
    ensures
        ns[i].seq <= max_seq(ns),
    decreases ns.len(),
{
    if i < ns.len() - 1 {
        lemma_max_seq(ns.drop_last(), i);
    }
}

proof fn lemma_versions_has(v: ObjV, hashes: Seq<Seq<char>>, hash: Seq<char>)
    requires
        hashes.contains(hash),
        version(v, hash) is Some,
    ensures
        versions(v, hashes).contains(version(v, hash)->0),
    decreases hashes.len(),
{
    let all = versions(v, hashes);
    if hashes.last() == hash {
        assert(all[all.len() - 1] == version(v, hash)->0);
    } else {
        let head = hashes.drop_last();
        let k = choose|k: int| 0 <= k < hashes.len() && hashes[k] == hash;
        assert(head[k] == hash);
        lemma_versions_has(v, head, hash);
        let before = versions(v, head);
        let j = choose|j: int| 0 <= j < before.len() && before[j] == version(v, hash)->0;
        assert(all[j] == before[j]);
    }
}

/// After a scan the next number is above that of every version that can be
/// read, so no number is given twice.
pub proof fn lemma_scan_numbers(v: DbV, hash: Seq<char>)
    requires
        !v.ready,
        all_keys(v.objects).contains(hash),
        version(v.objects, hash) matches Some(n) && n.seq < u64::MAX,
    ensures
        version(v.objects, hash)->0.seq < scanned(v).seq || scanned(v).seq == u64::MAX,
        scanned(v).ready,
{
    let keys = all_keys(v.objects);
    let ns = versions(v.objects, keys);
    lemma_versions_has(v.objects, keys, hash);
    let i = choose|i: int| 0 <= i < ns.len() && ns[i] == version(v.objects, hash)->0;
    lemma_max_seq(ns, i);
    assert(keys.len() > 0) by {
        let k = choose|k: int| 0 <= k < keys.len() && keys[k] == hash;
    }
}

/// Starting up with the manifest that was saved restores the number of the next
/// write and the head, and the database is ready at once.
pub proof fn lemma_warm_start(v: DbV, manifest: Seq<u8>, saved: DbV)
    requires
        manifest_read(manifest) == Some((saved.seq, saved.head)),
        v.sorted =~= Map::empty(),
    ensures
        started(v, Some(manifest)).head == saved.head,
        started(v, Some(manifest)).seq == saved.seq,
        started(v, Some(manifest)).ready,
{
}

/// Compaction keeps every current version.
pub proof fn lemma_compaction_keeps_current(v: DbV, s: SegV, w: DbV, t: SegV, c: Seq<char>, i: Seq<char>)
    requires
        v.objects.packed == Some(s),
        w.objects.packed == Some(t),
        w.objects == (ObjV { packed: Some(t), ..v.objects }),
        w.ids == v.ids,
        compacted(s, live_hashes(v.ids), t),
    ensures
        current(w, c, i) == current(v, c, i),
{
    if let Some(h) = hash_of(v.ids, c, i) {
        assert(is_hash(v.ids, h));
        assert(live_hashes(v.ids).contains(h));
        assert(found(t, h) == found(s, h));
    }
}

/// A graph that its list of edges gives is still given by it when an edge was
/// added: writing the edges down and reading them again gives the graph.
pub proof fn lemma_graph_reloads(g: GraphV, e: EdgeV)
    requires
        edges_added(g.edges) == g,
    ensures
        edges_added(edge_added(g, e).edges) == edge_added(g, e),
{
    let h = edge_added(g, e);
    if h != g {
        assert(h.edges.drop_last() =~= g.edges);
    }
}

/// The edges between a version and its causes, too, can be written down and
/// read again.
pub proof fn lemma_causes_reload(g: GraphV, hash: Seq<char>, causes: Seq<Seq<char>>)
    requires
        edges_added(g.edges) == g,
    ensures
        edges_added(causes_added(g, hash, causes).edges) == causes_added(g, hash, causes),
    decreases causes.len(),
{
    if causes.len() > 0 {
        let before = causes_added(g, hash, causes.drop_last());
        let cause = causes.last();
        lemma_causes_reload(g, hash, causes.drop_last());
        lemma_graph_reloads(before, (hash, "caused_by"@, cause));
        lemma_graph_reloads(
            edge_added(before, (hash, "caused_by"@, cause)),
            (cause, "caused_by_rev"@, hash),
        );
    }
}

proof fn lemma_edge_kept(g: GraphV, e: EdgeV, from: Seq<char>, t: Seq<char>, x: Seq<char>)
    requires
        successors(g, from, t).contains(x),
    ensures
        successors(edge_added(g, e), from, t).contains(x),
{
    let was = successors(g, from, t);
    let k = choose|k: int| 0 <= k < was.len() && was[k] == x;
    assert(successors(edge_added(g, e), from, t)[k] == x);
}

proof fn lemma_edge_there(g: GraphV, e: EdgeV)
    ensures
        successors(edge_added(g, e), e.0, e.1).contains(e.2),
{
    let was = successors(g, e.0, e.1);
    if !was.contains(e.2) {
        assert(was.push(e.2)[was.len() as int] == e.2);
    }
}

proof fn lemma_causes_linked(g: GraphV, hash: Seq<char>, causes: Seq<Seq<char>>, k: int)
    requires
        0 <= k < causes.len(),
    ensures
        successors(causes_added(g, hash, causes), hash, "caused_by"@).contains(causes[k]),
        successors(causes_added(g, hash, causes), causes[k], "caused_by_rev"@).contains(hash),
    decreases causes.len(),
{
    let before = causes_added(g, hash, causes.drop_last());
    let there = (hash, "caused_by"@, causes.last());
    let back = (causes.last(), "caused_by_rev"@, hash);
    let mid = edge_added(before, there);
    if k < causes.len() - 1 {
        lemma_causes_linked(g, hash, causes.drop_last(), k);
        assert(causes.drop_last()[k] == causes[k]);
        lemma_edge_kept(before, there, hash, "caused_by"@, causes[k]);
        lemma_edge_kept(mid, back, hash, "caused_by"@, causes[k]);
        lemma_edge_kept(before, there, causes[k], "caused_by_rev"@, hash);
        lemma_edge_kept(mid, back, causes[k], "caused_by_rev"@, hash);
    } else {
        lemma_edge_there(before, there);
        lemma_edge_kept(mid, back, hash, "caused_by"@, causes[k]);
        lemma_edge_there(mid, back);
    }
}

/// Provenance: after a write, a walk along causes from the version that was
/// written visits each of its causes, and a walk back from a cause visits the
/// version, unless a walk stops at its limit before.
pub proof fn lemma_provenance(
    v: DbV,
    n: NodeV,
    hash: Seq<char>,
    w: DbV,
    cause: Seq<char>,
    limit: nat,
)
    requires
        put_done(v, n, hash, w),
        n.caused_by.contains(cause),
    ensures
        ({
            let there = traced(w.graph, hash, "caused_by"@, false, limit);
            let back = traced(w.graph, cause, "caused_by"@, true, limit);
            &&& there.len() < limit ==> there.contains(cause)
            &&& back.len() < limit ==> back.contains(hash)
        }),
{
    let k = choose|k: int| 0 <= k < n.caused_by.len() && n.caused_by[k] == cause;
    lemma_causes_linked(v.graph, hash, n.caused_by, k);
    reveal_strlit("caused_by");
    reveal_strlit("caused_by_rev");
    assert(reverse_type("caused_by"@) =~= "caused_by_rev"@);
    lemma_traced(w.graph, hash, "caused_by"@, false, limit);
    lemma_traced(w.graph, cause, "caused_by"@, true, limit);
    let there = traced(w.graph, hash, "caused_by"@, false, limit);
    let back = traced(w.graph, cause, "caused_by"@, true, limit);
    if limit > 0 {
        assert(there[0] == hash);
        assert(there.contains(hash));
        assert(back[0] == cause);
        assert(back.contains(cause));
    }
}

/// Whether every object can be read.
pub open spec fn healthy(v: ObjV) -> bool {
    unreadable(v, all_keys(v)).len() == 0
}

/// A database whose objects can all be read still has only such objects after
/// a write.
pub proof fn lemma_stays_healthy(v: ObjV, n: NodeV, hash: Seq<char>, w: ObjV)
    requires
        wrote(v, n, hash, w),
        storable(n),
        healthy(v),
    ensures
        healthy(w),
{
    let content = choose|content: Seq<u8>| written(v, n, content, hash, w);
    lemma_history_kept(v, n, hash, w);
    if w != v {
        lemma_written_is_read(v, n, hash, w);
        let bad = unreadable(w, all_keys(w));
        if bad.len() > 0 {
            let k = bad[0];
            assert(bad.contains(k));
            lemma_verify_finds(w, all_keys(w), k);
            if k != hash {
                lemma_keys_after(v, content, w, k);
                lemma_verify_finds(v, all_keys(v), k);
                assert(unreadable(v, all_keys(v)).contains(k));
                let j = choose|j: int| 0 <= j < unreadable(v, all_keys(v)).len()
                    && unreadable(v, all_keys(v))[j] == k;
            }
        }
    }
}

/// Storing a content brings in no other hash than its own.
proof fn lemma_keys_after(v: ObjV, content: Seq<u8>, w: ObjV, k: Seq<char>)
    requires
        content_put(v, content) == Ok::<ObjV, StoreError>(w),
        all_keys(w).contains(k),
        k != content_hash(content),
    ensures
        all_keys(v).contains(k),
{
    let hash = content_hash(content);
    let was = all_keys(v);
    let now = all_keys(w);
    let i = choose|i: int| 0 <= i < now.len() && now[i] == k;
    match (v.packed, w.packed) {
        (Some(s), Some(t)) => {
            lemma_only_loose(v.keys, s.index.locs.dom(), k);
            lemma_only_loose(v.keys, t.index.locs.dom(), k);
            let loose = only_loose(v.keys, s.index.locs.dom());
            if i < t.index.keys.len() {
                assert(t.index.keys[i] == k);
                assert(s.index.keys[i] == k);
                assert(was[i] == k);
            } else {
                let rest = only_loose(v.keys, t.index.locs.dom());
                assert(rest[i - t.index.keys.len()] == k);
                assert(loose.contains(k));
                let j = choose|j: int| 0 <= j < loose.len() && loose[j] == k;
                assert(was[s.index.keys.len() + j] == k);
            }
        },
        _ => {
            assert(was[i] == k);
        },
    }
}

} // verus!
