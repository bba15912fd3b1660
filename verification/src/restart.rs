//! A database comes back: opening what its files hold gives every document,
//! every version, the graph and the head as they were.

use vstd::prelude::*;
use crate::db::{
    as_of, current, loaded, log_taken, manifest_read, noted, open_outcome, started, traced_back,
    version, DbFiles, DbV,
};
use crate::graph::{edges_added, edges_view};
use crate::history::orderly;
use crate::index::{hash_of, id_files};
use crate::migrate::{migrated, untaken};
use crate::node::strings;
use crate::persistence::{in_step, lemma_index_reloads, lists_files, IdFilesV};
use crate::segment::{coherent, files_of, found, lemma_reopen, DEFAULT_MAX_SEGMENT_BYTES};
use crate::store::{
    dek_view, is_object, loose_files, loose_loaded, objects_in, read_result, Dek, LooseV, ObjV,
    StoreError,
};
use crate::substrate::{lemma_notes_alike, lemma_reads_alike, lemma_walks_alike, same_objects};

verus! {

/// Whether files list the loose objects of a store, all of them and nothing
/// else.
pub open spec fn lists_loose(fs: Seq<LooseV>, v: ObjV) -> bool {
    &&& forall|j: int| 0 <= j < fs.len() ==> is_loose_of(#[trigger] fs[j], v)
    &&& forall|k: Seq<char>| #[trigger]
        v.loose.contains_key(k) ==> exists|j: int|
            0 <= j < fs.len() && (#[trigger] fs[j]).prefix + fs[j].name == k
}

/// Whether a file holds a loose object of a store.
pub open spec fn is_loose_of(f: LooseV, v: ObjV) -> bool {
    &&& is_object(f, v.packed is Some)
    &&& v.loose.contains_key(f.prefix + f.name)
    &&& v.loose[f.prefix + f.name] == f.content
}

proof fn lemma_loose_loaded(fs: Seq<LooseV>, v: ObjV)
    requires
        forall|j: int| 0 <= j < fs.len() ==> is_loose_of(#[trigger] fs[j], v),
    ensures
        forall|k: Seq<char>| #[trigger]
            loose_loaded(fs, v.packed is Some).1.contains_key(k) <==> exists|j: int|
                0 <= j < fs.len() && (#[trigger] fs[j]).prefix + fs[j].name == k,
        forall|k: Seq<char>| #[trigger]
            loose_loaded(fs, v.packed is Some).1.contains_key(k) ==> v.loose.contains_key(k)
                && loose_loaded(fs, v.packed is Some).1[k] == v.loose[k],
    decreases fs.len(),
{
    if fs.len() > 0 {
        let head = fs.drop_last();
        let f = fs.last();
        let packed = v.packed is Some;
        let before = loose_loaded(head, packed).1;
        let all = loose_loaded(fs, packed).1;
        assert(is_loose_of(fs[fs.len() - 1], v));
        assert forall|j: int| 0 <= j < head.len() implies is_loose_of(#[trigger] head[j], v) by {
            assert(head[j] == fs[j]);
        }
        lemma_loose_loaded(head, v);
        assert(all == before.insert(f.prefix + f.name, f.content));
        assert forall|k: Seq<char>| #[trigger] all.contains_key(k) <==> exists|j: int|
            0 <= j < fs.len() && (#[trigger] fs[j]).prefix + fs[j].name == k by {
            if before.contains_key(k) {
                let j = choose|j: int|
                    0 <= j < head.len() && (#[trigger] head[j]).prefix + head[j].name == k;
                assert(fs[j] == head[j]);
            }
            if k == f.prefix + f.name {
                assert(fs[fs.len() - 1].prefix + fs[fs.len() - 1].name == k);
            }
            if exists|j: int| 0 <= j < fs.len() && (#[trigger] fs[j]).prefix + fs[j].name == k {
                let j = choose|j: int|
                    0 <= j < fs.len() && (#[trigger] fs[j]).prefix + fs[j].name == k;
                if j < head.len() {
                    assert(head[j] == fs[j]);
                    assert(before.contains_key(k));
                }
            }
        }
    }
}

/// Whether files hold all objects of a store: the loose ones, and its segments
/// where objects are packed.
pub open spec fn hold_objects(files: DbFiles, v: ObjV) -> bool {
    &&& lists_loose(loose_files(files.loose@), v)
    &&& match v.packed {
        Some(s) => coherent(s) && (files.segments matches Some(fs) && files_of(fs@) == s.files),
        None => files.segments is None,
    }
}

/// A store that is opened again gives the same for every hash.
pub proof fn lemma_objects_reload(files: DbFiles, v: ObjV)
    requires
        !v.memory,
        hold_objects(files, v),
    ensures
        same_objects(
            objects_in(
                loose_files(files.loose@),
                match files.segments {
                    Some(fs) => Some(files_of(fs@)),
                    None => None,
                },
                v.dek,
            ),
            v,
        ),
{
    let fs = loose_files(files.loose@);
    let segments = match files.segments {
        Some(fs) => Some(files_of(fs@)),
        None => None,
    };
    let w = objects_in(fs, segments, v.dek);
    lemma_loose_loaded(fs, v);
    assert(w.loose =~= v.loose);
    if let Some(s) = v.packed {
        lemma_reopen(s, DEFAULT_MAX_SEGMENT_BYTES);
    }
    assert forall|k: Seq<char>| #[trigger] read_result(w, k) == read_result(v, k) by {
        if let Some(s) = v.packed {
            assert(found(w.packed->0, k) == found(s, k));
        }
    }
}

/// Whether files hold a database: its objects, what its index says of every
/// document, its edges, and the number and head that it had.
pub open spec fn hold_database(files: DbFiles, ids: IdFilesV, v: DbV) -> bool {
    &&& hold_objects(files, v.objects)
    &&& lists_files(id_files(files.ids@), ids)
    &&& in_step(ids, v.ids)
    &&& v.ids.dirty.len() == 0
    &&& edges_view(files.edges@) == v.graph.edges
    &&& files.manifest matches Some(b) && manifest_read(b@) == Some((v.seq, v.head))
    &&& files.aof is None
}

/// Restart: a database that is opened from files that hold it is ready at
/// once, has the same head, and gives the same documents, versions and edges.
/// Its next write has the number that it would have had.
pub proof fn lemma_restart(
    v: DbV,
    files: DbFiles,
    ids: IdFilesV,
    dek: Option<Dek>,
    r: Result<DbV, StoreError>,
    c: Seq<char>,
    i: Seq<char>,
    target: u64,
)
    requires
        !v.objects.memory,
        dek_view(dek) == v.objects.dek,
        edges_added(v.graph.edges) == v.graph,
        hold_database(files, ids, v),
        open_outcome(files, dek, r),
    ensures
        r matches Ok(db) && {
            &&& db.ready
            &&& db.head == v.head
            &&& db.seq == v.seq
            &&& db.graph == v.graph
            &&& same_objects(db.objects, v.objects)
            &&& hash_of(db.ids, c, i) == hash_of(v.ids, c, i)
            &&& current(db, c, i) == current(v, c, i)
            &&& as_of(db, c, i, target) == as_of(v, c, i, target)
        },
{
    let start = loaded(files, dek);
    lemma_objects_reload(files, v.objects);
    lemma_index_reloads(strings(files.colls@), id_files(files.ids@), ids, v.ids);
    match r {
        Ok(db) => {
            let manifest = files.manifest->0@;
            let w = choose|w: DbV| #[trigger]
                log_taken(start, None, dek, Ok(false), w) && db == started(w, Some(manifest));
            assert(migrated(
                untaken(start.objects, start.ids, start.sorted, start.graph),
                None,
                dek_view(dek),
                Ok::<bool, StoreError>(false),
                untaken(w.objects, w.ids, w.sorted, w.graph),
            ));
            assert(w == start);
            let u = DbV {
                ids: db.ids,
                sorted: db.sorted,
                seq: db.seq,
                objects: v.objects,
                ..db
            };
            lemma_reads_alike(db, u, c, i, target);
            assert(hash_of(db.ids, c, i) == hash_of(v.ids, c, i));
        },
        Err(e) => {
            let w = choose|w: DbV| #[trigger] log_taken(start, None, dek, Err(e), w);
            assert(false);
        },
    }
}

/// Restart keeps the past in order: what holds of a database that is written to
/// holds of it after it was opened again.
pub proof fn lemma_restart_orderly(
    v: DbV,
    files: DbFiles,
    ids: IdFilesV,
    dek: Option<Dek>,
    r: Result<DbV, StoreError>,
)
    requires
        !v.objects.memory,
        dek_view(dek) == v.objects.dek,
        edges_added(v.graph.edges) == v.graph,
        hold_database(files, ids, v),
        open_outcome(files, dek, r),
        orderly(v),
    ensures
        r matches Ok(db) && orderly(db),
{
    lemma_restart(v, files, ids, dek, r, Seq::empty(), Seq::empty(), 0);
    let db = r->Ok_0;
    let o = v.objects;
    let p = db.objects;
    assert forall|h: Seq<char>| (#[trigger] read_result(p, h)) matches Ok(n) implies (read_result(
        p,
        h,
    )->Ok_0.prev matches Some(q) ==> read_result(p, q) is Ok) by {
        assert(read_result(p, h) == read_result(o, h));
        if let Some(q) = read_result(p, h)->Ok_0.prev {
            assert(read_result(p, q) == read_result(o, q));
        }
    }
    assert forall|h: Seq<char>| (#[trigger] read_result(p, h)) matches Ok(n) implies read_result(
        p,
        h,
    )->Ok_0.seq < db.seq by {
        assert(read_result(p, h) == read_result(o, h));
    }
    assert forall|c: Seq<char>, i: Seq<char>| #[trigger] hash_of(db.ids, c, i) == hash_of(
        v.ids,
        c,
        i,
    ) by {
        lemma_restart(v, files, ids, dek, r, c, i, 0);
    }
    assert forall|c: Seq<char>, i: Seq<char>| (#[trigger] hash_of(db.ids, c, i)) matches Some(
        h,
    ) implies (version(p, hash_of(db.ids, c, i)->0) matches Some(m) && m.coll == c && m.id == i) by {
        let h = hash_of(v.ids, c, i)->0;
        assert(hash_of(db.ids, c, i) == hash_of(v.ids, c, i));
        assert(read_result(p, h) == read_result(o, h));
    }
    assert forall|c: Seq<char>, i: Seq<char>, t: u64, h: Seq<char>|
        #![trigger traced_back(db, c, i, t), noted(p, c, i, t, h)]
        traced_back(db, c, i, t) is Some implies !noted(p, c, i, t, h) by {
        assert(hash_of(db.ids, c, i) == hash_of(v.ids, c, i));
        lemma_walks_alike(p, o, hash_of(v.ids, c, i)->0, t);
        lemma_notes_alike(p, o, c, i, t, h);
        assert(traced_back(v, c, i, t) is Some);
        assert(!noted(o, c, i, t, h));
    }
}

} // verus!
