//! What the files of a database promise.

use vstd::prelude::*;
use vstd::utf8::encode_utf8;
use crate::history::{clash, lemma_read_back};
use crate::ident::{id_name, lemma_name_round_trip, shard_of};
use crate::index::{
    file_id, has_old_name, hash_in, hash_of, id_loaded, id_removed, id_set, id_wf, ids_in, last_file,
    lemma_files_honored, IdFileV, IdV,
};
use crate::migrate::{
    lines, log_ops, migrated, op_storable, op_taken, op_version, ops_taken, takes_to, TakenV, V1OpV,
};
use crate::node::{storable, NodeV};
use crate::segment::FileV;
use crate::store::{
    content_put, content_stored, holds, is_object, loose_loaded, objects_in, read_result,
    undamaged, written, LooseV, ObjV, StoreError,
};
use crate::text::trimmed;

verus! {

/// The files of an id index: what each holds, by collection, directory and
/// name.
pub type IdFilesV = Map<(Seq<char>, Seq<char>, Seq<char>), Seq<char>>;

/// Where the file of a document is.
pub open spec fn named_file(coll: Seq<char>, id: Seq<char>) -> (Seq<char>, Seq<char>, Seq<char>) {
    (coll, shard_of(id), id_name(id))
}

/// Where the file of a document was before ids were encoded.
pub open spec fn old_file(coll: Seq<char>, id: Seq<char>) -> (Seq<char>, Seq<char>, Seq<char>) {
    (coll, shard_of(id), id)
}

/// The hash that the files hold of a document. The file from before ids were
/// encoded speaks for it where it has no other.
pub open spec fn saved_hash(files: IdFilesV, coll: Seq<char>, id: Seq<char>) -> Option<Seq<char>> {
    if files.contains_key(named_file(coll, id)) {
        hash_in(trimmed(files[named_file(coll, id)]))
    } else if has_old_name(id) && files.contains_key(old_file(coll, id)) {
        hash_in(trimmed(files[old_file(coll, id)]))
    } else {
        None
    }
}

/// Whether files and an index agree on every document that is not noted as
/// changed.
pub open spec fn in_step(files: IdFilesV, v: IdV) -> bool {
    forall|c: Seq<char>, i: Seq<char>|
        !v.dirty.contains((c, i)) ==> #[trigger] saved_hash(files, c, i) == hash_of(v, c, i)
}

/// Whether the hash of every document that is noted as changed stands by itself
/// in a file.
pub open spec fn nameable(v: IdV) -> bool {
    forall|c: Seq<char>, i: Seq<char>|
        v.dirty.contains((c, i)) ==> ((#[trigger] hash_of(v, c, i)) matches Some(h) ==> hash_in(
            trimmed(h),
        ) == Some(h))
}

/// The files with the change of a document saved.
pub open spec fn saved_one(files: IdFilesV, v: IdV, c: Seq<char>, i: Seq<char>) -> IdFilesV {
    match hash_of(v, c, i) {
        Some(h) => files.insert(named_file(c, i), h),
        None => if has_old_name(i) {
            files.remove(named_file(c, i)).remove(old_file(c, i))
        } else {
            files.remove(named_file(c, i))
        },
    }
}

/// The files with the changes of documents saved.
pub open spec fn saved(files: IdFilesV, v: IdV, docs: Seq<(Seq<char>, Seq<char>)>) -> IdFilesV
    decreases docs.len(),
{
    if docs.len() == 0 {
        files
    } else {
        saved_one(saved(files, v, docs.drop_last()), v, docs.last().0, docs.last().1)
    }
}

/// Setting the hash of a document, and taking a document out, keep files and
/// index in step: what changed is noted.
pub proof fn lemma_changes_noted(
    files: IdFilesV,
    v: IdV,
    coll: Seq<char>,
    id: Seq<char>,
    hash: Seq<char>,
)
    requires
        in_step(files, v),
        !v.memory,
    ensures
        in_step(files, id_set(v, coll, id, hash)),
        in_step(files, id_removed(v, coll, id)),
{
    let noted = v.dirty.push((coll, id));
    assert forall|c: Seq<char>, i: Seq<char>| !noted.contains((c, i)) implies (c, i) != (coll, id)
        && !v.dirty.contains((c, i)) by {
        if (c, i) == (coll, id) {
            assert(noted[v.dirty.len() as int] == (c, i));
        }
        if v.dirty.contains((c, i)) {
            let k = choose|k: int| 0 <= k < v.dirty.len() && v.dirty[k] == (c, i);
            assert(noted[k] == (c, i));
        }
    }
}

proof fn lemma_saved_step(
    files: IdFilesV,
    v: IdV,
    d: Seq<char>,
    j: Seq<char>,
    c: Seq<char>,
    i: Seq<char>,
)
    requires
        hash_of(v, d, j) matches Some(h) ==> hash_in(trimmed(h)) == Some(h),
    ensures
        saved_hash(saved_one(files, v, d, j), c, i) == if (c, i) == (d, j) {
            hash_of(v, c, i)
        } else {
            saved_hash(files, c, i)
        },
{
    lemma_name_round_trip(i);
    lemma_name_round_trip(j);
}

proof fn lemma_saved_one(
    files: IdFilesV,
    v: IdV,
    docs: Seq<(Seq<char>, Seq<char>)>,
    c: Seq<char>,
    i: Seq<char>,
)
    requires
        forall|k: int|
            0 <= k < docs.len() ==> (hash_of(v, (#[trigger] docs[k]).0, docs[k].1) matches Some(h)
                ==> hash_in(trimmed(h)) == Some(h)),
    ensures
        saved_hash(saved(files, v, docs), c, i) == if docs.contains((c, i)) {
            hash_of(v, c, i)
        } else {
            saved_hash(files, c, i)
        },
    decreases docs.len(),
{
    if docs.len() > 0 {
        let head = docs.drop_last();
        let (d, j) = docs.last();
        assert(docs[docs.len() - 1] == (d, j));
        assert forall|k: int| 0 <= k < head.len() implies (hash_of(
            v,
            (#[trigger] head[k]).0,
            head[k].1,
        ) matches Some(h) ==> hash_in(trimmed(h)) == Some(h)) by {
            assert(head[k] == docs[k]);
        }
        lemma_saved_one(files, v, head, c, i);
        lemma_saved_step(saved(files, v, head), v, d, j, c, i);
        if docs.contains((c, i)) && (d, j) != (c, i) {
            let k = choose|k: int| 0 <= k < docs.len() && docs[k] == (c, i);
            assert(head[k] == (c, i));
        }
        if head.contains((c, i)) {
            let k = choose|k: int| 0 <= k < head.len() && head[k] == (c, i);
            assert(docs[k] == (c, i));
        }
    }
}

/// Saving what is noted as changed brings the files to what the index says of
/// every document. They are in step with the index when nothing is noted any
/// more.
pub proof fn lemma_saved(files: IdFilesV, v: IdV)
    requires
        in_step(files, v),
        nameable(v),
    ensures
        forall|c: Seq<char>, i: Seq<char>| #[trigger]
            saved_hash(saved(files, v, v.dirty), c, i) == hash_of(v, c, i),
        in_step(saved(files, v, v.dirty), (IdV { dirty: Seq::empty(), ..v })),
{
    assert forall|k: int| 0 <= k < v.dirty.len() implies (hash_of(
        v,
        (#[trigger] v.dirty[k]).0,
        v.dirty[k].1,
    ) matches Some(h) ==> hash_in(trimmed(h)) == Some(h)) by {
        assert(v.dirty[k] == (v.dirty[k].0, v.dirty[k].1));
        assert(v.dirty.contains((v.dirty[k].0, v.dirty[k].1)));
    }
    assert forall|c: Seq<char>, i: Seq<char>| #[trigger]
        saved_hash(saved(files, v, v.dirty), c, i) == hash_of(v, c, i) by {
        lemma_saved_one(files, v, v.dirty, c, i);
        assert(v.dirty.contains((c, i)) || saved_hash(files, c, i) == hash_of(v, c, i));
    }
    let w = IdV { dirty: Seq::empty(), ..v };
    assert forall|c: Seq<char>, i: Seq<char>| !w.dirty.contains((c, i)) implies #[trigger] saved_hash(
        saved(files, v, v.dirty),
        c,
        i,
    ) == hash_of(w, c, i) by {
        assert(hash_of(w, c, i) == hash_of(v, c, i));
    }
}

/// Where a file is.
pub open spec fn place(f: IdFileV) -> (Seq<char>, Seq<char>, Seq<char>) {
    (f.coll, f.shard, f.leaf)
}

/// Whether a listing names every file once.
pub open spec fn lists_files(fs: Seq<IdFileV>, files: IdFilesV) -> bool {
    &&& forall|k: int|
        0 <= k < fs.len() ==> files.contains_key(place(#[trigger] fs[k])) && files[place(fs[k])]
            == fs[k].content
    &&& forall|j: int, k: int|
        0 <= j < k < fs.len() ==> place(#[trigger] fs[j]) != place(#[trigger] fs[k])
    &&& forall|p: (Seq<char>, Seq<char>, Seq<char>)| #[trigger]
        files.contains_key(p) ==> exists|k: int| 0 <= k < fs.len() && place(#[trigger] fs[k]) == p
}

/// Whether a file is that of a document, under its encoded name or under the
/// id itself.
pub open spec fn speaks_for(f: IdFileV, coll: Seq<char>, id: Seq<char>, encoded: bool) -> bool {
    f.coll == coll && file_id(f) == Some((id, encoded))
}

proof fn lemma_last_file(fs: Seq<IdFileV>, c: Seq<char>, i: Seq<char>, encoded: bool)
    ensures
        match last_file(fs, c, i, encoded) {
            Some(h) => exists|k: int|
                0 <= k < fs.len() && speaks_for(#[trigger] fs[k], c, i, encoded) && trimmed(
                    fs[k].content,
                ) == h,
            None => forall|k: int|
                0 <= k < fs.len() ==> !speaks_for(#[trigger] fs[k], c, i, encoded),
        },
    decreases fs.len(),
{
    if fs.len() > 0 {
        let head = fs.drop_last();
        lemma_last_file(head, c, i, encoded);
        assert(fs[fs.len() - 1] == fs.last());
        assert(forall|k: int| 0 <= k < head.len() ==> #[trigger] head[k] == fs[k]);
        if !speaks_for(fs.last(), c, i, encoded) {
            match last_file(head, c, i, encoded) {
                Some(h) => {
                    let k = choose|k: int|
                        0 <= k < head.len() && speaks_for(#[trigger] head[k], c, i, encoded)
                            && trimmed(head[k].content) == h;
                    assert(fs[k] == head[k]);
                },
                None => {
                    assert forall|k: int| 0 <= k < fs.len() implies !speaks_for(
                        #[trigger] fs[k],
                        c,
                        i,
                        encoded,
                    ) by {
                        if k < head.len() {
                            assert(head[k] == fs[k]);
                        }
                    }
                },
            }
        }
    }
}

/// What the listed files hold of a document is what the index has of it that
/// they are opened as. In particular an index is in step with the files that it
/// was opened from, with names of either kind.
pub proof fn lemma_opened_in_step(
    dirs: Seq<Seq<char>>,
    fs: Seq<IdFileV>,
    files: IdFilesV,
)
    requires
        lists_files(fs, files),
    ensures
        forall|c: Seq<char>, i: Seq<char>| #[trigger]
            saved_hash(files, c, i) == hash_of(id_loaded(dirs, fs), c, i),
        in_step(files, id_loaded(dirs, fs)),
{
    assert forall|c: Seq<char>, i: Seq<char>| #[trigger] saved_hash(files, c, i) == hash_of(
        id_loaded(dirs, fs),
        c,
        i,
    ) by {
        lemma_files_honored(dirs, fs, c, i);
        lemma_name_round_trip(i);
        lemma_last_file(fs, c, i, true);
        lemma_last_file(fs, c, i, false);
        if files.contains_key(named_file(c, i)) {
            let k = choose|k: int|
                0 <= k < fs.len() && place(#[trigger] fs[k]) == named_file(c, i);
            assert(speaks_for(fs[k], c, i, true));
            let m = choose|m: int|
                0 <= m < fs.len() && speaks_for(#[trigger] fs[m], c, i, true) && Some(
                    trimmed(fs[m].content),
                ) == last_file(fs, c, i, true);
            assert(place(fs[m]) == named_file(c, i));
        } else {
            if let Some(h) = last_file(fs, c, i, true) {
                let m = choose|m: int|
                    0 <= m < fs.len() && speaks_for(#[trigger] fs[m], c, i, true);
                assert(place(fs[m]) == named_file(c, i));
            }
            if has_old_name(i) && files.contains_key(old_file(c, i)) {
                let k = choose|k: int|
                    0 <= k < fs.len() && place(#[trigger] fs[k]) == old_file(c, i);
                assert(speaks_for(fs[k], c, i, false));
                let m = choose|m: int|
                    0 <= m < fs.len() && speaks_for(#[trigger] fs[m], c, i, false) && Some(
                        trimmed(fs[m].content),
                    ) == last_file(fs, c, i, false);
                assert(place(fs[m]) == old_file(c, i));
            } else if let Some(h) = last_file(fs, c, i, false) {
                let m = choose|m: int|
                    0 <= m < fs.len() && speaks_for(#[trigger] fs[m], c, i, false);
                assert(place(fs[m]) == old_file(c, i));
            }
        }
    }
}

/// Opening an index gives back what was saved of it: the same documents with
/// the same hashes, whatever their ids and whichever names their files have.
pub proof fn lemma_index_reloads(
    dirs: Seq<Seq<char>>,
    fs: Seq<IdFileV>,
    files: IdFilesV,
    v: IdV,
)
    requires
        lists_files(fs, files),
        in_step(files, v),
        v.dirty.len() == 0,
    ensures
        id_loaded(dirs, fs).docs == v.docs,
{
    let w = id_loaded(dirs, fs);
    lemma_opened_in_step(dirs, fs, files);
    assert forall|c: Seq<char>, i: Seq<char>| #[trigger] hash_of(w, c, i) == hash_of(v, c, i) by {
        assert(saved_hash(files, c, i) == hash_of(v, c, i));
    }
    assert forall|p: (Seq<char>, Seq<char>)| #[trigger]
        w.docs.contains_key(p) <==> v.docs.contains_key(p) by {
        assert(p == (p.0, p.1));
        assert(hash_of(w, p.0, p.1) == hash_of(v, p.0, p.1));
    }
    assert forall|p: (Seq<char>, Seq<char>)| #[trigger] w.docs.contains_key(p) implies w.docs[p]
        == v.docs[p] by {
        assert(p == (p.0, p.1));
        assert(hash_of(w, p.0, p.1) == hash_of(v, p.0, p.1));
    }
    assert(w.docs =~= v.docs);
}

/// An index that is opened from the files of one whose changes were saved gives
/// the same hash of every document and lists the same documents. What was taken
/// out stays out.
pub proof fn lemma_saved_reloads(
    dirs: Seq<Seq<char>>,
    fs: Seq<IdFileV>,
    files: IdFilesV,
    v: IdV,
    c: Seq<char>,
    i: Seq<char>,
)
    requires
        in_step(files, v),
        nameable(v),
        id_wf(v),
        lists_files(fs, saved(files, v, v.dirty)),
    ensures
        hash_of(id_loaded(dirs, fs), c, i) == hash_of(v, c, i),
        ids_in(id_loaded(dirs, fs), c).contains(i) <==> ids_in(v, c).contains(i),
{
    lemma_saved(files, v);
    lemma_opened_in_step(dirs, fs, saved(files, v, v.dirty));
    lemma_files_honored(dirs, fs, c, i);
    assert(saved_hash(saved(files, v, v.dirty), c, i) == hash_of(v, c, i));
    assert(v.docs.contains_key((c, i)) <==> ids_in(v, c).contains(i));
}

proof fn lemma_loose_same(fs: Seq<LooseV>)
    requires
        forall|i: int|
            0 <= i < fs.len() && is_object(#[trigger] fs[i], false) ==> encode_utf8(
                fs[i].prefix,
            ).len() == 2,
    ensures
        loose_loaded(fs, true) == loose_loaded(fs, false),
    decreases fs.len(),
{
    if fs.len() > 0 {
        let head = fs.drop_last();
        assert forall|i: int| 0 <= i < head.len() && is_object(#[trigger] head[i], false) implies encode_utf8(
            head[i].prefix,
        ).len() == 2 by {
            assert(head[i] == fs[i]);
        }
        lemma_loose_same(head);
        assert(fs[fs.len() - 1] == fs.last());
    }
}

/// Opening a store of loose objects with packing on leaves the loose objects as
/// readable as they were: a hash that is not packed gives what it gave.
pub proof fn lemma_dual_read(
    loose: Seq<LooseV>,
    segments: Seq<FileV>,
    dek: Option<Seq<u8>>,
    hash: Seq<char>,
)
    requires
        forall|i: int|
            0 <= i < loose.len() && is_object(#[trigger] loose[i], false) ==> encode_utf8(
                loose[i].prefix,
            ).len() == 2,
        !holds(objects_in(loose, Some(segments), dek), hash),
    ensures
        read_result(objects_in(loose, Some(segments), dek), hash) == read_result(
            objects_in(loose, None, dek),
            hash,
        ),
{
    lemma_loose_same(loose);
}

/// With packing on, writes leave loose objects alone; with packing off, they
/// make no segments.
pub proof fn lemma_writes_where_they_go(v: ObjV, content: Seq<u8>, w: ObjV)
    requires
        content_put(v, content) == Ok::<ObjV, StoreError>(w),
    ensures
        v.packed is Some ==> w.packed is Some && w.loose == v.loose && w.keys == v.keys,
        v.packed is None ==> w.packed is None,
{
}

/// Whether the `k`th operation is the last one on its document.
pub open spec fn last_on_document(ops: Seq<V1OpV>, k: int) -> bool {
    forall|j: int| k < j < ops.len() ==> ((#[trigger] ops[j]).coll, ops[j].id) != (ops[k].coll, ops[k].id)
}

pub(crate) proof fn lemma_taken_ids(states: Seq<TakenV>, ops: Seq<V1OpV>, hashes: Seq<Seq<char>>, k: int, n: int)
    requires
        ops_taken(states, ops, hashes),
        0 <= k < n <= ops.len(),
        last_on_document(ops, k),
    ensures
        hash_of(states[n].ids, ops[k].coll, ops[k].id) == Some(hashes[k]),
    decreases n,
{
    assert(op_taken(states[n - 1], ops[n - 1], hashes[n - 1], states[n]));
    if n - 1 > k {
        lemma_taken_ids(states, ops, hashes, k, n - 1);
        assert((ops[n - 1].coll, ops[n - 1].id) != (ops[k].coll, ops[k].id));
    }
}

proof fn lemma_taken_read(states: Seq<TakenV>, ops: Seq<V1OpV>, hashes: Seq<Seq<char>>, k: int, n: int)
    requires
        ops_taken(states, ops, hashes),
        0 <= k < n <= ops.len(),
        undamaged(states[k].objects, hashes[k]),
        storable(op_version(states[k], ops[k])),
        !clash(states[k].objects, op_version(states[k], ops[k]), hashes[k]),
    ensures
        read_result(states[n].objects, hashes[k]) == Ok::<NodeV, StoreError>(
            NodeV { hash: hashes[k], ..op_version(states[k], ops[k]) },
        ),
        holds(states[n].objects, hashes[k]),
    decreases n,
{
    let before = states[n - 1].objects;
    let after = states[n].objects;
    let version = op_version(states[n - 1], ops[n - 1]);
    assert(op_taken(states[n - 1], ops[n - 1], hashes[n - 1], states[n]));
    let hash = hashes[n - 1];
    let content = choose|content: Seq<u8>| written(before, version, content, hash, after);
    assert(content_stored(before, content, after));
    if n - 1 > k {
        lemma_taken_read(states, ops, hashes, k, n - 1);
        if hashes[n - 1] != hashes[k] {
            lemma_holds_kept(before, content, after, hashes[k]);
        }
    } else {
        lemma_read_back(before, version, hash, after);
    }
}

proof fn lemma_holds_kept(v: ObjV, content: Seq<u8>, w: ObjV, hash: Seq<char>)
    requires
        content_put(v, content) == Ok::<ObjV, StoreError>(w),
        holds(v, hash),
    ensures
        holds(w, hash),
{
}

/// Whether a document is what an operation put: its current version has the
/// operation's data and number.
pub open spec fn resolves(w: TakenV, op: V1OpV) -> bool {
    hash_of(w.ids, op.coll, op.id) matches Some(h) && (read_result(w.objects, h) matches Ok(n)
        && n.coll == op.coll && n.id == op.id && n.data == op.data && n.seq == op.seq && n.hash
        == h)
}

/// Taking over a log keeps every operation: each is read back as the version
/// it became, whether or not the same bytes were there before, and the last one
/// on a document is what the document is.
pub proof fn lemma_log_taken(states: Seq<TakenV>, ops: Seq<V1OpV>, hashes: Seq<Seq<char>>, k: int)
    requires
        ops_taken(states, ops, hashes),
        0 <= k < ops.len(),
        undamaged(states[k].objects, hashes[k]),
        storable(op_version(states[k], ops[k])),
        !clash(states[k].objects, op_version(states[k], ops[k]), hashes[k]),
    ensures
        read_result(states.last().objects, hashes[k]) == Ok::<NodeV, StoreError>(
            NodeV { hash: hashes[k], ..op_version(states[k], ops[k]) },
        ),
        last_on_document(ops, k) ==> resolves(states.last(), ops[k]),
{
    let n = ops.len() as int;
    lemma_taken_read(states, ops, hashes, k, n);
    if last_on_document(ops, k) {
        lemma_taken_ids(states, ops, hashes, k, n);
    }
}

/// Whether the digest tells the version that an operation became from what was
/// there, and that is not damaged.
pub open spec fn told_from(states: Seq<TakenV>, ops: Seq<V1OpV>, hashes: Seq<Seq<char>>, k: int) -> bool {
    &&& !clash(states[k].objects, op_version(states[k], ops[k]), hashes[k])
    &&& undamaged(states[k].objects, hashes[k])
}

/// Whether operations were taken over one after the other, and each document
/// is what the last operation on it put.
pub open spec fn log_kept(
    v: TakenV,
    ops: Seq<V1OpV>,
    w: TakenV,
    states: Seq<TakenV>,
    hashes: Seq<Seq<char>>,
) -> bool {
    &&& ops_taken(states, ops, hashes)
    &&& states[0] == v
    &&& forall|k: int|
        #![trigger ops[k]]
        0 <= k < ops.len() && last_on_document(ops, k) && told_from(states, ops, hashes, k)
            ==> resolves(w, ops[k])
}

/// Migration: after a log was taken over, each document is what the last
/// operation on it in the log put.
pub proof fn lemma_migration(v: TakenV, text: Seq<char>, dek: Option<Seq<u8>>, w: TakenV)
    requires
        migrated(v, Some(text), dek, Ok(true), w),
    ensures
        exists|states: Seq<TakenV>, hashes: Seq<Seq<char>>| #[trigger]
            log_kept(v, log_ops(lines(text), dek), w, states, hashes),
{
    let ops = log_ops(lines(text), dek);
    let seen = choose|seen: Map<u64, Seq<char>>| #[trigger] takes_to(v, ops, TakenV { seen, ..w });
    let u = TakenV { seen, ..w };
    let (states, hashes) = choose|states: Seq<TakenV>, hashes: Seq<Seq<char>>| #[trigger]
        ops_taken(states, ops, hashes) && states[0] == v && states.last() == u;
    assert forall|k: int|
        #![trigger ops[k]]
        0 <= k < ops.len() && last_on_document(ops, k) && told_from(states, ops, hashes, k) implies resolves(
        w,
        ops[k],
    ) by {
        assert(op_storable(ops[k]));
        lemma_log_taken(states, ops, hashes, k);
        assert(resolves(u, ops[k]));
    }
    assert(log_kept(v, ops, w, states, hashes));
}

} // verus!
