//! What compaction promises. One that is finished leaves the live contents and
//! no others; one that is cut short loses no live content, whatever it had come
//! to.

use vstd::prelude::*;
use crate::segment::{
    among, arranged, backed, coherent, copied, declared_len, file_entries, found, has_record,
    ids_ascend, index_wf, indexed, lemma_all_copied, lemma_arranged, lemma_coherent_sound, lemma_copied,
    lemma_data_of, lemma_index_add_all, lemma_reopen, lemma_scan_end, lemma_scan_entry,
    lemma_scan_within, lists, live_count, opened, opened_index, record_content, same_entries, scan,
    sidecar_entries, tells, whole, CompactStats, Entry, FileV, Found, IndexV, SegV, SegmentError, SegmentLocation,
};

verus! {

/// Whether a sidecar that can be read lists the records of its segment.
pub open spec fn sidecar_fits(f: FileV) -> bool {
    sidecar_entries(f) matches Some(es) ==> same_entries(es, scan(f.data, 0))
}

/// Whether a record holds the content that a store has under its hash.
pub open spec fn is_copy(v: SegV, data: Seq<u8>, e: Entry) -> bool {
    found(v, e.0) == Found::Content(data.subrange(e.1 as int, e.1 + e.2))
}

/// Whether a segment holds nothing but contents that a store has.
pub open spec fn holds_copies(v: SegV, f: FileV) -> bool {
    &&& f.data.len() <= u64::MAX
    &&& sidecar_fits(f)
    &&& forall|j: int|
        0 <= j < scan(f.data, 0).len() ==> is_copy(v, f.data, #[trigger] scan(f.data, 0)[j])
}

/// Whether one of the first `n` segments holds a content under this hash.
pub open spec fn held(fs: Seq<FileV>, k: Seq<char>, n: int) -> bool {
    exists|i: int| 0 <= i < n && lists(scan((#[trigger] fs[i]).data, 0), k)
}

/// Whether the place that an index has for a hash is a record of the `i`th
/// segment.
spec fn stands_in(fs: Seq<FileV>, ix: IndexV, k: Seq<char>, i: int) -> bool {
    let loc = ix.locs[k];
    &&& fs[i].id == loc.segment_id
    &&& scan(fs[i].data, 0).contains((k, loc.offset, loc.len))
}

proof fn lemma_union_index(v: SegV, fs: Seq<FileV>, n: int)
    requires
        forall|i: int| 0 <= i < fs.len() ==> holds_copies(v, #[trigger] fs[i]),
        0 <= n <= fs.len(),
    ensures
        index_wf(opened_index(fs, n)),
        forall|k: Seq<char>| #[trigger]
            opened_index(fs, n).locs.contains_key(k) <==> held(fs, k, n),
        forall|k: Seq<char>| #[trigger]
            opened_index(fs, n).locs.contains_key(k) ==> exists|i: int|
                0 <= i < n && #[trigger] stands_in(fs, opened_index(fs, n), k, i),
    decreases n,
{
    if n > 0 {
        lemma_union_index(v, fs, n - 1);
        let before = opened_index(fs, n - 1);
        let w = opened_index(fs, n);
        let f = fs[n - 1];
        let rs = scan(f.data, 0);
        let es = file_entries(f, n == fs.len());
        assert(holds_copies(v, fs[n - 1]));
        assert(same_entries(es, rs));
        lemma_index_add_all(before, f.id, es);
        assert forall|k: Seq<char>| lists(es, k) <==> lists(rs, k) by {
            if lists(es, k) {
                let j = choose|j: int| 0 <= j < es.len() && (#[trigger] es[j]).0 == k;
                assert(es.contains(es[j]));
                let m = choose|m: int| 0 <= m < rs.len() && rs[m] == es[j];
                assert(rs[m].0 == k);
            }
            if lists(rs, k) {
                let j = choose|j: int| 0 <= j < rs.len() && (#[trigger] rs[j]).0 == k;
                assert(es.contains(rs[j]));
                let m = choose|m: int| 0 <= m < es.len() && es[m] == rs[j];
                assert(es[m].0 == k);
            }
        }
        assert forall|k: Seq<char>| #[trigger] w.locs.contains_key(k) <==> held(fs, k, n) by {
            if held(fs, k, n) {
                let i = choose|i: int| 0 <= i < n && lists(scan((#[trigger] fs[i]).data, 0), k);
                if i < n - 1 {
                    assert(held(fs, k, n - 1));
                }
            }
            if w.locs.contains_key(k) {
                if lists(es, k) {
                    assert(lists(scan(fs[n - 1].data, 0), k));
                } else {
                    assert(before.locs.contains_key(k));
                    let i = choose|i: int|
                        0 <= i < n - 1 && lists(scan((#[trigger] fs[i]).data, 0), k);
                    assert(lists(scan(fs[i].data, 0), k));
                }
            }
        }
        assert forall|k: Seq<char>| #[trigger] w.locs.contains_key(k) implies exists|i: int|
            0 <= i < n && #[trigger] stands_in(fs, w, k, i) by {
            if lists(es, k) {
                let j = choose|j: int|
                    0 <= j < es.len() && (#[trigger] es[j]).0 == k && w.locs[k] == (
                    SegmentLocation { segment_id: f.id, offset: es[j].1, len: es[j].2 });
                assert(es.contains(es[j]));
                assert(stands_in(fs, w, k, n - 1));
            } else {
                assert(before.locs.contains_key(k));
                let i = choose|i: int| 0 <= i < n - 1 && #[trigger] stands_in(fs, before, k, i);
                assert(stands_in(fs, w, k, i));
            }
        }
    }
}

/// Segments that hold nothing but contents of a store, put together: opening
/// them gives each content that one of them holds as the store does, and
/// nothing else.
pub proof fn lemma_union(v: SegV, fs: Seq<FileV>, max: u64)
    requires
        fs.len() > 0,
        ids_ascend(fs),
        forall|i: int| 0 <= i < fs.len() ==> holds_copies(v, #[trigger] fs[i]),
    ensures
        forall|k: Seq<char>| #[trigger]
            found(opened(arranged(fs), max), k) == if held(fs, k, fs.len() as int) {
                found(v, k)
            } else {
                Found::Absent
            },
{
    let n = fs.len() as int;
    let w = opened(fs, max);
    lemma_arranged(fs);
    lemma_union_index(v, fs, n);
    assert forall|i: int, j: int| 0 <= i < j < w.files.len() implies (#[trigger] w.files[i]).id < (
    #[trigger] w.files[j]).id by {
        assert(fs[i].id < fs[j].id);
    }
    assert forall|k: Seq<char>| #[trigger] found(w, k) == if held(fs, k, n) {
        found(v, k)
    } else {
        Found::Absent
    } by {
        if held(fs, k, n) {
            assert(w.index.locs.contains_key(k));
            let i = choose|i: int| 0 <= i < n && #[trigger] stands_in(fs, w.index, k, i);
            let loc = w.index.locs[k];
            let rs = scan(fs[i].data, 0);
            let j = choose|j: int| 0 <= j < rs.len() && rs[j] == (k, loc.offset, loc.len);
            assert(holds_copies(v, fs[i]));
            assert(is_copy(v, fs[i].data, scan(fs[i].data, 0)[j]));
            lemma_scan_entry(fs[i].data, 0, j);
            lemma_scan_within(fs[i].data, 0, j);
            lemma_scan_end(fs[i].data, 0);
            lemma_data_of(w.files, i);
            let from = loc.offset as int;
            assert(w.files[i].data.subrange(from, from + loc.len) =~= fs[i].data.subrange(
                from,
                from + loc.len,
            ));
        }
    }
}

/// Whether a segment is what is left of one that was being copied to: a
/// sealed one may have lost its sidecar, and the last one may be cut off
/// anywhere.
pub open spec fn left_of(f: FileV, g: FileV, last: bool) -> bool {
    &&& g.id == f.id
    &&& if last {
        &&& g.data.len() <= f.data.len()
        &&& g.data == f.data.take(g.data.len() as int)
        &&& sidecar_entries(g) is None
    } else {
        g.data == f.data && (sidecar_entries(g) is None || g.sidecar == f.sidecar)
    }
}

/// Whether segments are what is left of those that were being copied to.
pub open spec fn all_left(c: SegV, gs: Seq<FileV>) -> bool {
    &&& gs.len() == c.files.len()
    &&& forall|i: int|
        0 <= i < gs.len() ==> left_of(c.files[i], #[trigger] gs[i], i + 1 == gs.len())
}

/// The records of a segment that is cut off are the first of those that it
/// had.
pub proof fn lemma_scan_cut(data: Seq<u8>, n: int, pos: int)
    requires
        0 <= pos,
        0 <= n <= data.len(),
    ensures
        scan(data.take(n), pos).len() <= scan(data, pos).len(),
        forall|j: int|
            0 <= j < scan(data.take(n), pos).len() ==> #[trigger] scan(data.take(n), pos)[j]
                == scan(data, pos)[j],
    decreases data.len() - pos,
{
    let cut = data.take(n);
    if has_record(cut, pos) {
        assert(cut.subrange(pos, pos + 4) =~= data.subrange(pos, pos + 4));
        assert(record_content(cut, pos) =~= record_content(data, pos));
        lemma_scan_cut(data, n, pos + 4 + declared_len(data, pos));
    }
}

/// The segments of a good store hold its contents.
proof fn lemma_own_copies(v: SegV, i: int)
    requires
        coherent(v),
        0 <= i < v.files.len(),
    ensures
        forall|j: int|
            0 <= j < scan(v.files[i].data, 0).len() ==> is_copy(
                v,
                v.files[i].data,
                #[trigger] scan(v.files[i].data, 0)[j],
            ),
        v.files[i].data.len() <= u64::MAX,
        i + 1 < v.files.len() ==> sidecar_fits(v.files[i]),
{
    assert(whole(v.files[i]));
    let data = v.files[i].data;
    assert forall|j: int| 0 <= j < scan(data, 0).len() implies is_copy(
        v,
        data,
        #[trigger] scan(data, 0)[j],
    ) by {
        assert(indexed(v, i, scan(v.files[i].data, 0)[j]));
        lemma_scan_entry(data, 0, j);
        lemma_data_of(v.files, i);
    }
    if i + 1 < v.files.len() {
        assert(sidecar_entries(v.files[i]) is Some);
    }
}

/// What is left of segments that live contents were being copied to holds
/// nothing but contents of the store.
proof fn lemma_left_copies(v: SegV, live: Set<Seq<char>>, n: int, c: SegV, gs: Seq<FileV>, i: int)
    requires
        coherent(v),
        v.index.keys.len() <= u64::MAX,
        0 <= n <= v.index.keys.len(),
        copied(v, live, n) == Ok::<SegV, SegmentError>(c),
        all_left(c, gs),
        0 <= i < gs.len(),
    ensures
        holds_copies(v, gs[i]),
{
    lemma_copied(v, live, n, c);
    lemma_own_copies(c, i);
    let f = c.files[i];
    let g = gs[i];
    assert(left_of(c.files[i], gs[i], i + 1 == gs.len()));
    if i + 1 == gs.len() {
        lemma_scan_cut(f.data, g.data.len() as int, 0);
    }
    assert forall|j: int| 0 <= j < scan(g.data, 0).len() implies is_copy(
        v,
        g.data,
        #[trigger] scan(g.data, 0)[j],
    ) by {
        let e = scan(f.data, 0)[j];
        assert(is_copy(c, f.data, scan(f.data, 0)[j]));
        assert(found(c, e.0) == found(v, e.0));
        assert(scan(g.data, 0)[j] == e);
        lemma_scan_entry(g.data, 0, j);
        assert(g.data.subrange(e.1 as int, e.1 + e.2) =~= f.data.subrange(
            e.1 as int,
            e.1 + e.2,
        ));
    }
}

/// A compaction that stops while contents are copied loses nothing: opening
/// the segments that there were with what is left of the fresh ones gives
/// everything as it was. The segment that was appended to last must not have
/// a sidecar from before.
pub proof fn lemma_stopped_copying(
    v: SegV,
    live: Set<Seq<char>>,
    n: int,
    c: SegV,
    gs: Seq<FileV>,
    max: u64,
)
    requires
        coherent(v),
        v.index.keys.len() <= u64::MAX,
        sidecar_fits(v.files.last()),
        0 <= n <= v.index.keys.len(),
        copied(v, live, n) == Ok::<SegV, SegmentError>(c),
        all_left(c, gs),
    ensures
        forall|k: Seq<char>| #[trigger]
            found(opened(arranged(v.files + gs), max), k) == found(v, k),
{
    let fs = v.files + gs;
    lemma_together(v, live, n, c, v.files, gs);
    lemma_union(v, fs, max);
    assert forall|k: Seq<char>| #[trigger] found(opened(arranged(fs), max), k) == found(v, k) by {
        if v.index.locs.contains_key(k) {
            let i = choose|i: int| backed(v, k, i);
            let rs = scan(v.files[i].data, 0);
            let loc = v.index.locs[k];
            let j = choose|j: int| 0 <= j < rs.len() && rs[j] == (k, loc.offset, loc.len);
            assert(rs[j].0 == k);
            assert(fs[i] == v.files[i]);
            assert(lists(scan(fs[i].data, 0), k));
            assert(held(fs, k, fs.len() as int));
        }
    }
}

/// A compaction that stops while the segments that there were are dropped
/// loses no live content, and nothing that is still there has changed.
pub proof fn lemma_stopped_dropping(
    v: SegV,
    live: Set<Seq<char>>,
    c: SegV,
    rest: Seq<FileV>,
    gs: Seq<FileV>,
    max: u64,
)
    requires
        coherent(v),
        v.index.keys.len() <= u64::MAX,
        sidecar_fits(v.files.last()),
        copied(v, live, v.index.keys.len() as int) == Ok::<SegV, SegmentError>(c),
        ids_ascend(rest),
        forall|i: int| 0 <= i < rest.len() ==> v.files.contains(#[trigger] rest[i]),
        all_left(c, gs),
        gs.last().data == c.files.last().data,
    ensures
        forall|k: Seq<char>|
            live.contains(k) ==> #[trigger] found(opened(arranged(rest + gs), max), k) == found(
                v,
                k,
            ),
        forall|k: Seq<char>| #[trigger]
            found(opened(arranged(rest + gs), max), k) == found(v, k) || found(
                opened(arranged(rest + gs), max),
                k,
            ) == Found::Absent,
{
    let fs = rest + gs;
    let n = v.index.keys.len() as int;
    lemma_copied(v, live, n, c);
    lemma_together(v, live, n, c, rest, gs);
    lemma_union(v, fs, max);
    lemma_coherent_sound(c);
    assert forall|k: Seq<char>| live.contains(k) implies #[trigger] found(
        opened(arranged(fs), max),
        k,
    ) == found(v, k) by {
        if v.index.locs.contains_key(k) {
            assert(v.index.keys.contains(k));
            let m = choose|m: int| 0 <= m < v.index.keys.len() && v.index.keys[m] == k;
            assert(among(v.index.keys, k, n)) by {
                assert(v.index.keys[m] == k);
            }
            lemma_coherent_sound(v);
            assert(found(c, k) == found(v, k));
            assert(c.index.locs.contains_key(k));
            let i = choose|i: int| backed(c, k, i);
            let rs = scan(c.files[i].data, 0);
            let loc = c.index.locs[k];
            let j = choose|j: int| 0 <= j < rs.len() && rs[j] == (k, loc.offset, loc.len);
            assert(rs[j].0 == k);
            assert(left_of(c.files[i], gs[i], i + 1 == gs.len()));
            assert(gs[i].data == c.files[i].data);
            assert(fs[rest.len() + i] == gs[i]);
            assert(lists(scan(fs[rest.len() + i].data, 0), k));
            assert(held(fs, k, fs.len() as int));
        }
    }
}

/// Segments that there were, with what is left of fresh ones behind them.
proof fn lemma_together(
    v: SegV,
    live: Set<Seq<char>>,
    n: int,
    c: SegV,
    rest: Seq<FileV>,
    gs: Seq<FileV>,
)
    requires
        coherent(v),
        v.index.keys.len() <= u64::MAX,
        sidecar_fits(v.files.last()),
        0 <= n <= v.index.keys.len(),
        copied(v, live, n) == Ok::<SegV, SegmentError>(c),
        ids_ascend(rest),
        forall|i: int| 0 <= i < rest.len() ==> v.files.contains(#[trigger] rest[i]),
        all_left(c, gs),
    ensures
        (rest + gs).len() > 0,
        ids_ascend(rest + gs),
        forall|i: int| 0 <= i < (rest + gs).len() ==> holds_copies(v, #[trigger] (rest + gs)[i]),
{
    let fs = rest + gs;
    lemma_copied(v, live, n, c);
    let top = v.files.last().id;
    assert forall|i: int| 0 <= i < rest.len() implies (#[trigger] rest[i]).id <= top
        && holds_copies(v, rest[i]) by {
        assert(v.files.contains(rest[i]));
        let j = choose|j: int| 0 <= j < v.files.len() && v.files[j] == rest[i];
        lemma_own_copies(v, j);
        if j + 1 < v.files.len() {
            assert(v.files[j].id < v.files[v.files.len() - 1].id);
        }
    }
    assert forall|i: int| 0 <= i < gs.len() implies (#[trigger] gs[i]).id > top && holds_copies(
        v,
        gs[i],
    ) by {
        assert(left_of(c.files[i], gs[i], i + 1 == gs.len()));
        if i > 0 {
            assert(c.files[0].id < c.files[i].id);
        }
        lemma_left_copies(v, live, n, c, gs, i);
    }
    assert forall|i: int, j: int| 0 <= i < j < fs.len() implies (#[trigger] fs[i]).id < (
    #[trigger] fs[j]).id by {
        if j < rest.len() {
            assert(fs[i] == rest[i] && fs[j] == rest[j]);
        } else if i < rest.len() {
            assert(fs[i] == rest[i] && fs[j] == gs[j - rest.len()]);
        } else {
            let a = i - rest.len();
            let b = j - rest.len();
            assert(fs[i] == gs[a] && fs[j] == gs[b]);
            assert(left_of(c.files[a], gs[a], a + 1 == gs.len()));
            assert(left_of(c.files[b], gs[b], b + 1 == gs.len()));
            assert(c.files[a].id < c.files[b].id);
        }
    }
    assert forall|i: int| 0 <= i < fs.len() implies holds_copies(v, #[trigger] fs[i]) by {
        if i < rest.len() {
            assert(fs[i] == rest[i]);
        } else {
            assert(fs[i] == gs[i - rest.len()]);
        }
    }
}

/// How many of the hashes of an index are live, and how many are not.
proof fn lemma_live_count(keys: Seq<Seq<char>>, live: Set<Seq<char>>, n: int)
    requires
        keys.no_duplicates(),
        0 <= n <= keys.len(),
    ensures
        keys.take(n).to_set().finite(),
        keys.take(n).to_set().intersect(live).len() == live_count(keys, live, n),
        keys.take(n).to_set().difference(live).len() == n - live_count(keys, live, n),
    decreases n,
{
    if n == 0 {
        assert(keys.take(0).to_set() =~= Set::empty());
        assert(keys.take(0).to_set().intersect(live) =~= Set::empty());
        assert(keys.take(0).to_set().difference(live) =~= Set::empty());
    } else {
        let k = keys[n - 1];
        let front = keys.take(n - 1);
        let was = front.to_set();
        let all = keys.take(n);
        let now = all.to_set();
        lemma_live_count(keys, live, n - 1);
        assert(now =~= was.insert(k)) by {
            assert forall|x: Seq<char>| #[trigger] now.contains(x) <==> was.insert(k).contains(x) by {
                if now.contains(x) {
                    let j = choose|j: int| 0 <= j < n && all[j] == x;
                    if j < n - 1 {
                        assert(front[j] == x);
                    }
                }
                if was.contains(x) {
                    let j = choose|j: int| 0 <= j < n - 1 && front[j] == x;
                    assert(all[j] == x);
                }
                assert(all[n - 1] == k);
            }
        }
        assert(!was.contains(k)) by {
            if was.contains(k) {
                let j = choose|j: int| 0 <= j < n - 1 && front[j] == k;
                assert(keys[j] == keys[n - 1]);
            }
        }
        if live.contains(k) {
            assert(now.intersect(live) =~= was.intersect(live).insert(k));
            assert(now.difference(live) =~= was.difference(live));
        } else {
            assert(now.intersect(live) =~= was.intersect(live));
            assert(now.difference(live) =~= was.difference(live).insert(k));
        }
    }
}

/// Compaction, of any store: it tells how many contents it kept and how many it
/// dropped, just the live ones of the contents that there were are left, each
/// as it was, and opening the segments again gives the same.
pub proof fn lemma_compaction(
    v: SegV,
    live: Set<Seq<char>>,
    stats: CompactStats,
    w: SegV,
    max: u64,
)
    requires
        index_wf(v.index),
        v.index.keys.len() <= u64::MAX,
        copied(v, live, v.index.keys.len() as int) == Ok::<SegV, SegmentError>(w),
        tells(stats, v, live, w),
    ensures
        stats.live_objects == v.index.locs.dom().intersect(live).len(),
        stats.dropped_objects == v.index.locs.dom().difference(live).len(),
        w.index.locs.dom() == v.index.locs.dom().intersect(live),
        forall|k: Seq<char>| #[trigger]
            found(w, k) == if live.contains(k) {
                found(v, k)
            } else {
                Found::Absent
            },
        forall|k: Seq<char>|
            live.contains(k) && #[trigger] v.index.locs.contains_key(k) ==> found(w, k) is Content,
        opened(arranged(w.files), max).index.locs == w.index.locs,
        forall|k: Seq<char>| #[trigger] found(opened(arranged(w.files), max), k) == found(w, k),
{
    let keys = v.index.keys;
    lemma_all_copied(v, live, w);
    lemma_live_count(keys, live, keys.len() as int);
    assert(keys.take(keys.len() as int) =~= keys);
    assert forall|k: Seq<char>| #[trigger] keys.to_set().contains(k) <==> v.index.locs.dom().contains(
        k,
    ) by {
        assert(v.index.locs.contains_key(k) <==> keys.contains(k));
    }
    assert(keys.to_set() =~= v.index.locs.dom());
    lemma_reopen(w, max);
}

} // verus!
