//! The database: documents in collections, every version kept, with indexes
//! and a causal graph.

use vstd::bytes::{spec_u64_to_le_bytes, u64_to_le_bytes};
use vstd::prelude::*;
#[allow(unused_imports)]
use vstd::string::StringExecFns;
use vstd::utf8::encode_utf8;
use crate::ascending::{all_placed, put_in_order};
use crate::digest::{blake2b, content_hash};
use crate::graph::{edge_added, edges_added, edges_view, no_edges, traced, GraphStore, GraphV};
use crate::index::{
    change_for, hash_of, id_empty, id_files, id_loaded, id_removed, id_set, ids_in, in_list, is_hash,
    opt_text, IdChange, IdFile, IdIndex, IdV, OrderedValue, SortedIndexes,
};
use crate::json::{
    by_key, fields_view, json_get, json_parse, json_part, object, object_of, object_text,
    object_to_bytes, Json, JsonValue, Num, Number,
};
use crate::migrate::{migrate_if_needed, migrated, untaken};
use crate::node::{strings, Node, NodeV};
use crate::ordered::{key_of, Key};
use crate::segment::{
    coherent, compacted, copied, tells, texts, CompactStats, SegV, SegmentError, SegmentFile,
};
use crate::sort::{as_ints, covers, sort_places, sorted_places, views};
use crate::sorted::{bucket_add, bucket_remove, first, flat_asc, flat_desc, BucketsV};
use crate::store::{
    all_keys, dek_view, from_segment, held_objects, obj_coherent, obj_sound, read_result, unreadable,
    write_error, written, Dek, LooseFile, ObjV, ObjectStore, StoreError,
};
use crate::text::{
    append_bytes, compare_text, lemma_bytes_order_transitive, lemma_text_order, same_text, text_order,
    Order,
};

verus! {

/// The sorted index of each field that has one.
pub type SortedV = Map<(Seq<char>, Seq<char>), BucketsV>;

/// What a database is.
#[verifier::ext_equal]
pub struct DbV {
    pub objects: ObjV,
    pub ids: IdV,
    pub sorted: SortedV,
    pub graph: GraphV,
    /// The number of the next write.
    pub seq: u64,
    /// The digest that all writes so far are chained into.
    pub head: Seq<char>,
    /// Whether writes may proceed.
    pub ready: bool,
    /// Whether the head changed since it was last saved.
    pub dirty: bool,
    /// Whether nothing is kept in files.
    pub memory: bool,
}

/// A database that holds nothing and is not kept in files.
pub open spec fn empty_db() -> DbV {
    DbV {
        objects: ObjV {
            memory: true,
            packed: None,
            keys: Seq::empty(),
            loose: Map::empty(),
            dek: None,
        },
        ids: id_empty(true),
        sorted: Map::empty(),
        graph: no_edges(),
        seq: 0,
        head: Seq::empty(),
        ready: true,
        dirty: false,
        memory: true,
    }
}

/// The sorted indexes with a hash under the value of one field.
pub open spec fn sorted_add(m: SortedV, coll: Seq<char>, f: (Seq<char>, Json), hash: Seq<char>) -> SortedV {
    let p = (coll, f.0);
    if m.contains_key(p) {
        m.insert(p, bucket_add(m[p], key_of(f.1), hash))
    } else {
        m
    }
}

/// The sorted indexes without a hash under the value of one field.
pub open spec fn sorted_take(m: SortedV, coll: Seq<char>, f: (Seq<char>, Json), hash: Seq<char>) -> SortedV {
    let p = (coll, f.0);
    if m.contains_key(p) {
        m.insert(p, bucket_remove(m[p], key_of(f.1), hash))
    } else {
        m
    }
}

/// The fields of a document; a document that is not an object has none.
pub open spec fn doc_fields(j: Json) -> Seq<(Seq<char>, Json)> {
    match j {
        Json::Object(fields) => fields,
        _ => Seq::empty(),
    }
}

/// The sorted indexes with a hash under the values of fields.
pub open spec fn fields_added(
    m: SortedV,
    coll: Seq<char>,
    fields: Seq<(Seq<char>, Json)>,
    hash: Seq<char>,
) -> SortedV
    decreases fields.len(),
{
    if fields.len() == 0 {
        m
    } else {
        sorted_add(fields_added(m, coll, fields.drop_last(), hash), coll, fields.last(), hash)
    }
}

/// The sorted indexes without a hash under the values of fields.
pub open spec fn fields_taken(
    m: SortedV,
    coll: Seq<char>,
    fields: Seq<(Seq<char>, Json)>,
    hash: Seq<char>,
) -> SortedV
    decreases fields.len(),
{
    if fields.len() == 0 {
        m
    } else {
        sorted_take(fields_taken(m, coll, fields.drop_last(), hash), coll, fields.last(), hash)
    }
}

/// The sorted indexes without a version that is no longer current.
pub open spec fn superseded(
    m: SortedV,
    objects: ObjV,
    coll: Seq<char>,
    prev: Option<Seq<char>>,
) -> SortedV {
    match prev {
        None => m,
        Some(h) => match read_result(objects, h) {
            Ok(n) => fields_taken(m, coll, doc_fields(n.data), h),
            Err(_) => m,
        },
    }
}

/// The graph with the edges between a version and its causes, in both
/// directions.
pub open spec fn causes_added(g: GraphV, hash: Seq<char>, causes: Seq<Seq<char>>) -> GraphV
    decreases causes.len(),
{
    if causes.len() == 0 {
        g
    } else {
        let before = causes_added(g, hash, causes.drop_last());
        edge_added(
            edge_added(before, (hash, "caused_by"@, causes.last())),
            (causes.last(), "caused_by_rev"@, hash),
        )
    }
}

/// The head after a write: the digest of the head before it, the number of the
/// write, and the hash of what was written.
pub open spec fn head_after(head: Seq<char>, seq: u64, hash: Seq<char>) -> Seq<char> {
    content_hash(encode_utf8(head) + spec_u64_to_le_bytes(seq) + encode_utf8(hash))
}

/// The database with the version of a document that is current taken out of
/// the sorted indexes.
pub open spec fn unsorted(v: DbV, coll: Seq<char>, id: Seq<char>) -> DbV {
    DbV { sorted: superseded(v.sorted, v.objects, coll, hash_of(v.ids, coll, id)), ..v }
}

/// The database with a version that was written made current.
pub open spec fn settled(v: DbV, n: NodeV) -> DbV {
    DbV {
        ids: id_set(v.ids, n.coll, n.id, n.hash),
        sorted: fields_added(v.sorted, n.coll, doc_fields(n.data), n.hash),
        graph: causes_added(v.graph, n.hash, n.caused_by),
        head: head_after(v.head, n.seq, n.hash),
        dirty: true,
        ..v
    }
}

/// The version that a write makes, before it has a hash.
pub open spec fn new_version(
    v: DbV,
    coll: Seq<char>,
    id: Seq<char>,
    data: Json,
    caused_by: Seq<Seq<char>>,
    valid_from: Option<Seq<char>>,
    valid_to: Option<Seq<char>>,
    ts: Num,
) -> NodeV {
    NodeV {
        id,
        coll,
        seq: v.seq,
        data,
        prev: hash_of(v.ids, coll, id),
        caused_by,
        ts,
        valid_from,
        valid_to,
        hash: Seq::empty(),
    }
}

/// Whether writing a version came to this.
pub open spec fn put_done(v: DbV, n: NodeV, hash: Seq<char>, w: DbV) -> bool {
    &&& wrote(v.objects, n, hash, w.objects)
    &&& w == settled(
        DbV { objects: w.objects, seq: (v.seq + 1) as u64, ..unsorted(v, n.coll, n.id) },
        NodeV { hash, ..n },
    )
}

/// The current version of a document.
pub open spec fn current(v: DbV, coll: Seq<char>, id: Seq<char>) -> Option<NodeV> {
    match hash_of(v.ids, coll, id) {
        Some(h) => version(v.objects, h),
        None => None,
    }
}

/// The version with a hash.
pub open spec fn version(v: ObjV, hash: Seq<char>) -> Option<NodeV> {
    match read_result(v, hash) {
        Ok(n) => Some(n),
        Err(_) => None,
    }
}

pub open spec fn opt_node(n: Option<Node>) -> Option<NodeV> {
    match n {
        Some(x) => Some(x@),
        None => None,
    }
}

/// Puts a hash under the values of the fields of a document.
pub fn add_fields(sorted: &mut SortedIndexes, coll: &str, data: &JsonValue, hash: &str)
    requires
        old(sorted).wf(),
    ensures
        final(sorted).wf(),
        final(sorted)@ == fields_added(old(sorted)@, coll@, doc_fields(data@), hash@),
{
    let ghost v = sorted@;
    if let JsonValue::Object(o) = data {
        let ghost fields = data@->Object_0;
        let mut i: usize = 0;
        assert(sorted@ == fields_added(v, coll@, fields.take(0), hash@));
        while i < o.len()
            invariant
                i <= o.len(),
                sorted.wf(),
                *data == JsonValue::Object(*o),
                fields == data@->Object_0,
                sorted@ == fields_added(v, coll@, fields.take(i as int), hash@),
            decreases o.len() - i,
        {
            assert(fields.take(i + 1).drop_last() =~= fields.take(i as int));
            assert(fields.take(i + 1).last() == (o@[i as int].0@, o@[i as int].1@));
            sorted.insert(coll, o[i].0.as_str(), &o[i].1, hash);
            i = i + 1;
        }
        assert(fields.take(i as int) =~= fields);
    }
}

/// Adds the edges between a version and its causes.
pub fn add_causes(graph: &mut GraphStore, hash: &str, causes: &Vec<String>)
    requires
        old(graph).wf(),
    ensures
        final(graph).wf(),
        final(graph)@ == causes_added(old(graph)@, hash@, strings(causes@)),
{
    let ghost v = graph@;
    let ghost cs = strings(causes@);
    let mut i: usize = 0;
    while i < causes.len()
        invariant
            i <= causes.len(),
            graph.wf(),
            cs == strings(causes@),
            graph@ == causes_added(v, hash@, cs.take(i as int)),
        decreases causes.len() - i,
    {
        assert(cs.take(i + 1).drop_last() =~= cs.take(i as int));
        assert(cs.take(i + 1).last() == causes@[i as int]@);
        graph.add_edge(hash, "caused_by", causes[i].as_str());
        graph.add_edge(causes[i].as_str(), "caused_by_rev", hash);
        i = i + 1;
    }
    assert(cs.take(i as int) =~= cs);
}

/// A document database.
pub struct Db {
    objects: ObjectStore,
    id_index: IdIndex,
    sorted_indexes: SortedIndexes,
    graph: GraphStore,
    seq: u64,
    head: String,
    startup_ready: bool,
    manifest_dirty: bool,
    memory: bool,
}

impl View for Db {
    type V = DbV;

    closed spec fn view(&self) -> DbV {
        DbV {
            objects: self.objects@,
            ids: self.id_index@,
            sorted: self.sorted_indexes@,
            graph: self.graph@,
            seq: self.seq,
            head: self.head@,
            ready: self.startup_ready,
            dirty: self.manifest_dirty,
            memory: self.memory,
        }
    }
}

/// `SystemTime::elapsed` since the start of 1970, in seconds as a double: some
/// finite number, zero where the clock is before 1970.
#[verifier::external_body]
fn now() -> (r: Number)
    ensures
        r is Float,
        r.wf(),
{
    let t = std::time::UNIX_EPOCH.elapsed().map(|d| d.as_secs_f64()).unwrap_or_default();
    Number::Float(serde_json::Number::from_f64(t).unwrap().to_string())
}

impl Db {
    pub closed spec fn wf(&self) -> bool {
        &&& self.objects.wf()
        &&& self.id_index.wf()
        &&& self.sorted_indexes.wf()
        &&& self.graph.wf()
    }

    /// A database that is not kept in files.
    pub fn in_memory() -> (r: Db)
        ensures
            r.wf(),
            r@ == empty_db(),
    {
        Db {
            objects: ObjectStore::in_memory(),
            id_index: IdIndex::in_memory(),
            sorted_indexes: SortedIndexes::new(),
            graph: GraphStore::in_memory(),
            seq: 0,
            head: String::new(),
            startup_ready: true,
            manifest_dirty: false,
            memory: true,
        }
    }

    /// Takes a hash from under the values of the fields of a document.
    fn take_fields(&mut self, coll: &str, data: &JsonValue, hash: &str)
        requires
            old(self).wf(),
        ensures
            final(self).wf(),
            final(self)@ == (DbV {
                sorted: fields_taken(old(self)@.sorted, coll@, doc_fields(data@), hash@),
                ..old(self)@
            }),
    {
        let ghost v = self@;
        if let JsonValue::Object(o) = data {
            let ghost fields = data@->Object_0;
            let mut i: usize = 0;
            assert(self@ =~= (DbV {
                sorted: fields_taken(v.sorted, coll@, fields.take(0), hash@),
                ..v
            }));
            while i < o.len()
                invariant
                    i <= o.len(),
                    self.wf(),
                    *data == JsonValue::Object(*o),
                    fields == data@->Object_0,
                    self@ == (DbV {
                        sorted: fields_taken(v.sorted, coll@, fields.take(i as int), hash@),
                        ..v
                    }),
                decreases o.len() - i,
            {
                assert(fields.take(i + 1).drop_last() =~= fields.take(i as int));
                assert(fields.take(i + 1).last() == (o@[i as int].0@, o@[i as int].1@));
                self.sorted_indexes.remove(coll, o[i].0.as_str(), &o[i].1, hash);
                assert(self@ =~= (DbV {
                    sorted: fields_taken(v.sorted, coll@, fields.take(i + 1), hash@),
                    ..v
                }));
                i = i + 1;
            }
            assert(fields.take(i as int) =~= fields);
        }
        assert(self@ =~= (DbV {
            sorted: fields_taken(v.sorted, coll@, doc_fields(data@), hash@),
            ..v
        }));
    }

    /// Takes a version that is no longer current out of the sorted indexes.
    fn supersede(&mut self, coll: &str, prev: &Option<String>)
        requires
            old(self).wf(),
        ensures
            final(self).wf(),
            final(self)@ == (DbV {
                sorted: superseded(
                    old(self)@.sorted,
                    old(self)@.objects,
                    coll@,
                    opt_text(*prev),
                ),
                ..old(self)@
            }),
    {
        let ghost v = self@;
        if let Some(hash) = prev {
            if let Ok(node) = self.objects.read(hash.as_str()) {
                self.take_fields(coll, &node.data, hash.as_str());
            }
        }
        assert(self@ =~= (DbV {
            sorted: superseded(v.sorted, v.objects, coll@, opt_text(*prev)),
            ..v
        }));
    }

    /// Chains a write into the head.
    fn update_head(&mut self, seq: u64, new_hash: &str)
        requires
            old(self).wf(),
        ensures
            final(self).wf(),
            final(self)@ == (DbV {
                head: head_after(old(self)@.head, seq, new_hash@),
                dirty: true,
                ..old(self)@
            }),
    {
        let ghost v = self@;
        let mut bytes: Vec<u8> = Vec::new();
        append_bytes(&mut bytes, self.head.as_str().as_bytes());
        append_bytes(&mut bytes, u64_to_le_bytes(seq).as_slice());
        append_bytes(&mut bytes, new_hash.as_bytes());
        assert(bytes@ =~= encode_utf8(v.head) + spec_u64_to_le_bytes(seq) + encode_utf8(
            new_hash@,
        ));
        self.head = blake2b(bytes.as_slice());
        self.manifest_dirty = true;
        assert(self@ =~= (DbV {
            head: head_after(v.head, seq, new_hash@),
            dirty: true,
            ..v
        }));
    }

    /// Takes the version of a document that is current out of the sorted
    /// indexes, and gives its hash.
    fn unsort(&mut self, coll: &str, id: &str) -> (prev: Option<String>)
        requires
            old(self).wf(),
        ensures
            final(self).wf(),
            final(self)@ == unsorted(old(self)@, coll@, id@),
            opt_text(prev) == hash_of(old(self)@.ids, coll@, id@),
    {
        let prev = self.id_index.get(coll, id);
        self.supersede(coll, &prev);
        prev
    }

    /// Makes a version that was written current.
    fn settle(&mut self, node: &Node)
        requires
            old(self).wf(),
        ensures
            final(self).wf(),
            final(self)@ == settled(old(self)@, node@),
    {
        let ghost v = self@;
        self.id_index.set(node.coll.as_str(), node.id.as_str(), node.hash.as_str());
        add_fields(
            &mut self.sorted_indexes,
            node.coll.as_str(),
            &node.data,
            node.hash.as_str(),
        );
        add_causes(&mut self.graph, node.hash.as_str(), &node.caused_by);
        self.update_head(node.seq, node.hash.as_str());
        assert(self@ =~= settled(v, node@));
    }

    /// Writes a document at a time that is given.
    pub fn put_at(
        &mut self,
        coll: &str,
        id: &str,
        data: JsonValue,
        caused_by: Vec<String>,
        valid_from: Option<String>,
        valid_to: Option<String>,
        ts: Number,
    ) -> (r: Result<Node, StoreError>)
        requires
            old(self).wf(),
            data.wf(),
            ts is Float,
            ts.wf(),
        ensures
            final(self).wf(),
            put_outcome(
                old(self)@,
                new_version(
                    old(self)@,
                    coll@,
                    id@,
                    data@,
                    strings(caused_by@),
                    opt_text(valid_from),
                    opt_text(valid_to),
                    ts@,
                ),
                r,
                final(self)@,
            ),
    {
        let ghost v = self@;
        if self.seq == u64::MAX {
            return Err(StoreError::SeqExhausted);
        }
        let seq = self.seq;
        self.seq = seq + 1;
        let ghost mid = self@;
        let prev = self.id_index.get(coll, id);
        let old_version = match &prev {
            Some(hash) => self.get_by_hash(hash.as_str()),
            None => None,
        };
        let mut node = Node {
            id: id.to_owned(),
            coll: coll.to_owned(),
            seq,
            data,
            prev,
            caused_by,
            ts,
            valid_from,
            valid_to,
            hash: String::new(),
        };
        let ghost n = node@;
        match self.objects.write(&mut node) {
            Ok(_) => {
                if let (Some(gone), Some(hash)) = (&old_version, &node.prev) {
                    self.take_fields(coll, &gone.data, hash.as_str());
                }
                assert(self@ =~= (DbV {
                    objects: self@.objects,
                    seq: (v.seq + 1) as u64,
                    ..unsorted(v, coll@, id@)
                }));
                self.settle(&node);
                Ok(node)
            },
            Err(e) => {
                assert(self@ =~= mid);
                Err(e)
            },
        }
    }

    /// Writes a document. The version it becomes is given back, with its hash.
    pub fn put(
        &mut self,
        coll: &str,
        id: &str,
        data: JsonValue,
        caused_by: Vec<String>,
        valid_from: Option<String>,
        valid_to: Option<String>,
    ) -> (r: Result<Node, StoreError>)
        requires
            old(self).wf(),
            data.wf(),
        ensures
            final(self).wf(),
            exists|ts: Num| #[trigger]
                float_time(ts) && put_outcome(
                    old(self)@,
                    new_version(
                        old(self)@,
                        coll@,
                        id@,
                        data@,
                        strings(caused_by@),
                        opt_text(valid_from),
                        opt_text(valid_to),
                        ts,
                    ),
                    r,
                    final(self)@,
                ),
    {
        let ts = now();
        assert(float_time(ts@));
        self.put_at(coll, id, data, caused_by, valid_from, valid_to, ts)
    }
}

/// Whether a time is a double.
pub open spec fn float_time(ts: Num) -> bool {
    ts matches Num::Float(t) && crate::json::float_text(t) == Some(t)
}

/// What writing a version comes to.
pub open spec fn put_outcome(v: DbV, n: NodeV, r: Result<Node, StoreError>, w: DbV) -> bool {
    &&& match r {
        Ok(node) => {
            &&& v.seq < u64::MAX
            &&& node.wf()
            &&& node@ == (NodeV { hash: node@.hash, ..n })
            &&& put_done(v, n, node@.hash, w)
        },
        Err(e) => if v.seq == u64::MAX {
            e == StoreError::SeqExhausted && w == v
        } else {
            write_error(v.objects, n, e) && w == (DbV { seq: (v.seq + 1) as u64, ..v })
        },
    }
    &&& obj_coherent(v.objects) ==> obj_coherent(w.objects)
    &&& obj_sound(v.objects) ==> obj_sound(w.objects)
}

/// The version that was current at a write: the first one, going back from a
/// version, that was written no later. At most `n` steps back are taken.
pub open spec fn back_to(v: ObjV, hash: Seq<char>, target: u64, n: nat) -> Option<NodeV>
    decreases n,
{
    match read_result(v, hash) {
        Err(_) => None,
        Ok(node) => if node.seq <= target {
            Some(node)
        } else if n == 0 {
            None
        } else {
            match node.prev {
                Some(p) => back_to(v, p, target, (n - 1) as nat),
                None => None,
            }
        },
    }
}

/// The version that was current at a write, however far back from a version.
pub open spec fn walked_back(v: ObjV, hash: Seq<char>, target: u64) -> Option<NodeV> {
    if exists|n: nat| #[trigger] back_to(v, hash, target, n) is Some {
        back_to(
            v,
            hash,
            target,
            choose|n: nat| #[trigger] back_to(v, hash, target, n) is Some,
        )
    } else {
        None
    }
}

/// The id of the document whose deletion a version notes: that of the version
/// before it, which it bears behind a mark.
pub open spec fn deleted_id(v: ObjV, n: NodeV) -> Option<Seq<char>> {
    match n.prev {
        None => None,
        Some(p) => match version(v, p) {
            None => None,
            Some(m) => if m.coll == n.coll && n.id == "_del_"@ + m.id {
                Some(m.id)
            } else {
                None
            },
        },
    }
}

/// Whether an object notes the deletion of a document, later than a write.
pub open spec fn noted(
    v: ObjV,
    coll: Seq<char>,
    id: Seq<char>,
    target: u64,
    hash: Seq<char>,
) -> bool {
    version(v, hash) matches Some(n) && n.coll == coll && n.seq > target && deleted_id(v, n)
        == Some(id)
}

/// Whether the version of one hash was written no later than that of another;
/// of two with one number, the one whose hash comes first counts as earlier.
pub open spec fn no_later(v: ObjV, a: Seq<char>, b: Seq<char>) -> bool {
    let x = version(v, a)->0.seq;
    let y = version(v, b)->0.seq;
    x < y || x == y && text_order(a, b) != Order::Greater
}

/// Whether an object notes the first deletion of a document later than a write.
pub open spec fn first_noted(
    v: ObjV,
    coll: Seq<char>,
    id: Seq<char>,
    target: u64,
    hash: Seq<char>,
) -> bool {
    &&& noted(v, coll, id, target, hash)
    &&& forall|k: Seq<char>| #[trigger] noted(v, coll, id, target, k) ==> no_later(v, hash, k)
}

/// The version of a document that was current at a write, going back from what
/// its first deletion after that write ended.
pub open spec fn before_deletion(
    v: ObjV,
    coll: Seq<char>,
    id: Seq<char>,
    target: u64,
) -> Option<NodeV> {
    if exists|h: Seq<char>| first_noted(v, coll, id, target, h) {
        let h = choose|h: Seq<char>| first_noted(v, coll, id, target, h);
        walked_back(v, version(v, h)->0.prev->0, target)
    } else {
        None
    }
}

/// The version of a document that was current at a write, going back from the
/// one that is current.
pub open spec fn traced_back(v: DbV, coll: Seq<char>, id: Seq<char>, target: u64) -> Option<
    NodeV,
> {
    match hash_of(v.ids, coll, id) {
        Some(h) => walked_back(v.objects, h, target),
        None => None,
    }
}

/// The version of a document that was current at a write, however far back,
/// and whether or not the document was deleted since.
pub open spec fn as_of(v: DbV, coll: Seq<char>, id: Seq<char>, target: u64) -> Option<NodeV> {
    match traced_back(v, coll, id, target) {
        Some(n) => Some(n),
        None => before_deletion(v.objects, coll, id, target),
    }
}

/// Only one object notes the first deletion.
pub proof fn lemma_first_noted(
    v: ObjV,
    coll: Seq<char>,
    id: Seq<char>,
    target: u64,
    a: Seq<char>,
    b: Seq<char>,
)
    requires
        first_noted(v, coll, id, target, a),
        first_noted(v, coll, id, target, b),
    ensures
        a == b,
{
    lemma_text_order(a, b);
    assert(no_later(v, a, b));
    assert(no_later(v, b, a));
}

/// What the note of a deletion says.
pub struct DeletionV {
    /// The hash of the note.
    pub hash: Seq<char>,
    /// The document.
    pub id: Seq<char>,
    /// The number of the write.
    pub seq: u64,
    /// The hash of what was current before.
    pub prev: Seq<char>,
}

/// What an object says of a deletion in a collection later than a write.
pub open spec fn deletion(v: ObjV, coll: Seq<char>, target: u64, hash: Seq<char>) -> Option<
    DeletionV,
> {
    match version(v, hash) {
        None => None,
        Some(n) => if n.coll != coll || n.seq <= target {
            None
        } else {
            match deleted_id(v, n) {
                Some(id) => Some(DeletionV { hash, id, seq: n.seq, prev: n.prev->0 }),
                None => None,
            }
        },
    }
}

/// The deletions in a collection, later than a write, that objects note.
pub open spec fn deletions_in(
    v: ObjV,
    coll: Seq<char>,
    target: u64,
    hashes: Seq<Seq<char>>,
) -> Seq<DeletionV>
    decreases hashes.len(),
{
    if hashes.len() == 0 {
        Seq::empty()
    } else {
        let before = deletions_in(v, coll, target, hashes.drop_last());
        match deletion(v, coll, target, hashes.last()) {
            Some(d) => before.push(d),
            None => before,
        }
    }
}

pub(crate) proof fn lemma_deletions_in(
    v: ObjV,
    coll: Seq<char>,
    target: u64,
    hashes: Seq<Seq<char>>,
)
    ensures
        forall|k: int|
            #![trigger deletions_in(v, coll, target, hashes)[k]]
            0 <= k < deletions_in(v, coll, target, hashes).len() ==> deletion(
                v,
                coll,
                target,
                deletions_in(v, coll, target, hashes)[k].hash,
            ) == Some(deletions_in(v, coll, target, hashes)[k]),
        forall|h: Seq<char>|
            hashes.contains(h) && (#[trigger] deletion(v, coll, target, h)) is Some
                ==> deletions_in(v, coll, target, hashes).contains(
                deletion(v, coll, target, h)->0,
            ),
    decreases hashes.len(),
{
    if hashes.len() > 0 {
        let head = hashes.drop_last();
        let before = deletions_in(v, coll, target, head);
        let all = deletions_in(v, coll, target, hashes);
        lemma_deletions_in(v, coll, target, head);
        assert forall|k: int| #![trigger all[k]] 0 <= k < all.len() implies deletion(
            v,
            coll,
            target,
            all[k].hash,
        ) == Some(all[k]) by {
            if k < before.len() {
                assert(all[k] == before[k]);
            }
        }
        assert forall|h: Seq<char>|
            hashes.contains(h) && (#[trigger] deletion(v, coll, target, h)) is Some implies all.contains(
            deletion(v, coll, target, h)->0,
        ) by {
            let d = deletion(v, coll, target, h)->0;
            if h == hashes.last() {
                assert(all[all.len() - 1] == d);
            } else {
                let i = choose|i: int| 0 <= i < hashes.len() && hashes[i] == h;
                assert(head[i] == h);
                let k = choose|k: int| 0 <= k < before.len() && before[k] == d;
                assert(all[k] == d);
            }
        }
    }
}

/// The documents that deletions are of.
pub open spec fn deleted_ids(ds: Seq<DeletionV>) -> Seq<Seq<char>> {
    ds.map_values(|d: DeletionV| d.id)
}

/// The ids of the documents of a collection that are there, and of those that
/// were deleted later than a write, in their order.
pub open spec fn known_ids(v: DbV, coll: Seq<char>, target: u64) -> Seq<Seq<char>> {
    all_placed(
        ids_in(v.ids, coll) + deleted_ids(
            deletions_in(v.objects, coll, target, all_keys(v.objects)),
        ),
    )
}

/// What was current at a write of documents, those that had a version then.
pub open spec fn all_as_of(v: DbV, coll: Seq<char>, ids: Seq<Seq<char>>, target: u64) -> Seq<NodeV>
    decreases ids.len(),
{
    if ids.len() == 0 {
        Seq::empty()
    } else {
        let before = all_as_of(v, coll, ids.drop_last(), target);
        match as_of(v, coll, ids.last(), target) {
            Some(n) => before.push(n),
            None => before,
        }
    }
}

/// More steps do not change what was found.
pub proof fn lemma_back_to(v: ObjV, hash: Seq<char>, target: u64, m: nat, n: nat)
    requires
        m <= n,
        back_to(v, hash, target, m) is Some,
    ensures
        back_to(v, hash, target, n) == back_to(v, hash, target, m),
    decreases m,
{
    if let Ok(node) = read_result(v, hash) {
        if node.seq > target {
            if let Some(p) = node.prev {
                lemma_back_to(v, p, target, (m - 1) as nat, (n - 1) as nat);
            }
        }
    }
}

/// Where a way back leads on from a version: to the one before it, where the
/// version was written too late.
spec fn step_back(v: ObjV, hash: Seq<char>, target: u64) -> Option<Seq<char>> {
    match read_result(v, hash) {
        Ok(node) => if node.seq > target {
            node.prev
        } else {
            None
        },
        Err(_) => None,
    }
}

/// Whether hashes are a way back.
spec fn way_back(v: ObjV, path: Seq<Seq<char>>, target: u64) -> bool {
    &&& path.len() > 0
    &&& forall|i: int|
        0 <= i < path.len() - 1 ==> step_back(v, #[trigger] path[i], target) == Some(path[i + 1])
}

proof fn lemma_way_back(v: ObjV, path: Seq<Seq<char>>, target: u64, n: nat)
    requires
        way_back(v, path, target),
    ensures
        n < path.len() - 1 ==> back_to(v, path[0], target, n) is None,
        n >= path.len() - 1 ==> back_to(v, path[0], target, n) == back_to(
            v,
            path.last(),
            target,
            (n - (path.len() - 1)) as nat,
        ),
    decreases path.len(),
{
    if path.len() > 1 {
        let rest = path.drop_first();
        assert(step_back(v, path[0], target) == Some(path[1]));
        assert forall|i: int| 0 <= i < rest.len() - 1 implies step_back(
            v,
            #[trigger] rest[i],
            target,
        ) == Some(rest[i + 1]) by {
            assert(rest[i] == path[i + 1]);
        }
        if n > 0 {
            lemma_way_back(v, rest, target, (n - 1) as nat);
        }
    }
}

/// A way back that comes to the same version twice never ends.
proof fn lemma_circle(v: ObjV, path: Seq<Seq<char>>, target: u64, i: int, j: int, n: nat)
    requires
        way_back(v, path, target),
        0 <= i < j < path.len(),
        path[i] == path[j],
    ensures
        back_to(v, path[0], target, n) is None,
{
    assert forall|m: nat| back_to(v, path[i], target, m) is None by {
        lemma_round(v, path, target, i, j, i, m);
    }
    let head = path.take(i + 1);
    assert forall|k: int| 0 <= k < head.len() - 1 implies step_back(v, #[trigger] head[k], target)
        == Some(head[k + 1]) by {
        assert(head[k] == path[k]);
    }
    lemma_way_back(v, head, target, n);
    assert(head[0] == path[0]);
    assert(head.last() == path[i]);
    if n >= head.len() - 1 {
        assert(back_to(v, path[i], target, (n - (head.len() - 1)) as nat) is None);
    }
}

proof fn lemma_round(v: ObjV, path: Seq<Seq<char>>, target: u64, i: int, j: int, k: int, m: nat)
    requires
        way_back(v, path, target),
        0 <= i < j < path.len(),
        path[i] == path[j],
        i <= k < j,
    ensures
        back_to(v, path[k], target, m) is None,
    decreases m,
{
    assert(step_back(v, path[k], target) == Some(path[k + 1]));
    if m > 0 {
        if k + 1 < j {
            lemma_round(v, path, target, i, j, k + 1, (m - 1) as nat);
        } else {
            lemma_round(v, path, target, i, j, i, (m - 1) as nat);
        }
    }
}

/// Hashes that are all those of objects cannot be more than the objects
/// without one of them standing twice.
proof fn lemma_more_than_objects(v: ObjV, path: Seq<Seq<char>>) -> (r: (int, int))
    requires
        forall|k: int| 0 <= k < path.len() ==> all_keys(v).contains(#[trigger] path[k]),
        path.len() > all_keys(v).len(),
    ensures
        0 <= r.0 < r.1 < path.len(),
        path[r.0] == path[r.1],
{
    let keys = all_keys(v);
    if path.no_duplicates() {
        path.unique_seq_to_set();
        keys.lemma_cardinality_of_set();
        assert(path.to_set().subset_of(keys.to_set())) by {
            assert forall|x: Seq<char>| path.to_set().contains(x) implies keys.to_set().contains(
                x,
            ) by {
                let k = choose|k: int| 0 <= k < path.len() && path[k] == x;
                assert(keys.contains(path[k]));
            }
        }
        vstd::set_lib::lemma_len_subset(path.to_set(), keys.to_set());
        assert(false);
    }
    let (a, b) = choose|a: int, b: int|
        0 <= a < path.len() && 0 <= b < path.len() && a != b && path[a] == path[b];
    if a < b {
        (a, b)
    } else {
        (b, a)
    }
}

impl Db {
    /// The current version of a document.
    pub fn get(&self, coll: &str, id: &str) -> (r: Option<Node>)
        requires
            self.wf(),
        ensures
            opt_node(r) == current(self@, coll@, id@),
            r matches Some(n) ==> n.wf(),
    {
        match self.id_index.get(coll, id) {
            Some(hash) => self.get_by_hash(hash.as_str()),
            None => None,
        }
    }

    /// The version with a hash.
    pub fn get_by_hash(&self, hash: &str) -> (r: Option<Node>)
        requires
            self.wf(),
        ensures
            opt_node(r) == version(self@.objects, hash@),
            r matches Some(n) ==> n.wf(),
    {
        match self.objects.read(hash) {
            Ok(node) => Some(node),
            Err(_) => None,
        }
    }

    /// The version that was current at a write, going back from a version.
    fn walk_back(&self, first: String, target_seq: u64) -> (r: Option<Node>)
        requires
            self.wf(),
        ensures
            opt_node(r) == walked_back(self@.objects, first@, target_seq),
            r matches Some(n) ==> n.wf(),
    {
        let ghost o = self@.objects;
        let ghost h = first@;
        let bound: u128 = self.objects.at_most();
        let mut steps: u128 = 0;
        let mut hash = first;
        let ghost mut path: Seq<Seq<char>> = seq![h];
        loop
            invariant
                self.wf(),
                o == self@.objects,
                bound >= all_keys(o).len(),
                way_back(o, path, target_seq),
                h == first@,
                path[0] == h,
                path.last() == hash@,
                path.len() == steps + 1,
                steps <= bound,
                forall|k: int| 0 <= k < path.len() - 1 ==> all_keys(o).contains(#[trigger] path[k]),
            decreases bound - steps,
        {
            match self.objects.read(hash.as_str()) {
                Ok(node) => {
                    proof {
                        self.objects.lemma_readable(hash@);
                    }
                    if node.seq <= target_seq {
                        proof {
                            let n = (path.len() - 1) as nat;
                            lemma_way_back(o, path, target_seq, n);
                            let c = choose|n: nat| #[trigger] back_to(o, h, target_seq, n) is Some;
                            assert(back_to(o, h, target_seq, n) is Some);
                            if c <= n {
                                lemma_back_to(o, h, target_seq, c, n);
                            } else {
                                lemma_back_to(o, h, target_seq, n, c);
                            }
                        }
                        return Some(node);
                    }
                    match node.prev {
                        Some(p) => {
                            if steps == bound {
                                proof {
                                    assert(all_keys(o).contains(path[path.len() - 1]));
                                    let (a, b) = lemma_more_than_objects(o, path);
                                    assert forall|n: nat| back_to(o, h, target_seq, n) is None by {
                                        lemma_circle(o, path, target_seq, a, b, n);
                                    }
                                }
                                return None;
                            }
                            proof {
                                let longer = path.push(p@);
                                assert(step_back(o, path.last(), target_seq) == Some(p@));
                                assert forall|i: int| 0 <= i < longer.len() - 1 implies step_back(
                                    o,
                                    #[trigger] longer[i],
                                    target_seq,
                                ) == Some(longer[i + 1]) by {
                                    if i < path.len() - 1 {
                                        assert(longer[i] == path[i]);
                                    }
                                }
                                assert forall|k: int|
                                    0 <= k < longer.len() - 1 implies all_keys(o).contains(
                                    #[trigger] longer[k],
                                ) by {
                                    if k < path.len() - 1 {
                                        assert(longer[k] == path[k]);
                                    }
                                }
                                path = longer;
                            }
                            hash = p;
                            steps = steps + 1;
                        },
                        None => {
                            proof {
                                assert forall|n: nat| back_to(o, h, target_seq, n) is None by {
                                    lemma_way_back(o, path, target_seq, n);
                                }
                            }
                            return None;
                        },
                    }
                },
                Err(_) => {
                    proof {
                        assert forall|n: nat| back_to(o, h, target_seq, n) is None by {
                            lemma_way_back(o, path, target_seq, n);
                        }
                    }
                    return None;
                },
            }
        }
    }

    /// What an object says of a deletion in a collection later than a write.
    fn deletion_at(&self, coll: &str, target: u64, hash: &str) -> (r: Option<Deletion>)
        requires
            self.wf(),
        ensures
            opt_deletion(r) == deletion(self@.objects, coll@, target, hash@),
    {
        let n = match self.get_by_hash(hash) {
            Some(n) => n,
            None => {
                return None;
            },
        };
        if !same_text(n.coll.as_str(), coll) || n.seq <= target {
            return None;
        }
        let prev = match n.prev {
            Some(p) => p,
            None => {
                return None;
            },
        };
        match self.get_by_hash(prev.as_str()) {
            Some(m) => {
                let mut name = "_del_".to_owned();
                name.append(m.id.as_str());
                if same_text(m.coll.as_str(), coll) && same_text(n.id.as_str(), name.as_str()) {
                    Some(Deletion { hash: hash.to_owned(), id: m.id, seq: n.seq, prev })
                } else {
                    None
                }
            },
            None => None,
        }
    }

    /// The deletions in a collection later than a write.
    fn deletions(&self, coll: &str, target: u64) -> (r: Vec<Deletion>)
        requires
            self.wf(),
        ensures
            deletions_view(r@) == deletions_in(
                self@.objects,
                coll@,
                target,
                all_keys(self@.objects),
            ),
    {
        let hashes = self.objects.all_hashes();
        let ghost keys = all_keys(self@.objects);
        let mut out: Vec<Deletion> = Vec::new();
        let mut i: usize = 0;
        assert(deletions_view(out@) =~= deletions_in(self@.objects, coll@, target, keys.take(0)));
        while i < hashes.len()
            invariant
                self.wf(),
                i <= hashes.len(),
                keys == strings(hashes@),
                deletions_view(out@) == deletions_in(
                    self@.objects,
                    coll@,
                    target,
                    keys.take(i as int),
                ),
            decreases hashes.len() - i,
        {
            assert(keys.take(i + 1).drop_last() =~= keys.take(i as int));
            assert(keys.take(i + 1).last() == hashes@[i as int]@);
            let ghost was = deletions_view(out@);
            if let Some(d) = self.deletion_at(coll, target, hashes[i].as_str()) {
                out.push(d);
                assert(deletions_view(out@) =~= was.push(d@));
            }
            i = i + 1;
        }
        assert(keys.take(i as int) =~= keys);
        out
    }

    /// The version of a document that was current at a write, going back from
    /// what its first deletion after that write ended.
    fn back_through(&self, coll: &str, id: &str, target: u64, ds: &Vec<Deletion>) -> (r: Option<
        Node,
    >)
        requires
            self.wf(),
            deletions_view(ds@) == deletions_in(
                self@.objects,
                coll@,
                target,
                all_keys(self@.objects),
            ),
        ensures
            opt_node(r) == before_deletion(self@.objects, coll@, id@, target),
            r matches Some(n) ==> n.wf(),
    {
        let ghost o = self@.objects;
        let ghost all = deletions_view(ds@);
        let mut best: Option<usize> = None;
        let mut i: usize = 0;
        while i < ds.len()
            invariant
                i <= ds.len(),
                all == deletions_view(ds@),
                match best {
                    None => forall|j: int| 0 <= j < i ==> (#[trigger] all[j]).id != id@,
                    Some(b) => b < i && all[b as int].id == id@ && forall|j: int|
                        0 <= j < i && (#[trigger] all[j]).id == id@ ==> sooner(all[b as int], all[j]),
                },
            decreases ds.len() - i,
        {
            if same_text(ds[i].id.as_str(), id) {
                let earlier = match best {
                    None => true,
                    Some(b) => ds[i].seq < ds[b].seq || ds[i].seq == ds[b].seq && compare_text(
                        ds[i].hash.as_str(),
                        ds[b].hash.as_str(),
                    ) == Order::Less,
                };
                proof {
                    let d = all[i as int];
                    lemma_text_order(d.hash, d.hash);
                    if let Some(b) = best {
                        lemma_text_order(d.hash, all[b as int].hash);
                        assert forall|j: int|
                            0 <= j < i && (#[trigger] all[j]).id == id@ && earlier implies sooner(
                            d,
                            all[j],
                        ) by {
                            lemma_sooner(d, all[b as int], all[j]);
                        }
                    }
                }
                if earlier {
                    best = Some(i);
                }
            }
            i = i + 1;
        }
        proof {
            lemma_deletions_in(o, coll@, target, all_keys(o));
            assert forall|k: Seq<char>| #[trigger] noted(o, coll@, id@, target, k) implies exists|
                j: int,
            |
                0 <= j < all.len() && (#[trigger] all[j]).hash == k && all[j].id == id@ by {
                self.objects.lemma_readable(k);
                let d = deletion(o, coll@, target, k)->0;
                assert(deletion(o, coll@, target, k) is Some);
                assert(all.contains(d));
            }
        }
        match best {
            Some(b) => {
                proof {
                    let d = all[b as int];
                    assert(deletion(o, coll@, target, d.hash) == Some(d));
                    assert forall|k: Seq<char>| #[trigger] noted(
                        o,
                        coll@,
                        id@,
                        target,
                        k,
                    ) implies no_later(o, d.hash, k) by {
                        let j = choose|j: int|
                            0 <= j < all.len() && (#[trigger] all[j]).hash == k && all[j].id == id@;
                        assert(sooner(d, all[j]));
                        assert(deletion(o, coll@, target, all[j].hash) == Some(all[j]));
                    }
                    assert(first_noted(o, coll@, id@, target, d.hash));
                    let h = choose|h: Seq<char>| first_noted(o, coll@, id@, target, h);
                    lemma_first_noted(o, coll@, id@, target, h, d.hash);
                }
                self.walk_back(ds[b].prev.clone(), target)
            },
            None => {
                proof {
                    assert forall|h: Seq<char>| !first_noted(o, coll@, id@, target, h) by {
                        assert(!noted(o, coll@, id@, target, h));
                    }
                }
                None
            },
        }
    }

    /// The version of a document that was current at a write, going back from
    /// the one that is current.
    fn trace_back(&self, coll: &str, id: &str, target: u64) -> (r: Option<Node>)
        requires
            self.wf(),
        ensures
            opt_node(r) == traced_back(self@, coll@, id@, target),
            r matches Some(n) ==> n.wf(),
    {
        match self.id_index.get(coll, id) {
            Some(hash) => self.walk_back(hash, target),
            None => None,
        }
    }

    /// A database lists all that it holds.
    pub proof fn lemma_lists_all(&self)
        requires
            self.wf(),
        ensures
            crate::query_laws::lists_all(self@),
    {
        self.id_index.lemma_wf();
        assert forall|h: Seq<char>| (#[trigger] read_result(self@.objects, h)) is Ok implies all_keys(
            self@.objects,
        ).contains(h) by {
            self.objects.lemma_readable(h);
        }
    }

    /// The version of a document that was current at a write, whether or not
    /// the document was deleted since.
    pub fn get_as_of(&self, coll: &str, id: &str, target_seq: u64) -> (r: Option<Node>)
        requires
            self.wf(),
        ensures
            opt_node(r) == as_of(self@, coll@, id@, target_seq),
            r matches Some(n) ==> n.wf(),
    {
        match self.trace_back(coll, id, target_seq) {
            Some(n) => Some(n),
            None => {
                let ds = self.deletions(coll, target_seq);
                self.back_through(coll, id, target_seq, &ds)
            },
        }
    }

    /// What was current at a write of the documents of a collection, those that
    /// were deleted since included, in the order of their ids.
    pub fn list_as_of(&self, coll: &str, target: u64) -> (r: Vec<Node>)
        requires
            self.wf(),
        ensures
            nodes_wf(r@),
            nodes_view(r@) == all_as_of(self@, coll@, known_ids(self@, coll@, target), target),
    {
        let ds = self.deletions(coll, target);
        let ghost all = deletions_view(ds@);
        let ghost here = ids_in(self@.ids, coll@);
        let mut ids = self.list_ids(coll);
        let mut k: usize = 0;
        assert(here + deleted_ids(all.take(0)) =~= here);
        while k < ds.len()
            invariant
                k <= ds.len(),
                all == deletions_view(ds@),
                strings(ids@) == here + deleted_ids(all.take(k as int)),
            decreases ds.len() - k,
        {
            let ghost was = strings(ids@);
            ids.push(ds[k].id.clone());
            assert(strings(ids@) =~= was.push(all[k as int].id));
            assert(here + deleted_ids(all.take(k + 1)) =~= was.push(all[k as int].id));
            k = k + 1;
        }
        assert(all.take(k as int) =~= all);
        let ids = put_in_order(&ids);
        let ghost is = known_ids(self@, coll@, target);
        let mut out: Vec<Node> = Vec::new();
        let mut i: usize = 0;
        assert(nodes_view(out@) =~= all_as_of(self@, coll@, is.take(0), target));
        while i < ids.len()
            invariant
                self.wf(),
                i <= ids.len(),
                is == strings(ids@),
                deletions_view(ds@) == deletions_in(
                    self@.objects,
                    coll@,
                    target,
                    all_keys(self@.objects),
                ),
                nodes_wf(out@),
                nodes_view(out@) == all_as_of(self@, coll@, is.take(i as int), target),
            decreases ids.len() - i,
        {
            assert(is.take(i + 1).drop_last() =~= is.take(i as int));
            assert(is.take(i + 1).last() == ids@[i as int]@);
            let ghost was = nodes_view(out@);
            let id = ids[i].as_str();
            let found = match self.trace_back(coll, id, target) {
                Some(n) => Some(n),
                None => self.back_through(coll, id, target, &ds),
            };
            if let Some(n) = found {
                out.push(n);
                assert(nodes_view(out@) =~= was.push(n@));
            }
            i = i + 1;
        }
        assert(is.take(i as int) =~= is);
        out
    }
}

/// The note of a deletion.
struct Deletion {
    hash: String,
    id: String,
    seq: u64,
    prev: String,
}

impl View for Deletion {
    type V = DeletionV;

    closed spec fn view(&self) -> DeletionV {
        DeletionV { hash: self.hash@, id: self.id@, seq: self.seq, prev: self.prev@ }
    }
}

spec fn opt_deletion(d: Option<Deletion>) -> Option<DeletionV> {
    match d {
        Some(x) => Some(x@),
        None => None,
    }
}

spec fn deletions_view(ds: Seq<Deletion>) -> Seq<DeletionV> {
    ds.map_values(|d: Deletion| d@)
}

/// Whether a deletion came no later than another.
spec fn sooner(a: DeletionV, b: DeletionV) -> bool {
    a.seq < b.seq || a.seq == b.seq && text_order(a.hash, b.hash) != Order::Greater
}

proof fn lemma_sooner(a: DeletionV, b: DeletionV, c: DeletionV)
    requires
        sooner(a, b),
        sooner(b, c),
    ensures
        sooner(a, c),
{
    if a.seq == b.seq && b.seq == c.seq {
        lemma_bytes_order_transitive(
            encode_utf8(a.hash),
            encode_utf8(b.hash),
            encode_utf8(c.hash),
        );
    }
}

pub open spec fn nodes_view(v: Seq<Node>) -> Seq<NodeV> {
    v.map_values(|n: Node| n@)
}

/// Whether all of the versions are well formed.
pub open spec fn nodes_wf(v: Seq<Node>) -> bool {
    forall|i: int| 0 <= i < v.len() ==> (#[trigger] v[i]).wf()
}

/// The current versions of documents, those that can be read.
pub open spec fn listed(v: DbV, coll: Seq<char>, ids: Seq<Seq<char>>) -> Seq<NodeV>
    decreases ids.len(),
{
    if ids.len() == 0 {
        Seq::empty()
    } else {
        let before = listed(v, coll, ids.drop_last());
        match current(v, coll, ids.last()) {
            Some(n) => before.push(n),
            None => before,
        }
    }
}

/// The versions with hashes, those that can be read.
pub open spec fn versions(v: ObjV, hashes: Seq<Seq<char>>) -> Seq<NodeV>
    decreases hashes.len(),
{
    if hashes.len() == 0 {
        Seq::empty()
    } else {
        let before = versions(v, hashes.drop_last());
        match version(v, hashes.last()) {
            Some(n) => before.push(n),
            None => before,
        }
    }
}

/// What a version is sorted by: the value of a field, or null where the
/// document has none.
pub open spec fn sort_key(n: NodeV, field: Seq<char>) -> Key {
    match json_get(n.data, field) {
        Some(j) => key_of(j),
        None => Key::Null,
    }
}

/// The versions sorted by the value of a field; equal values keep their order.
pub open spec fn sorted_nodes(ns: Seq<NodeV>, field: Seq<char>, descending: bool) -> Seq<NodeV> {
    let keys = ns.map_values(|n: NodeV| sort_key(n, field));
    let places = sorted_places(keys, descending, 0, ns.len() as int);
    Seq::new(places.len(), |i: int| ns[places[i]])
}

/// The first versions of a collection by the value of a field. Where the field
/// has a sorted index it is used; only documents that have the field are then
/// found.
pub open spec fn ordered_by(
    v: DbV,
    coll: Seq<char>,
    field: Seq<char>,
    descending: bool,
    limit: int,
) -> Seq<NodeV> {
    if v.sorted.contains_key((coll, field)) {
        let bs = v.sorted[(coll, field)];
        versions(
            v.objects,
            first(
                if descending {
                    flat_desc(bs)
                } else {
                    flat_asc(bs)
                },
                limit,
            ),
        )
    } else {
        first(sorted_nodes(listed(v, coll, ids_in(v.ids, coll)), field, descending), limit)
    }
}

/// The sorted indexes with the documents of a collection under the values of a
/// field.
pub open spec fn backfilled(
    v: DbV,
    coll: Seq<char>,
    field: Seq<char>,
    ids: Seq<Seq<char>>,
) -> SortedV
    decreases ids.len(),
{
    if ids.len() == 0 {
        if v.sorted.contains_key((coll, field)) {
            v.sorted
        } else {
            v.sorted.insert((coll, field), Seq::empty())
        }
    } else {
        let before = backfilled(v, coll, field, ids.drop_last());
        match current(v, coll, ids.last()) {
            Some(n) => match json_get(n.data, field) {
                Some(j) => sorted_add(before, coll, (field, j), n.hash),
                None => before,
            },
            None => before,
        }
    }
}

/// What a version is sorted by.
fn key_for(n: &Node, field: &str) -> (r: OrderedValue)
    ensures
        r@ == sort_key(n@, field@),
{
    match n.data.get(field) {
        Some(v) => OrderedValue::of(v),
        None => OrderedValue::Null,
    }
}

/// The versions at places.
fn take_places(nodes: &Vec<Node>, places: &Vec<usize>) -> (r: Vec<Node>)
    requires
        nodes_wf(nodes@),
        covers(as_ints(places@), 0, nodes@.len() as int),
    ensures
        nodes_wf(r@),
        nodes_view(r@) == as_ints(places@).map_values(|i: int| nodes_view(nodes@)[i]),
{
    let ghost ns = nodes_view(nodes@);
    let ghost ps = as_ints(places@);
    let mut out: Vec<Node> = Vec::new();
    let mut j: usize = 0;
    while j < places.len()
        invariant
            j <= places.len(),
            out.len() == j,
            ns == nodes_view(nodes@),
            ps == as_ints(places@),
            nodes_wf(nodes@),
            covers(ps, 0, nodes@.len() as int),
            forall|k: int| 0 <= k < j ==> (#[trigger] out@[k]).wf() && out@[k]@ == ns[ps[k]],
        decreases places.len() - j,
    {
        assert(ps[j as int] == places@[j as int] as int);
        out.push(nodes[places[j]].clone());
        j = j + 1;
    }
    assert(nodes_view(out@) =~= ps.map_values(|i: int| ns[i]));
    out
}

/// Sorts versions by the value of a field.
pub fn sort_nodes(nodes: &Vec<Node>, field: &str, descending: bool) -> (r: Vec<Node>)
    requires
        nodes_wf(nodes@),
    ensures
        nodes_wf(r@),
        nodes_view(r@) == sorted_nodes(nodes_view(nodes@), field@, descending),
{
    let ghost ns = nodes_view(nodes@);
    let ghost want = ns.map_values(|n: NodeV| sort_key(n, field@));
    let mut keys: Vec<OrderedValue> = Vec::new();
    let mut i: usize = 0;
    while i < nodes.len()
        invariant
            i <= nodes.len(),
            ns == nodes_view(nodes@),
            want == ns.map_values(|n: NodeV| sort_key(n, field@)),
            views(keys@) == want.take(i as int),
        decreases nodes.len() - i,
    {
        let ghost was = views(keys@);
        keys.push(key_for(&nodes[i], field));
        assert(views(keys@) =~= was.push(want[i as int]));
        assert(want.take(i + 1) =~= was.push(want[i as int]));
        i = i + 1;
    }
    assert(want.take(i as int) =~= want);
    let places = sort_places(&keys, descending);
    let out = take_places(nodes, &places);
    assert(nodes_view(out@) =~= sorted_nodes(ns, field@, descending));
    out
}

/// The versions by number, the latest first.
pub open spec fn latest_first(ns: Seq<NodeV>) -> Seq<NodeV> {
    sorted_places(ns.map_values(|n: NodeV| n.seq), true, 0, ns.len() as int).map_values(
        |i: int| ns[i],
    )
}

/// Sorts versions by number, the latest first.
fn sort_latest_first(nodes: &Vec<Node>) -> (r: Vec<Node>)
    requires
        nodes_wf(nodes@),
    ensures
        nodes_wf(r@),
        nodes_view(r@) == latest_first(nodes_view(nodes@)),
{
    let ghost ns = nodes_view(nodes@);
    let ghost want = ns.map_values(|n: NodeV| n.seq);
    let mut keys: Vec<u64> = Vec::new();
    let mut i: usize = 0;
    while i < nodes.len()
        invariant
            i <= nodes.len(),
            ns == nodes_view(nodes@),
            want == ns.map_values(|n: NodeV| n.seq),
            views(keys@) == want.take(i as int),
        decreases nodes.len() - i,
    {
        let ghost was = views(keys@);
        keys.push(nodes[i].seq);
        assert(views(keys@) =~= was.push(want[i as int]));
        assert(want.take(i + 1) =~= was.push(want[i as int]));
        i = i + 1;
    }
    assert(want.take(i as int) =~= want);
    let places = sort_places(&keys, true);
    let out = take_places(nodes, &places);
    assert(nodes_view(out@) =~= latest_first(ns));
    out
}

/// Keeps the first versions, at most `limit`.
pub fn keep_first(nodes: &mut Vec<Node>, limit: usize)
    requires
        nodes_wf(old(nodes)@),
    ensures
        nodes_wf(final(nodes)@),
        nodes_view(final(nodes)@) == first(nodes_view(old(nodes)@), limit as int),
{
    let ghost was = nodes@;
    nodes.truncate(limit);
    proof {
        assert(nodes_view(nodes@) =~= first(nodes_view(was), limit as int));
        assert forall|i: int| 0 <= i < nodes@.len() implies (#[trigger] nodes@[i]).wf() by {
            assert(nodes@[i] == was[i]);
        }
    }
}

impl Db {
    /// The ids in a collection.
    pub fn list_ids(&self, coll: &str) -> (r: Vec<String>)
        requires
            self.wf(),
        ensures
            strings(r@) == ids_in(self@.ids, coll@),
    {
        self.id_index.list_ids(coll)
    }

    /// The current versions of the documents in a collection.
    pub fn list(&self, coll: &str) -> (r: Vec<Node>)
        requires
            self.wf(),
        ensures
            nodes_wf(r@),
            nodes_view(r@) == listed(self@, coll@, ids_in(self@.ids, coll@)),
    {
        let ids = self.id_index.list_ids(coll);
        let ghost is = ids_in(self@.ids, coll@);
        let mut out: Vec<Node> = Vec::new();
        let mut i: usize = 0;
        assert(nodes_view(out@) =~= listed(self@, coll@, is.take(0)));
        while i < ids.len()
            invariant
                self.wf(),
                i <= ids.len(),
                is == strings(ids@),
                nodes_wf(out@),
                nodes_view(out@) == listed(self@, coll@, is.take(i as int)),
            decreases ids.len() - i,
        {
            assert(is.take(i + 1).drop_last() =~= is.take(i as int));
            assert(is.take(i + 1).last() == ids@[i as int]@);
            let ghost was = nodes_view(out@);
            if let Some(n) = self.get(coll, ids[i].as_str()) {
                out.push(n);
                assert(nodes_view(out@) =~= was.push(n@));
            }
            i = i + 1;
        }
        assert(is.take(i as int) =~= is);
        out
    }

    /// The versions with hashes, those that can be read.
    fn read_all(&self, hashes: &Vec<String>) -> (r: Vec<Node>)
        requires
            self.wf(),
        ensures
            nodes_wf(r@),
            nodes_view(r@) == versions(self@.objects, strings(hashes@)),
    {
        let ghost hs = strings(hashes@);
        let mut out: Vec<Node> = Vec::new();
        let mut i: usize = 0;
        assert(nodes_view(out@) =~= versions(self@.objects, hs.take(0)));
        while i < hashes.len()
            invariant
                self.wf(),
                i <= hashes.len(),
                hs == strings(hashes@),
                nodes_wf(out@),
                nodes_view(out@) == versions(self@.objects, hs.take(i as int)),
            decreases hashes.len() - i,
        {
            assert(hs.take(i + 1).drop_last() =~= hs.take(i as int));
            assert(hs.take(i + 1).last() == hashes@[i as int]@);
            let ghost was = nodes_view(out@);
            if let Some(n) = self.get_by_hash(hashes[i].as_str()) {
                out.push(n);
                assert(nodes_view(out@) =~= was.push(n@));
            }
            i = i + 1;
        }
        assert(hs.take(i as int) =~= hs);
        out
    }

    fn order_by(&self, coll: &str, field: &str, descending: bool, limit: usize) -> (r: Vec<Node>)
        requires
            self.wf(),
        ensures
            nodes_wf(r@),
            nodes_view(r@) == ordered_by(self@, coll@, field@, descending, limit as int),
    {
        if self.sorted_indexes.has(coll, field) {
            let hashes = if descending {
                self.sorted_indexes.top_k_desc(coll, field, limit)
            } else {
                self.sorted_indexes.top_k_asc(coll, field, limit)
            };
            self.read_all(&hashes)
        } else {
            let mut docs = sort_nodes(&self.list(coll), field, descending);
            keep_first(&mut docs, limit);
            docs
        }
    }

    /// The first documents of a collection by ascending value of a field.
    pub fn order_by_asc(&self, coll: &str, field: &str, limit: usize) -> (r: Vec<Node>)
        requires
            self.wf(),
        ensures
            nodes_wf(r@),
            nodes_view(r@) == ordered_by(self@, coll@, field@, false, limit as int),
    {
        self.order_by(coll, field, false, limit)
    }

    /// The first documents of a collection by descending value of a field.
    pub fn order_by_desc(&self, coll: &str, field: &str, limit: usize) -> (r: Vec<Node>)
        requires
            self.wf(),
        ensures
            nodes_wf(r@),
            nodes_view(r@) == ordered_by(self@, coll@, field@, true, limit as int),
    {
        self.order_by(coll, field, true, limit)
    }

    /// The versions that led to a version, or that it led to, the version
    /// itself first.
    pub fn trace(&self, hash: &str, reverse: bool, limit: usize) -> (r: Vec<Node>)
        requires
            self.wf(),
        ensures
            nodes_wf(r@),
            nodes_view(r@) == versions(
                self@.objects,
                traced(self@.graph, hash@, "caused_by"@, reverse, limit as nat),
            ),
    {
        let hashes = self.graph.trace(hash, "caused_by", reverse, limit);
        self.read_all(&hashes)
    }

    /// The latest versions that can be read, at most `limit`, the latest first.
    pub fn log(&self, limit: usize) -> (r: Vec<Node>)
        requires
            self.wf(),
        ensures
            nodes_wf(r@),
            nodes_view(r@) == first(
                latest_first(versions(self@.objects, all_keys(self@.objects))),
                limit as int,
            ),
    {
        let mut nodes = sort_latest_first(&self.read_all(&self.objects.all_hashes()));
        keep_first(&mut nodes, limit);
        nodes
    }

    /// Reads every object: how many could be read, and the hashes of those
    /// that could not.
    pub fn verify(&self) -> (r: (usize, Vec<String>))
        requires
            self.wf(),
        ensures
            strings(r.1@) == unreadable(self@.objects, all_keys(self@.objects)),
            r.0 == all_keys(self@.objects).len() - r.1@.len(),
    {
        self.objects.verify_all()
    }

    /// Reads every object that files hold, under the key of this database: how
    /// many could be read, and the hashes of those that could not.
    pub fn verify_files(
        &self,
        loose: Vec<LooseFile>,
        segments: Option<Vec<SegmentFile>>,
    ) -> (r: (usize, Vec<String>))
        requires
            self.wf(),
        ensures
            ({
                let o = held_objects(loose, segments, self@.objects.dek);
                &&& strings(r.1@) == unreadable(o, all_keys(o))
                &&& r.0 == all_keys(o).len() - r.1@.len()
            }),
    {
        self.objects.reopened(loose, segments).verify_all()
    }

    /// Makes a sorted index for a field, with the documents that are there.
    pub fn create_sorted_index(&mut self, coll: &str, field: &str)
        requires
            old(self).wf(),
        ensures
            final(self).wf(),
            final(self)@ == (DbV {
                sorted: backfilled(
                    old(self)@,
                    coll@,
                    field@,
                    ids_in(old(self)@.ids, coll@),
                ),
                ..old(self)@
            }),
    {
        let ghost v = self@;
        let ghost is = ids_in(v.ids, coll@);
        self.sorted_indexes.ensure(coll, field);
        let ids = self.id_index.list_ids(coll);
        let mut i: usize = 0;
        assert(self@ =~= (DbV { sorted: backfilled(v, coll@, field@, is.take(0)), ..v }));
        while i < ids.len()
            invariant
                self.wf(),
                i <= ids.len(),
                is == strings(ids@),
                self@ == (DbV { sorted: backfilled(v, coll@, field@, is.take(i as int)), ..v }),
            decreases ids.len() - i,
        {
            assert(is.take(i + 1).drop_last() =~= is.take(i as int));
            assert(is.take(i + 1).last() == ids@[i as int]@);
            assert(current(self@, coll@, ids@[i as int]@) == current(v, coll@, ids@[i as int]@));
            if let Some(n) = self.get(coll, ids[i].as_str()) {
                if let Some(value) = n.data.get(field) {
                    self.sorted_indexes.insert(coll, field, value, n.hash.as_str());
                }
            }
            assert(self@ =~= (DbV {
                sorted: backfilled(v, coll@, field@, is.take(i + 1)),
                ..v
            }));
            i = i + 1;
        }
        assert(is.take(i as int) =~= is);
    }

    /// The digest that all writes so far are chained into.
    pub fn head(&self) -> (r: String)
        ensures
            r@ == self@.head,
    {
        self.head.clone()
    }

    /// The number of the next write.
    pub fn seq(&self) -> (r: u64)
        ensures
            r == self@.seq,
    {
        self.seq
    }

    /// Whether writes may proceed.
    pub fn startup_ready(&self) -> (r: bool)
        ensures
            r == self@.ready,
    {
        self.startup_ready
    }

    /// The object store.
    pub fn objects(&self) -> (r: &ObjectStore)
        requires
            self.wf(),
        ensures
            r.wf(),
            r@ == self@.objects,
    {
        &self.objects
    }

    /// The id index.
    pub fn id_index(&self) -> (r: &IdIndex)
        requires
            self.wf(),
        ensures
            r.wf(),
            r@ == self@.ids,
    {
        &self.id_index
    }

    /// The causal graph.
    pub fn graph(&self) -> (r: &GraphStore)
        requires
            self.wf(),
        ensures
            r.wf(),
            r@ == self@.graph,
    {
        &self.graph
    }
}

/// What is written when a document is deleted: a note of the id and of the
/// version that was current.
pub open spec fn tombstone(
    v: DbV,
    coll: Seq<char>,
    id: Seq<char>,
    prev: Seq<char>,
    ts: Num,
) -> NodeV {
    NodeV {
        id: "_del_"@ + id,
        coll,
        seq: v.seq,
        data: object_of(seq![("_deleted"@, Json::Text(id)), ("_prev"@, Json::Text(prev))]),
        prev: Some(prev),
        caused_by: Seq::empty(),
        ts,
        valid_from: None,
        valid_to: None,
        hash: Seq::empty(),
    }
}

/// What deleting a document comes to.
pub open spec fn delete_outcome(
    v: DbV,
    coll: Seq<char>,
    id: Seq<char>,
    ts: Num,
    r: Result<bool, StoreError>,
    w: DbV,
) -> bool {
    &&& match hash_of(v.ids, coll, id) {
        None => r == Ok::<bool, StoreError>(false) && w == v,
        Some(prev) => if v.seq == u64::MAX {
            r == Err::<bool, StoreError>(StoreError::SeqExhausted) && w == v
        } else {
            let n = tombstone(v, coll, id, prev, ts);
            match r {
                Ok(existed) => existed && exists|hash: Seq<char>| #[trigger]
                    delete_done(v, n, prev, coll, id, hash, w),
                Err(e) => write_error(v.objects, n, e) && w == (DbV {
                    seq: (v.seq + 1) as u64,
                    ..v
                }),
            }
        },
    }
    &&& obj_coherent(v.objects) ==> obj_coherent(w.objects)
    &&& obj_sound(v.objects) ==> obj_sound(w.objects)
}

/// Whether writing the note of a deletion, under a hash, came to this: the
/// document is out of the indexes.
pub open spec fn delete_done(
    v: DbV,
    n: NodeV,
    prev: Seq<char>,
    coll: Seq<char>,
    id: Seq<char>,
    hash: Seq<char>,
    w: DbV,
) -> bool {
    &&& wrote(v.objects, n, hash, w.objects)
    &&& w == (DbV {
        objects: w.objects,
        ids: id_removed(v.ids, coll, id),
        sorted: superseded(v.sorted, v.objects, coll, Some(prev)),
        seq: (v.seq + 1) as u64,
        head: head_after(v.head, v.seq, hash),
        dirty: true,
        ..v
    })
}

/// Whether a version was written under a hash.
pub open spec fn wrote(o: ObjV, n: NodeV, hash: Seq<char>, w: ObjV) -> bool {
    &&& encode_utf8(hash).len() == 64
    &&& exists|content: Seq<u8>| written(o, n, content, hash, w)
}

impl Db {
    /// Deletes a document at a time that is given: notes the deletion, and
    /// takes the document out of the indexes. Its versions stay.
    pub fn delete_at(&mut self, coll: &str, id: &str, ts: Number) -> (r: Result<bool, StoreError>)
        requires
            old(self).wf(),
            ts is Float,
            ts.wf(),
        ensures
            final(self).wf(),
            delete_outcome(old(self)@, coll@, id@, ts@, r, final(self)@),
    {
        let ghost v = self@;
        let prev = match self.id_index.get(coll, id) {
            Some(hash) => hash,
            None => {
                return Ok(false);
            },
        };
        if self.seq == u64::MAX {
            return Err(StoreError::SeqExhausted);
        }
        let seq = self.seq;
        self.seq = seq + 1;
        let mut name = "_del_".to_owned();
        name.append(id);
        let mut fields: Vec<(String, JsonValue)> = Vec::new();
        fields.push(("_deleted".to_owned(), JsonValue::Text(id.to_owned())));
        fields.push(("_prev".to_owned(), JsonValue::Text(prev.clone())));
        assert(fields_view(fields@) =~= seq![
            ("_deleted"@, Json::Text(id@)),
            ("_prev"@, Json::Text(prev@)),
        ]);
        let mut node = Node {
            id: name,
            coll: coll.to_owned(),
            seq,
            data: object(fields),
            prev: Some(prev.clone()),
            caused_by: Vec::new(),
            ts,
            valid_from: None,
            valid_to: None,
            hash: String::new(),
        };
        let ghost n = node@;
        assert(n =~= tombstone(v, coll@, id@, prev@, ts@));
        let old_version = self.objects.read(prev.as_str());
        match self.objects.write(&mut node) {
            Ok(hash) => {
                if let Ok(gone) = old_version {
                    self.take_fields(coll, &gone.data, prev.as_str());
                }
                self.update_head(seq, hash.as_str());
                self.id_index.remove(coll, id);
                proof {
                    let w = self@;
                    assert(wrote(v.objects, n, hash@, w.objects));
                    assert(w =~= (DbV {
                        objects: w.objects,
                        ids: id_removed(v.ids, coll@, id@),
                        sorted: superseded(v.sorted, v.objects, coll@, Some(prev@)),
                        seq: (v.seq + 1) as u64,
                        head: head_after(v.head, v.seq, hash@),
                        dirty: true,
                        ..v
                    }));
                    assert(delete_done(v, n, prev@, coll@, id@, hash@, w));
                }
                Ok(true)
            },
            Err(e) => {
                assert(self@ =~= (DbV { seq: (v.seq + 1) as u64, ..v }));
                Err(e)
            },
        }
    }

    /// Deletes a document. Gives whether it was there.
    pub fn delete(&mut self, coll: &str, id: &str) -> (r: Result<bool, StoreError>)
        requires
            old(self).wf(),
        ensures
            final(self).wf(),
            exists|ts: Num| #[trigger]
                float_time(ts) && delete_outcome(old(self)@, coll@, id@, ts, r, final(self)@),
    {
        let ts = now();
        assert(float_time(ts@));
        self.delete_at(coll, id, ts)
    }
}

/// One document to write: collection, id, document, causes, and from when and
/// until when it is valid.
pub type PutOp = (String, String, JsonValue, Vec<String>, Option<String>, Option<String>);

/// The version that one write of a batch makes. All of a batch follow the
/// versions that were current before it.
pub open spec fn batch_version(v: DbV, op: PutOp, i: int, ts: Num) -> NodeV {
    NodeV {
        id: op.1@,
        coll: op.0@,
        seq: (v.seq + i) as u64,
        data: op.2@,
        prev: hash_of(v.ids, op.0@, op.1@),
        caused_by: strings(op.3@),
        ts,
        valid_from: opt_text(op.4),
        valid_to: opt_text(op.5),
        hash: Seq::empty(),
    }
}

/// Whether the writes of a batch came to this: `os` are the objects before
/// each write and at the end, and `errors` what went wrong.
pub open spec fn batch_tried(
    v: DbV,
    ops: Seq<PutOp>,
    ts: Num,
    nodes: Seq<NodeV>,
    errors: Seq<Option<StoreError>>,
    os: Seq<ObjV>,
) -> bool {
    &&& nodes.len() == errors.len()
    &&& os.len() == nodes.len() + 1
    &&& os[0] == v.objects
    &&& forall|i: int|
        #![trigger nodes[i]]
        #![trigger errors[i]]
        0 <= i < nodes.len() ==> {
            let n = batch_version(v, ops[i], i, ts);
            &&& nodes[i] == (NodeV { hash: nodes[i].hash, ..n })
            &&& match errors[i] {
                None => wrote(os[i], n, nodes[i].hash, os[i + 1]),
                Some(e) => write_error(os[i], n, e) && os[i + 1] == os[i],
            }
        }
}

/// The first error.
pub open spec fn first_error(errors: Seq<Option<StoreError>>) -> Option<StoreError>
    decreases errors.len(),
{
    if errors.len() == 0 {
        None
    } else {
        match first_error(errors.drop_last()) {
            Some(e) => Some(e),
            None => errors.last(),
        }
    }
}

/// The database with versions that were written made current one by one.
pub open spec fn all_settled(v: DbV, ns: Seq<NodeV>) -> DbV
    decreases ns.len(),
{
    if ns.len() == 0 {
        v
    } else {
        let n = ns.last();
        settled(unsorted(all_settled(v, ns.drop_last()), n.coll, n.id), n)
    }
}

/// What a batch of writes comes to.
pub open spec fn batch_outcome(
    v: DbV,
    ops: Seq<PutOp>,
    ts: Num,
    r: Result<Vec<Node>, StoreError>,
    w: DbV,
) -> bool {
    &&& if ops.len() == 0 {
        r matches Ok(nodes) && nodes@.len() == 0 && w == v
    } else if v.seq + ops.len() > u64::MAX {
        r matches Err(e) && e == StoreError::SeqExhausted && w == v
    } else {
        exists|nodes: Seq<NodeV>, errors: Seq<Option<StoreError>>, os: Seq<ObjV>| #[trigger]
            batch_tried(v, ops, ts, nodes, errors, os) && nodes.len() == ops.len() && {
                let tried = DbV {
                    objects: os.last(),
                    seq: (v.seq + ops.len()) as u64,
                    ..v
                };
                match first_error(errors) {
                    None => r matches Ok(ns) && nodes_view(ns@) == nodes && w == all_settled(
                        tried,
                        nodes,
                    ),
                    Some(e) => r matches Err(x) && x == e && w == tried,
                }
            }
    }
    &&& r matches Ok(ns) ==> nodes_wf(ns@)
    &&& obj_coherent(v.objects) ==> obj_coherent(w.objects)
    &&& obj_sound(v.objects) ==> obj_sound(w.objects)
}

proof fn lemma_settled_objects(v: DbV, ns: Seq<NodeV>)
    ensures
        all_settled(v, ns).objects == v.objects,
    decreases ns.len(),
{
    if ns.len() > 0 {
        lemma_settled_objects(v, ns.drop_last());
    }
}

impl Db {
    /// Writes documents at a time that is given.
    pub fn put_batch_at(&mut self, ops: Vec<PutOp>, ts: Number) -> (r: Result<
        Vec<Node>,
        StoreError,
    >)
        requires
            old(self).wf(),
            forall|i: int| 0 <= i < ops@.len() ==> (#[trigger] ops@[i]).2.wf(),
            ts is Float,
            ts.wf(),
        ensures
            final(self).wf(),
            batch_outcome(old(self)@, ops@, ts@, r, final(self)@),
    {
        let ghost v = self@;
        let ghost ops_v = ops@;
        let ghost t = ts@;
        if ops.len() == 0 {
            return Ok(Vec::new());
        }
        let count: u64 = ops.len() as u64;
        if count > u64::MAX - self.seq {
            return Err(StoreError::SeqExhausted);
        }
        let base_seq = self.seq;
        self.seq = base_seq + count;
        let ghost tried = self@;
        let mut nodes: Vec<Node> = Vec::new();
        let mut failed: Option<StoreError> = None;
        let ghost mut errors: Seq<Option<StoreError>> = Seq::empty();
        let ghost mut os: Seq<ObjV> = seq![v.objects];
        for op in it: ops
            invariant
                it.seq() == ops_v,
                self.wf(),
                ts is Float,
                ts.wf(),
                t == ts@,
                forall|i: int| 0 <= i < ops_v.len() ==> (#[trigger] ops_v[i]).2.wf(),
                base_seq == v.seq,
                v.seq + ops_v.len() <= u64::MAX,
                nodes.len() == it.index(),
                nodes_wf(nodes@),
                batch_tried(v, ops_v, t, nodes_view(nodes@), errors, os),
                failed == first_error(errors),
                self@ == (DbV { objects: os.last(), ..tried }),
                tried == (DbV { seq: (v.seq + ops_v.len()) as u64, ..v }),
                obj_coherent(v.objects) ==> obj_coherent(os.last()),
                obj_sound(v.objects) ==> obj_sound(os.last()),
        {
            let ghost i = it.index() as int;
            assert(op == ops_v[i]);
            let seq: u64 = base_seq + nodes.len() as u64;
            let prev = self.id_index.get(op.0.as_str(), op.1.as_str());
            let mut node = Node {
                id: op.1,
                coll: op.0,
                seq,
                data: op.2,
                prev,
                caused_by: op.3,
                ts: ts.clone(),
                valid_from: op.4,
                valid_to: op.5,
                hash: String::new(),
            };
            let ghost n = node@;
            let ghost o = self@.objects;
            assert(n == batch_version(v, ops_v[i], i, t));
            let wrote_it = self.objects.write(&mut node);
            let ghost o2 = self@.objects;
            let ghost was = nodes_view(nodes@);
            let ghost was_errors = errors;
            let ghost was_os = os;
            match wrote_it {
                Ok(_) => {
                    proof {
                        errors = errors.push(None);
                        assert(wrote(o, n, node@.hash, o2));
                    }
                },
                Err(e) => {
                    if failed.is_none() {
                        failed = Some(e);
                    }
                    proof {
                        errors = errors.push(Some(e));
                        assert(o2 == o);
                    }
                },
            }
            nodes.push(node);
            proof {
                os = os.push(o2);
                assert(errors.drop_last() =~= was_errors);
                assert(nodes_view(nodes@) =~= was.push(nodes@[i]@));
                let ns = nodes_view(nodes@);
                assert forall|k: int| 0 <= k < ns.len() implies {
                    let n = batch_version(v, ops_v[k], k, t);
                    &&& #[trigger] ns[k] == (NodeV { hash: ns[k].hash, ..n })
                    &&& match errors[k] {
                        None => wrote(os[k], n, ns[k].hash, os[k + 1]),
                        Some(e) => write_error(os[k], n, e) && os[k + 1] == os[k],
                    }
                } by {
                    if k < i {
                        assert(ns[k] == was[k]);
                        assert(errors[k] == was_errors[k]);
                        assert(os[k] == was_os[k] && os[k + 1] == was_os[k + 1]);
                    } else {
                        assert(os[k] == o && os[k + 1] == o2);
                    }
                }
                assert(self@ =~= (DbV { objects: os.last(), ..tried }));
            }
        }
        let ghost all = nodes_view(nodes@);
        assert(batch_tried(v, ops_v, t, all, errors, os));
        let ghost base = self@;
        if let Some(e) = failed {
            return Err(e);
        }
        let mut i: usize = 0;
        while i < nodes.len()
            invariant
                i <= nodes.len(),
                self.wf(),
                all == nodes_view(nodes@),
                self@ == all_settled(base, all.take(i as int)),
            decreases nodes.len() - i,
        {
            assert(all.take(i + 1).drop_last() =~= all.take(i as int));
            assert(all.take(i + 1).last() == nodes@[i as int]@);
            let _ = self.unsort(nodes[i].coll.as_str(), nodes[i].id.as_str());
            self.settle(&nodes[i]);
            i = i + 1;
        }
        proof {
            assert(all.take(i as int) =~= all);
            lemma_settled_objects(base, all);
        }
        Ok(nodes)
    }

    /// Writes documents. The versions they become are given back in order.
    pub fn put_batch(&mut self, ops: Vec<PutOp>) -> (r: Result<Vec<Node>, StoreError>)
        requires
            old(self).wf(),
            forall|i: int| 0 <= i < ops@.len() ==> (#[trigger] ops@[i]).2.wf(),
        ensures
            final(self).wf(),
            exists|ts: Num| #[trigger]
                float_time(ts) && batch_outcome(old(self)@, ops@, ts, r, final(self)@),
    {
        let ts = now();
        assert(float_time(ts@));
        self.put_batch_at(ops, ts)
    }
}

/// The fields of a manifest.
pub open spec fn manifest_fields(seq: u64, head: Seq<char>) -> Seq<(Seq<char>, Json)> {
    seq![("seq"@, Json::Number(Num::Int(seq as int))), ("head"@, Json::Text(head))]
}

/// What a manifest says: the number of the next write, and a head.
pub open spec fn manifest_read(bytes: Seq<u8>) -> Option<(u64, Seq<char>)> {
    match json_parse(bytes) {
        Some(j) => match (json_part(j, "seq"@, 0), json_part(j, "head"@, 1)) {
            (Some(Json::Number(Num::Int(n))), Some(Json::Text(h))) => if 0 <= n <= u64::MAX && (
            j matches Json::Array(items) ==> items.len() == 2) {
                Some((n as u64, h))
            } else {
                None
            },
            _ => None,
        },
        None => None,
    }
}

/// The manifest for a number and a head; reading it gives them back.
fn manifest_bytes(seq: u64, head: &str) -> (r: Vec<u8>)
    ensures
        r@ == object_text(manifest_fields(seq, head@)),
        manifest_read(r@) == Some((seq, head@)),
{
    let mut fields: Vec<(String, JsonValue)> = Vec::new();
    fields.push(("seq".to_owned(), JsonValue::Number(Number::PosInt(seq))));
    fields.push(("head".to_owned(), JsonValue::Text(head.to_owned())));
    proof {
        let fs = manifest_fields(seq, head@);
        assert(fields_view(fields@) =~= fs);
        reveal_strlit("seq");
        reveal_strlit("head");
        crate::node::lemma_by_key(fs);
        assert(crate::json::field_of(by_key(fs), fs[0].0) == Some(fs[0].1));
        assert(crate::json::field_of(by_key(fs), fs[1].0) == Some(fs[1].1));
    }
    object_to_bytes(&fields)
}

/// The highest number of a write among versions; zero where there is none.
pub open spec fn max_seq(ns: Seq<NodeV>) -> u64
    decreases ns.len(),
{
    if ns.len() == 0 {
        0
    } else {
        let before = max_seq(ns.drop_last());
        if ns.last().seq > before {
            ns.last().seq
        } else {
            before
        }
    }
}

/// Texts in order.
pub open spec fn sorted_texts(ts: Seq<Seq<char>>) -> Seq<Seq<char>> {
    let keys = ts.map_values(|t: Seq<char>| Key::Str(t));
    let places = sorted_places(keys, false, 0, ts.len() as int);
    Seq::new(places.len(), |i: int| ts[places[i]])
}

/// The bytes of texts one after the other.
pub open spec fn joined(ts: Seq<Seq<char>>) -> Seq<u8>
    decreases ts.len(),
{
    if ts.len() == 0 {
        Seq::empty()
    } else {
        joined(ts.drop_last()) + encode_utf8(ts.last())
    }
}

/// The head that a scan of all objects gives: the digest of the highest
/// number and of all hashes in order.
pub open spec fn scanned_head(seq: u64, hashes: Seq<Seq<char>>) -> Seq<char> {
    content_hash(spec_u64_to_le_bytes(seq) + joined(sorted_texts(hashes)))
}

/// The number that follows a number, where there is one.
pub open spec fn number_after(n: u64) -> u64 {
    if n < u64::MAX {
        (n + 1) as u64
    } else {
        n
    }
}

/// The database after a scan that found objects with these hashes, of which
/// these versions could be read. Sorted indexes were filled when they were
/// made, and no write came since.
pub open spec fn scan_applied(v: DbV, keys: Seq<Seq<char>>, ns: Seq<NodeV>) -> DbV {
    let top = max_seq(ns);
    if v.ready {
        v
    } else if keys.len() == 0 {
        DbV { ready: true, ..v }
    } else {
        DbV {
            seq: number_after(top),
            head: scanned_head(top, keys),
            ready: true,
            ..v
        }
    }
}

/// The database after a scan of all objects.
pub open spec fn scanned(v: DbV) -> DbV {
    scan_applied(v, all_keys(v.objects), versions(v.objects, all_keys(v.objects)))
}

/// Whether this is the manifest to save after a scan: none where there was
/// nothing to scan, else that with the number of the next write and the head.
pub open spec fn scan_saved(
    v: DbV,
    keys: Seq<Seq<char>>,
    ns: Seq<NodeV>,
    r: Option<Vec<u8>>,
) -> bool {
    if v.ready || keys.len() == 0 {
        r is None
    } else {
        r matches Some(b) && manifest_read(b@) == Some(
            (number_after(max_seq(ns)), scanned_head(max_seq(ns), keys)),
        )
    }
}

/// Whether this is the manifest to save after a scan of all objects.
pub open spec fn scan_saves(v: DbV, r: Option<Vec<u8>>) -> bool {
    scan_saved(v, all_keys(v.objects), versions(v.objects, all_keys(v.objects)), r)
}

/// The database after starting up with a manifest: where there is one that can
/// be read and no sorted index to fill, its number and head are taken over.
pub open spec fn started(v: DbV, manifest: Option<Seq<u8>>) -> DbV {
    match manifest {
        Some(bytes) => match manifest_read(bytes) {
            Some((seq, head)) => if v.sorted == Map::<
                (Seq<char>, Seq<char>),
                BucketsV,
            >::empty() {
                DbV { seq, head, ready: true, ..v }
            } else {
                v
            },
            None => v,
        },
        None => v,
    }
}

/// What the files of a database hold: loose objects; segments, where objects
/// are packed; the id index; edges; the manifest; and the log of the first
/// format, where one is still to be taken over.
#[derive(Debug)]
pub struct DbFiles {
    pub loose: Vec<LooseFile>,
    pub segments: Option<Vec<SegmentFile>>,
    /// The collections that the id index has directories for.
    pub colls: Vec<String>,
    pub ids: Vec<IdFile>,
    pub edges: Vec<(String, String, String)>,
    pub manifest: Option<Vec<u8>>,
    pub aof: Option<String>,
}

/// The database that files hold, before anything else was done.
pub open spec fn loaded(files: DbFiles, dek: Option<Dek>) -> DbV {
    DbV {
        objects: held_objects(files.loose, files.segments, dek_view(dek)),
        ids: id_loaded(strings(files.colls@), id_files(files.ids@)),
        sorted: Map::empty(),
        graph: edges_added(edges_view(files.edges@)),
        seq: 0,
        head: Seq::empty(),
        ready: false,
        dirty: false,
        memory: false,
    }
}

/// Whether taking over a log, where there is one, leads from one database to
/// another.
pub open spec fn log_taken(
    v: DbV,
    aof: Option<Seq<char>>,
    dek: Option<Dek>,
    r: Result<bool, StoreError>,
    w: DbV,
) -> bool {
    &&& w == (DbV { objects: w.objects, ids: w.ids, sorted: w.sorted, graph: w.graph, ..v })
    &&& migrated(
        untaken(v.objects, v.ids, v.sorted, v.graph),
        aof,
        dek_view(dek),
        r,
        untaken(w.objects, w.ids, w.sorted, w.graph),
    )
}

/// What opening the database that files hold comes to: a log of the first
/// format is taken over, then what the manifest says.
pub open spec fn open_outcome(
    files: DbFiles,
    dek: Option<Dek>,
    r: Result<DbV, StoreError>,
) -> bool {
    let v = loaded(files, dek);
    let aof = opt_text(files.aof);
    let manifest = match files.manifest {
        Some(b) => Some(b@),
        None => None,
    };
    match r {
        Ok(db) => exists|w: DbV| #[trigger]
            log_taken(v, aof, dek, Ok(files.aof is Some), w) && db == started(w, manifest),
        Err(e) => exists|w: DbV| #[trigger] log_taken(v, aof, dek, Err(e), w),
    }
}

/// The hashes of all current versions.
pub open spec fn live_hashes(v: IdV) -> Set<Seq<char>> {
    Set::new(|h: Seq<char>| is_hash(v, h))
}

impl Db {
    /// The manifest to save: the number of the next write, and the head.
    /// Nothing where the database is not kept in files.
    pub fn flush_manifest(&self) -> (r: Option<Vec<u8>>)
        ensures
            self@.memory ==> r is None,
            !self@.memory ==> (r matches Some(b) && b@ == object_text(
                manifest_fields(self@.seq, self@.head),
            ) && manifest_read(b@) == Some((self@.seq, self@.head))),
    {
        if self.memory {
            return None;
        }
        Some(manifest_bytes(self.seq, self.head.as_str()))
    }

    /// The manifest to save, where the head changed since the last time.
    pub fn flush_manifest_if_dirty(&mut self) -> (r: Option<Vec<u8>>)
        requires
            old(self).wf(),
        ensures
            final(self).wf(),
            if old(self)@.memory || !old(self)@.dirty {
                r is None && final(self)@ == old(self)@
            } else {
                &&& r matches Some(b) && b@ == object_text(
                    manifest_fields(old(self)@.seq, old(self)@.head),
                ) && manifest_read(b@) == Some((old(self)@.seq, old(self)@.head))
                &&& final(self)@ == (DbV { dirty: false, ..old(self)@ })
            },
    {
        if self.memory || !self.manifest_dirty {
            return None;
        }
        self.manifest_dirty = false;
        assert(self@ =~= (DbV { dirty: false, ..old(self)@ }));
        self.flush_manifest()
    }

    /// What is to be saved in files: the changes to the id index, and the
    /// manifest where the head changed.
    pub fn flush_all(&mut self) -> (r: (Vec<IdChange>, Option<Vec<u8>>))
        requires
            old(self).wf(),
        ensures
            final(self).wf(),
            final(self)@ == (DbV {
                ids: IdV { dirty: Seq::empty(), ..old(self)@.ids },
                dirty: old(self)@.dirty && old(self)@.memory,
                ..old(self)@
            }),
            r.0@.len() == old(self)@.ids.dirty.len(),
            forall|i: int|
                0 <= i < r.0@.len() ==> change_for(
                    old(self)@.ids,
                    old(self)@.ids.dirty[i],
                    #[trigger] r.0@[i],
                ),
            if old(self)@.memory || !old(self)@.dirty {
                r.1 is None
            } else {
                r.1 matches Some(b) && manifest_read(b@) == Some(
                    (old(self)@.seq, old(self)@.head),
                )
            },
    {
        let ids = self.id_index.flush_write_buf();
        let ghost mid = self@;
        let manifest = self.flush_manifest_if_dirty();
        assert(self@ =~= (DbV {
            ids: IdV { dirty: Seq::empty(), ..old(self)@.ids },
            dirty: old(self)@.dirty && old(self)@.memory,
            ..old(self)@
        }));
        (ids, manifest)
    }

    /// Opens the database that files hold: takes over a log of the first
    /// format, and what the manifest says.
    pub fn open(files: DbFiles, dek: Option<Dek>) -> (r: Result<Db, StoreError>)
        ensures
            match r {
                Ok(db) => db.wf() && open_outcome(files, dek, Ok(db@)),
                Err(e) => open_outcome(files, dek, Err(e)),
            },
    {
        let mut db = Db {
            objects: ObjectStore::new(files.loose, files.segments, dek),
            id_index: IdIndex::new(files.colls, files.ids),
            sorted_indexes: SortedIndexes::new(),
            graph: GraphStore::new(files.edges),
            seq: 0,
            head: String::new(),
            startup_ready: false,
            manifest_dirty: false,
            memory: false,
        };
        let ghost v = db@;
        assert(v =~= loaded(files, dek));
        let aof = match &files.aof {
            Some(t) => Some(t.as_str()),
            None => None,
        };
        let key = match &dek {
            Some(k) => Some(k),
            None => None,
        };
        let done = migrate_if_needed(
            aof,
            &mut db.objects,
            &mut db.id_index,
            &mut db.sorted_indexes,
            &mut db.graph,
            key,
        );
        assert(log_taken(v, opt_text(files.aof), dek, done, db@));
        match done {
            Ok(_) => {
                match &files.manifest {
                    Some(bytes) => db.startup_rebuild(Some(bytes)),
                    None => db.startup_rebuild(None),
                }
                Ok(db)
            },
            Err(e) => Err(e),
        }
    }

    /// Takes over what a manifest says. Where it says nothing, a scan is still
    /// to come.
    pub fn startup_rebuild(&mut self, manifest: Option<&Vec<u8>>)
        requires
            old(self).wf(),
        ensures
            final(self).wf(),
            final(self)@ == started(
                old(self)@,
                match manifest {
                    Some(b) => Some(b@),
                    None => None,
                },
            ),
    {
        if !self.sorted_indexes.is_empty() {
            return;
        }
        if let Some(bytes) = manifest {
            if let Some(j) = crate::json::parse(bytes.as_slice()) {
                let whole = match &j {
                    JsonValue::Array(a) => a.len() == 2,
                    _ => true,
                };
                if let (Some(s), Some(h)) = (j.part("seq", 0), j.part("head", 1)) {
                    proof {
                        crate::json::lemma_wf(*s);
                    }
                    if let (Some(seq), Some(head), true) = (s.as_u64(), h.as_str(), whole) {
                        self.seq = seq;
                        self.head = head.to_owned();
                        self.startup_ready = true;
                    }
                }
            }
        }
        assert(self@ =~= started(
            old(self)@,
            match manifest {
                Some(b) => Some(b@),
                None => None,
            },
        ));
    }

    /// Scans all objects for the next number and the head, where starting up did
    /// not do without. Gives the manifest to save.
    pub fn start_cold_scan(&mut self) -> (r: Option<Vec<u8>>)
        requires
            old(self).wf(),
        ensures
            final(self).wf(),
            final(self)@ == scanned(old(self)@),
            scan_saves(old(self)@, r),
    {
        if self.startup_ready {
            return None;
        }
        let hashes = self.objects.all_hashes();
        let nodes = self.read_all(&hashes);
        self.finish_cold_scan(&hashes, &nodes)
    }

    /// Takes over what a scan found: the hashes of objects, and the versions
    /// that could be read. Gives the manifest to save. Reads may proceed while
    /// objects are scanned, and writes after this.
    pub fn finish_cold_scan(&mut self, hashes: &Vec<String>, nodes: &Vec<Node>) -> (r: Option<
        Vec<u8>,
    >)
        requires
            old(self).wf(),
        ensures
            final(self).wf(),
            final(self)@ == scan_applied(old(self)@, strings(hashes@), nodes_view(nodes@)),
            scan_saved(old(self)@, strings(hashes@), nodes_view(nodes@), r),
    {
        let ghost v = self@;
        let ghost keys = strings(hashes@);
        let ghost ns = nodes_view(nodes@);
        if self.startup_ready {
            return None;
        }
        if hashes.len() == 0 {
            self.startup_ready = true;
            assert(self@ =~= (DbV { ready: true, ..v }));
            return None;
        }
        let mut top: u64 = 0;
        let mut i: usize = 0;
        while i < nodes.len()
            invariant
                i <= nodes.len(),
                ns == nodes_view(nodes@),
                top == max_seq(ns.take(i as int)),
            decreases nodes.len() - i,
        {
            assert(ns.take(i + 1).drop_last() =~= ns.take(i as int));
            assert(ns.take(i + 1).last() == nodes@[i as int]@);
            if nodes[i].seq > top {
                top = nodes[i].seq;
            }
            i = i + 1;
        }
        assert(ns.take(i as int) =~= ns);
        let mut bytes = u64_to_le_bytes(top);
        append_sorted(&mut bytes, hashes);
        self.seq = if top < u64::MAX {
            top + 1
        } else {
            top
        };
        self.head = blake2b(bytes.as_slice());
        self.startup_ready = true;
        assert(self@ =~= scan_applied(v, keys, ns));
        Some(manifest_bytes(self.seq, self.head.as_str()))
    }

    /// Drops every packed object that is not a current version.
    pub fn compact(&mut self) -> (r: Result<CompactStats, StoreError>)
        requires
            old(self).wf(),
        ensures
            final(self).wf(),
            final(self)@ == (DbV { objects: final(self)@.objects, ..old(self)@ }),
            match old(self)@.objects.packed {
                None => r == Ok::<CompactStats, StoreError>(
                    CompactStats {
                        live_objects: 0,
                        dropped_objects: 0,
                        bytes_reclaimed: 0,
                        segments_after: 0,
                    },
                ) && final(self)@ == old(self)@,
                Some(s) => {
                    let live = live_hashes(old(self)@.ids);
                    let n = s.index.keys.len() as int;
                    let w = final(self)@.objects;
                    match r {
                        Ok(stats) => {
                            &&& w.packed is Some
                            &&& w == (ObjV { packed: w.packed, ..old(self)@.objects })
                            &&& copied(s, live, n) == Ok::<SegV, SegmentError>(w.packed->0)
                            &&& tells(stats, s, live, w.packed->0)
                            &&& coherent(w.packed->0)
                            &&& compacted(s, live, w.packed->0)
                        },
                        Err(e) => final(self)@ == old(self)@ && (copied(s, live, n) matches Err(x)
                            && e == from_segment(x)),
                    }
                },
            },
            obj_coherent(old(self)@.objects) ==> obj_coherent(final(self)@.objects),
    {
        let ghost v = self@;
        let live = self.current_hashes();
        let r = self.objects.compact(&live);
        assert(self@ =~= (DbV { objects: self@.objects, ..v }));
        r
    }

    /// The hashes of all current versions.
    fn current_hashes(&self) -> (r: Vec<String>)
        requires
            self.wf(),
        ensures
            texts(r@) == live_hashes(self@.ids),
    {
        let r = self.id_index.hashes();
        assert forall|h: Seq<char>| texts(r@).contains(h) <==> live_hashes(
            self@.ids,
        ).contains(h) by {
            assert(is_hash(self@.ids, h) <==> in_list(r@, h));
        }
        assert(texts(r@) =~= live_hashes(self@.ids));
        r
    }
}

/// Puts the bytes of texts in order behind others.
fn append_sorted(bytes: &mut Vec<u8>, texts: &Vec<String>)
    ensures
        final(bytes)@ == old(bytes)@ + joined(sorted_texts(strings(texts@))),
{
    let ghost ts = strings(texts@);
    let ghost want = ts.map_values(|t: Seq<char>| Key::Str(t));
    let ghost was = bytes@;
    let mut keys: Vec<OrderedValue> = Vec::new();
    let mut i: usize = 0;
    while i < texts.len()
        invariant
            i <= texts.len(),
            ts == strings(texts@),
            want == ts.map_values(|t: Seq<char>| Key::Str(t)),
            views(keys@) == want.take(i as int),
        decreases texts.len() - i,
    {
        let ghost before = views(keys@);
        keys.push(OrderedValue::Str(texts[i].clone()));
        assert(views(keys@) =~= before.push(want[i as int]));
        assert(want.take(i + 1) =~= before.push(want[i as int]));
        i = i + 1;
    }
    assert(want.take(i as int) =~= want);
    let places = sort_places(&keys, false);
    let ghost ps = as_ints(places@);
    let ghost sorted = sorted_texts(ts);
    assert(ps == sorted_places(want, false, 0, ts.len() as int));
    let mut j: usize = 0;
    assert(was + joined(sorted.take(0)) =~= was);
    while j < places.len()
        invariant
            j <= places.len(),
            ts == strings(texts@),
            ps == as_ints(places@),
            sorted == Seq::new(ps.len(), |k: int| ts[ps[k]]),
            crate::sort::covers(ps, 0, texts@.len() as int),
            bytes@ == was + joined(sorted.take(j as int)),
        decreases places.len() - j,
    {
        assert(ps[j as int] == places@[j as int] as int);
        append_bytes(bytes, texts[places[j]].as_str().as_bytes());
        assert(sorted.take(j + 1).drop_last() =~= sorted.take(j as int));
        assert(sorted.take(j + 1).last() == ts[ps[j as int]]);
        assert(bytes@ =~= was + joined(sorted.take(j + 1)));
        j = j + 1;
    }
    assert(sorted.take(j as int) =~= sorted);
}

} // verus!
