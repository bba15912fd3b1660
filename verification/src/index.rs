//! The two indexes: from document ids to the hash of the current version, and
//! from field values to hashes in the order of the values.

use vstd::prelude::*;
use crate::ident::{
    decode_id, encode_id, id_name, id_shard, name_id, shard_of,
};
use crate::keyed::{with_key, without_key, Keyed};
use crate::node::strings;
use crate::ordered::Key;
use crate::sort::sort_places;
use crate::text::{same_text, text_order, trim, trimmed, Order};

pub use crate::ordered::OrderedValue;
pub use crate::sorted::SortedIndexes;

verus! {

/// What an id index is.
#[verifier::ext_equal]
pub struct IdV {
    /// The hash of each document, by collection and id.
    pub docs: Map<(Seq<char>, Seq<char>), Seq<char>>,
    /// The ids of each collection that has been written to.
    pub ids: Map<Seq<char>, Seq<Seq<char>>>,
    /// The collections that have been written to.
    pub colls: Seq<Seq<char>>,
    /// Whether nothing is kept in files.
    pub memory: bool,
    /// The documents that changed since the files were last written.
    pub dirty: Seq<(Seq<char>, Seq<char>)>,
}

/// Whether these are the collections to list: of an index in memory those that
/// hold a document, in the order of their names; of one in files those that
/// ever held one.
pub open spec fn lists_collections(v: IdV, cs: Seq<Seq<char>>) -> bool {
    if v.memory {
        &&& forall|i: int, j: int|
            0 <= i < j < cs.len() ==> text_order(#[trigger] cs[i], #[trigger] cs[j]) == Order::Less
        &&& forall|c: Seq<char>| #[trigger] ids_in(v, c).len() > 0 <==> cs.contains(c)
    } else {
        cs == v.colls
    }
}

/// The ids in a collection.
pub open spec fn ids_in(v: IdV, coll: Seq<char>) -> Seq<Seq<char>> {
    if v.ids.contains_key(coll) {
        v.ids[coll]
    } else {
        Seq::empty()
    }
}

/// The hash of a document.
pub open spec fn hash_of(v: IdV, coll: Seq<char>, id: Seq<char>) -> Option<Seq<char>> {
    if v.docs.contains_key((coll, id)) {
        Some(v.docs[(coll, id)])
    } else {
        None
    }
}

/// Whether a hash is that of a document.
pub open spec fn is_hash(v: IdV, hash: Seq<char>) -> bool {
    exists|c: Seq<char>, i: Seq<char>| #[trigger] hash_of(v, c, i) == Some(hash)
}

/// Whether a text is in a list.
pub open spec fn in_list(list: Seq<String>, s: Seq<char>) -> bool {
    exists|k: int| 0 <= k < list.len() && (#[trigger] list[k])@ == s
}

/// Whether the lists of ids and the hashes agree.
pub open spec fn id_wf(v: IdV) -> bool {
    &&& forall|c: Seq<char>, i: Seq<char>| #[trigger]
        v.docs.contains_key((c, i)) <==> ids_in(v, c).contains(i)
    &&& forall|c: Seq<char>| (#[trigger] ids_in(v, c)).no_duplicates()
}

/// The index with a document at a hash.
pub open spec fn id_put(v: IdV, coll: Seq<char>, id: Seq<char>, hash: Seq<char>) -> IdV {
    IdV {
        docs: v.docs.insert((coll, id), hash),
        ids: v.ids.insert(coll, with_key(ids_in(v, coll), id)),
        colls: with_key(v.colls, coll),
        ..v
    }
}

/// The index with a document noted as changed.
pub open spec fn id_touched(v: IdV, coll: Seq<char>, id: Seq<char>) -> IdV {
    IdV {
        dirty: if v.memory {
            v.dirty
        } else {
            v.dirty.push((coll, id))
        },
        ..v
    }
}

/// The index after `set`.
pub open spec fn id_set(v: IdV, coll: Seq<char>, id: Seq<char>, hash: Seq<char>) -> IdV {
    id_touched(id_put(v, coll, id, hash), coll, id)
}

/// The index without a document.
pub open spec fn id_dropped(v: IdV, coll: Seq<char>, id: Seq<char>) -> IdV {
    IdV {
        docs: v.docs.remove((coll, id)),
        ids: if v.ids.contains_key(coll) {
            v.ids.insert(coll, without_key(v.ids[coll], id))
        } else {
            v.ids
        },
        ..v
    }
}

/// The index after `remove`.
pub open spec fn id_removed(v: IdV, coll: Seq<char>, id: Seq<char>) -> IdV {
    id_touched(id_dropped(v, coll, id), coll, id)
}

/// A file of the id index: its collection, the two parts of its name, and
/// what it holds.
#[derive(Debug)]
pub struct IdFile {
    pub coll: String,
    pub shard: String,
    pub leaf: String,
    pub content: String,
}

/// What a file of the id index is.
pub struct IdFileV {
    pub coll: Seq<char>,
    pub shard: Seq<char>,
    pub leaf: Seq<char>,
    pub content: Seq<char>,
}

impl View for IdFile {
    type V = IdFileV;

    open spec fn view(&self) -> IdFileV {
        IdFileV {
            coll: self.coll@,
            shard: self.shard@,
            leaf: self.leaf@,
            content: self.content@,
        }
    }
}

pub open spec fn id_files(fs: Seq<IdFile>) -> Seq<IdFileV> {
    fs.map_values(|f: IdFile| f@)
}

/// The document that a file is for, and whether its name is the encoded id; a
/// file from before ids were encoded has the id itself for a name. A file that
/// is not in the directory for its id is for none: a write that is not finished
/// stands in a directory of its own.
pub open spec fn file_id(f: IdFileV) -> Option<(Seq<char>, bool)> {
    let id = name_id(f.leaf);
    if id_name(id) == f.leaf && shard_of(id) == f.shard {
        Some((id, true))
    } else if shard_of(f.leaf) == f.shard {
        Some((f.leaf, false))
    } else {
        None
    }
}

/// Whether a document can have a file from before ids were encoded: such a
/// file has the id itself for a name, and is not that of another document.
pub open spec fn has_old_name(id: Seq<char>) -> bool {
    !(id_name(name_id(id)) == id && shard_of(name_id(id)) == shard_of(id))
}

/// The index with what one more file says of its document.
pub open spec fn id_read_one(v: IdV, f: IdFileV, encoded: bool) -> IdV {
    let hash = trimmed(f.content);
    match file_id(f) {
        Some((id, e)) => if e != encoded {
            v
        } else if hash.len() > 0 {
            id_put(v, f.coll, id, hash)
        } else {
            id_dropped(v, f.coll, id)
        },
        None => v,
    }
}

/// The index with what files say, of those with encoded names or of the others.
pub open spec fn id_read(v: IdV, fs: Seq<IdFileV>, encoded: bool) -> IdV
    decreases fs.len(),
{
    if fs.len() == 0 {
        v
    } else {
        id_read_one(id_read(v, fs.drop_last(), encoded), fs.last(), encoded)
    }
}

/// An index of no document, with collections that there are directories for.
pub open spec fn id_dirs(dirs: Seq<Seq<char>>) -> IdV
    decreases dirs.len(),
{
    if dirs.len() == 0 {
        id_empty(false)
    } else {
        let before = id_dirs(dirs.drop_last());
        IdV {
            ids: before.ids.insert(dirs.last(), Seq::empty()),
            colls: with_key(before.colls, dirs.last()),
            ..before
        }
    }
}

/// The index that the directories of collections and the files in them hold. A
/// file with an encoded name decides where there is one.
pub open spec fn id_loaded(dirs: Seq<Seq<char>>, fs: Seq<IdFileV>) -> IdV {
    id_read(id_read(id_dirs(dirs), fs, false), fs, true)
}

/// What the last file of a document holds, of those with encoded names or of
/// the others.
pub open spec fn last_file(
    fs: Seq<IdFileV>,
    coll: Seq<char>,
    id: Seq<char>,
    encoded: bool,
) -> Option<Seq<char>>
    decreases fs.len(),
{
    if fs.len() == 0 {
        None
    } else if fs.last().coll == coll && file_id(fs.last()) == Some((id, encoded)) {
        Some(trimmed(fs.last().content))
    } else {
        last_file(fs.drop_last(), coll, id, encoded)
    }
}

/// The hash that a file holds; none where it is empty.
pub open spec fn hash_in(content: Seq<char>) -> Option<Seq<char>> {
    if content.len() > 0 {
        Some(content)
    } else {
        None
    }
}

/// An index of no document.
pub open spec fn id_empty(memory: bool) -> IdV {
    IdV { docs: Map::empty(), ids: Map::empty(), colls: Seq::empty(), memory, dirty: Seq::empty() }
}

/// A change to the files of the id index: a file to write, or to take away.
#[derive(Debug)]
pub struct IdChange {
    pub coll: String,
    pub id: String,
    pub shard: String,
    pub leaf: String,
    /// The name of the document's file from before ids were encoded, which is
    /// to go with it; nothing where it can have none.
    pub old_leaf: Option<String>,
    /// What the file is to hold; nothing where it is to go.
    pub hash: Option<String>,
}

pub open spec fn opt_text(s: Option<String>) -> Option<Seq<char>> {
    match s {
        Some(t) => Some(t@),
        None => None,
    }
}

/// Whether a change brings the file of a document to what the index says.
pub open spec fn change_for(v: IdV, doc: (Seq<char>, Seq<char>), c: IdChange) -> bool {
    &&& c.coll@ == doc.0
    &&& c.id@ == doc.1
    &&& c.shard@ == shard_of(doc.1)
    &&& c.leaf@ == id_name(doc.1)
    &&& opt_text(c.old_leaf) == if has_old_name(doc.1) {
        Some(doc.1)
    } else {
        None
    }
    &&& opt_text(c.hash) == hash_of(v, doc.0, doc.1)
}

/// An index from documents to the hash of their current version.
pub struct IdIndex {
    live: Keyed<Keyed<String>>,
    memory: bool,
    dirty: Vec<(String, String)>,
}

pub open spec fn pairs_of(v: Seq<(String, String)>) -> Seq<(Seq<char>, Seq<char>)> {
    v.map_values(|p: (String, String)| (p.0@, p.1@))
}

impl View for IdIndex {
    type V = IdV;

    closed spec fn view(&self) -> IdV {
        IdV {
            docs: Map::new(
                |p: (Seq<char>, Seq<char>)|
                    self.live@.contains_key(p.0) && self.live@[p.0]@.contains_key(p.1),
                |p: (Seq<char>, Seq<char>)| self.live@[p.0]@[p.1]@,
            ),
            ids: Map::new(
                |c: Seq<char>| self.live@.contains_key(c),
                |c: Seq<char>| self.live@[c].keys(),
            ),
            colls: self.live.keys(),
            memory: self.memory,
            dirty: pairs_of(self.dirty@),
        }
    }
}

impl IdIndex {
    pub closed spec fn wf(&self) -> bool {
        &&& self.live.wf()
        &&& forall|c: Seq<char>| #[trigger] self.live@.contains_key(c) ==> self.live@[c].wf()
    }

    /// The lists of ids and the hashes agree, and each collection is listed
    /// once.
    pub proof fn lemma_wf(&self)
        requires
            self.wf(),
        ensures
            id_wf(self@),
            self@.colls.no_duplicates(),
            forall|c: Seq<char>| #[trigger] self@.ids.contains_key(c) <==> self@.colls.contains(c),
    {
        self.live.lemma_entries();
        let v = self@;
        assert forall|c: Seq<char>, i: Seq<char>| #[trigger]
            v.docs.contains_key((c, i)) <==> ids_in(v, c).contains(i) by {
            if self.live@.contains_key(c) {
                self.live@[c].lemma_entries();
                assert(self.live@[c]@.contains_key(i) <==> self.live@[c].keys().contains(i));
            }
        }
        assert forall|c: Seq<char>| (#[trigger] ids_in(v, c)).no_duplicates() by {
            if self.live@.contains_key(c) {
                self.live@[c].lemma_entries();
            }
        }
    }

    /// An index that is not kept in files.
    pub fn in_memory() -> (r: IdIndex)
        ensures
            r.wf(),
            r@ == id_empty(true),
    {
        let r = IdIndex { live: Keyed::new(), memory: true, dirty: Vec::new() };
        assert(r@ =~= id_empty(true));
        r
    }

    fn put(&mut self, coll: &str, id: &str, hash: &str)
        requires
            old(self).wf(),
        ensures
            final(self).wf(),
            final(self)@ == id_put(old(self)@, coll@, id@, hash@),
    {
        proof {
            self.live.lemma_entries();
        }
        match self.live.get_mut(coll) {
            Some(table) => {
                table.insert(id.to_owned(), hash.to_owned());
            },
            None => {
                let mut table: Keyed<String> = Keyed::new();
                table.insert(id.to_owned(), hash.to_owned());
                self.live.insert(coll.to_owned(), table);
            },
        }
        proof {
            let want = id_put(old(self)@, coll@, id@, hash@);
            assert(self@.docs =~= want.docs);
            assert(self@.ids =~= want.ids);
            assert(self@.colls =~= want.colls);
        }
    }

    /// Opens the index of collections that there are directories for.
    fn over(dirs: &Vec<String>) -> (r: IdIndex)
        ensures
            r.wf(),
            r@ == id_dirs(strings(dirs@)),
    {
        let ghost ds = strings(dirs@);
        let mut r = IdIndex { live: Keyed::new(), memory: false, dirty: Vec::new() };
        assert(r@ =~= id_dirs(ds.take(0)));
        let mut i: usize = 0;
        while i < dirs.len()
            invariant
                i <= dirs.len(),
                ds == strings(dirs@),
                r.wf(),
                r@ == id_dirs(ds.take(i as int)),
                forall|c: Seq<char>| #[trigger]
                    r.live@.contains_key(c) ==> r.live@[c]@ == Map::<Seq<char>, String>::empty(),
            decreases dirs.len() - i,
        {
            let ghost was = r@;
            assert(ds.take(i + 1).drop_last() =~= ds.take(i as int));
            assert(ds.take(i + 1).last() == dirs@[i as int]@);
            r.live.insert(dirs[i].clone(), Keyed::new());
            proof {
                let want = id_dirs(ds.take(i + 1));
                assert forall|p: (Seq<char>, Seq<char>)| #[trigger]
                    r@.docs.contains_key(p) <==> was.docs.contains_key(p) by {
                    assert(r.live@.contains_key(p.0) ==> !r.live@[p.0]@.contains_key(p.1));
                }
                assert(r@.docs =~= want.docs);
                assert(r@.ids =~= want.ids);
                assert(r@ =~= want);
            }
            i = i + 1;
        }
        assert(ds.take(i as int) =~= ds);
        r
    }

    /// Opens the index that the directories of collections and the files in
    /// them hold.
    pub fn new(dirs: Vec<String>, files: Vec<IdFile>) -> (r: IdIndex)
        ensures
            r.wf(),
            r@ == id_loaded(strings(dirs@), id_files(files@)),
    {
        let mut r = IdIndex::over(&dirs);
        r.read(&files, false);
        r.read(&files, true);
        r
    }

    fn read(&mut self, files: &Vec<IdFile>, encoded: bool)
        requires
            old(self).wf(),
        ensures
            final(self).wf(),
            final(self)@ == id_read(old(self)@, id_files(files@), encoded),
    {
        let ghost fs = id_files(files@);
        let mut i: usize = 0;
        while i < files.len()
            invariant
                i <= files.len(),
                fs == id_files(files@),
                self.wf(),
                self@ == id_read(old(self)@, fs.take(i as int), encoded),
            decreases files.len() - i,
        {
            let f = &files[i];
            assert(fs.take(i + 1).drop_last() =~= fs.take(i as int));
            assert(fs.take(i + 1).last() == f@);
            let hash = trim(f.content.as_str());
            if let Some((id, e)) = IdIndex::document_of(f) {
                if e == encoded {
                    if !hash.as_str().is_empty() {
                        self.put(f.coll.as_str(), id.as_str(), hash.as_str());
                    } else {
                        self.drop_document(f.coll.as_str(), id.as_str());
                    }
                }
            }
            i = i + 1;
        }
        assert(fs.take(i as int) =~= fs);
    }

    fn document_of(f: &IdFile) -> (r: Option<(String, bool)>)
        ensures
            match r {
                Some((id, encoded)) => file_id(f@) == Some((id@, encoded)),
                None => file_id(f@) is None,
            },
    {
        let id = decode_id(f.leaf.as_str());
        if same_text(encode_id(id.as_str()).as_str(), f.leaf.as_str()) && same_text(
            id_shard(id.as_str()).as_str(),
            f.shard.as_str(),
        ) {
            Some((id, true))
        } else if same_text(id_shard(f.leaf.as_str()).as_str(), f.shard.as_str()) {
            Some((f.leaf.clone(), false))
        } else {
            None
        }
    }

    fn old_name(id: &str) -> (r: Option<String>)
        ensures
            opt_text(r) == if has_old_name(id@) {
                Some(id@)
            } else {
                None
            },
    {
        let other = decode_id(id);
        if same_text(encode_id(other.as_str()).as_str(), id) && same_text(
            id_shard(other.as_str()).as_str(),
            id_shard(id).as_str(),
        ) {
            None
        } else {
            Some(id.to_owned())
        }
    }

    /// The hash of the current version of a document.
    pub fn get(&self, coll: &str, id: &str) -> (r: Option<String>)
        requires
            self.wf(),
        ensures
            opt_text(r) == hash_of(self@, coll@, id@),
    {
        match self.live.get(coll) {
            Some(table) => match table.get(id) {
                Some(hash) => Some(hash.clone()),
                None => None,
            },
            None => None,
        }
    }

    /// Sets the hash of the current version of a document.
    pub fn set(&mut self, coll: &str, id: &str, hash: &str)
        requires
            old(self).wf(),
        ensures
            final(self).wf(),
            final(self)@ == id_set(old(self)@, coll@, id@, hash@),
    {
        self.put(coll, id, hash);
        self.touch(coll, id);
    }

    fn touch(&mut self, coll: &str, id: &str)
        requires
            old(self).wf(),
        ensures
            final(self).wf(),
            final(self)@ == id_touched(old(self)@, coll@, id@),
    {
        if !self.memory {
            self.dirty.push((coll.to_owned(), id.to_owned()));
            assert(pairs_of(self.dirty@) =~= pairs_of(old(self).dirty@).push((coll@, id@)));
        }
        assert(self@ =~= id_touched(old(self)@, coll@, id@));
    }

    fn drop_document(&mut self, coll: &str, id: &str)
        requires
            old(self).wf(),
        ensures
            final(self).wf(),
            final(self)@ == id_dropped(old(self)@, coll@, id@),
    {
        proof {
            self.live.lemma_entries();
        }
        if let Some(table) = self.live.get_mut(coll) {
            table.remove(id);
        }
        proof {
            let want = id_dropped(old(self)@, coll@, id@);
            assert(self@.docs =~= want.docs);
            assert(self@.ids =~= want.ids);
        }
    }

    /// Takes a document out of the index.
    pub fn remove(&mut self, coll: &str, id: &str)
        requires
            old(self).wf(),
        ensures
            final(self).wf(),
            final(self)@ == id_removed(old(self)@, coll@, id@),
    {
        self.drop_document(coll, id);
        self.touch(coll, id);
    }

    /// The ids in a collection.
    pub fn list_ids(&self, coll: &str) -> (r: Vec<String>)
        requires
            self.wf(),
        ensures
            r@.map_values(|s: String| s@) == ids_in(self@, coll@),
    {
        let mut out: Vec<String> = Vec::new();
        match self.live.get(coll) {
            Some(table) => {
                let mut i: usize = 0;
                while i < table.len()
                    invariant
                        i <= table.keys().len(),
                        out@.map_values(|s: String| s@) == table.keys().take(i as int),
                    decreases table.keys().len() - i,
                {
                    let ghost was = out@.map_values(|s: String| s@);
                    out.push(table.key_at(i).clone());
                    assert(out@.map_values(|s: String| s@) =~= was.push(table.keys()[i as int]));
                    assert(table.keys().take(i + 1) =~= was.push(table.keys()[i as int]));
                    i = i + 1;
                }
                assert(table.keys().take(i as int) =~= table.keys());
            },
            None => {
                assert(out@.map_values(|s: String| s@) =~= Seq::<Seq<char>>::empty());
            },
        }
        out
    }

    /// The hashes of all documents.
    pub fn hashes(&self) -> (r: Vec<String>)
        requires
            self.wf(),
        ensures
            forall|h: Seq<char>| #[trigger] is_hash(self@, h) <==> in_list(r@, h),
    {
        proof {
            self.live.lemma_entries();
        }
        let ghost colls = self.live.keys();
        let mut out: Vec<String> = Vec::new();
        let mut i: usize = 0;
        while i < self.live.len()
            invariant
                self.wf(),
                i <= colls.len(),
                colls == self.live.keys(),
                colls.len() == self.live.values().len(),
                forall|k: int|
                    0 <= k < colls.len() ==> self.live@.contains_key(#[trigger] colls[k])
                        && self.live@[colls[k]] == self.live.values()[k],
                forall|m: int, d: Seq<char>|
                    0 <= m < i && #[trigger] self.live@[colls[m]]@.contains_key(d) ==> in_list(
                        out@,
                        self.live@[colls[m]]@[d]@,
                    ),
                forall|k: int| 0 <= k < out@.len() ==> is_hash(self@, (#[trigger] out@[k])@),
            decreases colls.len() - i,
        {
            let table = self.live.value_at(i);
            let ghost c = colls[i as int];
            let ghost before = out@;
            assert(self.live@.contains_key(c));
            proof {
                table.lemma_entries();
            }
            let mut j: usize = 0;
            while j < table.len()
                invariant
                    self.wf(),
                    j <= table.keys().len(),
                    table.wf(),
                    self.live@.contains_key(c),
                    *table == self.live@[c],
                    table.keys().len() == table.values().len(),
                    forall|q: int|
                        0 <= q < table.keys().len() ==> table@.contains_key(
                            #[trigger] table.keys()[q],
                        ) && table@[table.keys()[q]] == table.values()[q],
                    out@.len() == before.len() + j,
                    forall|k: int| 0 <= k < before.len() ==> #[trigger] out@[k] == before[k],
                    forall|q: int|
                        0 <= q < j ==> (#[trigger] out@[before.len() + q])@ == table.values()[q]@,
                    forall|k: int| 0 <= k < out@.len() ==> is_hash(self@, (#[trigger] out@[k])@),
                decreases table.keys().len() - j,
            {
                let ghost was = out@;
                out.push(table.value_at(j).clone());
                proof {
                    let d = table.keys()[j as int];
                    assert(hash_of(self@, c, d) == Some(out@[was.len() as int]@));
                    assert forall|k: int| 0 <= k < out@.len() implies is_hash(
                        self@,
                        (#[trigger] out@[k])@,
                    ) by {
                        if k < was.len() {
                            assert(out@[k] == was[k]);
                        }
                    }
                }
                j = j + 1;
            }
            proof {
                assert forall|m: int, d: Seq<char>|
                    0 <= m < i + 1 && #[trigger] self.live@[colls[m]]@.contains_key(
                        d,
                    ) implies in_list(out@, self.live@[colls[m]]@[d]@) by {
                    if m < i {
                        assert(in_list(before, self.live@[colls[m]]@[d]@));
                        let k = choose|k: int|
                            0 <= k < before.len() && (#[trigger] before[k])@
                                == self.live@[colls[m]]@[d]@;
                        assert(out@[k] == before[k]);
                    } else {
                        assert(table@.contains_key(d));
                        let q = choose|q: int| 0 <= q < table.keys().len() && table.keys()[q] == d;
                        assert(table@[table.keys()[q]] == table.values()[q]);
                        assert(out@[before.len() + q]@ == table.values()[q]@);
                    }
                }
            }
            i = i + 1;
        }
        proof {
            assert forall|h: Seq<char>| #[trigger] is_hash(self@, h) <==> in_list(out@, h) by {
                if is_hash(self@, h) {
                    let (c, d) = choose|c: Seq<char>, d: Seq<char>|
                        #[trigger] hash_of(self@, c, d) == Some(h);
                    assert(self.live@.contains_key(c));
                    let m = choose|m: int| 0 <= m < colls.len() && colls[m] == c;
                    assert(self.live@[colls[m]]@.contains_key(d));
                    assert(self.live@[colls[m]]@[d]@ == h);
                }
            }
        }
        out
    }

    /// The collections.
    pub fn collections(&self) -> (r: Vec<String>)
        requires
            self.wf(),
        ensures
            lists_collections(self@, r@.map_values(|s: String| s@)),
    {
        proof {
            self.live.lemma_entries();
        }
        let mut all: Vec<String> = Vec::new();
        let mut keys: Vec<OrderedValue> = Vec::new();
        let ghost mut from: Seq<int> = Seq::empty();
        let ghost colls = self.live.keys();
        let mut i: usize = 0;
        while i < self.live.len()
            invariant
                i <= colls.len(),
                colls == self.live.keys(),
                colls.len() == self.live.values().len(),
                colls.no_duplicates(),
                self.live.wf(),
                forall|k: int|
                    0 <= k < colls.len() ==> self.live@.contains_key(#[trigger] colls[k])
                        && self.live@[colls[k]] == self.live.values()[k],
                all.len() == keys.len(),
                all.len() == from.len(),
                !self.memory ==> all@.map_values(|s: String| s@) == colls.take(i as int),
                forall|k: int| 0 <= k < all@.len() ==> (#[trigger] keys@[k])@ == Key::Str(all@[k]@),
                forall|k: int|
                    0 <= k < from.len() ==> 0 <= (#[trigger] from[k]) < i && all@[k]@
                        == colls[from[k]] && (self.memory ==> self.live@[colls[from[k]]].keys().len()
                        > 0),
                forall|a: int, b: int|
                    0 <= a < b < from.len() ==> (#[trigger] from[a]) < (#[trigger] from[b]),
                self.memory ==> forall|m: int|
                    0 <= m < i && self.live@[#[trigger] colls[m]].keys().len() > 0 ==> from.contains(
                        m,
                    ),
            decreases colls.len() - i,
        {
            let ghost was = all@.map_values(|s: String| s@);
            let ghost was_from = from;
            if !self.memory || self.live.value_at(i).len() > 0 {
                let name = self.live.key_at(i);
                all.push(name.clone());
                keys.push(OrderedValue::Str(name.clone()));
                proof {
                    from = from.push(i as int);
                    assert(all@.map_values(|s: String| s@) =~= was.push(colls[i as int]));
                    assert(from[from.len() - 1] == i);
                }
            }
            proof {
                assert(colls.take(i + 1) =~= colls.take(i as int).push(colls[i as int]));
                if self.memory {
                    assert forall|m: int|
                        0 <= m < i + 1 && self.live@[#[trigger] colls[m]].keys().len()
                            > 0 implies from.contains(m) by {
                        if m < i {
                            assert(was_from.contains(m));
                            let k = choose|k: int| 0 <= k < was_from.len() && was_from[k] == m;
                            assert(from[k] == m);
                        } else {
                            assert(from[from.len() - 1] == m);
                        }
                    }
                }
            }
            i = i + 1;
        }
        assert(colls.take(i as int) =~= colls);
        if !self.memory {
            return all;
        }
        let places = sort_places(&keys, false);
        let ghost ps = crate::sort::as_ints(places@);
        let mut out: Vec<String> = Vec::new();
        let mut j: usize = 0;
        assert(forall|k: int| 0 <= k < places@.len() ==> ps[k] == (#[trigger] places@[k]) as int);
        while j < places.len()
            invariant
                j <= places.len(),
                out.len() == j,
                ps == crate::sort::as_ints(places@),
                crate::sort::covers(ps, 0, all@.len() as int),
                forall|k: int| 0 <= k < places@.len() ==> ps[k] == (#[trigger] places@[k]) as int,
                forall|k: int| 0 <= k < j ==> (#[trigger] out@[k]) == all@[ps[k]],
            decreases places.len() - j,
        {
            assert(ps[j as int] == places@[j as int] as int);
            out.push(all[places[j]].clone());
            j = j + 1;
        }
        proof {
            let cs = out@.map_values(|s: String| s@);
            assert forall|a: int, b: int| 0 <= a < b < out@.len() implies text_order(
                #[trigger] cs[a],
                #[trigger] cs[b],
            ) == Order::Less by {
                assert(out@[a] == all@[ps[a]] && out@[b] == all@[ps[b]]);
                assert(crate::sort::in_order(crate::sort::views(keys@), false, ps[a], ps[b]));
                assert(keys@[ps[a]]@ == Key::Str(all@[ps[a]]@));
                assert(keys@[ps[b]]@ == Key::Str(all@[ps[b]]@));
                crate::text::lemma_text_order(out@[a]@, out@[b]@);
                if out@[a]@ == out@[b]@ {
                    assert(ps[a] != ps[b]);
                    assert(from[ps[a]] != from[ps[b]]) by {
                        if ps[a] < ps[b] {
                            assert(from[ps[a]] < from[ps[b]]);
                        } else {
                            assert(from[ps[b]] < from[ps[a]]);
                        }
                    }
                    assert(colls[from[ps[a]]] != colls[from[ps[b]]]);
                }
            }
            assert forall|c: Seq<char>| #[trigger] ids_in(self@, c).len() > 0 implies cs.contains(
                c,
            ) by {
                assert(self.live@.contains_key(c));
                let m = choose|m: int| 0 <= m < colls.len() && colls[m] == c;
                assert(self.live@[colls[m]].keys().len() > 0);
                assert(from.contains(m));
                let k = choose|k: int| 0 <= k < from.len() && from[k] == m;
                crate::sort::lemma_covers_reaches(ps, all@.len() as int, k);
                let q = choose|q: int| 0 <= q < ps.len() && ps[q] == k;
                assert(out@[q] == all@[ps[q]]);
                assert(cs[q] == c);
            }
            assert forall|c: Seq<char>| cs.contains(c) implies #[trigger] ids_in(
                self@,
                c,
            ).len() > 0 by {
                let k = choose|k: int| 0 <= k < out@.len() && (#[trigger] out@[k])@ == c;
                assert(out@[k] == all@[ps[k]]);
                let m = from[ps[k]];
                assert(colls[m] == c);
            }
        }
        out
    }

    /// The changes that bring the files to what the index says. Afterwards no
    /// document is noted as changed.
    pub fn flush_write_buf(&mut self) -> (r: Vec<IdChange>)
        requires
            old(self).wf(),
        ensures
            final(self).wf(),
            final(self)@ == (IdV { dirty: Seq::empty(), ..old(self)@ }),
            r@.len() == old(self)@.dirty.len(),
            forall|i: int|
                0 <= i < r@.len() ==> change_for(
                    old(self)@,
                    old(self)@.dirty[i],
                    #[trigger] r@[i],
                ),
    {
        let mut out: Vec<IdChange> = Vec::new();
        let mut i: usize = 0;
        while i < self.dirty.len()
            invariant
                *self == *old(self),
                self.wf(),
                i <= self.dirty.len(),
                out.len() == i,
                forall|j: int|
                    0 <= j < i ==> change_for(self@, self@.dirty[j], #[trigger] out@[j]),
            decreases self.dirty.len() - i,
        {
            let coll = self.dirty[i].0.clone();
            let id = self.dirty[i].1.clone();
            let hash = self.get(coll.as_str(), id.as_str());
            let shard = id_shard(id.as_str());
            let leaf = encode_id(id.as_str());
            let old_leaf = IdIndex::old_name(id.as_str());
            assert(self@.dirty[i as int] == (coll@, id@));
            out.push(IdChange { coll, id, shard, leaf, old_leaf, hash });
            i = i + 1;
        }
        self.dirty = Vec::new();
        assert(self@ =~= (IdV { dirty: Seq::empty(), ..old(self)@ }));
        out
    }
}

proof fn lemma_read(v: IdV, fs: Seq<IdFileV>, encoded: bool, c: Seq<char>, i: Seq<char>)
    ensures
        hash_of(id_read(v, fs, encoded), c, i) == match last_file(fs, c, i, encoded) {
            Some(h) => hash_in(h),
            None => hash_of(v, c, i),
        },
    decreases fs.len(),
{
    if fs.len() > 0 {
        lemma_read(v, fs.drop_last(), encoded, c, i);
    }
}

proof fn lemma_no_documents(dirs: Seq<Seq<char>>)
    ensures
        id_dirs(dirs).docs == Map::<(Seq<char>, Seq<char>), Seq<char>>::empty(),
        id_wf(id_dirs(dirs)),
    decreases dirs.len(),
{
    if dirs.len() > 0 {
        lemma_no_documents(dirs.drop_last());
        let v = id_dirs(dirs);
        let before = id_dirs(dirs.drop_last());
        assert forall|c: Seq<char>, i: Seq<char>| #[trigger]
            v.docs.contains_key((c, i)) <==> ids_in(v, c).contains(i) by {
            assert(before.docs.contains_key((c, i)) <==> ids_in(before, c).contains(i));
        }
        assert forall|c: Seq<char>| (#[trigger] ids_in(v, c)).no_duplicates() by {
            assert(ids_in(before, c).no_duplicates());
        }
    }
}

proof fn lemma_put_wf(v: IdV, coll: Seq<char>, id: Seq<char>, hash: Seq<char>)
    requires
        id_wf(v),
    ensures
        id_wf(id_put(v, coll, id, hash)),
{
    let w = id_put(v, coll, id, hash);
    let ks = ids_in(v, coll);
    let all = ids_in(w, coll);
    assert(forall|k: int| 0 <= k < ks.len() ==> all[k] == ks[k]);
    assert forall|c: Seq<char>, i: Seq<char>| #[trigger]
        w.docs.contains_key((c, i)) <==> ids_in(w, c).contains(i) by {
        assert(v.docs.contains_key((c, i)) <==> ids_in(v, c).contains(i));
        if c == coll {
            if !ks.contains(id) {
                assert(all[ks.len() as int] == id);
            }
            if ks.contains(i) {
                let k = choose|k: int| 0 <= k < ks.len() && ks[k] == i;
                assert(all[k] == i);
            }
        }
    }
    assert forall|c: Seq<char>| (#[trigger] ids_in(w, c)).no_duplicates() by {
        assert(ids_in(v, c).no_duplicates());
        assert(ks.no_duplicates());
    }
}

proof fn lemma_dropped_wf(v: IdV, coll: Seq<char>, id: Seq<char>)
    requires
        id_wf(v),
    ensures
        id_wf(id_dropped(v, coll, id)),
{
    let w = id_dropped(v, coll, id);
    let ks = ids_in(v, coll);
    let rest = ids_in(w, coll);
    assert(ks.no_duplicates());
    if ks.contains(id) {
        let at = ks.index_of(id);
        assert(forall|k: int|
            0 <= k < rest.len() ==> rest[k] == if k == at {
                ks.last()
            } else {
                ks[k]
            });
        assert forall|i: Seq<char>| rest.contains(i) <==> ks.contains(i) && i != id by {
            if ks.contains(i) && i != id {
                let k = choose|k: int| 0 <= k < ks.len() && ks[k] == i;
                if k == ks.len() - 1 {
                    assert(rest[at] == i);
                } else {
                    assert(rest[k] == i);
                }
            }
            if rest.contains(i) {
                let k = choose|k: int| 0 <= k < rest.len() && rest[k] == i;
                if k == at {
                    assert(ks[ks.len() - 1] == i);
                } else {
                    assert(ks[k] == i);
                }
            }
        }
    }
    assert forall|c: Seq<char>, i: Seq<char>| #[trigger]
        w.docs.contains_key((c, i)) <==> ids_in(w, c).contains(i) by {
        assert(v.docs.contains_key((c, i)) <==> ids_in(v, c).contains(i));
    }
    assert forall|c: Seq<char>| (#[trigger] ids_in(w, c)).no_duplicates() by {
        assert(ids_in(v, c).no_duplicates());
    }
}

proof fn lemma_read_wf(v: IdV, fs: Seq<IdFileV>, encoded: bool)
    requires
        id_wf(v),
    ensures
        id_wf(id_read(v, fs, encoded)),
    decreases fs.len(),
{
    if fs.len() > 0 {
        lemma_read_wf(v, fs.drop_last(), encoded);
        let before = id_read(v, fs.drop_last(), encoded);
        let f = fs.last();
        if let Some((id, e)) = file_id(f) {
            lemma_put_wf(before, f.coll, id, trimmed(f.content));
            lemma_dropped_wf(before, f.coll, id);
        }
    }
}

/// An index has of a document what the document's file holds: the one with the
/// encoded name where there is one, else the one from before ids were encoded.
/// It lists the documents that it has a hash of.
pub proof fn lemma_files_honored(
    dirs: Seq<Seq<char>>,
    fs: Seq<IdFileV>,
    c: Seq<char>,
    i: Seq<char>,
)
    ensures
        hash_of(id_loaded(dirs, fs), c, i) == match last_file(fs, c, i, true) {
            Some(h) => hash_in(h),
            None => match last_file(fs, c, i, false) {
                Some(h) => hash_in(h),
                None => None,
            },
        },
        ids_in(id_loaded(dirs, fs), c).contains(i) <==> hash_of(id_loaded(dirs, fs), c, i) is Some,
        id_wf(id_loaded(dirs, fs)),
{
    let v = id_dirs(dirs);
    lemma_no_documents(dirs);
    lemma_read(v, fs, false, c, i);
    lemma_read(id_read(v, fs, false), fs, true, c, i);
    lemma_read_wf(v, fs, false);
    lemma_read_wf(id_read(v, fs, false), fs, true);
    assert(id_loaded(dirs, fs).docs.contains_key((c, i)) <==> ids_in(
        id_loaded(dirs, fs),
        c,
    ).contains(i));
}

/// A file in a directory whose name has other than two characters is passed
/// over, whatever it is called: there a write is kept until it is finished.
pub proof fn lemma_unfinished_passed_over(f: IdFileV)
    requires
        f.shard.len() != 2,
    ensures
        file_id(f) is None,
{
}

proof fn lemma_colls_kept(v: IdV, fs: Seq<IdFileV>, encoded: bool, c: Seq<char>)
    requires
        v.colls.contains(c),
    ensures
        id_read(v, fs, encoded).colls.contains(c),
    decreases fs.len(),
{
    if fs.len() > 0 {
        let before = id_read(v, fs.drop_last(), encoded).colls;
        let all = id_read(v, fs, encoded).colls;
        lemma_colls_kept(v, fs.drop_last(), encoded, c);
        let j = choose|j: int| 0 <= j < before.len() && before[j] == c;
        assert(all[j] == c);
    }
}

proof fn lemma_dirs_listed(dirs: Seq<Seq<char>>, c: Seq<char>)
    requires
        dirs.contains(c),
    ensures
        id_dirs(dirs).colls.contains(c),
    decreases dirs.len(),
{
    let head = dirs.drop_last();
    let before = id_dirs(head).colls;
    let all = id_dirs(dirs).colls;
    if c == dirs.last() {
        if !before.contains(c) {
            assert(all[before.len() as int] == c);
        }
    } else {
        let k = choose|k: int| 0 <= k < dirs.len() && dirs[k] == c;
        assert(head[k] == c);
        lemma_dirs_listed(head, c);
        let j = choose|j: int| 0 <= j < before.len() && before[j] == c;
        assert(all[j] == c);
    }
}

/// A collection that there is a directory for is listed, whether or not it has
/// a document.
pub proof fn lemma_directories_listed(dirs: Seq<Seq<char>>, fs: Seq<IdFileV>, c: Seq<char>)
    requires
        dirs.contains(c),
    ensures
        id_loaded(dirs, fs).colls.contains(c),
{
    lemma_dirs_listed(dirs, c);
    lemma_colls_kept(id_dirs(dirs), fs, false, c);
    lemma_colls_kept(id_read(id_dirs(dirs), fs, false), fs, true, c);
}

} // verus!
