//! The object store: versions of documents under the hash of what they are
//! written as.

use vstd::prelude::*;
#[allow(unused_imports)]
use vstd::string::StringExecFns;
use vstd::utf8::encode_utf8;
use crate::crypto::{decrypt, decrypted, encrypt, CryptoError, MAX_PLAINTEXT};
use crate::digest::{blake2b, content_hash};
use crate::json::json_parse;
use crate::keyed::{with_key, Keyed};
use crate::node::{from_value, node_bytes, node_from, storable, strings, to_bytes, NodeV};
use crate::segment::{
    arranged, coherent, compacted, copied, found, opened, put_result, tells, texts, CompactStats,
    FileV, Found, SegV, SegmentError, SegmentFile, SegmentStore, DEFAULT_MAX_SEGMENT_BYTES,
};
use crate::text::{ascii_lower, chars_of, same_text, trim, trimmed};

pub use crate::crypto::Dek;
pub use crate::node::Node;

verus! {

/// Why an object could not be written or read.
#[derive(Clone, Copy, Debug, PartialEq, Eq, Structural)]
pub enum StoreError {
    /// Too short to be a hash.
    InvalidHash,
    /// There is no object with the hash.
    NotFound,
    /// A segment does not reach to where the object should be.
    Unreadable,
    /// The object has another hash.
    Tampered,
    /// The object could not be encrypted or decrypted.
    Crypto(CryptoError),
    /// The object is not a version of a document.
    Malformed,
    /// The object is longer than a segment can hold.
    TooLarge,
    /// There is no number left for a further segment.
    Exhausted,
    /// There is no number left for a further write.
    SeqExhausted,
}

impl StoreError {
    /// What to say of the error.
    pub open spec fn text(self) -> Seq<char> {
        match self {
            StoreError::InvalidHash => "invalid object hash (too short)"@,
            StoreError::NotFound => "object not found"@,
            StoreError::Unreadable => "read record from segment"@,
            StoreError::Tampered => "object tampered"@,
            StoreError::Crypto(CryptoError::TooLarge) => "encrypt failed: too large"@,
            StoreError::Crypto(CryptoError::TooShort) => "ciphertext too short"@,
            StoreError::Crypto(CryptoError::Failed) => "decrypt failed"@,
            StoreError::Malformed => "deserialize node"@,
            StoreError::TooLarge => "object too large for a segment"@,
            StoreError::Exhausted => "no segment number left"@,
            StoreError::SeqExhausted => "no sequence number left"@,
        }
    }

    /// What to say of the error.
    pub fn message(&self) -> (r: String)
        ensures
            r@ == self.text(),
    {
        let s = match self {
            StoreError::InvalidHash => "invalid object hash (too short)",
            StoreError::NotFound => "object not found",
            StoreError::Unreadable => "read record from segment",
            StoreError::Tampered => "object tampered",
            StoreError::Crypto(CryptoError::TooLarge) => "encrypt failed: too large",
            StoreError::Crypto(CryptoError::TooShort) => "ciphertext too short",
            StoreError::Crypto(CryptoError::Failed) => "decrypt failed",
            StoreError::Malformed => "deserialize node",
            StoreError::TooLarge => "object too large for a segment",
            StoreError::Exhausted => "no segment number left",
            StoreError::SeqExhausted => "no sequence number left",
        };
        s.to_owned()
    }
}

pub open spec fn from_segment(e: SegmentError) -> StoreError {
    match e {
        SegmentError::Unreadable => StoreError::Unreadable,
        SegmentError::Tampered => StoreError::Tampered,
        SegmentError::TooLarge => StoreError::TooLarge,
        SegmentError::Exhausted => StoreError::Exhausted,
    }
}

fn segment_error(e: SegmentError) -> (r: StoreError)
    ensures
        r == from_segment(e),
{
    match e {
        SegmentError::Unreadable => StoreError::Unreadable,
        SegmentError::Tampered => StoreError::Tampered,
        SegmentError::TooLarge => StoreError::TooLarge,
        SegmentError::Exhausted => StoreError::Exhausted,
    }
}

/// What an object store is.
#[verifier::ext_equal]
pub struct ObjV {
    /// Whether nothing is kept in files.
    pub memory: bool,
    /// The packed objects, where new ones are packed.
    pub packed: Option<SegV>,
    /// The hashes of the loose objects.
    pub keys: Seq<Seq<char>>,
    /// The loose objects.
    pub loose: Map<Seq<char>, Seq<u8>>,
    /// The key that objects are encrypted with.
    pub dek: Option<Seq<u8>>,
}

/// The bytes that an object holds once it is decrypted.
pub open spec fn plain(content: Seq<u8>, dek: Option<Seq<u8>>) -> Result<Seq<u8>, CryptoError> {
    match dek {
        Some(key) => decrypted(content, key),
        None => Ok(content),
    }
}

/// The version that an object holds.
pub open spec fn decoded(content: Seq<u8>, dek: Option<Seq<u8>>, hash: Seq<char>) -> Result<
    NodeV,
    StoreError,
> {
    match plain(content, dek) {
        Err(e) => Err(StoreError::Crypto(e)),
        Ok(raw) => match json_parse(raw) {
            None => Err(StoreError::Malformed),
            Some(j) => match node_from(j) {
                None => Err(StoreError::Malformed),
                Some(n) => Ok(
                    if n.hash.len() == 0 {
                        NodeV { hash, ..n }
                    } else {
                        n
                    },
                ),
            },
        },
    }
}

/// What reading a loose object comes to.
pub open spec fn loose_read(v: ObjV, hash: Seq<char>) -> Result<NodeV, StoreError> {
    if !v.loose.contains_key(hash) {
        Err(StoreError::NotFound)
    } else if !v.memory && content_hash(v.loose[hash]) != hash {
        Err(StoreError::Tampered)
    } else {
        decoded(v.loose[hash], v.dek, hash)
    }
}

/// What reading an object comes to: packed objects first, then loose ones.
pub open spec fn read_result(v: ObjV, hash: Seq<char>) -> Result<NodeV, StoreError> {
    if encode_utf8(hash).len() < 3 {
        Err(StoreError::InvalidHash)
    } else {
        match v.packed {
            Some(s) => match found(s, hash) {
                Found::Content(c) => decoded(c, v.dek, hash),
                Found::Unreadable => Err(StoreError::Unreadable),
                Found::Tampered => Err(StoreError::Tampered),
                Found::Absent => loose_read(v, hash),
            },
            None => loose_read(v, hash),
        }
    }
}

/// What storing a content comes to.
pub open spec fn content_put(v: ObjV, content: Seq<u8>) -> Result<ObjV, StoreError> {
    let hash = content_hash(content);
    match v.packed {
        Some(s) => match put_result(s, hash, content) {
            Ok(t) => Ok(ObjV { packed: Some(t), ..v }),
            Err(e) => Err(from_segment(e)),
        },
        None => Ok(
            if v.loose.contains_key(hash) {
                v
            } else {
                ObjV {
                    keys: with_key(v.keys, hash),
                    loose: v.loose.insert(hash, content),
                    ..v
                }
            },
        ),
    }
}

/// Whether an object with the hash is stored where new objects go.
pub open spec fn holds(v: ObjV, hash: Seq<char>) -> bool {
    match v.packed {
        Some(s) => s.index.locs.contains_key(hash),
        None => v.loose.contains_key(hash),
    }
}

/// Whether what is held under a hash, if anything is, has that hash.
pub open spec fn undamaged(v: ObjV, hash: Seq<char>) -> bool {
    &&& v.packed matches Some(s) ==> (s.index.locs.contains_key(hash) ==> found(s, hash) is Content)
    &&& (v.packed is None || v.memory) && v.loose.contains_key(hash) ==> content_hash(v.loose[hash])
        == hash
}

/// Whether every packed object can be read back.
pub open spec fn obj_sound(v: ObjV) -> bool {
    match v.packed {
        Some(s) => crate::segment::sound(s),
        None => true,
    }
}

/// The hashes of all objects: the packed ones, then those that are only loose.
pub open spec fn all_keys(v: ObjV) -> Seq<Seq<char>> {
    match v.packed {
        Some(s) => s.index.keys + only_loose(v.keys, s.index.locs.dom()),
        None => v.keys,
    }
}

/// The hashes that are not packed.
pub open spec fn only_loose(keys: Seq<Seq<char>>, packed: Set<Seq<char>>) -> Seq<Seq<char>>
    decreases keys.len(),
{
    if keys.len() == 0 {
        Seq::empty()
    } else {
        let before = only_loose(keys.drop_last(), packed);
        if packed.contains(keys.last()) {
            before
        } else {
            before.push(keys.last())
        }
    }
}

/// Those of the hashes whose objects cannot be read.
pub open spec fn unreadable(v: ObjV, keys: Seq<Seq<char>>) -> Seq<Seq<char>>
    decreases keys.len(),
{
    if keys.len() == 0 {
        Seq::empty()
    } else {
        let before = unreadable(v, keys.drop_last());
        if read_result(v, keys.last()) is Err {
            before.push(keys.last())
        } else {
            before
        }
    }
}

/// A loose object as it is kept in files: the two parts of its name, and what
/// it holds.
#[derive(Debug)]
pub struct LooseFile {
    pub prefix: String,
    pub name: String,
    pub content: Vec<u8>,
}

/// What a loose object in files is.
pub struct LooseV {
    pub prefix: Seq<char>,
    pub name: Seq<char>,
    pub content: Seq<u8>,
}

impl View for LooseFile {
    type V = LooseV;

    open spec fn view(&self) -> LooseV {
        LooseV { prefix: self.prefix@, name: self.name@, content: self.content@ }
    }
}

pub open spec fn loose_files(fs: Seq<LooseFile>) -> Seq<LooseV> {
    fs.map_values(|f: LooseFile| f@)
}

/// Whether a file name is that of a write that was cut off.
pub open spec fn unfinished(leaf: Seq<char>) -> bool {
    leaf.len() >= 4 && leaf.skip(leaf.len() - 4) == seq!['.', 't', 'm', 'p']
}

/// Whether a file name is that of a write that was cut off.
pub fn is_unfinished(leaf: &str) -> (r: bool)
    ensures
        r == unfinished(leaf@),
{
    let c = chars_of(leaf);
    let n: usize = c.len();
    if n < 4 {
        return false;
    }
    let r = c[n - 4] == '.' && c[n - 3] == 't' && c[n - 2] == 'm' && c[n - 1] == 'p';
    proof {
        let tail = leaf@.skip(n - 4);
        let tmp = seq!['.', 't', 'm', 'p'];
        assert(tail[0] == c@[n - 4] && tail[1] == c@[n - 3] && tail[2] == c@[n - 2] && tail[3]
            == c@[n - 1]);
        if r {
            assert(tail =~= tmp);
        }
    }
    r
}

/// Whether a file is a loose object: a write that was cut off is not, and
/// where objects are packed only directories with names of two bytes hold any.
pub open spec fn is_object(f: LooseV, packed: bool) -> bool {
    !unfinished(f.name) && (packed ==> encode_utf8(f.prefix).len() == 2)
}

/// The loose objects in files.
pub open spec fn loose_loaded(fs: Seq<LooseV>, packed: bool) -> (
    Seq<Seq<char>>,
    Map<Seq<char>, Seq<u8>>,
)
    decreases fs.len(),
{
    if fs.len() == 0 {
        (Seq::empty(), Map::empty())
    } else {
        let before = loose_loaded(fs.drop_last(), packed);
        let f = fs.last();
        if is_object(f, packed) {
            let hash = f.prefix + f.name;
            (with_key(before.0, hash), before.1.insert(hash, f.content))
        } else {
            before
        }
    }
}

/// The store that files hold. Where there are segments, even none yet, objects
/// are packed.
pub open spec fn objects_in(
    loose: Seq<LooseV>,
    segments: Option<Seq<FileV>>,
    dek: Option<Seq<u8>>,
) -> ObjV {
    ObjV {
        memory: false,
        packed: match segments {
            Some(fs) => Some(opened(arranged(fs), DEFAULT_MAX_SEGMENT_BYTES)),
            None => None,
        },
        keys: loose_loaded(loose, segments is Some).0,
        loose: loose_loaded(loose, segments is Some).1,
        dek,
    }
}

/// The store that loose files and segment files hold.
pub open spec fn held_objects(
    loose: Vec<LooseFile>,
    segments: Option<Vec<SegmentFile>>,
    dek: Option<Seq<u8>>,
) -> ObjV {
    objects_in(
        loose_files(loose@),
        match segments {
            Some(fs) => Some(crate::segment::files_of(fs@)),
            None => None,
        },
        dek,
    )
}

/// Versions of documents under the hash of what they are written as.
pub struct ObjectStore {
    memory: bool,
    packed: Option<SegmentStore>,
    loose: Keyed<Vec<u8>>,
    dek: Option<Dek>,
}

pub open spec fn dek_view(d: Option<Dek>) -> Option<Seq<u8>> {
    match d {
        Some(k) => Some(k.0@),
        None => None,
    }
}

impl View for ObjectStore {
    type V = ObjV;

    closed spec fn view(&self) -> ObjV {
        ObjV {
            memory: self.memory,
            packed: match self.packed {
                Some(s) => Some(s@),
                None => None,
            },
            keys: self.loose.keys(),
            loose: self.loose@.map_values(|c: Vec<u8>| c@),
            dek: dek_view(self.dek),
        }
    }
}

/// Whether the setting that asks for packed objects is on: `1`, `true`, `on`
/// or `yes`, in either case, with white space around it.
pub open spec fn setting_on(s: Seq<char>) -> bool {
    let t = trimmed(s).map_values(|c: char| ascii_lower(c));
    t == "1"@ || t == "true"@ || t == "on"@ || t == "yes"@
}

/// Whether the setting that asks for packed objects is on.
pub fn dag_v3_enabled(setting: &str) -> (r: bool)
    ensures
        r == setting_on(setting@),
{
    let t = chars_of(trim(setting).as_str());
    let mut lower = String::new();
    let mut i: usize = 0;
    let ghost want = t@.map_values(|c: char| ascii_lower(c));
    while i < t.len()
        invariant
            i <= t.len(),
            want == t@.map_values(|c: char| ascii_lower(c)),
            lower@ == want.take(i as int),
        decreases t.len() - i,
    {
        let c = t[i];
        if 'A' <= c && c <= 'Z' {
            lower.push(((c as u8) + 32) as char);
        } else {
            lower.push(c);
        }
        assert(lower@ =~= want.take(i as int).push(want[i as int]));
        assert(want.take(i + 1) =~= want.take(i as int).push(want[i as int]));
        i = i + 1;
    }
    assert(want.take(i as int) =~= want);
    let s = lower.as_str();
    same_text(s, "1") || same_text(s, "true") || same_text(s, "on") || same_text(s, "yes")
}

impl ObjectStore {
    pub closed spec fn wf(&self) -> bool {
        &&& self.loose.wf()
        &&& self.packed matches Some(s) ==> s.wf()
        &&& self.memory ==> self.packed is None
    }

    /// The hashes of the loose objects are those that there are objects under.
    pub proof fn lemma_wf(&self)
        requires
            self.wf(),
        ensures
            self@.keys.no_duplicates(),
            forall|k: Seq<char>| #[trigger] self@.loose.contains_key(k) <==> self@.keys.contains(k),
            self@.memory ==> self@.packed is None,
            self@.packed matches Some(s) ==> {
                &&& s.files.len() > 0
                &&& s.index.keys.no_duplicates()
                &&& forall|k: Seq<char>| #[trigger]
                    s.index.locs.contains_key(k) <==> s.index.keys.contains(k)
            },
    {
        self.loose.lemma_entries();
        if let Some(s) = self.packed {
            s.lemma_wf();
        }
    }

    /// A store that is not kept in files.
    pub fn in_memory() -> (r: ObjectStore)
        ensures
            r.wf(),
            r@ == (ObjV {
                memory: true,
                packed: None,
                keys: Seq::empty(),
                loose: Map::empty(),
                dek: None,
            }),
    {
        let r = ObjectStore { memory: true, packed: None, loose: Keyed::new(), dek: None };
        assert(r@.loose =~= Map::<Seq<char>, Seq<u8>>::empty());
        r
    }

    /// Opens the store that files hold. Where segments are given, new objects
    /// are packed.
    pub fn new(
        loose: Vec<LooseFile>,
        segments: Option<Vec<SegmentFile>>,
        dek: Option<Dek>,
    ) -> (r: ObjectStore)
        ensures
            r.wf(),
            r@ == held_objects(loose, segments, dek_view(dek)),
    {
        let is_packed = segments.is_some();
        let ghost fs = loose_files(loose@);
        let mut table: Keyed<Vec<u8>> = Keyed::new();
        assert(table@.map_values(|c: Vec<u8>| c@) =~= loose_loaded(fs.take(0), is_packed).1);
        let mut i: usize = 0;
        while i < loose.len()
            invariant
                i <= loose.len(),
                fs == loose_files(loose@),
                table.wf(),
                table.keys() == loose_loaded(fs.take(i as int), is_packed).0,
                table@.map_values(|c: Vec<u8>| c@) == loose_loaded(fs.take(i as int), is_packed).1,
            decreases loose.len() - i,
        {
            let f = &loose[i];
            assert(fs.take(i + 1).drop_last() =~= fs.take(i as int));
            assert(fs.take(i + 1).last() == f@);
            if is_object_file(f, is_packed) {
                let mut hash = f.prefix.clone();
                hash.append(f.name.as_str());
                let content = crate::text::bytes_between(
                    f.content.as_slice(),
                    0,
                    f.content.len(),
                );
                assert(content@ =~= f.content@);
                let ghost was = table@.map_values(|c: Vec<u8>| c@);
                table.insert(hash, content);
                assert(table@.map_values(|c: Vec<u8>| c@) =~= was.insert(
                    f.prefix@ + f.name@,
                    f.content@,
                ));
            }
            i = i + 1;
        }
        assert(fs.take(i as int) =~= fs);
        let packed = match segments {
            Some(files) => Some(SegmentStore::open(files)),
            None => None,
        };
        ObjectStore { memory: false, packed, loose: table, dek }
    }

    /// Opens the store that files hold under the key of this one.
    pub fn reopened(
        &self,
        loose: Vec<LooseFile>,
        segments: Option<Vec<SegmentFile>>,
    ) -> (r: ObjectStore)
        ensures
            r.wf(),
            r@ == held_objects(loose, segments, self@.dek),
    {
        ObjectStore::new(loose, segments, self.dek)
    }

    /// Stores a content under its hash. Nothing happens where the hash is
    /// there already.
    pub fn write_content(&mut self, content: Vec<u8>) -> (r: Result<String, StoreError>)
        requires
            old(self).wf(),
        ensures
            final(self).wf(),
            match r {
                Ok(hash) => hash@ == content_hash(content@) && encode_utf8(hash@).len() == 64
                    && content_put(old(self)@, content@) == Ok::<ObjV, StoreError>(final(self)@),
                Err(e) => content_put(old(self)@, content@) == Err::<ObjV, StoreError>(e)
                    && final(self)@ == old(self)@,
            },
            r is Ok ==> content_stored(old(self)@, content@, final(self)@),
            obj_coherent(old(self)@) ==> obj_coherent(final(self)@),
    {
        let hash = blake2b(content.as_slice());
        let ghost v = self@;
        match &mut self.packed {
            Some(s) => {
                match s.put(hash.as_str(), content.as_slice()) {
                    Ok(_) => {},
                    Err(e) => {
                        assert(self@ =~= v);
                        return Err(segment_error(e));
                    },
                }
            },
            None => {
                if !self.loose.contains(hash.as_str()) {
                    self.loose.insert(hash.clone(), content);
                    assert(self@.loose =~= v.loose.insert(hash@, content@));
                }
            },
        }
        assert(self@ =~= content_put(v, content@)->Ok_0);
        Ok(hash)
    }

    /// Writes a version of a document and gives it the hash of what was
    /// written.
    pub fn write(&mut self, node: &mut Node) -> (r: Result<String, StoreError>)
        requires
            old(self).wf(),
            old(node).wf(),
        ensures
            final(self).wf(),
            final(node).wf(),
            match r {
                Ok(hash) => {
                    &&& encode_utf8(hash@).len() == 64
                    &&& final(node)@ == (NodeV { hash: hash@, ..old(node)@ })
                    &&& exists|content: Seq<u8>|
                        written(old(self)@, old(node)@, content, hash@, final(self)@)
                },
                Err(e) => {
                    &&& final(self)@ == old(self)@
                    &&& final(node)@ == old(node)@
                    &&& write_error(old(self)@, old(node)@, e)
                },
            },
            obj_coherent(old(self)@) ==> obj_coherent(final(self)@),
            obj_sound(old(self)@) ==> obj_sound(final(self)@),
    {
        let ghost v = self@;
        let ghost n = node@;
        let raw = to_bytes(node);
        let ghost text = raw@;
        let content = match &self.dek {
            Some(dek) => match encrypt(raw.as_slice(), dek) {
                Ok(c) => c,
                Err(e) => {
                    assert(write_error(v, n, StoreError::Crypto(e)));
                    return Err(StoreError::Crypto(e));
                },
            },
            None => raw,
        };
        let ghost c = content@;
        assert(plain(c, v.dek) == Ok::<Seq<u8>, CryptoError>(text));
        match self.write_content(content) {
            Ok(hash) => {
                node.hash = hash.clone();
                proof {
                    if storable(n) {
                        assert(decoded(c, v.dek, hash@) == Ok::<NodeV, StoreError>(
                            NodeV { hash: hash@, ..n },
                        ));
                    }
                    assert(written(v, n, c, hash@, self@));
                }
                Ok(hash)
            },
            Err(e) => {
                assert(write_error(v, n, e));
                Err(e)
            },
        }
    }

    fn decode(&self, content: &Vec<u8>, hash: &str) -> (r: Result<Node, StoreError>)
        ensures
            match decoded(content@, self@.dek, hash@) {
                Ok(n) => r matches Ok(node) && node.wf() && node@ == n,
                Err(e) => r == Err::<Node, StoreError>(e),
            },
    {
        let parsed = match &self.dek {
            Some(dek) => match decrypt(content.as_slice(), dek) {
                Ok(raw) => crate::json::parse(raw.as_slice()),
                Err(e) => {
                    return Err(StoreError::Crypto(e));
                },
            },
            None => crate::json::parse(content.as_slice()),
        };
        match parsed {
            Some(j) => match from_value(&j) {
                Some(mut node) => {
                    if node.hash.as_str().is_empty() {
                        node.hash = hash.to_owned();
                    }
                    Ok(node)
                },
                None => Err(StoreError::Malformed),
            },
            None => Err(StoreError::Malformed),
        }
    }

    /// Reads the version under a hash. What is kept in files is checked
    /// against the hash.
    pub fn read(&self, hash: &str) -> (r: Result<Node, StoreError>)
        requires
            self.wf(),
        ensures
            match read_result(self@, hash@) {
                Ok(n) => r matches Ok(node) && node.wf() && node@ == n,
                Err(e) => r == Err::<Node, StoreError>(e),
            },
    {
        if hash.as_bytes().len() < 3 {
            return Err(StoreError::InvalidHash);
        }
        if let Some(s) = &self.packed {
            match s.get(hash) {
                Ok(Some(content)) => {
                    return self.decode(&content, hash);
                },
                Ok(None) => {},
                Err(e) => {
                    return Err(segment_error(e));
                },
            }
        }
        match self.loose.get(hash) {
            Some(content) => {
                if !self.memory && !same_text(blake2b(content.as_slice()).as_str(), hash) {
                    return Err(StoreError::Tampered);
                }
                self.decode(content, hash)
            },
            None => Err(StoreError::NotFound),
        }
    }

    /// The hashes of all objects.
    pub fn all_hashes(&self) -> (r: Vec<String>)
        requires
            self.wf(),
        ensures
            strings(r@) == all_keys(self@),
    {
        let ghost keys = self@.keys;
        let mut out: Vec<String> = match &self.packed {
            Some(s) => s.all_hashes(),
            None => Vec::new(),
        };
        let ghost first = strings(out@);
        let mut i: usize = 0;
        assert(first + keys.take(0) =~= first);
        while i < self.loose.len()
            invariant
                i <= keys.len(),
                keys == self.loose.keys(),
                keys == self@.keys,
                match self@.packed {
                    Some(s) => strings(out@) == first + only_loose(
                        keys.take(i as int),
                        s.index.locs.dom(),
                    ),
                    None => strings(out@) == first + keys.take(i as int),
                },
            decreases keys.len() - i,
        {
            let key = self.loose.key_at(i);
            let packed = match &self.packed {
                Some(s) => s.contains(key.as_str()),
                None => false,
            };
            assert(keys.take(i + 1).drop_last() =~= keys.take(i as int));
            assert(keys.take(i + 1) =~= keys.take(i as int).push(keys[i as int]));
            if !packed {
                let ghost was = strings(out@);
                out.push(key.clone());
                proof {
                    assert(strings(out@) =~= was.push(keys[i as int]));
                    match self@.packed {
                        Some(s) => {
                            let b = only_loose(keys.take(i as int), s.index.locs.dom());
                            assert((first + b).push(keys[i as int]) =~= first + b.push(
                                keys[i as int],
                            ));
                        },
                        None => {
                            assert((first + keys.take(i as int)).push(keys[i as int]) =~= first
                                + keys.take(i as int).push(keys[i as int]));
                        },
                    }
                }
            }
            i = i + 1;
        }
        proof {
            assert(keys.take(i as int) =~= keys);
            if self@.packed is None {
                assert(first =~= Seq::<Seq<char>>::empty());
                assert(first + keys =~= keys);
            }
        }
        out
    }

    /// A number that the objects are not more than.
    pub(crate) fn at_most(&self) -> (r: u128)
        requires
            self.wf(),
        ensures
            r >= all_keys(self@).len(),
    {
        proof {
            if let Some(s) = self@.packed {
                lemma_only_loose_len(self@.keys, s.index.locs.dom());
            }
        }
        let loose: usize = self.loose.len();
        let packed: usize = match &self.packed {
            Some(s) => s.len(),
            None => 0,
        };
        loose as u128 + packed as u128
    }

    /// What can be read is among the objects.
    pub proof fn lemma_readable(&self, hash: Seq<char>)
        requires
            self.wf(),
            read_result(self@, hash) is Ok,
        ensures
            all_keys(self@).contains(hash),
    {
        self.lemma_wf();
        let v = self@;
        match v.packed {
            Some(s) => {
                let rest = only_loose(v.keys, s.index.locs.dom());
                let all = s.index.keys + rest;
                if s.index.locs.contains_key(hash) {
                    let i = choose|i: int| 0 <= i < s.index.keys.len() && s.index.keys[i] == hash;
                    assert(all[i] == hash);
                } else {
                    assert(v.loose.contains_key(hash));
                    lemma_only_loose(v.keys, s.index.locs.dom(), hash);
                    let i = choose|i: int| 0 <= i < rest.len() && rest[i] == hash;
                    assert(all[s.index.keys.len() + i] == hash);
                }
            },
            None => {},
        }
    }

    /// Reads every object: how many could be read, and the hashes of those
    /// that could not.
    pub fn verify_all(&self) -> (r: (usize, Vec<String>))
        requires
            self.wf(),
        ensures
            strings(r.1@) == unreadable(self@, all_keys(self@)),
            r.0 == all_keys(self@).len() - r.1@.len(),
    {
        let hashes = self.all_hashes();
        let ghost keys = all_keys(self@);
        let mut ok: usize = 0;
        let mut bad: Vec<String> = Vec::new();
        let mut i: usize = 0;
        assert(strings(bad@) =~= unreadable(self@, keys.take(0)));
        while i < hashes.len()
            invariant
                self.wf(),
                i <= hashes.len(),
                keys == strings(hashes@),
                keys == all_keys(self@),
                ok == i - bad@.len(),
                strings(bad@) == unreadable(self@, keys.take(i as int)),
            decreases hashes.len() - i,
        {
            assert(keys.take(i + 1).drop_last() =~= keys.take(i as int));
            assert(keys.take(i + 1).last() == hashes@[i as int]@);
            match self.read(hashes[i].as_str()) {
                Ok(_) => {
                    ok = ok + 1;
                },
                Err(_) => {
                    let ghost was = strings(bad@);
                    bad.push(hashes[i].clone());
                    assert(strings(bad@) =~= was.push(keys[i as int]));
                },
            }
            i = i + 1;
        }
        assert(keys.take(i as int) =~= keys);
        (ok, bad)
    }

    /// Drops the packed objects that are not live. Loose objects stay.
    pub fn compact(&mut self, live: &Vec<String>) -> (r: Result<CompactStats, StoreError>)
        requires
            old(self).wf(),
        ensures
            final(self).wf(),
            match old(self)@.packed {
                None => r == Ok::<CompactStats, StoreError>(
                    CompactStats {
                        live_objects: 0,
                        dropped_objects: 0,
                        bytes_reclaimed: 0,
                        segments_after: 0,
                    },
                ) && final(self)@ == old(self)@,
                Some(s) => {
                    let keep = texts(live@);
                    let n = s.index.keys.len() as int;
                    match r {
                        Ok(stats) => {
                            &&& final(self)@.packed is Some
                            &&& copied(s, keep, n) == Ok::<SegV, SegmentError>(
                                final(self)@.packed->0,
                            )
                            &&& final(self)@ == (ObjV {
                                packed: final(self)@.packed,
                                ..old(self)@
                            })
                            &&& tells(stats, s, keep, final(self)@.packed->0)
                            &&& coherent(final(self)@.packed->0)
                            &&& compacted(s, keep, final(self)@.packed->0)
                        },
                        Err(e) => final(self)@ == old(self)@ && (copied(s, keep, n) matches Err(x)
                            && e == from_segment(x)),
                    }
                },
            },
            obj_coherent(old(self)@) ==> obj_coherent(final(self)@),
    {
        let ghost v = self@;
        match &mut self.packed {
            Some(s) => match s.compact(live) {
                Ok(stats) => {
                    assert(self@ =~= (ObjV { packed: self@.packed, ..v }));
                    Ok(stats)
                },
                Err(e) => {
                    assert(self@ =~= v);
                    Err(segment_error(e))
                },
            },
            None => Ok(CompactStats::default()),
        }
    }

    /// How many loose objects there are.
    pub fn loose_count(&self) -> (r: usize)
        ensures
            r == self@.keys.len(),
    {
        self.loose.len()
    }

    /// The `i`th loose object: its hash and what it holds.
    pub fn loose_at(&self, i: usize) -> (r: (&String, &Vec<u8>))
        requires
            self.wf(),
            i < self@.keys.len(),
        ensures
            r.0@ == self@.keys[i as int],
            r.1@ == self@.loose[self@.keys[i as int]],
    {
        proof {
            self.loose.lemma_entries();
        }
        (self.loose.key_at(i), self.loose.value_at(i))
    }

    /// The segments, where objects are packed.
    pub fn segments(&self) -> (r: Option<&Vec<SegmentFile>>)
        ensures
            match self@.packed {
                Some(s) => r matches Some(fs) && crate::segment::files_of(fs@) == s.files,
                None => r is None,
            },
    {
        match &self.packed {
            Some(s) => Some(s.files()),
            None => None,
        }
    }
}

proof fn lemma_only_loose_len(keys: Seq<Seq<char>>, packed: Set<Seq<char>>)
    ensures
        only_loose(keys, packed).len() <= keys.len(),
    decreases keys.len(),
{
    if keys.len() > 0 {
        lemma_only_loose_len(keys.drop_last(), packed);
    }
}

/// The hashes that are not packed are just those.
pub proof fn lemma_only_loose(keys: Seq<Seq<char>>, packed: Set<Seq<char>>, hash: Seq<char>)
    ensures
        only_loose(keys, packed).contains(hash) <==> keys.contains(hash) && !packed.contains(hash),
    decreases keys.len(),
{
    if keys.len() > 0 {
        let all = only_loose(keys, packed);
        let head = keys.drop_last();
        let before = only_loose(head, packed);
        lemma_only_loose(head, packed, hash);
        if keys.contains(hash) && keys.last() != hash {
            let i = choose|i: int| 0 <= i < keys.len() && keys[i] == hash;
            assert(head[i] == hash);
        }
        if head.contains(hash) {
            let i = choose|i: int| 0 <= i < head.len() && head[i] == hash;
            assert(keys[i] == hash);
        }
        if before.contains(hash) {
            let j = choose|j: int| 0 <= j < before.len() && before[j] == hash;
            assert(all[j] == hash);
        }
        assert(keys[keys.len() - 1] == keys.last());
        if !packed.contains(keys.last()) {
            assert(all[all.len() - 1] == keys.last());
            if all.contains(hash) && !before.contains(hash) {
                let j = choose|j: int| 0 <= j < all.len() && all[j] == hash;
                if j < before.len() {
                    assert(before[j] == hash);
                }
            }
        }
    }
}

/// Whether segments, sidecars and index agree, where objects are packed.
pub open spec fn obj_coherent(v: ObjV) -> bool {
    match v.packed {
        Some(s) => coherent(s),
        None => true,
    }
}

/// What storing a content changes: an object with its hash is there
/// afterwards, and what other hashes give is as it was.
pub open spec fn content_stored(v: ObjV, content: Seq<u8>, w: ObjV) -> bool {
    let hash = content_hash(content);
    &&& obj_sound(v) ==> obj_sound(w)
    &&& w.dek == v.dek
    &&& w.memory == v.memory
    &&& holds(w, hash)
    &&& holds(v, hash) ==> w == v
    &&& !holds(v, hash) && encode_utf8(hash).len() >= 3 ==> read_result(w, hash) == decoded(
        content,
        v.dek,
        hash,
    )
    &&& forall|k: Seq<char>| k != hash ==> #[trigger] read_result(w, k) == read_result(v, k)
    &&& forall|k: Seq<char>| k != hash ==> #[trigger] holds(w, k) == holds(v, k)
    &&& forall|k: Seq<char>| k != hash ==> #[trigger] undamaged(w, k) == undamaged(v, k)
}

/// Whether writing a version came to this: a content that decrypts to the
/// version's bytes was stored. A version that is not nested too deep is then
/// read back, unless an object with the same hash was there before.
pub open spec fn written(v: ObjV, n: NodeV, content: Seq<u8>, hash: Seq<char>, w: ObjV) -> bool {
    &&& plain(content, v.dek) == Ok::<Seq<u8>, CryptoError>(node_bytes(n))
    &&& v.dek is None ==> content == node_bytes(n)
    &&& hash == content_hash(content)
    &&& content_put(v, content) == Ok::<ObjV, StoreError>(w)
    &&& content_stored(v, content, w)
    &&& storable(n) ==> decoded(content, v.dek, hash) == Ok::<NodeV, StoreError>(
        NodeV { hash, ..n },
    )
}

/// Why writing a version may fail: there is too much to encrypt, or the
/// segments cannot take it.
pub open spec fn write_error(v: ObjV, n: NodeV, e: StoreError) -> bool {
    if v.dek is Some && node_bytes(n).len() > MAX_PLAINTEXT {
        e == StoreError::Crypto(CryptoError::TooLarge)
    } else {
        exists|content: Seq<u8>|
            #![trigger content_put(v, content)]
            plain(content, v.dek) == Ok::<Seq<u8>, CryptoError>(node_bytes(n)) && content_put(
                v,
                content,
            ) == Err::<ObjV, StoreError>(e)
    }
}

/// Whether a file is a loose object.
fn is_object_file(f: &LooseFile, packed: bool) -> (r: bool)
    ensures
        r == is_object(f@, packed),
{
    !is_unfinished(f.name.as_str()) && (!packed || f.prefix.as_str().as_bytes().len()
        == 2)
}

} // verus!
