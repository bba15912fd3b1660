//! Packed objects: many contents appended to few segment files, with an index
//! from each content's hash to its place.
//!
//! A segment is a row of records, each a 32-bit little-endian length and then
//! the content. A sealed segment may have a sidecar that lists its records
//! under a checksum, so that opening need not read the segment.

use vstd::bytes::{
    lemma_auto_spec_u32_to_from_le_bytes, lemma_auto_spec_u64_to_from_le_bytes,
    spec_u32_from_le_bytes, spec_u32_to_le_bytes, spec_u64_from_le_bytes, spec_u64_to_le_bytes,
    u32_from_le_bytes, u32_to_le_bytes, u64_from_le_bytes, u64_to_le_bytes,
};
use vstd::prelude::*;
use crate::digest::{blake2b, content_hash, digest, digest_of, hex, hex_decode, hex_encode, is_hex, unhex};
use crate::keyed::{with_key, Keyed};
use crate::text::{append_bytes, bytes_between, same_bytes, same_text};

verus! {

/// The size at which a segment is sealed unless another is asked for: 256 MiB.
pub const DEFAULT_MAX_SEGMENT_BYTES: u64 = 0x1000_0000;

/// One record of a segment: the hash of its content, where the content
/// starts, and how long it is.
pub type Entry = (Seq<char>, u64, u32);

/// The hash of the content, where it starts, and how long it is.
pub type Record = (String, u64, u32);

pub open spec fn entry_of(r: Record) -> Entry {
    (r.0@, r.1, r.2)
}

pub open spec fn entries_of(records: Seq<Record>) -> Seq<Entry> {
    records.map_values(|r: Record| entry_of(r))
}

/// The length that a record at `pos` declares.
pub open spec fn declared_len(data: Seq<u8>, pos: int) -> int {
    spec_u32_from_le_bytes(data.subrange(pos, pos + 4)) as int
}

/// Whether a whole record stands at `pos`.
pub open spec fn has_record(data: Seq<u8>, pos: int) -> bool {
    0 <= pos && pos + 4 <= data.len() && pos + 4 + declared_len(data, pos) <= data.len()
}

/// The content of the record at `pos`.
pub open spec fn record_content(data: Seq<u8>, pos: int) -> Seq<u8> {
    data.subrange(pos + 4, pos + 4 + declared_len(data, pos))
}

/// The whole records from `pos` on, up to the first that is cut off.
pub open spec fn scan(data: Seq<u8>, pos: int) -> Seq<Entry>
    decreases data.len() - pos,
{
    if has_record(data, pos) {
        seq![
            (
                content_hash(record_content(data, pos)),
                (pos + 4) as u64,
                declared_len(data, pos) as u32,
            ),
        ] + scan(data, pos + 4 + declared_len(data, pos))
    } else {
        Seq::empty()
    }
}

/// Where the whole records from `pos` on end.
pub open spec fn scan_end(data: Seq<u8>, pos: int) -> int
    decreases data.len() - pos,
{
    if has_record(data, pos) {
        scan_end(data, pos + 4 + declared_len(data, pos))
    } else {
        pos
    }
}

/// The bytes of a record.
pub open spec fn record(content: Seq<u8>) -> Seq<u8> {
    spec_u32_to_le_bytes(content.len() as u32) + content
}

/// A scan ends inside a segment, no sooner than it starts.
pub proof fn lemma_scan_end(data: Seq<u8>, pos: int)
    requires
        0 <= pos <= data.len(),
    ensures
        pos <= scan_end(data, pos) <= data.len(),
        !has_record(data, scan_end(data, pos)),
    decreases data.len() - pos,
{
    if has_record(data, pos) {
        lemma_scan_end(data, pos + 4 + declared_len(data, pos));
    }
}

/// What stands behind the last whole record does not change the records
/// before it.
pub proof fn lemma_scan_prefix(data: Seq<u8>, more: Seq<u8>, pos: int)
    requires
        0 <= pos <= data.len(),
        scan_end(data, pos) == data.len(),
    ensures
        scan(data + more, pos) == scan(data, pos) + scan(data + more, data.len() as int),
        scan_end(data + more, pos) == scan_end(data + more, data.len() as int),
    decreases data.len() - pos,
{
    if has_record(data, pos) {
        let all = data + more;
        assert(all.subrange(pos, pos + 4) =~= data.subrange(pos, pos + 4));
        let next = pos + 4 + declared_len(data, pos);
        assert(record_content(all, pos) =~= record_content(data, pos));
        lemma_scan_prefix(data, more, next);
        assert(scan(all, pos) =~= scan(data, pos) + scan(all, data.len() as int));
    } else {
        assert(scan(data, pos) + scan(data + more, pos) =~= scan(data + more, pos));
    }
}

/// A record put behind whole records is found after them, and nothing is left
/// over.
pub proof fn lemma_scan_append(data: Seq<u8>, content: Seq<u8>)
    requires
        scan_end(data, 0) == data.len(),
        content.len() <= u32::MAX,
    ensures
        scan(data + record(content), 0) == scan(data, 0).push(
            (content_hash(content), (data.len() + 4) as u64, content.len() as u32),
        ),
        scan_end(data + record(content), 0) == (data + record(content)).len(),
{
    let all = data + record(content);
    let at = data.len() as int;
    lemma_auto_spec_u32_to_from_le_bytes();
    lemma_scan_prefix(data, record(content), 0);
    assert(all.subrange(at, at + 4) =~= spec_u32_to_le_bytes(content.len() as u32));
    assert(declared_len(all, at) == content.len());
    assert(record_content(all, at) =~= content);
    reveal_with_fuel(scan, 2);
    reveal_with_fuel(scan_end, 2);
    assert(scan(all, 0) =~= scan(data, 0).push(
        (content_hash(content), (data.len() + 4) as u64, content.len() as u32),
    ));
}

/// A record that is cut off at the end of a segment is passed over.
pub proof fn lemma_torn_tail(data: Seq<u8>, torn: Seq<u8>)
    requires
        scan_end(data, 0) == data.len(),
        !has_record(data + torn, data.len() as int),
    ensures
        scan(data + torn, 0) == scan(data, 0),
        scan_end(data + torn, 0) == data.len(),
{
    lemma_scan_prefix(data, torn, 0);
    assert(scan(data + torn, 0) =~= scan(data, 0));
}

/// Reads through a segment: where the whole records end, and the records.
pub fn scan_segment(data: &Vec<u8>) -> (r: (usize, Vec<Record>))
    ensures
        r.0 == scan_end(data@, 0),
        entries_of(r.1@) == scan(data@, 0),
        r.0 <= data.len(),
{
    let mut pos: usize = 0;
    let mut records: Vec<Record> = Vec::new();
    assert(entries_of(records@) + scan(data@, 0) =~= scan(data@, 0));
    while data.len() - pos >= 4
        invariant
            pos <= data.len(),
            scan_end(data@, pos as int) == scan_end(data@, 0),
            scan(data@, 0) == entries_of(records@) + scan(data@, pos as int),
        ensures
            pos <= data.len(),
            !has_record(data@, pos as int),
            scan_end(data@, pos as int) == scan_end(data@, 0),
            scan(data@, 0) == entries_of(records@) + scan(data@, pos as int),
        decreases data.len() - pos,
    {
        let prefix = bytes_between(data.as_slice(), pos, pos + 4);
        let len: u32 = u32_from_le_bytes(prefix.as_slice());
        if (len as u64) > (data.len() - pos - 4) as u64 {
            break;
        }
        let end: usize = pos + 4 + len as usize;
        let content = bytes_between(data.as_slice(), pos + 4, end);
        let ghost before = entries_of(records@);
        records.push((blake2b(content.as_slice()), (pos + 4) as u64, len));
        proof {
            let e = (
                content_hash(record_content(data@, pos as int)),
                (pos + 4) as u64,
                declared_len(data@, pos as int) as u32,
            );
            assert(entries_of(records@) =~= before.push(e));
            assert(before + (seq![e] + scan(data@, end as int)) =~= before.push(e) + scan(
                data@,
                end as int,
            ));
        }
        pos = end;
    }
    assert(entries_of(records@) + scan(data@, pos as int) =~= entries_of(records@));
    (pos, records)
}

/// The four bytes that a sidecar starts with: `NIX1`.
pub open spec fn idx_magic() -> Seq<u8> {
    seq![0x4e, 0x49, 0x58, 0x31]
}

/// Whether a sidecar can list a record under this hash.
pub open spec fn indexable(hash: Seq<char>) -> bool {
    is_hex(hash) && hash.len() == 64
}

/// One record in a sidecar: the digest, the offset and the length.
pub open spec fn entry_bytes(e: Entry) -> Seq<u8> {
    unhex(e.0) + spec_u64_to_le_bytes(e.1) + spec_u32_to_le_bytes(e.2)
}

pub open spec fn entries_bytes(es: Seq<Entry>) -> Seq<u8>
    decreases es.len(),
{
    if es.len() == 0 {
        Seq::empty()
    } else {
        entries_bytes(es.drop_last()) + entry_bytes(es.last())
    }
}

/// A sidecar without its checksum: the magic, the count, and the records.
pub open spec fn idx_body(es: Seq<Entry>) -> Seq<u8> {
    idx_magic() + spec_u64_to_le_bytes(es.len() as u64) + entries_bytes(es)
}

/// A sidecar: the body and its digest.
pub open spec fn idx_bytes(es: Seq<Entry>) -> Seq<u8> {
    idx_body(es) + digest(idx_body(es))
}

/// The record that a sidecar lists at `p`.
pub open spec fn entry_at(data: Seq<u8>, p: int) -> Entry {
    (
        hex(data.subrange(p, p + 32)),
        spec_u64_from_le_bytes(data.subrange(p + 32, p + 40)),
        spec_u32_from_le_bytes(data.subrange(p + 40, p + 44)),
    )
}

/// The records that a sidecar lists; nothing where it has not the magic, the
/// length or the checksum of a sidecar.
pub open spec fn idx_entries(data: Seq<u8>) -> Option<Seq<Entry>> {
    let count = spec_u64_from_le_bytes(data.subrange(4, 12)) as int;
    if data.len() < 44 || data.take(4) != idx_magic() || data.len() != 44 + count * 44
        || digest(data.take(data.len() - 32)) != data.skip(data.len() - 32) {
        None
    } else {
        Some(Seq::new(count as nat, |i: int| entry_at(data, 12 + 44 * i)))
    }
}

proof fn lemma_entries_bytes(es: Seq<Entry>)
    requires
        forall|i: int| 0 <= i < es.len() ==> indexable((#[trigger] es[i]).0),
    ensures
        entries_bytes(es).len() == 44 * es.len(),
        forall|i: int|
            0 <= i < es.len() ==> entries_bytes(es).subrange(44 * i, 44 * i + 44) == entry_bytes(
                #[trigger] es[i],
            ),
    decreases es.len(),
{
    lemma_auto_spec_u32_to_from_le_bytes();
    lemma_auto_spec_u64_to_from_le_bytes();
    if es.len() > 0 {
        let head = es.drop_last();
        assert forall|i: int| 0 <= i < head.len() implies indexable((#[trigger] head[i]).0) by {
            assert(head[i] == es[i]);
        }
        lemma_entries_bytes(head);
        assert(indexable(es[es.len() - 1].0));
        assert(entry_bytes(es.last()).len() == 44);
        assert forall|i: int| 0 <= i < es.len() implies entries_bytes(es).subrange(
            44 * i,
            44 * i + 44,
        ) == entry_bytes(#[trigger] es[i]) by {
            if i < head.len() {
                assert(head[i] == es[i]);
                assert(entries_bytes(es).subrange(44 * i, 44 * i + 44) =~= entries_bytes(
                    head,
                ).subrange(44 * i, 44 * i + 44));
            } else {
                assert(entries_bytes(es).subrange(44 * i, 44 * i + 44) =~= entry_bytes(es.last()));
            }
        }
    }
}

/// Reading a sidecar gives back the records that it was written for.
pub proof fn lemma_idx_round_trip(es: Seq<Entry>)
    requires
        es.len() <= u64::MAX,
        forall|i: int|
            0 <= i < es.len() ==> indexable((#[trigger] es[i]).0) && hex(unhex(es[i].0)) == es[i].0,
    ensures
        idx_entries(idx_bytes(es)) == Some(es),
{
    lemma_auto_spec_u32_to_from_le_bytes();
    lemma_auto_spec_u64_to_from_le_bytes();
    lemma_entries_bytes(es);
    let data = idx_bytes(es);
    let body = idx_body(es);
    assert(data.take(4) =~= idx_magic());
    assert(data.subrange(4, 12) =~= spec_u64_to_le_bytes(es.len() as u64));
    assert(data.take(data.len() - 32) =~= body);
    assert(data.skip(data.len() - 32) =~= digest(body));
    assert forall|i: int| 0 <= i < es.len() implies entry_at(data, 12 + 44 * i) == #[trigger] es[i] by {
        let p = 12 + 44 * i;
        let e = es[i];
        let bytes = entries_bytes(es).subrange(44 * i, 44 * i + 44);
        assert(bytes == entry_bytes(e));
        assert(data.subrange(p, p + 44) =~= bytes);
        assert(data.subrange(p, p + 32) =~= data.subrange(p, p + 44).subrange(0, 32));
        assert(data.subrange(p + 32, p + 40) =~= data.subrange(p, p + 44).subrange(32, 40));
        assert(data.subrange(p + 40, p + 44) =~= data.subrange(p, p + 44).subrange(40, 44));
        assert(entry_bytes(e).subrange(0, 32) =~= unhex(e.0));
        assert(entry_bytes(e).subrange(32, 40) =~= spec_u64_to_le_bytes(e.1));
        assert(entry_bytes(e).subrange(40, 44) =~= spec_u32_to_le_bytes(e.2));
    }
    assert(idx_entries(data)->0 =~= es);
}

/// The sidecar for the records of a sealed segment; nothing where a hash is
/// not 64 hexadecimal digits.
pub fn write_idx(records: &Vec<Record>) -> (r: Option<Vec<u8>>)
    ensures
        match r {
            Some(b) => {
                &&& forall|i: int| 0 <= i < records@.len() ==> indexable((#[trigger] records@[i]).0@)
                &&& b@ == idx_bytes(entries_of(records@))
                &&& (forall|i: int|
                    0 <= i < records@.len() ==> hex(unhex((#[trigger] records@[i]).0@))
                        == records@[i].0@) ==> idx_entries(b@) == Some(entries_of(records@))
            },
            None => exists|i: int|
                0 <= i < records@.len() && !indexable((#[trigger] records@[i]).0@),
        },
{
    let ghost es = entries_of(records@);
    let mut body: Vec<u8> = vec![0x4e, 0x49, 0x58, 0x31];
    append_bytes(&mut body, u64_to_le_bytes(records.len() as u64).as_slice());
    assert(body@ =~= idx_magic() + spec_u64_to_le_bytes(es.len() as u64) + entries_bytes(
        es.take(0),
    ));
    let mut i: usize = 0;
    while i < records.len()
        invariant
            i <= records.len(),
            es == entries_of(records@),
            body@ == idx_magic() + spec_u64_to_le_bytes(es.len() as u64) + entries_bytes(
                es.take(i as int),
            ),
            forall|j: int| 0 <= j < i ==> indexable((#[trigger] records@[j]).0@),
        decreases records.len() - i,
    {
        match hex_decode(records[i].0.as_str()) {
            Some(raw) => {
                if raw.len() != 32 {
                    return None;
                }
                append_bytes(&mut body, raw.as_slice());
                append_bytes(&mut body, u64_to_le_bytes(records[i].1).as_slice());
                append_bytes(&mut body, u32_to_le_bytes(records[i].2).as_slice());
                proof {
                    assert(es.take(i + 1).drop_last() =~= es.take(i as int));
                    assert(es.take(i + 1).last() == entry_of(records@[i as int]));
                    assert(body@ =~= idx_magic() + spec_u64_to_le_bytes(es.len() as u64)
                        + entries_bytes(es.take(i + 1)));
                }
            },
            None => {
                return None;
            },
        }
        i = i + 1;
    }
    assert(es.take(i as int) =~= es);
    let sum = digest_of(body.as_slice());
    append_bytes(&mut body, sum.as_slice());
    proof {
        if forall|i: int|
            0 <= i < records@.len() ==> hex(unhex((#[trigger] records@[i]).0@)) == records@[i].0@ {
            assert forall|i: int| 0 <= i < es.len() implies indexable((#[trigger] es[i]).0) && hex(
                unhex(es[i].0),
            ) == es[i].0 by {
                assert(es[i].0 == records@[i].0@);
            }
            lemma_idx_round_trip(es);
        }
    }
    Some(body)
}

/// The records that a sidecar lists, if it is one.
pub fn load_idx(data: &Vec<u8>) -> (r: Option<Vec<Record>>)
    ensures
        match r {
            Some(records) => idx_entries(data@) == Some(entries_of(records@)),
            None => idx_entries(data@) is None,
        },
{
    if data.len() < 44 {
        return None;
    }
    let magic = bytes_between(data.as_slice(), 0, 4);
    let nix1: Vec<u8> = vec![0x4e, 0x49, 0x58, 0x31];
    assert(magic@ =~= data@.take(4));
    assert(nix1@ =~= idx_magic());
    if !same_bytes(magic.as_slice(), nix1.as_slice()) {
        return None;
    }
    let count: u64 = u64_from_le_bytes(bytes_between(data.as_slice(), 4, 12).as_slice());
    if data.len() as u128 != 44 + count as u128 * 44 {
        return None;
    }
    let cut: usize = data.len() - 32;
    let body = bytes_between(data.as_slice(), 0, cut);
    let stored = bytes_between(data.as_slice(), cut, data.len());
    assert(body@ =~= data@.take(data@.len() - 32));
    assert(stored@ =~= data@.skip(data@.len() - 32));
    if !same_bytes(digest_of(body.as_slice()).as_slice(), stored.as_slice()) {
        return None;
    }
    let ghost es = Seq::new(count as nat, |i: int| entry_at(data@, 12 + 44 * i));
    let mut records: Vec<Record> = Vec::new();
    let mut p: usize = 12;
    while p < cut
        invariant
            cut == data.len() - 32,
            data.len() == 44 + count * 44,
            12 <= p <= cut,
            p == 12 + 44 * records.len(),
            es == Seq::new(count as nat, |i: int| entry_at(data@, 12 + 44 * i)),
            entries_of(records@) == es.take(records@.len() as int),
        decreases cut - p,
    {
        let hash = hex_encode(bytes_between(data.as_slice(), p, p + 32).as_slice());
        let off: u64 = u64_from_le_bytes(bytes_between(data.as_slice(), p + 32, p + 40).as_slice());
        let len: u32 = u32_from_le_bytes(bytes_between(data.as_slice(), p + 40, p + 44).as_slice());
        let ghost n = records@.len() as int;
        records.push((hash, off, len));
        assert(entries_of(records@) =~= es.take(n).push(entry_at(data@, 12 + 44 * n)));
        assert(es.take(n + 1) =~= es.take(n).push(es[n]));
        p = p + 44;
    }
    assert(es.take(records@.len() as int) =~= es);
    Some(records)
}

/// The place of one content.
#[derive(Clone, Copy, Debug)]
pub struct SegmentLocation {
    pub segment_id: u32,
    /// Where the content starts, behind its length.
    pub offset: u64,
    pub len: u32,
}

/// What `compact` did.
#[derive(Clone, Copy, Debug)]
pub struct CompactStats {
    /// Live objects copied forward into fresh segments.
    pub live_objects: usize,
    /// Dead objects dropped.
    pub dropped_objects: usize,
    /// Bytes of the old segments.
    pub bytes_reclaimed: u64,
    /// Number of segments afterwards.
    pub segments_after: usize,
}

impl Default for CompactStats {
    fn default() -> (r: CompactStats)
        ensures
            r == (CompactStats {
                live_objects: 0,
                dropped_objects: 0,
                bytes_reclaimed: 0,
                segments_after: 0,
            }),
    {
        CompactStats { live_objects: 0, dropped_objects: 0, bytes_reclaimed: 0, segments_after: 0 }
    }
}

/// Why a segment store could not do what was asked.
#[derive(Clone, Copy, Debug, PartialEq, Eq, Structural)]
pub enum SegmentError {
    /// The place of the content is not inside a segment.
    Unreadable,
    /// The content at the place has another hash.
    Tampered,
    /// The content is longer than a record can be.
    TooLarge,
    /// There is no number left for a further segment.
    Exhausted,
}

/// One segment: its number, its bytes, and its sidecar where it has one.
#[derive(Debug)]
pub struct SegmentFile {
    pub id: u32,
    pub data: Vec<u8>,
    pub sidecar: Option<Vec<u8>>,
}

/// What a segment is.
#[verifier::ext_equal]
pub struct FileV {
    pub id: u32,
    pub data: Seq<u8>,
    pub sidecar: Option<Seq<u8>>,
}

pub open spec fn opt_bytes(b: Option<Vec<u8>>) -> Option<Seq<u8>> {
    match b {
        Some(v) => Some(v@),
        None => None,
    }
}

impl View for SegmentFile {
    type V = FileV;

    open spec fn view(&self) -> FileV {
        FileV { id: self.id, data: self.data@, sidecar: opt_bytes(self.sidecar) }
    }
}

pub open spec fn files_of(files: Seq<SegmentFile>) -> Seq<FileV> {
    files.map_values(|f: SegmentFile| f@)
}

/// What an index is: the hashes in table order, and the place of each.
#[verifier::ext_equal]
pub struct IndexV {
    pub keys: Seq<Seq<char>>,
    pub locs: Map<Seq<char>, SegmentLocation>,
}

/// What a segment store is. The last segment is the one that is appended to.
#[verifier::ext_equal]
pub struct SegV {
    pub files: Seq<FileV>,
    pub index: IndexV,
    pub max: u64,
}

pub open spec fn no_index() -> IndexV {
    IndexV { keys: Seq::empty(), locs: Map::empty() }
}

/// The index with one more record.
pub open spec fn index_add(ix: IndexV, id: u32, e: Entry) -> IndexV {
    IndexV {
        keys: with_key(ix.keys, e.0),
        locs: ix.locs.insert(e.0, SegmentLocation { segment_id: id, offset: e.1, len: e.2 }),
    }
}

/// The index with more records.
pub open spec fn index_add_all(ix: IndexV, id: u32, es: Seq<Entry>) -> IndexV
    decreases es.len(),
{
    if es.len() == 0 {
        ix
    } else {
        index_add(index_add_all(ix, id, es.drop_last()), id, es.last())
    }
}

/// The records that the index has in one segment.
pub open spec fn entries_for(ix: IndexV, id: u32, n: int) -> Seq<Entry>
    decreases n,
{
    if n <= 0 {
        Seq::empty()
    } else {
        let k = ix.keys[n - 1];
        let before = entries_for(ix, id, n - 1);
        if ix.locs[k].segment_id == id {
            before.push((k, ix.locs[k].offset, ix.locs[k].len))
        } else {
            before
        }
    }
}

/// Whether a sidecar can list the records.
pub open spec fn all_indexable(es: Seq<Entry>) -> bool {
    forall|i: int| 0 <= i < es.len() ==> indexable((#[trigger] es[i]).0)
}

/// The sidecar that a segment has once one was written for its records.
pub open spec fn sidecar_for(was: Option<Seq<u8>>, es: Seq<Entry>) -> Option<Seq<u8>> {
    if all_indexable(es) {
        Some(idx_bytes(es))
    } else {
        was
    }
}

/// The records that a sidecar lists.
pub open spec fn sidecar_entries(f: FileV) -> Option<Seq<Entry>> {
    match f.sidecar {
        Some(b) => idx_entries(b),
        None => None,
    }
}

/// The records of a segment as they are found when a store is opened: those
/// that the sidecar of a sealed segment lists, else those in the segment.
pub open spec fn file_entries(f: FileV, last: bool) -> Seq<Entry> {
    match sidecar_entries(f) {
        Some(es) => if last {
            scan(f.data, 0)
        } else {
            es
        },
        None => scan(f.data, 0),
    }
}

/// A segment after opening: a torn tail of the last is cut off; a sealed one
/// without a good sidecar gets one.
pub open spec fn opened_file(f: FileV, last: bool) -> FileV {
    if last {
        FileV { data: f.data.take(scan_end(f.data, 0)), ..f }
    } else if sidecar_entries(f) is Some {
        f
    } else {
        FileV { sidecar: sidecar_for(f.sidecar, scan(f.data, 0)), ..f }
    }
}

/// The index of the first `n` segments.
pub open spec fn opened_index(fs: Seq<FileV>, n: int) -> IndexV
    decreases n,
{
    if n <= 0 {
        no_index()
    } else {
        index_add_all(
            opened_index(fs, n - 1),
            fs[n - 1].id,
            file_entries(fs[n - 1], n == fs.len()),
        )
    }
}

/// An empty segment.
pub open spec fn empty_file(id: u32) -> FileV {
    FileV { id, data: Seq::empty(), sidecar: None }
}

/// The store over segments with ascending numbers.
pub open spec fn opened(fs: Seq<FileV>, max: u64) -> SegV {
    SegV {
        files: if fs.len() == 0 {
            seq![empty_file(0)]
        } else {
            Seq::new(fs.len(), |i: int| opened_file(fs[i], i + 1 == fs.len()))
        },
        index: opened_index(fs, fs.len() as int),
        max,
    }
}

/// A segment put among segments with ascending numbers; a second one with the
/// same number is left out.
pub open spec fn placed(fs: Seq<FileV>, f: FileV) -> Seq<FileV>
    decreases fs.len(),
{
    if fs.len() == 0 || fs.last().id < f.id {
        fs.push(f)
    } else if fs.last().id == f.id {
        fs
    } else {
        placed(fs.drop_last(), f).push(fs.last())
    }
}

/// The segments by ascending number.
pub open spec fn arranged(fs: Seq<FileV>) -> Seq<FileV>
    decreases fs.len(),
{
    if fs.len() == 0 {
        Seq::empty()
    } else {
        placed(arranged(fs.drop_last()), fs.last())
    }
}

pub open spec fn ids_ascend(fs: Seq<FileV>) -> bool {
    forall|i: int, j: int| 0 <= i < j < fs.len() ==> (#[trigger] fs[i]).id < (#[trigger] fs[j]).id
}

/// What a place in a segment store holds.
pub enum Found {
    Absent,
    Unreadable,
    Tampered,
    Content(Seq<u8>),
}

/// The bytes of the segment with a number.
pub open spec fn data_of(fs: Seq<FileV>, id: u32) -> Option<Seq<u8>>
    decreases fs.len(),
{
    if fs.len() == 0 {
        None
    } else if fs.last().id == id {
        Some(fs.last().data)
    } else {
        data_of(fs.drop_last(), id)
    }
}

/// What a place holds, when a content with this hash is expected there.
pub open spec fn read_at(fs: Seq<FileV>, loc: SegmentLocation, hash: Seq<char>) -> Found {
    match data_of(fs, loc.segment_id) {
        Some(data) => if loc.offset + loc.len <= data.len() {
            let content = data.subrange(loc.offset as int, loc.offset + loc.len);
            if content_hash(content) == hash {
                Found::Content(content)
            } else {
                Found::Tampered
            }
        } else {
            Found::Unreadable
        },
        None => Found::Unreadable,
    }
}

/// What a store gives for a hash.
pub open spec fn found(v: SegV, hash: Seq<char>) -> Found {
    if v.index.locs.contains_key(hash) {
        read_at(v.files, v.index.locs[hash], hash)
    } else {
        Found::Absent
    }
}

/// Whether a content of `n` bytes goes to a fresh segment.
pub open spec fn needs_roll(v: SegV, n: int) -> bool {
    v.files.last().data.len() > 0 && v.files.last().data.len() + 4 + n > v.max
}

/// The store with its last segment sealed and a fresh one behind it.
pub open spec fn sealed(v: SegV) -> SegV {
    let last = v.files.last();
    let es = entries_for(v.index, last.id, v.index.keys.len() as int);
    SegV {
        files: v.files.drop_last().push(
            FileV { sidecar: sidecar_for(last.sidecar, es), ..last },
        ).push(empty_file((last.id + 1) as u32)),
        ..v
    }
}

/// The store with a record at the end of its last segment.
pub open spec fn appended(v: SegV, hash: Seq<char>, content: Seq<u8>) -> SegV {
    let last = v.files.last();
    SegV {
        files: v.files.drop_last().push(FileV { data: last.data + record(content), ..last }),
        index: index_add(
            v.index,
            last.id,
            (hash, (last.data.len() + 4) as u64, content.len() as u32),
        ),
        ..v
    }
}

/// What storing a content comes to.
pub open spec fn put_result(v: SegV, hash: Seq<char>, content: Seq<u8>) -> Result<
    SegV,
    SegmentError,
> {
    if v.index.locs.contains_key(hash) {
        Ok(v)
    } else if content.len() > u32::MAX {
        Err(SegmentError::TooLarge)
    } else if needs_roll(v, content.len() as int) {
        if v.files.last().id == u32::MAX {
            Err(SegmentError::Exhausted)
        } else {
            Ok(appended(sealed(v), hash, content))
        }
    } else {
        Ok(appended(v, hash, content))
    }
}

/// What storing a content under its hash changes: it is read back afterwards,
/// unless another content with the same hash was there before it, and what
/// other hashes give is as it was.
pub open spec fn stored(v: SegV, hash: Seq<char>, content: Seq<u8>, w: SegV) -> bool {
    &&& sound(v) ==> sound(w)
    &&& w.index.locs.contains_key(hash)
    &&& !v.index.locs.contains_key(hash) ==> found(w, hash) == Found::Content(content)
    &&& v.index.locs.contains_key(hash) ==> w == v
    &&& forall|k: Seq<char>| k != hash ==> #[trigger] found(w, k) == found(v, k)
}

/// An append-only store of contents under their hashes.
pub struct SegmentStore {
    files: Vec<SegmentFile>,
    index: Keyed<SegmentLocation>,
    max_segment_bytes: u64,
}

impl View for SegmentStore {
    type V = SegV;

    closed spec fn view(&self) -> SegV {
        SegV {
            files: files_of(self.files@),
            index: IndexV { keys: self.index.keys(), locs: self.index@ },
            max: self.max_segment_bytes,
        }
    }
}

impl SegmentStore {
    /// There is a last segment, and the index is in order.
    pub closed spec fn wf(&self) -> bool {
        self.index.wf() && self.files@.len() > 0 && framed(self@)
    }

    /// The hashes of the index are those that it has places for, and these are
    /// inside the segments.
    pub proof fn lemma_wf(&self)
        requires
            self.wf(),
        ensures
            framed(self@),
            self@.files.len() > 0,
            self@.index.keys.no_duplicates(),
            forall|k: Seq<char>| #[trigger]
                self@.index.locs.contains_key(k) <==> self@.index.keys.contains(k),
    {
        self.index.lemma_entries();
    }

    /// The records that the index has in one segment.
    fn entries_for_segment(&self, id: u32) -> (r: Vec<Record>)
        requires
            self.wf(),
        ensures
            entries_of(r@) == entries_for(self@.index, id, self@.index.keys.len() as int),
    {
        proof {
            self.index.lemma_entries();
        }
        let mut out: Vec<Record> = Vec::new();
        let mut i: usize = 0;
        assert(entries_of(out@) =~= Seq::<Entry>::empty());
        while i < self.index.len()
            invariant
                i <= self.index.keys().len(),
                self.index.keys().len() == self.index.values().len(),
                forall|j: int|
                    0 <= j < self.index.keys().len() ==> self.index@[#[trigger] self.index.keys()[j]]
                        == self.index.values()[j],
                entries_of(out@) == entries_for(self@.index, id, i as int),
            decreases self.index.keys().len() - i,
        {
            let loc = *self.index.value_at(i);
            let ghost before = entries_of(out@);
            if loc.segment_id == id {
                out.push((self.index.key_at(i).clone(), loc.offset, loc.len));
                assert(entries_of(out@) =~= before.push(
                    (self.index.keys()[i as int], loc.offset, loc.len),
                ));
            }
            i = i + 1;
        }
        out
    }

    /// Whether a content with this hash is stored.
    pub fn contains(&self, hash: &str) -> (r: bool)
        ensures
            r == self@.index.locs.contains_key(hash@),
    {
        self.index.contains(hash)
    }

    /// How many contents are stored.
    pub fn len(&self) -> (r: usize)
        ensures
            r == self@.index.keys.len(),
    {
        self.index.len()
    }

    /// The segments.
    pub fn files(&self) -> (r: &Vec<SegmentFile>)
        ensures
            files_of(r@) == self@.files,
    {
        &self.files
    }

    /// Seals the last segment and starts a fresh one.
    fn seal(&mut self)
        requires
            old(self).wf(),
            old(self)@.files.last().id < u32::MAX,
        ensures
            final(self).wf(),
            final(self)@ == sealed(old(self)@),
            coherent(old(self)@) ==> coherent(final(self)@),
    {
        let n: usize = self.files.len() - 1;
        assert(self@.files.last() == self.files@[n as int]@);
        let id = self.files[n].id;
        let records = self.entries_for_segment(id);
        let ghost es = entries_of(records@);
        let sidecar = write_idx(&records);
        proof {
            assert(forall|i: int| 0 <= i < es.len() ==> (#[trigger] es[i]).0 == records@[i].0@);
            if sidecar is None {
                let i = choose|i: int| 0 <= i < records@.len() && !indexable(
                    (#[trigger] records@[i]).0@,
                );
                assert(!indexable(es[i].0));
            }
        }
        if let Some(bytes) = sidecar {
            self.files[n].sidecar = Some(bytes);
        }
        self.files.push(SegmentFile { id: id + 1, data: Vec::new(), sidecar: None });
        assert(self@.files =~= sealed(old(self)@).files) by {
            let f = FileV { id: (id + 1) as u32, data: Seq::empty(), sidecar: None };
            assert(self@.files.last() =~= f);
        }
        assert(self@ =~= sealed(old(self)@));
        proof {
            let v = old(self)@;
            lemma_sealed(v);
            if coherent(v) {
                let n = v.files.len() as int;
                let rs = scan(v.files[n - 1].data, 0);
                lemma_coherent_entries(v, n - 1);
                assert(whole(v.files[n - 1]));
                assert forall|i: int| 0 <= i < records@.len() implies indexable(
                    (#[trigger] records@[i]).0@,
                ) && hex(unhex(records@[i].0@)) == records@[i].0@ by {
                    assert(es.contains(es[i]));
                    assert(rs.contains(es[i]));
                    let j = choose|j: int| 0 <= j < rs.len() && rs[j] == es[i];
                    assert(indexed(v, n - 1, scan(v.files[n - 1].data, 0)[j]));
                    assert(v.index.locs.contains_key(es[i].0));
                    lemma_scan_entry(v.files[n - 1].data, 0, j);
                }
                lemma_sealed_coherent(v);
            }
        }
    }

    /// Stores a content under its hash. Nothing happens where the hash is
    /// there already.
    pub fn put(&mut self, hash: &str, content: &[u8]) -> (r: Result<(), SegmentError>)
        requires
            old(self).wf(),
        ensures
            final(self).wf(),
            match r {
                Ok(_) => put_result(old(self)@, hash@, content@) == Ok::<SegV, SegmentError>(
                    final(self)@,
                ),
                Err(e) => put_result(old(self)@, hash@, content@) == Err::<SegV, SegmentError>(e)
                    && final(self)@ == old(self)@,
            },
            coherent(old(self)@) && hash@ == content_hash(content@) && indexable(hash@)
                ==> coherent(final(self)@),
            hash@ == content_hash(content@) && r is Ok ==> stored(
                old(self)@,
                hash@,
                content@,
                final(self)@,
            ),
    {
        if self.index.contains(hash) {
            return Ok(());
        }
        if content.len() as u64 > u32::MAX as u64 {
            return Err(SegmentError::TooLarge);
        }
        let len: u32 = content.len() as u32;
        let n: usize = self.files.len() - 1;
        assert(self@.files.last() == self.files@[n as int]@);
        let size: usize = self.files[n].data.len();
        if size > 0 && size as u128 + 4 + len as u128 > self.max_segment_bytes as u128 {
            if self.files[n].id == u32::MAX {
                return Err(SegmentError::Exhausted);
            }
            self.seal();
        }
        let ghost mid = self@;
        let n: usize = self.files.len() - 1;
        assert(mid.files.last() == self.files@[n as int]@);
        let id = self.files[n].id;
        let prefix = u32_to_le_bytes(len);
        append_bytes(&mut self.files[n].data, prefix.as_slice());
        append_bytes(&mut self.files[n].data, content);
        let offset: u64 = (self.files[n].data.len() - content.len()) as u64;
        self.index.insert(
            hash.to_owned(),
            SegmentLocation { segment_id: id, offset, len },
        );
        proof {
            let want = appended(mid, hash@, content@);
            assert(self@.files.last().data =~= want.files.last().data);
            assert(self@.files =~= want.files);
            assert(self@ =~= want);
            if coherent(old(self)@) && hash@ == content_hash(content@) && indexable(hash@) {
                assert(mid.files.last().data + record(content@) == self.files@[n as int].data@);
                lemma_appended_coherent(mid, hash@, content@);
            }
            assert(self@.files.last().data == self.files@[n as int].data@);
            lemma_appended_framed(mid, hash@, content@);
            if hash@ == content_hash(content@) {
                lemma_put(old(self)@, hash@, content@, self@);
            }
        }
        Ok(())
    }

    /// The content stored under a hash, with its hash checked again.
    pub fn get(&self, hash: &str) -> (r: Result<Option<Vec<u8>>, SegmentError>)
        requires
            self.wf(),
        ensures
            match found(self@, hash@) {
                Found::Absent => r == Ok::<Option<Vec<u8>>, SegmentError>(None),
                Found::Content(c) => r matches Ok(Some(b)) && b@ == c,
                Found::Unreadable => r == Err::<Option<Vec<u8>>, SegmentError>(
                    SegmentError::Unreadable,
                ),
                Found::Tampered => r == Err::<Option<Vec<u8>>, SegmentError>(SegmentError::Tampered),
            },
    {
        match self.index.get(hash) {
            Some(loc) => match self.read_content(loc, hash) {
                Ok(content) => Ok(Some(content)),
                Err(e) => Err(e),
            },
            None => Ok(None),
        }
    }

    fn read_content(&self, loc: &SegmentLocation, expect_hash: &str) -> (r: Result<
        Vec<u8>,
        SegmentError,
    >)
        ensures
            match read_at(self@.files, *loc, expect_hash@) {
                Found::Content(c) => r matches Ok(b) && b@ == c,
                Found::Tampered => r == Err::<Vec<u8>, SegmentError>(SegmentError::Tampered),
                _ => r == Err::<Vec<u8>, SegmentError>(SegmentError::Unreadable),
            },
    {
        let ghost fs = self@.files;
        let mut i: usize = self.files.len();
        assert(fs.take(fs.len() as int) =~= fs);
        while i > 0
            invariant
                i <= self.files.len(),
                fs == files_of(self.files@),
                fs == self@.files,
                data_of(fs, loc.segment_id) == data_of(fs.take(i as int), loc.segment_id),
            decreases i,
        {
            i = i - 1;
            assert(fs.take(i + 1).drop_last() =~= fs.take(i as int));
            assert(fs.take(i + 1).last() == self.files@[i as int]@);
            if self.files[i].id == loc.segment_id {
                let data = &self.files[i].data;
                if loc.offset as u128 + loc.len as u128 > data.len() as u128 {
                    return Err(SegmentError::Unreadable);
                }
                let from: usize = loc.offset as usize;
                let content = bytes_between(data.as_slice(), from, from + loc.len as usize);
                if !same_text(blake2b(content.as_slice()).as_str(), expect_hash) {
                    return Err(SegmentError::Tampered);
                }
                return Ok(content);
            }
        }
        Err(SegmentError::Unreadable)
    }

    /// All hashes that are stored.
    pub fn all_hashes(&self) -> (r: Vec<String>)
        ensures
            r@.map_values(|s: String| s@) == self@.index.keys,
    {
        let mut out: Vec<String> = Vec::new();
        let mut i: usize = 0;
        while i < self.index.len()
            invariant
                i <= self.index.keys().len(),
                out@.map_values(|s: String| s@) == self.index.keys().take(i as int),
            decreases self.index.keys().len() - i,
        {
            let ghost before = out@.map_values(|s: String| s@);
            out.push(self.index.key_at(i).clone());
            assert(out@.map_values(|s: String| s@) =~= before.push(self.index.keys()[i as int]));
            assert(self.index.keys().take(i + 1) =~= before.push(self.index.keys()[i as int]));
            i = i + 1;
        }
        assert(self.index.keys().take(i as int) =~= self.index.keys());
        out
    }
}

/// Puts a segment among segments with ascending numbers.
fn place(files: &mut Vec<SegmentFile>, f: SegmentFile)
    ensures
        files_of(final(files)@) == placed(files_of(old(files)@), f@),
{
    let ghost fs = files_of(files@);
    let mut i: usize = files.len();
    assert(fs.take(i as int) =~= fs);
    assert(fs.skip(i as int) =~= Seq::<FileV>::empty());
    assert(placed(fs, f@) + fs.skip(i as int) =~= placed(fs, f@));
    while i > 0
        invariant
            i <= files.len(),
            *files == *old(files),
            fs == files_of(files@),
            placed(fs, f@) == placed(fs.take(i as int), f@) + fs.skip(i as int),
        ensures
            i <= files.len(),
            *files == *old(files),
            placed(fs, f@) == fs.take(i as int).push(f@) + fs.skip(i as int),
        decreases i,
    {
        assert(fs.take(i as int).last() == files@[i - 1]@);
        assert(fs.take(i as int).drop_last() =~= fs.take(i - 1));
        if files[i - 1].id < f.id {
            break;
        }
        if files[i - 1].id == f.id {
            assert(fs.take(i as int) + fs.skip(i as int) =~= fs);
            return;
        }
        assert(placed(fs.take(i - 1), f@).push(fs[i - 1]) + fs.skip(i as int) =~= placed(
            fs.take(i - 1),
            f@,
        ) + fs.skip(i - 1));
        i = i - 1;
    }
    files.insert(i, f);
    assert(files_of(files@) =~= fs.take(i as int).push(f@) + fs.skip(i as int));
}

/// Adds records to an index.
fn add_all(index: &mut Keyed<SegmentLocation>, id: u32, records: &Vec<Record>)
    requires
        old(index).wf(),
    ensures
        final(index).wf(),
        (IndexV { keys: final(index).keys(), locs: final(index)@ }) == index_add_all(
            IndexV { keys: old(index).keys(), locs: old(index)@ },
            id,
            entries_of(records@),
        ),
{
    let ghost es = entries_of(records@);
    let ghost was = IndexV { keys: index.keys(), locs: index@ };
    let mut i: usize = 0;
    while i < records.len()
        invariant
            i <= records.len(),
            es == entries_of(records@),
            index.wf(),
            (IndexV { keys: index.keys(), locs: index@ }) == index_add_all(
                was,
                id,
                es.take(i as int),
            ),
        decreases records.len() - i,
    {
        let r = &records[i];
        index.insert(
            r.0.clone(),
            SegmentLocation { segment_id: id, offset: r.1, len: r.2 },
        );
        assert(es.take(i + 1).drop_last() =~= es.take(i as int));
        assert(es.take(i + 1).last() == entry_of(records@[i as int]));
        i = i + 1;
    }
    assert(es.take(i as int) =~= es);
}

impl SegmentStore {
    /// Opens a store over segments, which may come in any order.
    pub fn open(files: Vec<SegmentFile>) -> (r: SegmentStore)
        ensures
            r.wf(),
            r@ == opened(arranged(files_of(files@)), DEFAULT_MAX_SEGMENT_BYTES),
    {
        SegmentStore::open_with_max(files, DEFAULT_MAX_SEGMENT_BYTES)
    }

    /// Opens a store that seals a segment at another size.
    pub fn open_with_max(files: Vec<SegmentFile>, max_segment_bytes: u64) -> (r: SegmentStore)
        ensures
            r.wf(),
            r@ == opened(arranged(files_of(files@)), max_segment_bytes),
    {
        let ghost given = files_of(files@);
        let mut sorted: Vec<SegmentFile> = Vec::new();
        assert(files_of(sorted@) =~= arranged(given.take(0)));
        for f in it: files
            invariant
                it.seq() == files@,
                given == files_of(files@),
                files_of(sorted@) == arranged(given.take(it.index() as int)),
        {
            place(&mut sorted, f);
            assert(given.take(it.index() + 1).drop_last() =~= given.take(it.index() as int));
            assert(given.take(it.index() + 1).last() == f@);
        }
        assert(given.take(files@.len() as int) =~= given);
        let ghost fs = files_of(sorted@);
        proof {
            lemma_arranged_ascend(given);
            if fs.len() > 0 {
                assert(fs.last().data == sorted@[fs.len() - 1].data@);
                assert(fs.last().data.len() == sorted@[fs.len() - 1].data.len());
            }
        }
        let mut index: Keyed<SegmentLocation> = Keyed::new();
        let n: usize = sorted.len();
        if n == 0 {
            sorted.push(SegmentFile { id: 0, data: Vec::new(), sidecar: None });
            let r = SegmentStore { files: sorted, index, max_segment_bytes };
            proof {
                assert(r@.files[0] =~= empty_file(0));
                assert(r@ =~= opened(fs, max_segment_bytes));
                lemma_opened_framed(fs, max_segment_bytes);
            }
            return r;
        }
        let mut i: usize = 0;
        assert((IndexV { keys: index.keys(), locs: index@ }) =~= no_index());
        while i < n
            invariant
                i <= n,
                n == fs.len(),
                n == sorted.len(),
                index.wf(),
                (IndexV { keys: index.keys(), locs: index@ }) == opened_index(fs, i as int),
                forall|j: int| i <= j < n ==> (#[trigger] sorted@[j])@ == fs[j],
                forall|j: int|
                    0 <= j < i ==> (#[trigger] sorted@[j])@ == opened_file(fs[j], j + 1 == n),
            decreases n - i,
        {
            let id = sorted[i].id;
            assert(sorted@[i as int]@ == fs[i as int]);
            if i == n - 1 {
                let (end, records) = scan_segment(&sorted[i].data);
                add_all(&mut index, id, &records);
                sorted[i].data.truncate(end);
                assert(sorted@[i as int]@ =~= opened_file(fs[i as int], true));
            } else {
                let loaded = match &sorted[i].sidecar {
                    Some(b) => load_idx(b),
                    None => None,
                };
                match loaded {
                    Some(records) => {
                        add_all(&mut index, id, &records);
                        assert(sorted@[i as int]@ =~= opened_file(fs[i as int], false));
                    },
                    None => {
                        let (_, records) = scan_segment(&sorted[i].data);
                        add_all(&mut index, id, &records);
                        let ghost es = entries_of(records@);
                        let healed = write_idx(&records);
                        proof {
                            assert(forall|k: int|
                                0 <= k < es.len() ==> (#[trigger] es[k]).0 == records@[k].0@);
                            if healed is None {
                                let k = choose|k: int|
                                    0 <= k < records@.len() && !indexable(
                                        (#[trigger] records@[k]).0@,
                                    );
                                assert(!indexable(es[k].0));
                            }
                        }
                        if let Some(b) = healed {
                            sorted[i].sidecar = Some(b);
                        }
                        assert(sorted@[i as int]@ =~= opened_file(fs[i as int], false));
                    },
                }
            }
            i = i + 1;
        }
        let r = SegmentStore { files: sorted, index, max_segment_bytes };
        assert(r@.files =~= opened(fs, max_segment_bytes).files);
        assert(r@ =~= opened(fs, max_segment_bytes));
        proof {
            lemma_opened_framed(fs, max_segment_bytes);
        }
        r
    }
}

/// Whether the numbers of segments ascend, and no place of the index is behind
/// the end of the last segment: what is appended there stands in no place that
/// is taken.
pub open spec fn framed(v: SegV) -> bool {
    &&& v.files.len() > 0
    &&& ids_ascend(v.files)
    &&& forall|k: Seq<char>| #[trigger]
        v.index.locs.contains_key(k) ==> v.index.locs[k].segment_id <= v.files.last().id && (
        v.index.locs[k].segment_id == v.files.last().id ==> v.index.locs[k].offset
            + v.index.locs[k].len <= v.files.last().data.len())
}

proof fn lemma_placed_ascend(fs: Seq<FileV>, f: FileV)
    requires
        ids_ascend(fs),
    ensures
        ids_ascend(placed(fs, f)),
        fs.len() > 0 && f.id <= fs.last().id ==> placed(fs, f).last().id == fs.last().id,
        fs.len() > 0 ==> placed(fs, f).len() > 0,
        forall|i: int|
            0 <= i < placed(fs, f).len() ==> (#[trigger] placed(fs, f)[i]).id == f.id || exists|j: int|
                0 <= j < fs.len() && (#[trigger] fs[j]).id == placed(fs, f)[i].id,
    decreases fs.len(),
{
    let w = placed(fs, f);
    if fs.len() == 0 {
    } else if fs.last().id < f.id {
        assert forall|i: int, j: int| 0 <= i < j < w.len() implies (#[trigger] w[i]).id < (
        #[trigger] w[j]).id by {
            if j == fs.len() && i < fs.len() - 1 {
                assert(fs[i].id < fs[fs.len() - 1].id);
            }
        }
        assert forall|i: int| 0 <= i < w.len() implies (#[trigger] w[i]).id == f.id || exists|j: int|
            0 <= j < fs.len() && (#[trigger] fs[j]).id == w[i].id by {
            if i < fs.len() {
                assert(fs[i].id == w[i].id);
            }
        }
    } else if fs.last().id == f.id {
        assert forall|i: int| 0 <= i < w.len() implies (#[trigger] w[i]).id == f.id || exists|j: int|
            0 <= j < fs.len() && (#[trigger] fs[j]).id == w[i].id by {
            assert(fs[i].id == w[i].id);
        }
    } else {
        let head = fs.drop_last();
        assert forall|a: int, b: int| 0 <= a < b < head.len() implies (#[trigger] head[a]).id < (
        #[trigger] head[b]).id by {
            assert(head[a] == fs[a] && head[b] == fs[b]);
        }
        lemma_placed_ascend(head, f);
        let front = placed(head, f);
        assert forall|i: int| 0 <= i < front.len() implies (#[trigger] front[i]).id < fs.last().id by {
            if front[i].id != f.id {
                let j = choose|j: int| 0 <= j < head.len() && (#[trigger] head[j]).id == front[i].id;
                assert(fs[j].id < fs[fs.len() - 1].id);
            }
        }
        assert forall|i: int| 0 <= i < w.len() implies (#[trigger] w[i]).id == f.id || exists|j: int|
            0 <= j < fs.len() && (#[trigger] fs[j]).id == w[i].id by {
            if i < front.len() {
                if front[i].id != f.id {
                    let j = choose|j: int|
                        0 <= j < head.len() && (#[trigger] head[j]).id == front[i].id;
                    assert(fs[j].id == w[i].id);
                }
            } else {
                assert(fs[fs.len() - 1].id == w[i].id);
            }
        }
    }
}

/// Segments that are arranged have ascending numbers.
pub proof fn lemma_arranged_ascend(fs: Seq<FileV>)
    ensures
        ids_ascend(arranged(fs)),
    decreases fs.len(),
{
    if fs.len() > 0 {
        lemma_arranged_ascend(fs.drop_last());
        lemma_placed_ascend(arranged(fs.drop_last()), fs.last());
    }
}

/// A record that a scan finds ends before the scan does.
pub(crate) proof fn lemma_scan_within(data: Seq<u8>, pos: int, j: int)
    requires
        0 <= pos,
        data.len() <= u64::MAX,
        0 <= j < scan(data, pos).len(),
    ensures
        scan(data, pos)[j].1 + scan(data, pos)[j].2 <= scan_end(data, pos),
    decreases data.len() - pos,
{
    let next = pos + 4 + declared_len(data, pos);
    if j == 0 {
        lemma_scan_end(data, next);
    } else {
        lemma_scan_within(data, next, j - 1);
    }
}

proof fn lemma_opened_places(fs: Seq<FileV>, n: int)
    requires
        ids_ascend(fs),
        0 <= n <= fs.len(),
        fs.len() > 0 ==> fs.last().data.len() <= u64::MAX,
    ensures
        index_wf(opened_index(fs, n)),
        forall|k: Seq<char>| #[trigger]
            opened_index(fs, n).locs.contains_key(k) ==> {
                let loc = opened_index(fs, n).locs[k];
                &&& loc.segment_id <= fs[n - 1].id
                &&& n == fs.len() && loc.segment_id == fs[n - 1].id ==> loc.offset + loc.len
                    <= scan_end(fs[n - 1].data, 0)
            },
    decreases n,
{
    if n > 0 {
        lemma_opened_places(fs, n - 1);
        let before = opened_index(fs, n - 1);
        let w = opened_index(fs, n);
        let f = fs[n - 1];
        let es = file_entries(f, n == fs.len());
        lemma_index_add_all(before, f.id, es);
        assert forall|k: Seq<char>| #[trigger] w.locs.contains_key(k) implies {
            let loc = w.locs[k];
            &&& loc.segment_id <= f.id
            &&& n == fs.len() && loc.segment_id == f.id ==> loc.offset + loc.len <= scan_end(
                f.data,
                0,
            )
        } by {
            if lists(es, k) {
                let j = choose|j: int|
                    0 <= j < es.len() && (#[trigger] es[j]).0 == k && w.locs[k] == (
                    SegmentLocation { segment_id: f.id, offset: es[j].1, len: es[j].2 });
                if n == fs.len() {
                    lemma_scan_within(f.data, 0, j);
                }
            } else {
                assert(before.locs.contains_key(k));
                assert(w.locs[k] == before.locs[k]);
                assert(fs[n - 2].id < fs[n - 1].id);
            }
        }
    }
}

/// A store that is opened over segments, whatever they hold, is framed.
pub proof fn lemma_opened_framed(fs: Seq<FileV>, max: u64)
    requires
        ids_ascend(fs),
        fs.len() > 0 ==> fs.last().data.len() <= u64::MAX,
    ensures
        framed(opened(fs, max)),
{
    let w = opened(fs, max);
    let n = fs.len() as int;
    lemma_opened_places(fs, n);
    if n > 0 {
        lemma_scan_end(fs[n - 1].data, 0);
        assert forall|i: int, j: int| 0 <= i < j < w.files.len() implies (#[trigger] w.files[i]).id
            < (#[trigger] w.files[j]).id by {
            assert(fs[i].id < fs[j].id);
        }
        assert(w.files.last() == opened_file(fs[n - 1], true));
    }
}

/// Whether every content that the index has a place for can be read back.
pub open spec fn sound(v: SegV) -> bool {
    &&& v.files.len() > 0
    &&& ids_ascend(v.files)
    &&& forall|k: Seq<char>| #[trigger]
        v.index.locs.contains_key(k) ==> found(v, k) is Content
}

proof fn lemma_data_of_id(fs: Seq<FileV>, id: u32)
    requires
        ids_ascend(fs),
        data_of(fs, id) is Some,
    ensures
        exists|i: int|
            0 <= i < fs.len() && (#[trigger] fs[i]).id == id && data_of(fs, id) == Some(fs[i].data),
        fs.len() > 0,
        id <= fs.last().id,
    decreases fs.len(),
{
    if fs.last().id == id {
        assert(fs[fs.len() - 1].id == id);
    } else {
        let head = fs.drop_last();
        assert forall|i: int, j: int| 0 <= i < j < head.len() implies (#[trigger] head[i]).id < (
        #[trigger] head[j]).id by {
            assert(head[i] == fs[i] && head[j] == fs[j]);
        }
        lemma_data_of_id(head, id);
        let i = choose|i: int|
            0 <= i < head.len() && (#[trigger] head[i]).id == id && data_of(head, id) == Some(
                head[i].data,
            );
        assert(fs[i].id == id);
        assert(fs[i].id < fs[fs.len() - 1].id);
    }
}

pub(crate) proof fn lemma_data_of(fs: Seq<FileV>, i: int)
    requires
        ids_ascend(fs),
        0 <= i < fs.len(),
    ensures
        data_of(fs, fs[i].id) == Some(fs[i].data),
    decreases fs.len(),
{
    if i < fs.len() - 1 {
        assert(fs[i].id < fs[fs.len() - 1].id);
        let head = fs.drop_last();
        assert forall|a: int, b: int| 0 <= a < b < head.len() implies (#[trigger] head[a]).id < (
        #[trigger] head[b]).id by {
            assert(head[a] == fs[a] && head[b] == fs[b]);
        }
        assert(head[i] == fs[i]);
        lemma_data_of(head, i);
    }
}

/// Sealing the last segment leaves every content where it was.
pub proof fn lemma_sealed(v: SegV)
    requires
        framed(v),
        v.files.last().id < u32::MAX,
    ensures
        framed(sealed(v)),
        sound(v) ==> sound(sealed(v)),
        forall|k: Seq<char>| #[trigger] found(sealed(v), k) == found(v, k),
{
    let w = sealed(v);
    let last = v.files.last();
    let n = v.files.len() as int;
    assert forall|i: int, j: int| 0 <= i < j < w.files.len() implies (#[trigger] w.files[i]).id < (
    #[trigger] w.files[j]).id by {
        if j < n {
            assert(v.files[i].id < v.files[j].id);
        } else if i < n - 1 {
            assert(v.files[i].id < v.files[n - 1].id);
        }
    }
    assert forall|k: Seq<char>| #[trigger] found(w, k) == found(v, k) by {
        if v.index.locs.contains_key(k) {
            let id = v.index.locs[k].segment_id;
            assert(id <= last.id);
            assert(w.files.drop_last().last().id == last.id);
            assert(w.files.drop_last().drop_last() =~= v.files.drop_last());
            reveal_with_fuel(data_of, 3);
            assert(data_of(w.files, id) == data_of(v.files, id));
        }
    }
    if sound(v) {
        assert forall|k: Seq<char>| #[trigger] w.index.locs.contains_key(k) implies found(
            w,
            k,
        ) is Content by {
            assert(found(w, k) == found(v, k));
        }
    }
}

/// A store that a record was appended to is framed.
proof fn lemma_appended_framed(v: SegV, hash: Seq<char>, content: Seq<u8>)
    requires
        framed(v),
        content.len() <= u32::MAX,
        v.files.last().data.len() + 4 + content.len() <= u64::MAX,
    ensures
        framed(appended(v, hash, content)),
{
    let w = appended(v, hash, content);
    lemma_auto_spec_u32_to_from_le_bytes();
    assert forall|i: int, j: int| 0 <= i < j < w.files.len() implies (#[trigger] w.files[i]).id < (
    #[trigger] w.files[j]).id by {
        assert(v.files[i].id < v.files[j].id);
    }
    assert(w.files.last().data.len() == v.files.last().data.len() + 4 + content.len());
    assert forall|k: Seq<char>| #[trigger] w.index.locs.contains_key(k) implies w.index.locs[k].segment_id
        <= w.files.last().id && (w.index.locs[k].segment_id == w.files.last().id
        ==> w.index.locs[k].offset + w.index.locs[k].len <= w.files.last().data.len()) by {
        if k != hash {
            assert(v.index.locs.contains_key(k));
        }
    }
}

/// A content that was stored is read back, and the others are as they were.
pub proof fn lemma_appended(v: SegV, hash: Seq<char>, content: Seq<u8>)
    requires
        framed(v),
        hash == content_hash(content),
        content.len() <= u32::MAX,
        v.files.last().data.len() + 4 <= u64::MAX,
        !v.index.locs.contains_key(hash),
    ensures
        sound(v) ==> sound(appended(v, hash, content)),
        found(appended(v, hash, content), hash) == Found::Content(content),
        forall|k: Seq<char>|
            k != hash ==> #[trigger] found(appended(v, hash, content), k) == found(v, k),
{
    let w = appended(v, hash, content);
    let last = v.files.last();
    let n = v.files.len() as int;
    assert forall|i: int, j: int| 0 <= i < j < w.files.len() implies (#[trigger] w.files[i]).id < (
    #[trigger] w.files[j]).id by {
        assert(v.files[i].id < v.files[j].id);
    }
    assert(w.files.drop_last() =~= v.files.drop_last());
    lemma_auto_spec_u32_to_from_le_bytes();
    assert(found(w, hash) == Found::Content(content)) by {
        let data = w.files.last().data;
        let from = last.data.len() as int + 4;
        assert(data_of(w.files, last.id) == Some(data));
        assert(data.subrange(from, from + content.len()) =~= content);
    }
    assert forall|k: Seq<char>| k != hash implies #[trigger] found(w, k) == found(v, k) by {
        if v.index.locs.contains_key(k) {
            let loc = v.index.locs[k];
            if loc.segment_id == last.id {
                let a = last.data;
                let b = w.files.last().data;
                assert(a.subrange(loc.offset as int, loc.offset + loc.len) =~= b.subrange(
                    loc.offset as int,
                    loc.offset + loc.len,
                ));
            }
        }
    }
    if sound(v) {
        assert forall|k: Seq<char>| #[trigger] w.index.locs.contains_key(k) implies found(
            w,
            k,
        ) is Content by {
            if k != hash {
                assert(found(w, k) == found(v, k));
            }
        }
    }
}

/// Storing a content under its hash: it is read back afterwards, unless
/// another content with the same hash was there before it, and what other
/// hashes give is as it was.
pub proof fn lemma_put(v: SegV, hash: Seq<char>, content: Seq<u8>, w: SegV)
    requires
        framed(v),
        hash == content_hash(content),
        w.files.last().data.len() <= u64::MAX,
        put_result(v, hash, content) == Ok::<SegV, SegmentError>(w),
    ensures
        stored(v, hash, content, w),
{
    if !v.index.locs.contains_key(hash) {
        lemma_auto_spec_u32_to_from_le_bytes();
        if needs_roll(v, content.len() as int) {
            lemma_sealed(v);
            lemma_appended(sealed(v), hash, content);
            assert forall|k: Seq<char>| k != hash implies #[trigger] found(w, k) == found(v, k) by {
                assert(found(sealed(v), k) == found(v, k));
            }
        } else {
            lemma_appended(v, hash, content);
        }
    }
}

/// Storing what is stored already changes nothing.
pub proof fn lemma_put_idempotent(v: SegV, hash: Seq<char>, content: Seq<u8>, w: SegV)
    requires
        put_result(v, hash, content) == Ok::<SegV, SegmentError>(w),
    ensures
        put_result(w, hash, content) == Ok::<SegV, SegmentError>(w),
{
}

/// Whether a segment is made of whole records.
pub open spec fn whole(f: FileV) -> bool {
    scan_end(f.data, 0) == f.data.len() && f.data.len() <= u64::MAX
}

/// Whether a record of a segment stands behind a place of the index.
pub open spec fn backed(v: SegV, k: Seq<char>, i: int) -> bool {
    let loc = v.index.locs[k];
    &&& 0 <= i < v.files.len()
    &&& v.files[i].id == loc.segment_id
    &&& scan(v.files[i].data, 0).contains((k, loc.offset, loc.len))
}

/// Whether the index has exactly the record, in the `i`th segment.
pub open spec fn indexed(v: SegV, i: int, e: Entry) -> bool {
    &&& v.index.locs.contains_key(e.0)
    &&& v.index.locs[e.0] == (SegmentLocation {
        segment_id: v.files[i].id,
        offset: e.1,
        len: e.2,
    })
}

/// Whether two lists hold the same records, in whatever order.
pub open spec fn same_entries(a: Seq<Entry>, b: Seq<Entry>) -> bool {
    forall|e: Entry| #[trigger] a.contains(e) <==> b.contains(e)
}

/// Whether the segments, their sidecars and the index agree: every segment is
/// made of whole records, the index has each record once and nothing else, and
/// each sealed segment has a sidecar that lists its records.
pub open spec fn coherent(v: SegV) -> bool {
    &&& v.files.len() > 0
    &&& ids_ascend(v.files)
    &&& forall|i: int| 0 <= i < v.files.len() ==> whole(#[trigger] v.files[i])
    &&& forall|k: Seq<char>| #[trigger]
        v.index.locs.contains_key(k) ==> indexable(k) && exists|i: int| backed(v, k, i)
    &&& forall|i: int, j: int|
        0 <= i < v.files.len() && 0 <= j < scan(v.files[i].data, 0).len() ==> indexed(
            v,
            i,
            #[trigger] scan(v.files[i].data, 0)[j],
        )
    &&& forall|i: int|
        0 <= i < v.files.len() - 1 ==> sidecar_entries(#[trigger] v.files[i]) is Some
            && same_entries(sidecar_entries(v.files[i])->0, scan(v.files[i].data, 0))
    &&& v.index.keys.no_duplicates()
    &&& forall|k: Seq<char>| #[trigger]
        v.index.locs.contains_key(k) <==> v.index.keys.contains(k)
}

/// A record that a scan finds lies inside the segment and has the hash of its
/// content.
pub proof fn lemma_scan_entry(data: Seq<u8>, pos: int, j: int)
    requires
        0 <= pos,
        data.len() <= u64::MAX,
        0 <= j < scan(data, pos).len(),
    ensures
        ({
            let e = scan(data, pos)[j];
            &&& pos + 4 <= e.1
            &&& e.1 + e.2 <= data.len()
            &&& content_hash(data.subrange(e.1 as int, e.1 + e.2)) == e.0
            &&& hex(unhex(e.0)) == e.0
        }),
    decreases data.len() - pos,
{
    let next = pos + 4 + declared_len(data, pos);
    if j == 0 {
        crate::digest::lemma_unhex_hex(digest(record_content(data, pos)));
    } else {
        lemma_scan_entry(data, next, j - 1);
    }
}

/// Where segments, sidecars and index agree, every content can be read back.
pub proof fn lemma_coherent_sound(v: SegV)
    requires
        coherent(v),
    ensures
        sound(v),
        framed(v),
{
    assert forall|k: Seq<char>| #[trigger] v.index.locs.contains_key(k) implies v.index.locs[k].segment_id
        <= v.files.last().id && (v.index.locs[k].segment_id == v.files.last().id
        ==> v.index.locs[k].offset + v.index.locs[k].len <= v.files.last().data.len()) by {
        let i = choose|i: int| backed(v, k, i);
        let loc = v.index.locs[k];
        let es = scan(v.files[i].data, 0);
        let j = choose|j: int| 0 <= j < es.len() && es[j] == (k, loc.offset, loc.len);
        assert(whole(v.files[i]));
        lemma_scan_entry(v.files[i].data, 0, j);
        if i < v.files.len() - 1 {
            assert(v.files[i].id < v.files[v.files.len() - 1].id);
        }
    }
    assert forall|k: Seq<char>| #[trigger] v.index.locs.contains_key(k) implies found(
        v,
        k,
    ) is Content by {
        let i = choose|i: int| backed(v, k, i);
        let loc = v.index.locs[k];
        let es = scan(v.files[i].data, 0);
        let j = choose|j: int| 0 <= j < es.len() && es[j] == (k, loc.offset, loc.len);
        assert(whole(v.files[i]));
        lemma_scan_entry(v.files[i].data, 0, j);
        lemma_data_of(v.files, i);
    }
}

proof fn lemma_entries_for(ix: IndexV, id: u32, n: int)
    requires
        0 <= n <= ix.keys.len(),
    ensures
        forall|e: Entry| #[trigger]
            entries_for(ix, id, n).contains(e) <==> exists|m: int|
                0 <= m < n && #[trigger] ix.keys[m] == e.0 && ix.locs[e.0] == (SegmentLocation {
                    segment_id: id,
                    offset: e.1,
                    len: e.2,
                }),
    decreases n,
{
    if n > 0 {
        lemma_entries_for(ix, id, n - 1);
        let k = ix.keys[n - 1];
        let before = entries_for(ix, id, n - 1);
        let all = entries_for(ix, id, n);
        let mine = (k, ix.locs[k].offset, ix.locs[k].len);
        assert forall|e: Entry| #[trigger] all.contains(e) implies exists|m: int|
            0 <= m < n && #[trigger] ix.keys[m] == e.0 && ix.locs[e.0] == (SegmentLocation {
                segment_id: id,
                offset: e.1,
                len: e.2,
            }) by {
            let j = choose|j: int| 0 <= j < all.len() && all[j] == e;
            if j < before.len() {
                assert(before[j] == e);
                assert(before.contains(e));
                let m = choose|m: int|
                    0 <= m < n - 1 && #[trigger] ix.keys[m] == e.0 && ix.locs[e.0] == (
                    SegmentLocation { segment_id: id, offset: e.1, len: e.2 });
                assert(ix.keys[m] == e.0);
            } else {
                assert(ix.keys[n - 1] == e.0);
            }
        }
        assert forall|e: Entry|
            (exists|m: int|
                0 <= m < n && #[trigger] ix.keys[m] == e.0 && ix.locs[e.0] == (SegmentLocation {
                    segment_id: id,
                    offset: e.1,
                    len: e.2,
                })) implies #[trigger] all.contains(e) by {
            let m = choose|m: int|
                0 <= m < n && #[trigger] ix.keys[m] == e.0 && ix.locs[e.0] == (SegmentLocation {
                    segment_id: id,
                    offset: e.1,
                    len: e.2,
                });
            if m < n - 1 {
                assert(before.contains(e));
                let j = choose|j: int| 0 <= j < before.len() && before[j] == e;
                assert(all[j] == e);
            } else {
                assert(e == mine);
                assert(all.last() == e);
                assert(all[all.len() - 1] == e);
            }
        }
    }
}

/// The records that the index has in the `i`th segment are the records in it.
proof fn lemma_coherent_entries(v: SegV, i: int)
    requires
        coherent(v),
        0 <= i < v.files.len(),
    ensures
        same_entries(
            entries_for(v.index, v.files[i].id, v.index.keys.len() as int),
            scan(v.files[i].data, 0),
        ),
{
    let id = v.files[i].id;
    let n = v.index.keys.len() as int;
    let es = entries_for(v.index, id, n);
    let rs = scan(v.files[i].data, 0);
    lemma_entries_for(v.index, id, n);
    assert forall|e: Entry| #[trigger] es.contains(e) <==> rs.contains(e) by {
        if es.contains(e) {
            let m = choose|m: int|
                0 <= m < n && #[trigger] v.index.keys[m] == e.0 && v.index.locs[e.0] == (
                SegmentLocation { segment_id: id, offset: e.1, len: e.2 });
            assert(v.index.keys.contains(e.0));
            assert(v.index.locs.contains_key(e.0));
            let b = choose|b: int| backed(v, e.0, b);
            if b < i {
                assert(v.files[b].id < v.files[i].id);
            } else if i < b {
                assert(v.files[i].id < v.files[b].id);
            }
        }
        if rs.contains(e) {
            let j = choose|j: int| 0 <= j < rs.len() && rs[j] == e;
            assert(indexed(v, i, scan(v.files[i].data, 0)[j]));
            assert(v.index.keys.contains(e.0));
            let m = choose|m: int| 0 <= m < n && v.index.keys[m] == e.0;
            assert(v.index.keys[m] == e.0);
        }
    }
}

/// Sealing keeps the agreement, once the sidecar that was written can be read.
proof fn lemma_sealed_coherent(v: SegV)
    requires
        coherent(v),
        v.files.last().id < u32::MAX,
        ({
            let es = entries_for(v.index, v.files.last().id, v.index.keys.len() as int);
            all_indexable(es) && idx_entries(idx_bytes(es)) == Some(es)
        }),
    ensures
        coherent(sealed(v)),
{
    let w = sealed(v);
    let n = v.files.len() as int;
    lemma_coherent_entries(v, n - 1);
    assert forall|i: int, j: int| 0 <= i < j < w.files.len() implies (#[trigger] w.files[i]).id < (
    #[trigger] w.files[j]).id by {
        if j < n {
            assert(v.files[i].id < v.files[j].id);
        } else if i < n - 1 {
            assert(v.files[i].id < v.files[n - 1].id);
        }
    }
    assert(forall|i: int| 0 <= i < n - 1 ==> w.files[i] == v.files[i]);
    assert(w.files[n - 1].data == v.files[n - 1].data);
    assert forall|i: int| 0 <= i < w.files.len() implies whole(#[trigger] w.files[i]) by {
        if i < n {
            assert(whole(v.files[i]));
        }
    }
    assert forall|k: Seq<char>| #[trigger] w.index.locs.contains_key(k) implies indexable(k)
        && exists|i: int| backed(w, k, i) by {
        let i = choose|i: int| backed(v, k, i);
        assert(backed(w, k, i));
    }
    assert forall|i: int, j: int|
        0 <= i < w.files.len() && 0 <= j < scan(w.files[i].data, 0).len() implies indexed(
        w,
        i,
        #[trigger] scan(w.files[i].data, 0)[j],
    ) by {
        if i < n {
            assert(indexed(v, i, scan(v.files[i].data, 0)[j]));
        }
    }
    assert forall|i: int| 0 <= i < w.files.len() - 1 implies sidecar_entries(
        #[trigger] w.files[i],
    ) is Some && same_entries(sidecar_entries(w.files[i])->0, scan(w.files[i].data, 0)) by {
        if i < n - 1 {
            assert(sidecar_entries(v.files[i]) is Some);
        }
    }
}

/// Appending a record under the hash of its content keeps the agreement.
proof fn lemma_appended_coherent(v: SegV, hash: Seq<char>, content: Seq<u8>)
    requires
        coherent(v),
        hash == content_hash(content),
        indexable(hash),
        content.len() <= u32::MAX,
        (v.files.last().data + record(content)).len() <= u64::MAX,
        !v.index.locs.contains_key(hash),
    ensures
        coherent(appended(v, hash, content)),
{
    let w = appended(v, hash, content);
    let n = v.files.len() as int;
    let last = v.files[n - 1];
    assert(whole(last));
    lemma_scan_append(last.data, content);
    let e = (hash, (last.data.len() + 4) as u64, content.len() as u32);
    assert(scan(w.files[n - 1].data, 0) == scan(last.data, 0).push(e));
    assert(!v.index.keys.contains(hash));
    assert(forall|i: int| 0 <= i < n - 1 ==> w.files[i] == v.files[i]);
    assert forall|i: int, j: int| 0 <= i < j < w.files.len() implies (#[trigger] w.files[i]).id < (
    #[trigger] w.files[j]).id by {
        assert(v.files[i].id < v.files[j].id);
    }
    assert forall|i: int| 0 <= i < w.files.len() implies whole(#[trigger] w.files[i]) by {
        if i < n - 1 {
            assert(whole(v.files[i]));
        }
    }
    assert forall|k: Seq<char>| #[trigger] w.index.locs.contains_key(k) implies indexable(k)
        && exists|i: int| backed(w, k, i) by {
        if k == hash {
            let es = scan(w.files[n - 1].data, 0);
            assert(es[es.len() - 1] == e);
            assert(backed(w, k, n - 1));
        } else {
            assert(v.index.locs.contains_key(k));
            let i = choose|i: int| backed(v, k, i);
            if i == n - 1 {
                let loc = v.index.locs[k];
                let es = scan(last.data, 0);
                let j = choose|j: int| 0 <= j < es.len() && es[j] == (k, loc.offset, loc.len);
                assert(scan(w.files[n - 1].data, 0)[j] == (k, loc.offset, loc.len));
            }
            assert(backed(w, k, i));
        }
    }
    assert forall|i: int, j: int|
        0 <= i < w.files.len() && 0 <= j < scan(w.files[i].data, 0).len() implies indexed(
        w,
        i,
        #[trigger] scan(w.files[i].data, 0)[j],
    ) by {
        if i < n - 1 || j < scan(last.data, 0).len() {
            let old_e = scan(v.files[i].data, 0)[j];
            assert(indexed(v, i, old_e));
            assert(scan(w.files[i].data, 0)[j] == old_e);
            assert(old_e.0 != hash);
        }
    }
    assert forall|i: int| 0 <= i < w.files.len() - 1 implies sidecar_entries(
        #[trigger] w.files[i],
    ) is Some && same_entries(sidecar_entries(w.files[i])->0, scan(w.files[i].data, 0)) by {
        assert(sidecar_entries(v.files[i]) is Some);
    }
    assert(w.index.keys =~= v.index.keys.push(hash));
    assert forall|k: Seq<char>| #[trigger] w.index.locs.contains_key(k) <==> w.index.keys.contains(
        k,
    ) by {
        if w.index.keys.contains(k) {
            let m = choose|m: int| 0 <= m < w.index.keys.len() && w.index.keys[m] == k;
            if m < v.index.keys.len() {
                assert(v.index.keys[m] == k);
                assert(v.index.keys.contains(k));
            }
        }
        if w.index.locs.contains_key(k) {
            if k == hash {
                assert(w.index.keys[v.index.keys.len() as int] == k);
            } else {
                assert(v.index.keys.contains(k));
                let m = choose|m: int| 0 <= m < v.index.keys.len() && v.index.keys[m] == k;
                assert(w.index.keys[m] == k);
            }
        }
    }
}

/// Whether a list has a record with this hash.
pub open spec fn lists(es: Seq<Entry>, k: Seq<char>) -> bool {
    exists|j: int| 0 <= j < es.len() && (#[trigger] es[j]).0 == k
}

/// Whether the hashes of an index are those that it has places for.
pub open spec fn index_wf(ix: IndexV) -> bool {
    &&& ix.keys.no_duplicates()
    &&& forall|k: Seq<char>| #[trigger] ix.locs.contains_key(k) <==> ix.keys.contains(k)
}

proof fn lemma_index_add(ix: IndexV, id: u32, e: Entry)
    requires
        index_wf(ix),
    ensures
        index_wf(index_add(ix, id, e)),
{
    let w = index_add(ix, id, e);
    if !ix.keys.contains(e.0) {
        assert(w.keys =~= ix.keys.push(e.0));
        assert(w.keys[ix.keys.len() as int] == e.0);
    }
    assert forall|k: Seq<char>| #[trigger] w.locs.contains_key(k) <==> w.keys.contains(k) by {
        if w.locs.contains_key(k) && k != e.0 {
            let m = choose|m: int| 0 <= m < ix.keys.len() && ix.keys[m] == k;
            assert(w.keys[m] == k);
        }
        if w.keys.contains(k) && k != e.0 {
            let m = choose|m: int| 0 <= m < w.keys.len() && w.keys[m] == k;
            assert(ix.keys[m] == k);
            assert(ix.keys.contains(k));
        }
    }
}

pub(crate) proof fn lemma_index_add_all(ix: IndexV, id: u32, es: Seq<Entry>)
    requires
        index_wf(ix),
    ensures
        index_wf(index_add_all(ix, id, es)),
        forall|k: Seq<char>| #[trigger]
            index_add_all(ix, id, es).locs.contains_key(k) <==> ix.locs.contains_key(k) || lists(
                es,
                k,
            ),
        forall|k: Seq<char>|
            !lists(es, k) && ix.locs.contains_key(k) ==> #[trigger] index_add_all(
                ix,
                id,
                es,
            ).locs[k] == ix.locs[k],
        forall|k: Seq<char>|
            lists(es, k) ==> exists|j: int|
                0 <= j < es.len() && (#[trigger] es[j]).0 == k && index_add_all(
                    ix,
                    id,
                    es,
                ).locs[k] == (SegmentLocation { segment_id: id, offset: es[j].1, len: es[j].2 }),
    decreases es.len(),
{
    if es.len() > 0 {
        let head = es.drop_last();
        let e = es.last();
        lemma_index_add_all(ix, id, head);
        lemma_index_add(index_add_all(ix, id, head), id, e);
        let w = index_add_all(ix, id, es);
        assert forall|k: Seq<char>| lists(es, k) <==> k == e.0 || lists(head, k) by {
            if lists(es, k) && k != e.0 {
                let j = choose|j: int| 0 <= j < es.len() && (#[trigger] es[j]).0 == k;
                assert(head[j].0 == k);
            }
            if lists(head, k) {
                let j = choose|j: int| 0 <= j < head.len() && (#[trigger] head[j]).0 == k;
                assert(es[j].0 == k);
            }
            if k == e.0 {
                assert(es[es.len() - 1].0 == k);
            }
        }
        assert forall|k: Seq<char>| lists(es, k) implies exists|j: int|
            0 <= j < es.len() && (#[trigger] es[j]).0 == k && w.locs[k] == (SegmentLocation {
                segment_id: id,
                offset: es[j].1,
                len: es[j].2,
            }) by {
            if k == e.0 {
                assert(es[es.len() - 1].0 == k);
            } else {
                assert(lists(head, k));
                let j = choose|j: int|
                    0 <= j < head.len() && (#[trigger] head[j]).0 == k && index_add_all(
                        ix,
                        id,
                        head,
                    ).locs[k] == (SegmentLocation {
                        segment_id: id,
                        offset: head[j].1,
                        len: head[j].2,
                    });
                assert(es[j].0 == k);
            }
        }
    }
}

/// Whether a segment as it is found when a store is opened is still good for
/// the one that was left: what was appended to the last one is cut off, and a
/// sidecar may be lost.
pub open spec fn survives(f: FileV, g: FileV, last: bool) -> bool {
    &&& g.id == f.id
    &&& if last {
        &&& f.data.len() <= g.data.len() <= u64::MAX
        &&& g.data.take(f.data.len() as int) == f.data
        &&& !has_record(g.data, f.data.len() as int)
    } else {
        g.data == f.data && (sidecar_entries(g) is None || g.sidecar == f.sidecar)
    }
}

/// Whether segments as they are found are still good for those of a store.
pub open spec fn all_survive(v: SegV, fs: Seq<FileV>) -> bool {
    &&& fs.len() == v.files.len()
    &&& forall|i: int|
        0 <= i < fs.len() ==> survives(v.files[i], #[trigger] fs[i], i + 1 == fs.len())
}

proof fn lemma_survives(f: FileV, g: FileV, last: bool)
    requires
        whole(f),
        survives(f, g, last),
    ensures
        scan(g.data, 0) == scan(f.data, 0),
        scan_end(g.data, 0) == f.data.len(),
        last ==> opened_file(g, true).data == f.data,
{
    if last {
        let torn = g.data.skip(f.data.len() as int);
        assert(f.data + torn =~= g.data);
        lemma_torn_tail(f.data, torn);
    }
}

proof fn lemma_opened_index(v: SegV, fs: Seq<FileV>, n: int)
    requires
        coherent(v),
        all_survive(v, fs),
        0 <= n <= v.files.len(),
    ensures
        index_wf(opened_index(fs, n)),
        forall|k: Seq<char>| #[trigger]
            opened_index(fs, n).locs.contains_key(k) <==> v.index.locs.contains_key(k) && exists|
                i: int,
            | i < n && backed(v, k, i),
        forall|k: Seq<char>| #[trigger]
            opened_index(fs, n).locs.contains_key(k) ==> opened_index(fs, n).locs[k]
                == v.index.locs[k],
    decreases n,
{
    if n > 0 {
        lemma_opened_index(v, fs, n - 1);
        let before = opened_index(fs, n - 1);
        let f = v.files[n - 1];
        let rs = scan(f.data, 0);
        let es = file_entries(fs[n - 1], n == fs.len());
        assert(whole(v.files[n - 1]));
        lemma_survives(f, fs[n - 1], n == fs.len());
        let w = opened_index(fs, n);
        assert(same_entries(es, rs)) by {
            if n < v.files.len() {
                assert(sidecar_entries(v.files[n - 1]) is Some);
            }
        }
        lemma_index_add_all(before, f.id, es);
        assert forall|j: int| 0 <= j < es.len() implies indexed(v, n - 1, #[trigger] es[j])
            && backed(v, es[j].0, n - 1) by {
            assert(es.contains(es[j]));
            assert(rs.contains(es[j]));
            let m = choose|m: int| 0 <= m < rs.len() && rs[m] == es[j];
            assert(indexed(v, n - 1, scan(v.files[n - 1].data, 0)[m]));
        }
        assert forall|k: Seq<char>| #[trigger]
            w.locs.contains_key(k) <==> v.index.locs.contains_key(k) && exists|i: int|
                i < n && backed(v, k, i) by {
            if v.index.locs.contains_key(k) && (exists|i: int| i < n && backed(v, k, i)) {
                let i = choose|i: int| i < n && backed(v, k, i);
                if i == n - 1 {
                    let loc = v.index.locs[k];
                    assert(es.contains((k, loc.offset, loc.len)));
                    let j = choose|j: int| 0 <= j < es.len() && es[j] == (k, loc.offset, loc.len);
                    assert(es[j].0 == k);
                    assert(lists(es, k));
                } else {
                    assert(i < n - 1 && backed(v, k, i));
                    assert(before.locs.contains_key(k));
                }
            }
            if w.locs.contains_key(k) {
                if lists(es, k) {
                    let j = choose|j: int| 0 <= j < es.len() && (#[trigger] es[j]).0 == k;
                    assert(indexed(v, n - 1, es[j]));
                    assert(n - 1 < n && backed(v, k, n - 1));
                } else {
                    assert(before.locs.contains_key(k));
                    let i = choose|i: int| i < n - 1 && backed(v, k, i);
                    assert(i < n && backed(v, k, i));
                }
            }
        }
        assert forall|k: Seq<char>| #[trigger] w.locs.contains_key(k) implies w.locs[k]
            == v.index.locs[k] by {
            if lists(es, k) {
                let j = choose|j: int|
                    0 <= j < es.len() && (#[trigger] es[j]).0 == k && w.locs[k] == (
                    SegmentLocation { segment_id: f.id, offset: es[j].1, len: es[j].2 });
                assert(indexed(v, n - 1, es[j]));
            } else {
                assert(before.locs.contains_key(k));
            }
        }
    }
}

pub(crate) proof fn lemma_arranged(fs: Seq<FileV>)
    requires
        ids_ascend(fs),
    ensures
        arranged(fs) == fs,
    decreases fs.len(),
{
    if fs.len() > 0 {
        let head = fs.drop_last();
        assert forall|a: int, b: int| 0 <= a < b < head.len() implies (#[trigger] head[a]).id < (
        #[trigger] head[b]).id by {
            assert(head[a] == fs[a] && head[b] == fs[b]);
        }
        lemma_arranged(head);
        if head.len() > 0 {
            assert(fs[fs.len() - 2].id < fs[fs.len() - 1].id);
        }
        assert(head.push(fs.last()) =~= fs);
    } else {
        assert(arranged(fs) =~= fs);
    }
}

/// A store comes back after a crash: where all but the last segment are as
/// they were, the last one has at most a torn record behind what it held, and
/// sidecars may be lost or broken, opening the segments gives a store with the
/// same places and the same contents.
pub proof fn lemma_recovery(v: SegV, fs: Seq<FileV>, max: u64)
    requires
        coherent(v),
        all_survive(v, fs),
    ensures
        coherent(opened(arranged(fs), max)),
        opened(arranged(fs), max).index.locs == v.index.locs,
        forall|k: Seq<char>| #[trigger] found(opened(arranged(fs), max), k) == found(v, k),
{
    assert forall|i: int, j: int| 0 <= i < j < fs.len() implies (#[trigger] fs[i]).id < (
    #[trigger] fs[j]).id by {
        assert(v.files[i].id < v.files[j].id);
    }
    lemma_arranged(fs);
    let n = v.files.len() as int;
    let w = opened(fs, max);
    lemma_opened_index(v, fs, n);
    assert forall|i: int| 0 <= i < n implies (#[trigger] w.files[i]).id == v.files[i].id
        && w.files[i].data == v.files[i].data && whole(w.files[i]) && (i + 1 < n
        ==> sidecar_entries(w.files[i]) is Some && same_entries(
        sidecar_entries(w.files[i])->0,
        scan(w.files[i].data, 0),
    )) by {
        let f = v.files[i];
        let g = fs[i];
        let rs = scan(f.data, 0);
        assert(whole(v.files[i]));
        assert(survives(v.files[i], fs[i], i + 1 == fs.len()));
        lemma_survives(f, g, i + 1 == fs.len());
        if i + 1 < n {
            assert(sidecar_entries(v.files[i]) is Some);
            if sidecar_entries(g) is None {
                assert forall|j: int| 0 <= j < rs.len() implies indexable((#[trigger] rs[j]).0)
                    && hex(unhex(rs[j].0)) == rs[j].0 by {
                    assert(indexed(v, i, scan(v.files[i].data, 0)[j]));
                    lemma_scan_entry(f.data, 0, j);
                }
                lemma_scan_len(f.data, 0);
                lemma_idx_round_trip(rs);
            }
        }
    }
    assert forall|k: Seq<char>| #[trigger] w.index.locs.contains_key(k) <==> v.index.locs.contains_key(
        k,
    ) by {
        if v.index.locs.contains_key(k) {
            let i = choose|i: int| backed(v, k, i);
            assert(i < n && backed(v, k, i));
        }
    }
    assert(w.index.locs =~= v.index.locs);
    assert forall|k: Seq<char>| #[trigger] w.index.locs.contains_key(k) implies indexable(k)
        && exists|i: int| backed(w, k, i) by {
        let i = choose|i: int| backed(v, k, i);
        assert(w.files[i].id == v.files[i].id);
        assert(backed(w, k, i));
    }
    assert forall|i: int, j: int|
        0 <= i < w.files.len() && 0 <= j < scan(w.files[i].data, 0).len() implies indexed(
        w,
        i,
        #[trigger] scan(w.files[i].data, 0)[j],
    ) by {
        assert(indexed(v, i, scan(v.files[i].data, 0)[j]));
    }
    assert forall|i: int, j: int| 0 <= i < j < w.files.len() implies (#[trigger] w.files[i]).id < (
    #[trigger] w.files[j]).id by {
        assert(v.files[i].id < v.files[j].id);
    }
    assert forall|k: Seq<char>| #[trigger] found(w, k) == found(v, k) by {
        if v.index.locs.contains_key(k) {
            lemma_same_data(v.files, w.files, v.index.locs[k].segment_id);
        }
    }
}

proof fn lemma_scan_len(data: Seq<u8>, pos: int)
    requires
        0 <= pos,
    ensures
        scan(data, pos).len() + pos <= data.len() || scan(data, pos).len() == 0,
    decreases data.len() - pos,
{
    if has_record(data, pos) {
        lemma_scan_len(data, pos + 4 + declared_len(data, pos));
    }
}

proof fn lemma_same_data(fs: Seq<FileV>, gs: Seq<FileV>, id: u32)
    requires
        fs.len() == gs.len(),
        forall|i: int|
            0 <= i < fs.len() ==> (#[trigger] gs[i]).id == fs[i].id && gs[i].data == fs[i].data,
    ensures
        data_of(gs, id) == data_of(fs, id),
    decreases fs.len(),
{
    if fs.len() > 0 {
        assert(gs.last() == gs[gs.len() - 1]);
        assert forall|i: int| 0 <= i < fs.len() - 1 implies (#[trigger] gs.drop_last()[i]).id
            == fs.drop_last()[i].id && gs.drop_last()[i].data == fs.drop_last()[i].data by {
            assert(gs.drop_last()[i] == gs[i]);
        }
        lemma_same_data(fs.drop_last(), gs.drop_last(), id);
    }
}

/// Opening the segments of a store again gives a store with the same
/// segments, the same places, and so the same contents.
pub proof fn lemma_reopen(v: SegV, max: u64)
    requires
        coherent(v),
    ensures
        coherent(opened(arranged(v.files), max)),
        opened(arranged(v.files), max).files == v.files,
        opened(arranged(v.files), max).index.locs == v.index.locs,
        forall|k: Seq<char>| #[trigger] found(opened(arranged(v.files), max), k) == found(v, k),
{
    assert forall|i: int| 0 <= i < v.files.len() implies survives(
        v.files[i],
        #[trigger] v.files[i],
        i + 1 == v.files.len(),
    ) by {
        let f = v.files[i];
        assert(whole(v.files[i]));
        assert(f.data.take(f.data.len() as int) =~= f.data);
    }
    lemma_recovery(v, v.files, max);
    lemma_arranged(v.files);
    let n = v.files.len() as int;
    let w = opened(v.files, max);
    assert forall|i: int| 0 <= i < n implies #[trigger] w.files[i] == v.files[i] by {
        assert(whole(v.files[i]));
        if i + 1 == n {
            assert(v.files[i].data.take(v.files[i].data.len() as int) =~= v.files[i].data);
        } else {
            assert(sidecar_entries(v.files[i]) is Some);
        }
    }
    assert(w.files =~= v.files);
}

/// A store that is opened where there is no segment yet is a good one.
pub proof fn lemma_new_store(max: u64)
    ensures
        coherent(opened(arranged(Seq::empty()), max)),
        forall|k: Seq<char>| #[trigger]
            found(opened(arranged(Seq::empty()), max), k) == Found::Absent,
{
    let w = opened(arranged(Seq::empty()), max);
    assert(w.files =~= seq![empty_file(0)]);
    assert(scan(w.files[0].data, 0) =~= Seq::empty());
}

/// The bytes of the first `n` segments together.
pub open spec fn total_bytes(fs: Seq<FileV>, n: int) -> int
    decreases n,
{
    if n <= 0 {
        0
    } else {
        total_bytes(fs, n - 1) + fs[n - 1].data.len()
    }
}

/// How many of the first `n` hashes are in the set.
pub open spec fn live_count(keys: Seq<Seq<char>>, live: Set<Seq<char>>, n: int) -> int
    decreases n,
{
    if n <= 0 {
        0
    } else {
        live_count(keys, live, n - 1) + if live.contains(keys[n - 1]) {
            1int
        } else {
            0int
        }
    }
}

/// The store that the live ones of the first `n` contents are copied to.
pub open spec fn copied(v: SegV, live: Set<Seq<char>>, n: int) -> Result<SegV, SegmentError>
    decreases n,
{
    if n <= 0 {
        if v.files.last().id == u32::MAX {
            Err(SegmentError::Exhausted)
        } else {
            Ok(
                SegV {
                    files: seq![empty_file((v.files.last().id + 1) as u32)],
                    index: no_index(),
                    max: v.max,
                },
            )
        }
    } else {
        match copied(v, live, n - 1) {
            Err(e) => Err(e),
            Ok(c) => {
                let k = v.index.keys[n - 1];
                if live.contains(k) {
                    match read_at(v.files, v.index.locs[k], k) {
                        Found::Content(content) => put_result(c, k, content),
                        Found::Tampered => Err(SegmentError::Tampered),
                        _ => Err(SegmentError::Unreadable),
                    }
                } else {
                    Ok(c)
                }
            },
        }
    }
}

/// The texts in a list.
pub open spec fn texts(v: Seq<String>) -> Set<Seq<char>> {
    Set::new(|s: Seq<char>| exists|i: int| 0 <= i < v.len() && (#[trigger] v[i])@ == s)
}

/// What compaction leaves: each live content as it was, and nothing else.
pub open spec fn compacted(v: SegV, live: Set<Seq<char>>, w: SegV) -> bool {
    forall|k: Seq<char>| #[trigger]
        found(w, k) == if live.contains(k) {
            found(v, k)
        } else {
            Found::Absent
        }
}

/// The texts of a list as a table.
fn text_table(list: &Vec<String>) -> (r: Keyed<bool>)
    ensures
        r.wf(),
        r@.dom() == texts(list@),
{
    let mut table: Keyed<bool> = Keyed::new();
    let mut i: usize = 0;
    assert(table@.dom() =~= texts(list@.take(0)));
    while i < list.len()
        invariant
            i <= list.len(),
            table.wf(),
            table@.dom() == texts(list@.take(i as int)),
        decreases list.len() - i,
    {
        table.insert(list[i].clone(), true);
        proof {
            let before = list@.take(i as int);
            let now = list@.take(i + 1);
            assert forall|s: Seq<char>| #[trigger] texts(now).contains(s) <==> texts(before).contains(
                s,
            ) || s == list@[i as int]@ by {
                if texts(now).contains(s) {
                    let j = choose|j: int| 0 <= j < now.len() && (#[trigger] now[j])@ == s;
                    if j < i {
                        assert(before[j]@ == s);
                    }
                }
                if texts(before).contains(s) {
                    let j = choose|j: int| 0 <= j < before.len() && (#[trigger] before[j])@ == s;
                    assert(now[j]@ == s);
                }
                if s == list@[i as int]@ {
                    assert(now[i as int]@ == s);
                }
            }
            assert(table@.dom() =~= texts(now));
        }
        i = i + 1;
    }
    assert(list@.take(i as int) =~= list@);
    table
}

/// Storing a content under its hash keeps the agreement.
proof fn lemma_put_coherent(v: SegV, hash: Seq<char>, content: Seq<u8>, w: SegV)
    requires
        coherent(v),
        v.index.keys.len() <= u64::MAX,
        hash == content_hash(content),
        indexable(hash),
        put_result(v, hash, content) == Ok::<SegV, SegmentError>(w),
    ensures
        coherent(w),
        stored(v, hash, content, w),
        w.max == v.max,
        w.files[0].id == v.files[0].id,
        w.index.keys.len() <= v.index.keys.len() + 1,
{
    let n = v.files.len() as int;
    lemma_coherent_sound(v);
    assert(whole(v.files[n - 1]));
    lemma_auto_spec_u32_to_from_le_bytes();
    if !v.index.locs.contains_key(hash) {
        if needs_roll(v, content.len() as int) {
            let rs = scan(v.files[n - 1].data, 0);
            let es = entries_for(v.index, v.files[n - 1].id, v.index.keys.len() as int);
            lemma_coherent_entries(v, n - 1);
            lemma_entries_for_len(v.index, v.files[n - 1].id, v.index.keys.len() as int);
            assert forall|i: int| 0 <= i < es.len() implies indexable((#[trigger] es[i]).0) && hex(
                unhex(es[i].0),
            ) == es[i].0 by {
                assert(es.contains(es[i]));
                assert(rs.contains(es[i]));
                let j = choose|j: int| 0 <= j < rs.len() && rs[j] == es[i];
                assert(indexed(v, n - 1, scan(v.files[n - 1].data, 0)[j]));
                lemma_scan_entry(v.files[n - 1].data, 0, j);
            }
            lemma_idx_round_trip(es);
            lemma_sealed_coherent(v);
            lemma_appended_coherent(sealed(v), hash, content);
        } else {
            lemma_appended_coherent(v, hash, content);
        }
        lemma_put(v, hash, content, w);
    }
}

proof fn lemma_entries_for_len(ix: IndexV, id: u32, n: int)
    requires
        0 <= n,
    ensures
        entries_for(ix, id, n).len() <= n,
    decreases n,
{
    if n > 0 {
        lemma_entries_for_len(ix, id, n - 1);
    }
}

/// What copying the live ones of the first `n` contents gives: a good store
/// with these contents, in segments behind those that there were.
pub proof fn lemma_copied(v: SegV, live: Set<Seq<char>>, n: int, c: SegV)
    requires
        index_wf(v.index),
        v.index.keys.len() <= u64::MAX,
        0 <= n <= v.index.keys.len(),
        copied(v, live, n) == Ok::<SegV, SegmentError>(c),
    ensures
        coherent(c),
        c.files[0].id == v.files.last().id + 1,
        c.index.keys.len() <= n,
        forall|k: Seq<char>| #[trigger]
            found(c, k) == if live.contains(k) && among(v.index.keys, k, n) {
                found(v, k)
            } else {
                Found::Absent
            },
        forall|k: Seq<char>|
            live.contains(k) && #[trigger] among(v.index.keys, k, n) ==> found(v, k) is Content,
    decreases n,
{
    let keys = v.index.keys;
    if n == 0 {
        assert(scan(c.files[0].data, 0) =~= Seq::<Entry>::empty());
    } else {
        let was = copied(v, live, n - 1)->Ok_0;
        let k = keys[n - 1];
        lemma_copied(v, live, n - 1, was);
        assert(keys.contains(k));
        assert(v.index.locs.contains_key(k));
        assert(found(was, k) == Found::Absent) by {
            if among(keys, k, n - 1) {
                let m = choose|m: int| 0 <= m < n - 1 && #[trigger] keys[m] == k;
                assert(m == n - 1);
            }
        }
        lemma_coherent_sound(was);
        if live.contains(k) {
            assert(found(v, k) is Content);
            crate::digest::lemma_content_hash(found(v, k)->Content_0);
            lemma_put_coherent(was, k, found(v, k)->Content_0, c);
        }
        assert forall|q: Seq<char>| live.contains(q) && #[trigger] among(keys, q, n) implies found(
            v,
            q,
        ) is Content by {
            let m = choose|m: int| 0 <= m < n && #[trigger] keys[m] == q;
            if m < n - 1 {
                assert(among(keys, q, n - 1));
            }
        }
        assert forall|q: Seq<char>| #[trigger]
            found(c, q) == if live.contains(q) && among(keys, q, n) {
                found(v, q)
            } else {
                Found::Absent
            } by {
            assert(among(keys, q, n) <==> among(keys, q, n - 1) || q == k) by {
                if q == k {
                    assert(keys[n - 1] == q);
                }
                if among(keys, q, n) && q != k {
                    let m = choose|m: int| 0 <= m < n && #[trigger] keys[m] == q;
                    assert(keys[m] == q && m < n - 1);
                }
                if among(keys, q, n - 1) {
                    let m = choose|m: int| 0 <= m < n - 1 && #[trigger] keys[m] == q;
                    assert(keys[m] == q && m < n);
                }
            }
            assert(found(was, q) == if live.contains(q) && among(keys, q, n - 1) {
                found(v, q)
            } else {
                Found::Absent
            });
        }
    }
}

/// Copying all the live contents leaves each of them as it was, and nothing
/// else.
pub proof fn lemma_all_copied(v: SegV, live: Set<Seq<char>>, c: SegV)
    requires
        index_wf(v.index),
        v.index.keys.len() <= u64::MAX,
        copied(v, live, v.index.keys.len() as int) == Ok::<SegV, SegmentError>(c),
    ensures
        coherent(c),
        compacted(v, live, c),
        c.index.locs.dom() == v.index.locs.dom().intersect(live),
        forall|k: Seq<char>|
            live.contains(k) && #[trigger] v.index.locs.contains_key(k) ==> found(v, k) is Content,
{
    let keys = v.index.keys;
    let n = keys.len() as int;
    lemma_copied(v, live, n, c);
    lemma_coherent_sound(c);
    assert forall|q: Seq<char>| #[trigger] v.index.locs.contains_key(q) implies among(keys, q, n) by {
        assert(keys.contains(q));
        let m = choose|m: int| 0 <= m < keys.len() && keys[m] == q;
        assert(keys[m] == q);
    }
    assert forall|q: Seq<char>| among(keys, q, n) implies #[trigger] v.index.locs.contains_key(q) by {
        let m = choose|m: int| 0 <= m < n && #[trigger] keys[m] == q;
        assert(keys.contains(q));
    }
    assert forall|q: Seq<char>| #[trigger]
        found(c, q) == if live.contains(q) {
            found(v, q)
        } else {
            Found::Absent
        } by {
        assert(v.index.locs.contains_key(q) <==> among(keys, q, n));
    }
    assert forall|q: Seq<char>| #[trigger] c.index.locs.contains_key(q) <==> v.index.locs.contains_key(
        q,
    ) && live.contains(q) by {
        assert(found(c, q) == if live.contains(q) {
            found(v, q)
        } else {
            Found::Absent
        });
        assert(v.index.locs.contains_key(q) <==> among(keys, q, n));
    }
    assert(c.index.locs.dom() =~= v.index.locs.dom().intersect(live));
}

/// Whether one of the first `n` hashes is this one.
pub open spec fn among(keys: Seq<Seq<char>>, k: Seq<char>, n: int) -> bool {
    exists|m: int| 0 <= m < n && #[trigger] keys[m] == k
}

/// Whether numbers tell what a compaction came to: how many objects were kept
/// and dropped, how many bytes the segments had that it replaced, and how many
/// segments there are now.
pub open spec fn tells(stats: CompactStats, v: SegV, live: Set<Seq<char>>, w: SegV) -> bool {
    let n = v.index.keys.len() as int;
    let kept = live_count(v.index.keys, live, n);
    let bytes = total_bytes(v.files, v.files.len() as int);
    &&& stats.live_objects == kept
    &&& stats.dropped_objects == n - kept
    &&& stats.bytes_reclaimed == if bytes <= u64::MAX {
        bytes
    } else {
        u64::MAX as int
    }
    &&& stats.segments_after == w.files.len()
}

impl SegmentStore {
    /// Copies the live contents to fresh segments and drops all others. Where
    /// a live content cannot be read, or there is no number for a segment,
    /// nothing changes.
    pub fn compact(&mut self, live: &Vec<String>) -> (r: Result<CompactStats, SegmentError>)
        requires
            old(self).wf(),
        ensures
            final(self).wf(),
            match r {
                Ok(stats) => {
                    let v = old(self)@;
                    let n = v.index.keys.len() as int;
                    &&& copied(v, texts(live@), n) == Ok::<SegV, SegmentError>(final(self)@)
                    &&& tells(stats, v, texts(live@), final(self)@)
                    &&& coherent(final(self)@)
                    &&& compacted(v, texts(live@), final(self)@)
                },
                Err(e) => {
                    &&& copied(old(self)@, texts(live@), old(self)@.index.keys.len() as int)
                        == Err::<SegV, SegmentError>(e)
                    &&& final(self)@ == old(self)@
                    &&& coherent(old(self)@) ==> e != SegmentError::Unreadable && e
                        != SegmentError::Tampered
                },
            },
    {
        let ghost v = self@;
        let ghost alive = texts(live@);
        let ghost keys = v.index.keys;
        let table = text_table(live);
        let last: usize = self.files.len() - 1;
        assert(v.files.last() == self.files@[last as int]@);
        let old_max: u32 = self.files[last].id;
        if old_max == u32::MAX {
            proof {
                lemma_copied_error(v, alive, 0, keys.len() as int);
            }
            return Err(SegmentError::Exhausted);
        }
        let mut files: Vec<SegmentFile> = Vec::new();
        files.push(SegmentFile { id: old_max + 1, data: Vec::new(), sidecar: None });
        let mut fresh = SegmentStore {
            files,
            index: Keyed::new(),
            max_segment_bytes: self.max_segment_bytes,
        };
        let mut live_objects: usize = 0;
        let mut i: usize = 0;
        proof {
            self.index.lemma_entries();
            assert(fresh@.files[0] =~= empty_file((old_max + 1) as u32));
            assert(fresh@ =~= copied(v, alive, 0)->Ok_0);
        }
        while i < self.index.len()
            invariant
                *self == *old(self),
                self.wf(),
                v == self@,
                keys == self.index.keys(),
                keys == v.index.keys,
                keys.no_duplicates(),
                keys.len() == self.index.values().len(),
                forall|j: int|
                    0 <= j < keys.len() ==> self.index@.contains_key(#[trigger] keys[j])
                        && self.index@[keys[j]] == self.index.values()[j],
                table.wf(),
                table@.dom() == alive,
                alive == texts(live@),
                i <= keys.len(),
                live_objects <= i,
                live_objects == live_count(keys, alive, i as int),
                fresh.wf(),
                copied(v, alive, i as int) == Ok::<SegV, SegmentError>(fresh@),
            decreases keys.len() - i,
        {
            let hash = self.index.key_at(i);
            proof {
                if coherent(v) {
                    lemma_coherent_sound(v);
                    assert(v.index.locs.contains_key(keys[i as int]));
                    assert(found(v, keys[i as int]) is Content);
                }
            }
            if table.contains(hash.as_str()) {
                match self.read_content(self.index.value_at(i), hash.as_str()) {
                    Ok(content) => {
                        match fresh.put(hash.as_str(), content.as_slice()) {
                            Ok(_) => {},
                            Err(e) => {
                                proof {
                                    lemma_copied_error(v, alive, i + 1, keys.len() as int);
                                }
                                return Err(e);
                            },
                        }
                    },
                    Err(e) => {
                        proof {
                            lemma_copied_error(v, alive, i + 1, keys.len() as int);
                        }
                        return Err(e);
                    },
                }
                live_objects = live_objects + 1;
            }
            i = i + 1;
        }
        let mut bytes_reclaimed: u64 = 0;
        let mut j: usize = 0;
        while j < self.files.len()
            invariant
                *self == *old(self),
                v == self@,
                j <= self.files.len(),
                bytes_reclaimed == if total_bytes(v.files, j as int) <= u64::MAX {
                    total_bytes(v.files, j as int)
                } else {
                    u64::MAX as int
                },
            decreases self.files.len() - j,
        {
            assert(v.files[j as int].data == self.files@[j as int].data@);
            bytes_reclaimed = bytes_reclaimed.saturating_add(self.files[j].data.len() as u64);
            j = j + 1;
        }
        let total: usize = self.index.len();
        let stats = CompactStats {
            live_objects,
            dropped_objects: total - live_objects,
            bytes_reclaimed,
            segments_after: fresh.files.len(),
        };
        proof {
            self.lemma_wf();
            lemma_all_copied(v, alive, fresh@);
        }
        *self = fresh;
        Ok(stats)
    }
}

/// An error in copying stands.
proof fn lemma_copied_error(v: SegV, live: Set<Seq<char>>, m: int, n: int)
    requires
        0 <= m <= n,
        copied(v, live, m) is Err,
    ensures
        copied(v, live, n) == copied(v, live, m),
    decreases n - m,
{
    if m < n {
        lemma_copied_error(v, live, m, n - 1);
    }
}

} // verus!
