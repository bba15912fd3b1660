use nedb_engine::digest::blake2b;
use nedb_engine::names::{segment_id, segment_name, sidecar_name};
use nedb_engine::segment::{
    load_idx, scan_segment, write_idx, SegmentError, SegmentFile, SegmentStore,
};

fn fresh() -> SegmentStore {
    SegmentStore::open(Vec::new())
}

fn copies(files: &[SegmentFile]) -> Vec<SegmentFile> {
    files
        .iter()
        .map(|f| SegmentFile { id: f.id, data: f.data.clone(), sidecar: f.sidecar.clone() })
        .collect()
}

/// The segments as files would hold them.
fn files_of(s: &SegmentStore) -> Vec<SegmentFile> {
    copies(s.files())
}

fn put_get_hash(s: &mut SegmentStore, content: &[u8]) -> String {
    let h = blake2b(content);
    s.put(&h, content).unwrap();
    h
}

#[test]
fn put_get_roundtrip() {
    let mut s = fresh();
    let h = put_get_hash(&mut s, b"hello nedb v3");
    assert_eq!(s.get(&h).unwrap().unwrap(), b"hello nedb v3");
    assert!(s.contains(&h));
    assert!(s.get(&"0".repeat(64)).unwrap().is_none());
}

#[test]
fn idempotent_put() {
    let mut s = fresh();
    let h1 = put_get_hash(&mut s, b"dup");
    let h2 = put_get_hash(&mut s, b"dup");
    assert_eq!(h1, h2);
    assert_eq!(s.all_hashes().len(), 1);
}

#[test]
fn index_rebuilt_on_reopen() {
    let mut s = fresh();
    let h = put_get_hash(&mut s, b"persisted");
    let s2 = SegmentStore::open(files_of(&s));
    assert_eq!(s2.get(&h).unwrap().unwrap(), b"persisted");
}

#[test]
fn rollover_writes_idx_and_reopen_uses_it() {
    let mut s = SegmentStore::open_with_max(Vec::new(), 32);
    let mut hashes = Vec::new();
    for i in 0..8u32 {
        hashes.push(put_get_hash(&mut s, format!("record-{}", i).as_bytes()));
    }
    let idx_files = s.files().iter().filter(|f| f.sidecar.is_some()).count();
    assert!(idx_files >= 1, "expected at least one sealed .idx");
    let s2 = SegmentStore::open(files_of(&s));
    for h in &hashes {
        assert!(s2.get(h).unwrap().is_some());
    }
}

#[test]
fn corrupt_idx_falls_back_to_scan() {
    let mut hashes = Vec::new();
    let mut s = SegmentStore::open_with_max(Vec::new(), 32);
    for i in 0..6u32 {
        hashes.push(put_get_hash(&mut s, format!("rec-{}", i).as_bytes()));
    }
    let mut files = files_of(&s);
    for f in files.iter_mut() {
        if f.sidecar.is_some() {
            f.sidecar = Some(b"garbage".to_vec());
        }
    }
    let s2 = SegmentStore::open(files);
    for h in &hashes {
        assert!(s2.get(h).unwrap().is_some(), "scan fallback must recover the object");
    }
}

#[test]
fn torn_tail_is_truncated_on_open() {
    let mut s = fresh();
    let good = put_get_hash(&mut s, b"good record");
    let mut files = files_of(&s);
    assert_eq!(segment_name(files[0].id), "seg-000000.dat");
    files[0].data.extend_from_slice(&9999u32.to_le_bytes());
    files[0].data.extend_from_slice(b"short");
    let mut s2 = SegmentStore::open(files);
    assert_eq!(s2.get(&good).unwrap().unwrap(), b"good record");
    let h2 = put_get_hash(&mut s2, b"after recovery");
    assert!(s2.get(&h2).unwrap().is_some());
    let s3 = SegmentStore::open(files_of(&s2));
    assert_eq!(s3.get(&h2).unwrap().unwrap(), b"after recovery");
}

#[test]
fn tamper_detected_on_read() {
    let mut s = fresh();
    let h = put_get_hash(&mut s, b"authentic");
    let mut files = files_of(&s);
    assert_eq!(segment_name(files[0].id), "seg-000000.dat");
    let n = files[0].data.len();
    files[0].data[n - 1] ^= 0xff;
    let s2 = SegmentStore::open(files);
    match s2.get(&h) {
        Ok(None) => {}
        Err(_) => {}
        Ok(Some(_)) => panic!("tampered content must not verify under original hash"),
    }
}

#[test]
fn compaction_keeps_live_drops_dead() {
    let mut s = fresh();
    let keep = put_get_hash(&mut s, b"keep me");
    let _drop1 = put_get_hash(&mut s, b"drop me 1");
    let _drop2 = put_get_hash(&mut s, b"drop me 2");
    assert_eq!(s.all_hashes().len(), 3);

    let live = vec![keep.clone()];
    let stats = s.compact(&live).unwrap();
    assert_eq!(stats.live_objects, 1);
    assert_eq!(stats.dropped_objects, 2);

    assert_eq!(s.get(&keep).unwrap().unwrap(), b"keep me");
    assert_eq!(s.all_hashes().len(), 1);

    let s2 = SegmentStore::open(files_of(&s));
    assert_eq!(s2.get(&keep).unwrap().unwrap(), b"keep me");
    assert!(s2.get(&_drop1).unwrap().is_none());

    let after = put_get_hash(&mut s, b"post-compaction");
    assert!(s.get(&after).unwrap().is_some());
}

#[test]
fn compaction_drops_what_cannot_be_read_and_is_not_live() {
    let mut s = fresh();
    let keep = put_get_hash(&mut s, b"keep me");
    let gone = put_get_hash(&mut s, b"drop me 1");
    let mut files = files_of(&s);
    let n = files[0].data.len();
    files[0].data[n - 1] ^= 0xff;
    files[0].sidecar = None;
    let mut s = SegmentStore::open(files);
    assert!(!matches!(s.get(&gone), Ok(Some(_))));
    let before = s.all_hashes().len();
    let stats = s.compact(&vec![keep.clone(), "absent".to_string()]).unwrap();
    assert_eq!((stats.live_objects, stats.dropped_objects), (1, before - 1));
    assert_eq!(s.all_hashes(), vec![keep.clone()]);
    let again = SegmentStore::open(files_of(&s));
    assert_eq!(again.all_hashes(), vec![keep.clone()]);
    assert_eq!(again.get(&keep).unwrap().unwrap(), b"keep me");
}

#[test]
fn compaction_reclaims_and_writes_still_read() {
    let mut s = SegmentStore::open_with_max(Vec::new(), 64);
    let mut all = Vec::new();
    for i in 0..20u32 {
        all.push(put_get_hash(&mut s, format!("obj-{:03}", i).as_bytes()));
    }
    let mut live = Vec::new();
    for (i, h) in all.iter().enumerate() {
        if i % 2 == 0 {
            live.push(h.clone());
        }
    }
    let stats = s.compact(&live).unwrap();
    assert_eq!(stats.live_objects, 10);
    assert_eq!(stats.dropped_objects, 10);
    for (i, h) in all.iter().enumerate() {
        let got = s.get(h).unwrap();
        if i % 2 == 0 {
            assert!(got.is_some(), "live object {} must survive", i);
        } else {
            assert!(got.is_none(), "dead object {} must be pruned", i);
        }
    }
}

#[test]
fn record_layout() {
    let mut s = fresh();
    put_get_hash(&mut s, b"abc");
    put_get_hash(&mut s, b"");
    assert_eq!(s.files()[0].data, [3, 0, 0, 0, b'a', b'b', b'c', 0, 0, 0, 0]);
    let (end, records) = scan_segment(&s.files()[0].data);
    assert_eq!(end, 11);
    assert_eq!(records.len(), 2);
    assert_eq!(records[0].0, blake2b(b"abc"));
    assert_eq!((records[0].1, records[0].2), (4, 3));
    assert_eq!((records[1].1, records[1].2), (11, 0));
}

#[test]
fn idx_layout_and_round_trip() {
    let records = vec![
        (blake2b(b"a"), 4, 1),
        (blake2b(b"bb"), 9, 2),
    ];
    let bytes = write_idx(&records).unwrap();
    assert_eq!(bytes.len(), 12 + 2 * 44 + 32);
    assert_eq!(&bytes[..4], b"NIX1");
    assert_eq!(&bytes[4..12], 2u64.to_le_bytes());
    let back = load_idx(&bytes).unwrap();
    assert_eq!(back.len(), 2);
    assert_eq!(back[1].0, blake2b(b"bb"));
    assert_eq!((back[1].1, back[1].2), (9, 2));
}

#[test]
fn idx_with_a_flipped_bit_is_refused() {
    let records = vec![(blake2b(b"a"), 4, 1)];
    let good = write_idx(&records).unwrap();
    for i in 0..good.len() {
        let mut bad = good.clone();
        bad[i] ^= 1;
        assert!(load_idx(&bad).is_none(), "byte {}", i);
    }
    assert!(load_idx(&good[..good.len() - 1].to_vec()).is_none());
}

#[test]
fn idx_needs_hashes() {
    let records = vec![("abc".to_string(), 4, 1)];
    assert!(write_idx(&records).is_none());
}

#[test]
fn lost_sidecars_are_written_again() {
    let mut s = SegmentStore::open_with_max(Vec::new(), 20);
    for i in 0..4u32 {
        put_get_hash(&mut s, format!("record-{}", i).as_bytes());
    }
    let before = files_of(&s);
    let mut lost = files_of(&s);
    for f in lost.iter_mut() {
        f.sidecar = None;
    }
    let s2 = SegmentStore::open_with_max(lost, 20);
    for (a, b) in before.iter().zip(s2.files()) {
        assert_eq!(a.id, b.id);
        assert_eq!(a.data, b.data);
        assert_eq!(a.sidecar, b.sidecar);
    }
}

#[test]
fn a_full_segment_is_sealed() {
    let mut s = SegmentStore::open_with_max(Vec::new(), 19);
    put_get_hash(&mut s, b"0123456789");
    assert_eq!(s.files().len(), 1);
    put_get_hash(&mut s, b"x");
    assert_eq!(s.files().len(), 1);
    put_get_hash(&mut s, b"y");
    assert_eq!(s.files().len(), 2);
    assert_eq!(s.files()[1].id, 1);
    assert!(s.files()[0].sidecar.is_some());
}

#[test]
fn tampered_sealed_segment_is_an_error() {
    let mut s = SegmentStore::open_with_max(Vec::new(), 8);
    let h = put_get_hash(&mut s, b"first");
    put_get_hash(&mut s, b"second");
    let mut files = files_of(&s);
    files[0].data[6] ^= 1;
    let s2 = SegmentStore::open_with_max(files, 8);
    assert_eq!(s2.get(&h), Err(SegmentError::Tampered));
}

#[test]
fn cut_sealed_segment_is_an_error() {
    let mut s = SegmentStore::open_with_max(Vec::new(), 8);
    let h = put_get_hash(&mut s, b"first");
    put_get_hash(&mut s, b"second");
    let mut files = files_of(&s);
    files[0].data.truncate(6);
    let s2 = SegmentStore::open_with_max(files, 8);
    assert_eq!(s2.get(&h), Err(SegmentError::Unreadable));
}

#[test]
fn no_number_left_for_a_segment() {
    let last = SegmentFile { id: u32::MAX, data: vec![1, 0, 0, 0, b'a'], sidecar: None };
    let mut s = SegmentStore::open_with_max(vec![last], 4);
    let h = blake2b(b"more");
    assert_eq!(s.put(&h, b"more"), Err(SegmentError::Exhausted));
    assert_eq!(s.get(&blake2b(b"a")).unwrap().unwrap(), b"a");
}

#[test]
fn segments_are_taken_by_number() {
    let a = SegmentFile { id: 7, data: vec![1, 0, 0, 0, b'b'], sidecar: None };
    let b = SegmentFile { id: 2, data: vec![1, 0, 0, 0, b'a'], sidecar: None };
    let mut s = SegmentStore::open_with_max(vec![a, b], 1000);
    put_get_hash(&mut s, b"c");
    assert_eq!(s.files()[0].id, 2);
    assert_eq!(s.files()[1].id, 7);
    assert_eq!(s.files()[1].data.len(), 10);
}

#[test]
fn segment_names() {
    assert_eq!(segment_name(42), "seg-000042.dat");
    assert_eq!(sidecar_name(42), "seg-000042.idx");
    assert_eq!(segment_name(12345678), "seg-12345678.dat");
    assert_eq!(segment_id("seg-000042.dat"), Some(42));
    assert_eq!(segment_id("seg-4294967295.dat"), Some(u32::MAX));
    assert_eq!(segment_id("seg-4294967296.dat"), None);
    assert_eq!(segment_id("seg-000042.idx"), None);
    assert_eq!(segment_id("seg-.dat"), None);
    assert_eq!(segment_id("seg-x.dat"), None);
    assert_eq!(segment_id("other-1.dat"), None);
}

#[test]
fn compaction_counts_bytes() {
    let mut s = fresh();
    let keep = put_get_hash(&mut s, b"1234");
    put_get_hash(&mut s, b"123456");
    let stats = s.compact(&vec![keep]).unwrap();
    assert_eq!(stats.bytes_reclaimed, 18);
    assert_eq!(stats.segments_after, 1);
}

#[test]
fn compaction_that_is_cut_short_loses_nothing() {
    let mut s = SegmentStore::open_with_max(Vec::new(), 30);
    let contents: Vec<Vec<u8>> = (0u8..6).map(|i| vec![i; 10]).collect();
    let hashes: Vec<String> = contents.iter().map(|c| put_get_hash(&mut s, c)).collect();
    let live: Vec<String> = hashes[1..5].to_vec();
    let old = files_of(&s);
    assert!(old.len() > 1);
    s.compact(&live).unwrap();
    let new = files_of(&s);
    for cut in 0..=new[new.len() - 1].data.len() {
        let mut files = copies(&old);
        files.extend(copies(&new));
        let last = files.len() - 1;
        files[last].data.truncate(cut);
        files[last - 1].sidecar = None;
        let again = SegmentStore::open_with_max(files, 30);
        for (h, c) in hashes.iter().zip(&contents) {
            assert_eq!(again.get(h).unwrap().as_ref(), Some(c));
        }
    }
    for gone in 0..=old.len() {
        let mut files = copies(&old[gone..]);
        files.extend(copies(&new));
        let again = SegmentStore::open_with_max(files, 30);
        for (h, c) in hashes.iter().zip(&contents) {
            let found = again.get(h).unwrap();
            assert!(found.as_ref() == Some(c) || found.is_none() && !live.contains(h));
        }
    }
}
