use nedb_engine::crypto::CryptoError;
use nedb_engine::digest::blake2b;
use nedb_engine::json::{parse, to_text, JsonValue, Number};
use nedb_engine::node::to_bytes;
use nedb_engine::segment::SegmentFile;
use nedb_engine::store::{dag_v3_enabled, LooseFile, StoreError};
use nedb_engine::{Dek, Node, ObjectStore};

fn json(s: &str) -> JsonValue {
    parse(s.as_bytes()).unwrap()
}

fn make_node(id: &str, coll: &str, seq: u64) -> Node {
    Node {
        id: id.to_string(),
        coll: coll.to_string(),
        seq,
        data: json(&format!(r#"{{"height": {}, "hash": "0000abc"}}"#, seq)),
        prev: None,
        caused_by: vec![],
        ts: Number::from_literal("1718400000.0").unwrap(),
        valid_from: None,
        valid_to: None,
        hash: String::new(),
    }
}

/// The loose objects as files would hold them.
fn loose_files(s: &ObjectStore) -> Vec<LooseFile> {
    (0..s.loose_count())
        .map(|i| {
            let (hash, content) = s.loose_at(i);
            LooseFile {
                prefix: hash[..2].to_string(),
                name: hash[2..].to_string(),
                content: content.clone(),
            }
        })
        .collect()
}

fn segment_files(s: &ObjectStore) -> Vec<SegmentFile> {
    s.segments()
        .unwrap()
        .iter()
        .map(|f| SegmentFile { id: f.id, data: f.data.clone(), sidecar: f.sidecar.clone() })
        .collect()
}

fn on_disk(dek: Option<Dek>) -> ObjectStore {
    ObjectStore::new(Vec::new(), None, dek)
}

#[test]
fn write_read_roundtrip() {
    let mut store = on_disk(None);
    let mut node = make_node("1", "blocks", 1);
    let hash = store.write(&mut node).unwrap();
    assert_eq!(hash.len(), 64);
    let read_back = store.read(&hash).unwrap();
    assert_eq!(read_back.id, "1");
    assert_eq!(read_back.coll, "blocks");
}

#[test]
fn write_is_idempotent() {
    let mut store = on_disk(None);
    let mut node = make_node("1", "blocks", 1);
    let h1 = store.write(&mut node).unwrap();
    let h2 = store.write(&mut node).unwrap();
    assert_eq!(h1, h2);
}

#[test]
fn tamper_detected() {
    let mut store = on_disk(None);
    let mut node = make_node("1", "blocks", 1);
    let hash = store.write(&mut node).unwrap();
    let mut files = loose_files(&store);
    assert_eq!(files[0].prefix, &hash[..2]);
    assert_eq!(files[0].name, &hash[2..]);
    files[0].content[10] ^= 0xff;
    let store = ObjectStore::new(files, None, None);
    assert!(store.read(&hash).is_err());
    assert_eq!(store.read(&hash).unwrap_err(), StoreError::Tampered);
}

#[test]
fn verifying_lists_what_was_tampered_with() {
    let mut store = on_disk(None);
    let hashes: Vec<String> = (0..5u64)
        .map(|k| store.write(&mut make_node(&format!("{}", k), "blocks", k)).unwrap())
        .collect();
    assert_eq!(store.verify_all(), (5, vec![]));
    let mut files = loose_files(&store);
    for f in files.iter_mut() {
        let hash = format!("{}{}", f.prefix, f.name);
        if hash == hashes[1] || hash == hashes[4] {
            f.content[10] ^= 0xff;
        }
    }
    let store = ObjectStore::new(files, None, None);
    let (ok, mut bad) = store.verify_all();
    bad.sort();
    let mut want = vec![hashes[1].clone(), hashes[4].clone()];
    want.sort();
    assert_eq!((ok, bad), (3, want));
    for (k, h) in hashes.iter().enumerate() {
        assert_eq!(store.read(h).is_err(), k == 1 || k == 4);
    }
}

#[test]
fn writing_what_is_there_reads_back() {
    let mut store = on_disk(None);
    let mut first = make_node("1", "blocks", 1);
    let h1 = store.write(&mut first).unwrap();
    let mut again = make_node("1", "blocks", 1);
    let h2 = store.write(&mut again).unwrap();
    assert_eq!(h1, h2);
    assert_eq!(store.all_hashes().len(), 1);
    assert_eq!(store.read(&h2).unwrap().id, "1");
}

#[test]
fn an_object_is_the_json_of_its_version() {
    let mut store = on_disk(None);
    let mut node = make_node("1", "blocks", 7);
    node.prev = Some("p".to_string());
    node.caused_by = vec!["c".to_string()];
    node.valid_from = Some("2025".to_string());
    let hash = store.write(&mut node).unwrap();
    let want = concat_json();
    assert_eq!(String::from_utf8(store.loose_at(0).1.clone()).unwrap(), want);
    assert_eq!(hash, blake2b(want.as_bytes()));
    assert_eq!(node.hash, hash);
}

fn concat_json() -> String {
    [
        r#"{"id":"1","coll":"blocks","seq":7,"data":{"hash":"0000abc","height":7},"#,
        r#""prev":"p","caused_by":["c"],"ts":1718400000.0,"valid_from":"2025","valid_to":null}"#,
    ]
    .join("")
}

#[test]
fn all_fields_are_read_back() {
    let mut store = on_disk(None);
    let mut node = make_node("1", "blocks", 7);
    node.prev = Some("p".to_string());
    node.caused_by = vec!["c".to_string(), "d".to_string()];
    node.valid_to = Some("2026".to_string());
    let hash = store.write(&mut node).unwrap();
    let back = store.read(&hash).unwrap();
    assert_eq!(back.seq, 7);
    assert_eq!(to_text(&back.data), r#"{"hash":"0000abc","height":7}"#);
    assert_eq!(back.prev.as_deref(), Some("p"));
    assert_eq!(back.caused_by, vec!["c", "d"]);
    assert_eq!(back.valid_from, None);
    assert_eq!(back.valid_to.as_deref(), Some("2026"));
    assert_eq!(back.hash, hash);
    assert_eq!(to_bytes(&back), to_bytes(&node));
}

#[test]
fn objects_are_encrypted() {
    let dek = Dek::from_tmk(&[7u8; 32], b"shop");
    let mut store = on_disk(Some(dek));
    let mut node = make_node("secret-id", "blocks", 1);
    let hash = store.write(&mut node).unwrap();
    let content = store.loose_at(0).1.clone();
    assert!(!String::from_utf8_lossy(&content).contains("secret-id"));
    assert_eq!(store.read(&hash).unwrap().id, "secret-id");
    let other = Dek::from_tmk(&[8u8; 32], b"shop");
    let wrong = ObjectStore::new(loose_files(&store), None, Some(other));
    assert_eq!(wrong.read(&hash).unwrap_err(), StoreError::Crypto(CryptoError::Failed));
    let none = ObjectStore::new(loose_files(&store), None, None);
    assert_eq!(none.read(&hash).unwrap_err(), StoreError::Malformed);
}

#[test]
fn read_errors() {
    let store = on_disk(None);
    assert_eq!(store.read("ab").unwrap_err(), StoreError::InvalidHash);
    assert_eq!(store.read("abc").unwrap_err(), StoreError::NotFound);
    let mut store = on_disk(None);
    let hash = store.write_content(b"no json".to_vec()).unwrap();
    assert_eq!(store.read(&hash).unwrap_err(), StoreError::Malformed);
}

#[test]
fn short_ciphertext() {
    let mut plain = on_disk(None);
    let hash = plain.write_content(b"12345678901".to_vec()).unwrap();
    let dek = Dek::from_tmk(&[1u8; 32], b"x");
    let store = ObjectStore::new(loose_files(&plain), None, Some(dek));
    assert_eq!(store.read(&hash).unwrap_err(), StoreError::Crypto(CryptoError::TooShort));
}

#[test]
fn packed_objects() {
    let mut store = ObjectStore::new(Vec::new(), Some(Vec::new()), None);
    let mut node = make_node("1", "blocks", 1);
    let hash = store.write(&mut node).unwrap();
    assert_eq!(store.loose_count(), 0);
    assert_eq!(store.segments().unwrap().len(), 1);
    let again = ObjectStore::new(Vec::new(), Some(segment_files(&store)), None);
    assert_eq!(again.read(&hash).unwrap().id, "1");
}

#[test]
fn loose_objects_stay_readable_when_packing_is_on() {
    let mut old = on_disk(None);
    let mut a = make_node("old", "blocks", 1);
    let ha = old.write(&mut a).unwrap();
    let mut store = ObjectStore::new(loose_files(&old), Some(Vec::new()), None);
    let mut b = make_node("new", "blocks", 2);
    let hb = store.write(&mut b).unwrap();
    assert_eq!(store.loose_count(), 1);
    assert_eq!(store.read(&ha).unwrap().id, "old");
    assert_eq!(store.read(&hb).unwrap().id, "new");
    assert_eq!(store.all_hashes(), vec![hb, ha]);
}

#[test]
fn same_hash_in_both_layouts() {
    let mut loose = on_disk(None);
    let mut packed = ObjectStore::new(Vec::new(), Some(Vec::new()), None);
    let mut a = make_node("1", "blocks", 1);
    let mut b = make_node("1", "blocks", 1);
    assert_eq!(loose.write(&mut a).unwrap(), packed.write(&mut b).unwrap());
}

#[test]
fn unfinished_writes_are_passed_over() {
    let f = LooseFile {
        prefix: "ab".to_string(),
        name: "cdef.tmp".to_string(),
        content: b"partial".to_vec(),
    };
    let store = ObjectStore::new(vec![f], None, None);
    assert!(store.all_hashes().is_empty());
}

#[test]
fn verify_all_finds_the_tampered_ones() {
    let mut store = on_disk(None);
    let ha = store.write(&mut make_node("a", "c", 1)).unwrap();
    let hb = store.write(&mut make_node("b", "c", 2)).unwrap();
    assert_eq!(store.verify_all(), (2, vec![]));
    let mut files = loose_files(&store);
    files[1].content[0] ^= 1;
    let store = ObjectStore::new(files, None, None);
    assert_eq!(store.verify_all(), (1, vec![hb]));
    assert!(store.read(&ha).is_ok());
}

#[test]
fn compaction_of_loose_objects_does_nothing() {
    let mut store = on_disk(None);
    let h = store.write(&mut make_node("a", "c", 1)).unwrap();
    let stats = store.compact(&vec![]).unwrap();
    assert_eq!(stats.live_objects, 0);
    assert_eq!(stats.dropped_objects, 0);
    assert!(store.read(&h).is_ok());
}

#[test]
fn setting_for_packing() {
    for on in ["1", "true", "TRUE", "on", "Yes", " 1 ", "\tyes\n"] {
        assert!(dag_v3_enabled(on), "{:?}", on);
    }
    for off in ["", "0", "false", "2", "enabled", "on!"] {
        assert!(!dag_v3_enabled(off), "{:?}", off);
    }
}

#[test]
fn in_memory_objects_are_not_checked_again() {
    let mut store = ObjectStore::in_memory();
    let h = store.write(&mut make_node("a", "c", 1)).unwrap();
    assert_eq!(store.read(&h).unwrap().id, "a");
    assert!(store.segments().is_none());
}

#[test]
fn store_error_messages() {
    assert_eq!(StoreError::Crypto(CryptoError::TooShort).message(), "ciphertext too short");
    assert_eq!(StoreError::NotFound.message(), "object not found");
    assert_eq!(StoreError::SeqExhausted.message(), "no sequence number left");
}

#[test]
fn a_version_may_be_written_as_an_array() {
    let object = r#"{"id":"a","coll":"c","seq":3,"data":{"v":1},"prev":null,"caused_by":["x"],"ts":1.5,"valid_from":null,"valid_to":"z"}"#;
    let array = r#"["a","c",3,{"v":1},null,["x"],1.5,null,"z"]"#;
    let with_hash = r#"["a","c",3,{"v":1},null,["x"],1.5,null,"z","h"]"#;
    let read = |text: &str| {
        let hash = blake2b(text.as_bytes());
        let f = LooseFile {
            prefix: hash[..2].to_string(),
            name: hash[2..].to_string(),
            content: text.as_bytes().to_vec(),
        };
        ObjectStore::new(vec![f], None, None).read(&hash)
    };
    let want = to_bytes(&read(object).unwrap());
    assert_eq!(to_bytes(&read(array).unwrap()), want);
    assert_eq!(to_bytes(&read(with_hash).unwrap()), want);
    for text in [
        r#"["a","c",3,{"v":1},null,["x"],1.5,null]"#,
        r#"["a","c",3,{"v":1},null,["x"],1.5,null,"z","h",1]"#,
        r#"["a","c","3",{"v":1},null,["x"],1.5,null,"z"]"#,
        "[]",
    ] {
        assert_eq!(read(text).unwrap_err(), StoreError::Malformed, "{}", text);
    }
}

#[test]
fn damage_elsewhere_leaves_writes_alone() {
    let mut first = ObjectStore::new(Vec::new(), Some(Vec::new()), None);
    let hurt = first.write(&mut make_node("hurt", "c", 1)).unwrap();
    let mut files = segment_files(&first);
    let last = files[0].data.len() - 1;
    files[0].data[last] ^= 0xff;
    let mut store = ObjectStore::new(Vec::new(), Some(files), None);
    let hash = store.write(&mut make_node("new", "c", 2)).unwrap();
    assert_eq!(store.read(&hash).unwrap().id, "new");
    assert!(store.read(&hurt).is_err());

    let mut first = on_disk(None);
    let hurt = first.write(&mut make_node("hurt", "c", 1)).unwrap();
    let mut files = loose_files(&first);
    files[0].content[5] ^= 0xff;
    let mut store = ObjectStore::new(files, None, None);
    let hash = store.write(&mut make_node("new", "c", 2)).unwrap();
    assert_eq!(store.read(&hash).unwrap().id, "new");
    assert_eq!(store.read(&hurt).unwrap_err(), StoreError::Tampered);
}

#[test]
fn a_store_is_opened_again_under_its_key() {
    let dek = Dek::from_tmk(&[7u8; 32], b"salt");
    let mut store = on_disk(Some(dek));
    let hash = store.write(&mut make_node("a", "c", 1)).unwrap();
    let again = store.reopened(loose_files(&store), None);
    assert_eq!(again.read(&hash).unwrap().id, "a");
    assert_eq!(again.verify_all(), (1, vec![]));
}
