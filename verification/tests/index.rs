use nedb_engine::double::Double;
use nedb_engine::ident::{decode_id, encode_id, id_shard};
use nedb_engine::index::{IdChange, IdFile};
use nedb_engine::json::{parse, JsonValue};
use nedb_engine::text::Order;
use nedb_engine::OrderedValue::{self, Bool, Null, Number, Str};
use nedb_engine::{IdIndex, SortedIndexes};

fn json(s: &str) -> JsonValue {
    parse(s.as_bytes()).unwrap()
}

fn num(x: f64) -> OrderedValue {
    Number(Double { bits: x.to_bits() })
}

/// What files hold once changes are saved.
fn save(files: Vec<IdFile>, changes: Vec<IdChange>) -> Vec<IdFile> {
    let mut out = files;
    for c in changes {
        out.retain(|f| {
            let same_dir = f.coll == c.coll && f.shard == c.shard;
            let old = c.hash.is_none() && Some(&f.leaf) == c.old_leaf.as_ref();
            !(same_dir && (f.leaf == c.leaf || old))
        });
        if let Some(hash) = c.hash {
            out.push(IdFile { coll: c.coll, shard: c.shard, leaf: c.leaf, content: hash });
        }
    }
    out
}

#[test]
fn id_index_roundtrip() {
    let mut idx = IdIndex::new(Vec::new(), Vec::new());
    idx.set("blocks", "618000", "abcdef1234");
    assert_eq!(idx.get("blocks", "618000"), Some("abcdef1234".to_string()));
}

#[test]
fn encode_decode_id_bijective() {
    for safe in ["618000", "utxo-000000042", "abc_DEF.123", "deadBEEF"] {
        assert_eq!(encode_id(safe), safe, "safe id must be identity");
        assert_eq!(decode_id(&encode_id(safe)), safe);
    }
    for weird in ["driver:d1|handles|trip:t1", "a/b\\c", "x<y>z?\"*", "100%done"] {
        let enc = encode_id(weird);
        assert!(
            !enc.chars().any(|c| matches!(
                c,
                ':' | '|' | '/' | '\\' | '<' | '>' | '?' | '"' | '*'
            )),
            "encoded leaf must be filesystem-safe: {}",
            enc
        );
        assert_eq!(decode_id(&enc), weird, "encode/decode must round-trip");
    }
}

#[test]
fn id_index_fs_unsafe_id_survives_disk_roundtrip() {
    let weird = "driver:d1|handles|trip:t1";
    let mut idx = IdIndex::new(Vec::new(), Vec::new());
    idx.set("__links__", weird, "deadbeefcafe");
    let files = save(Vec::new(), idx.flush_write_buf());
    let idx2 = IdIndex::new(Vec::new(), files);
    assert_eq!(
        idx2.get("__links__", weird),
        Some("deadbeefcafe".to_string()),
        "FS-unsafe id must be readable from disk after reopen"
    );
    assert_eq!(
        idx2.list_ids("__links__"),
        vec![weird.to_string()],
        "list_ids must decode the on-disk filename back to the id"
    );
}

#[test]
fn ordered_value_ordering() {
    assert!(Null < Bool(false));
    assert!(Bool(false) < Bool(true));
    assert!(Bool(true) < num(0.0));
    assert!(num(1.0) < num(2.0));
    assert!(num(2.0) < Str("a".to_string()));
    assert!(Str("a".to_string()) < Str("b".to_string()));
}

#[test]
fn sorted_index_top_k() {
    let mut idx = SortedIndexes::new();
    idx.ensure("blocks", "height");
    idx.insert("blocks", "height", &json("3"), "hash3");
    idx.insert("blocks", "height", &json("1"), "hash1");
    idx.insert("blocks", "height", &json("2"), "hash2");
    let asc = idx.top_k_asc("blocks", "height", 2);
    assert_eq!(asc, vec!["hash1", "hash2"]);
    let desc = idx.top_k_desc("blocks", "height", 2);
    assert_eq!(desc, vec!["hash3", "hash2"]);
}

#[test]
fn encoded_names() {
    assert_eq!(encode_id("a b"), "a%20b");
    assert_eq!(encode_id("100%"), "100%25");
    assert_eq!(encode_id("\u{e9}"), "%C3%A9");
    assert_eq!(encode_id(""), "");
    assert_eq!(decode_id("a%20b"), "a b");
    assert_eq!(decode_id("%zz"), "%zz");
    assert_eq!(decode_id("%4"), "%4");
    assert_eq!(decode_id("%c3%a9"), "\u{e9}");
    assert_eq!(decode_id("%ff"), "\u{fffd}");
}

#[test]
fn shards_by_fnv1a() {
    assert_eq!(id_shard(""), "c5");
    assert_eq!(id_shard("a"), "2c");
    assert_eq!(id_shard("foobar"), "68");
}

#[test]
fn names_round_trip_for_all_bytes() {
    for b in 0..128u8 {
        let id = format!("x{}y", b as char);
        assert_eq!(decode_id(&encode_id(&id)), id);
    }
}

#[test]
fn a_removed_document_is_gone_after_saving() {
    let mut idx = IdIndex::new(Vec::new(), Vec::new());
    idx.set("c", "a", "h1");
    idx.set("c", "b", "h2");
    let files = save(Vec::new(), idx.flush_write_buf());
    assert_eq!(files.len(), 2);
    idx.remove("c", "a");
    assert_eq!(idx.get("c", "a"), None);
    let files = save(files, idx.flush_write_buf());
    let idx2 = IdIndex::new(Vec::new(), files);
    assert_eq!(idx2.get("c", "a"), None);
    assert_eq!(idx2.get("c", "b"), Some("h2".to_string()));
    assert_eq!(idx2.list_ids("c"), vec!["b"]);
}

#[test]
fn nothing_to_save_twice() {
    let mut idx = IdIndex::new(Vec::new(), Vec::new());
    idx.set("c", "a", "h1");
    assert_eq!(idx.flush_write_buf().len(), 1);
    assert_eq!(idx.flush_write_buf().len(), 0);
    let mut memory = IdIndex::in_memory();
    memory.set("c", "a", "h1");
    assert_eq!(memory.flush_write_buf().len(), 0);
}

#[test]
fn old_names_are_still_read() {
    let raw = IdFile {
        coll: "c".to_string(),
        shard: id_shard("a:b"),
        leaf: "a:b".to_string(),
        content: " h \n".to_string(),
    };
    let idx = IdIndex::new(Vec::new(), vec![raw]);
    assert_eq!(idx.get("c", "a:b"), Some("h".to_string()));
}

fn id_file(id: &str, leaf: &str, content: &str) -> IdFile {
    IdFile {
        coll: "c".to_string(),
        shard: id_shard(id),
        leaf: leaf.to_string(),
        content: content.to_string(),
    }
}

#[test]
fn the_encoded_name_decides() {
    let raw = || id_file("a:b", "a:b", "old");
    let named = |content: &str| id_file("a:b", "a%3Ab", content);
    for files in [vec![raw(), named("new")], vec![named("new"), raw()]] {
        let idx = IdIndex::new(Vec::new(), files);
        assert_eq!(idx.get("c", "a:b"), Some("new".to_string()));
        assert_eq!(idx.list_ids("c"), vec!["a:b"]);
    }
    for files in [vec![raw(), named(" \n")], vec![named(""), raw()]] {
        let idx = IdIndex::new(Vec::new(), files);
        assert_eq!(idx.get("c", "a:b"), None);
        assert!(idx.list_ids("c").is_empty());
    }
}

#[test]
fn a_removed_document_is_gone_under_both_names() {
    let start = || vec![id_file("a:b", "a:b", "old"), id_file("x|y", "x|y", "kept")];
    let mut idx = IdIndex::new(Vec::new(), start());
    idx.set("c", "a:b", "new");
    let files = save(start(), idx.flush_write_buf());
    assert_eq!(files.len(), 3);
    idx.remove("c", "a:b");
    let changes = idx.flush_write_buf();
    assert_eq!(changes[0].leaf, "a%3Ab");
    assert_eq!(changes[0].old_leaf, Some("a:b".to_string()));
    assert_eq!(changes[0].hash, None);
    let again = IdIndex::new(Vec::new(), save(files, changes));
    assert_eq!(again.get("c", "a:b"), None);
    assert_eq!(again.get("c", "x|y"), Some("kept".to_string()));
    assert_eq!(again.list_ids("c"), vec!["x|y"]);
}

#[test]
fn removing_a_document_leaves_the_file_of_another() {
    // The name of one document is the id of the other, in the same directory.
    let (one, other) = ("d0*x", "d0%2Ax");
    assert_eq!(encode_id(one), other);
    assert_eq!(id_shard(one), id_shard(other));
    let mut idx = IdIndex::new(Vec::new(), Vec::new());
    idx.set("c", one, "h1");
    idx.set("c", other, "h2");
    let files = save(Vec::new(), idx.flush_write_buf());
    idx.remove("c", other);
    let changes = idx.flush_write_buf();
    assert_eq!(changes[0].old_leaf, None);
    let again = IdIndex::new(Vec::new(), save(files, changes));
    assert_eq!(again.get("c", one), Some("h1".to_string()));
    assert_eq!(again.get("c", other), None);
}

#[test]
fn unfinished_index_files_are_passed_over() {
    let f = IdFile {
        coll: "c".to_string(),
        shard: "tmp".to_string(),
        leaf: "a".to_string(),
        content: "h".to_string(),
    };
    assert_eq!(IdIndex::new(Vec::new(), vec![f]).list_ids("c"), Vec::<String>::new());
}

#[test]
fn an_id_may_end_like_an_unfinished_file() {
    let mut idx = IdIndex::new(Vec::new(), Vec::new());
    idx.set("files", "report.tmp", "h1");
    let files = save(Vec::new(), idx.flush_write_buf());
    let again = IdIndex::new(Vec::new(), files);
    assert_eq!(again.get("files", "report.tmp"), Some("h1".to_string()));
    assert_eq!(again.list_ids("files"), vec!["report.tmp"]);
}

#[test]
fn directories_are_collections() {
    let idx = IdIndex::new(vec!["b".to_string(), "a".to_string()], Vec::new());
    assert_eq!(idx.collections(), vec!["b", "a"]);
    assert_eq!(idx.list_ids("b"), Vec::<String>::new());
}

#[test]
fn collections_of_an_index() {
    let mut idx = IdIndex::in_memory();
    idx.set("b", "1", "h");
    idx.set("a", "1", "h");
    assert_eq!(idx.collections(), vec!["a", "b"]);
    idx.remove("a", "1");
    assert_eq!(idx.collections(), vec!["b"]);
    let mut disk = IdIndex::new(Vec::new(), Vec::new());
    disk.set("b", "1", "h");
    disk.remove("b", "1");
    assert_eq!(disk.collections(), vec!["b"]);
}

#[test]
fn ranks_of_values() {
    assert_eq!(num(-0.0).order(&num(0.0)), Order::Less);
    assert!(num(0.0).equals(&num(-0.0)));
    assert_eq!(num(f64::NAN).order(&num(f64::INFINITY)), Order::Greater);
    assert_eq!(num(-2.5).order(&num(-1.5)), Order::Less);
    assert!(OrderedValue::of(&json("1")).equals(&OrderedValue::of(&json("1.0"))));
    assert!(!num(f64::NAN).equals(&num(f64::NAN)));
    assert_eq!(OrderedValue::of(&json("[1,2]")).order(&OrderedValue::of(&json("[1,3]"))), Order::Less);
    assert_eq!(OrderedValue::of(&json("[1]")).order(&OrderedValue::of(&json("[1,0]"))), Order::Less);
    assert_eq!(
        OrderedValue::of(&json(r#"{"a":1}"#)).order(&OrderedValue::of(&json(r#"{"b":2}"#))),
        Order::Equal
    );
    assert_eq!(OrderedValue::of(&json("[]")).order(&OrderedValue::of(&json("{}"))), Order::Less);
    assert_eq!(OrderedValue::of(&json(r#""z""#)).order(&OrderedValue::of(&json("[]"))), Order::Less);
}

#[test]
fn sorted_index_removes_and_keeps_order() {
    let mut idx = SortedIndexes::new();
    assert!(idx.is_empty());
    assert!(!idx.has("c", "f"));
    idx.insert("c", "f", &json("1"), "x");
    assert!(idx.top_k_asc("c", "f", 10).is_empty());
    idx.ensure("c", "f");
    assert!(idx.has("c", "f"));
    assert!(!idx.is_empty());
    idx.insert("c", "f", &json("2"), "b");
    idx.insert("c", "f", &json("1"), "a1");
    idx.insert("c", "f", &json("1.0"), "a2");
    assert_eq!(idx.top_k_asc("c", "f", 10), vec!["a1", "a2", "b"]);
    assert_eq!(idx.top_k_desc("c", "f", 10), vec!["b", "a1", "a2"]);
    idx.remove("c", "f", &json("1"), "a1");
    assert_eq!(idx.top_k_asc("c", "f", 10), vec!["a2", "b"]);
    idx.remove("c", "f", &json("1"), "a2");
    idx.remove("c", "f", &json("7"), "none");
    assert_eq!(idx.top_k_asc("c", "f", 10), vec!["b"]);
}
