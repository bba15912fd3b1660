use nedb_engine::db::{DbFiles, PutOp};
use nedb_engine::digest::blake2b;
use nedb_engine::index::IdFile;
use nedb_engine::json::{parse, to_text, JsonValue, Number};
use nedb_engine::segment::SegmentFile;
use nedb_engine::store::LooseFile;
use nedb_engine::{Db, Dek, Node};

fn json(s: &str) -> JsonValue {
    parse(s.as_bytes()).unwrap()
}

fn no_files() -> DbFiles {
    DbFiles {
        loose: Vec::new(),
        segments: None,
        ids: Vec::new(),
        colls: Vec::new(),
        edges: Vec::new(),
        manifest: None,
        aof: None,
    }
}

fn open_new() -> Db {
    Db::open(no_files(), None).unwrap()
}

/// What files hold once everything is saved.
fn save(db: &mut Db) -> DbFiles {
    let (changes, manifest) = db.flush_all();
    let ids = changes
        .into_iter()
        .filter_map(|c| {
            c.hash.map(|h| IdFile { coll: c.coll, shard: c.shard, leaf: c.leaf, content: h })
        })
        .collect();
    let objects = db.objects();
    let loose = (0..objects.loose_count())
        .map(|i| {
            let (hash, content) = objects.loose_at(i);
            LooseFile {
                prefix: hash[..2].to_string(),
                name: hash[2..].to_string(),
                content: content.clone(),
            }
        })
        .collect();
    let segments = objects.segments().map(|fs| {
        fs.iter()
            .map(|f| SegmentFile { id: f.id, data: f.data.clone(), sidecar: f.sidecar.clone() })
            .collect()
    });
    let colls = db.id_index().collections();
    DbFiles { loose, segments, ids, colls, edges: db.graph().edges().clone(), manifest, aof: None }
}

fn put(db: &mut Db, coll: &str, id: &str, doc: &str) -> Node {
    db.put(coll, id, json(doc), vec![], None, None).unwrap()
}

fn field(n: &Node, key: &str) -> u64 {
    n.data.get(key).unwrap().as_u64().unwrap()
}

fn heights(nodes: &[Node]) -> Vec<u64> {
    nodes.iter().filter_map(|n| n.data.get("height").and_then(|v| v.as_u64())).collect()
}

fn clock(t: &str) -> Number {
    Number::from_literal(t).unwrap()
}

#[test]
fn put_and_get() {
    let mut db = open_new();
    db.put(
        "blocks",
        "618000",
        json(r#"{"height": 618000, "hash": "0000abc"}"#),
        vec![],
        None,
        None,
    )
    .unwrap();
    let node = db.get("blocks", "618000").unwrap();
    assert_eq!(node.id, "618000");
    assert_eq!(field(&node, "height"), 618000);
}

#[test]
fn order_by_with_sorted_index() {
    let mut db = open_new();
    db.create_sorted_index("blocks", "height");
    for h in [3u64, 1, 5, 2, 4] {
        put(&mut db, "blocks", &h.to_string(), &format!(r#"{{"height": {}}}"#, h));
    }
    let asc = db.order_by_asc("blocks", "height", 3);
    assert_eq!(heights(&asc), vec![1, 2, 3]);
}

#[test]
fn causal_trace() {
    let mut db = open_new();
    let a = put(&mut db, "ops", "a", r#"{"op": "create"}"#);
    let b = db
        .put("ops", "b", json(r#"{"op": "transfer"}"#), vec![a.hash.clone()], None, None)
        .unwrap();
    let c =
        db.put("ops", "c", json(r#"{"op": "burn"}"#), vec![b.hash.clone()], None, None).unwrap();

    let trace = db.trace(&c.hash, false, 10);
    assert_eq!(trace.len(), 3);
    let back = db.trace(&a.hash, true, 10);
    assert_eq!(back.iter().map(|n| n.id.as_str()).collect::<Vec<_>>(), vec!["a", "b", "c"]);
}

#[test]
fn db_as_of() {
    let mut db = open_new();
    let v1 = put(&mut db, "docs", "x", r#"{"v": 1}"#);
    let _v2 = put(&mut db, "docs", "x", r#"{"v": 2}"#);

    let at_v1 = db.get_as_of("docs", "x", v1.seq).unwrap();
    assert_eq!(field(&at_v1, "v"), 1);
    let current = db.get("docs", "x").unwrap();
    assert_eq!(field(&current, "v"), 2);
}

#[test]
fn versions_name_the_one_before() {
    let mut db = open_new();
    let a = put(&mut db, "c", "x", r#"{"v": 1}"#);
    let b = put(&mut db, "c", "x", r#"{"v": 2}"#);
    assert_eq!((a.seq, b.seq), (0, 1));
    assert_eq!(a.prev, None);
    assert_eq!(b.prev, Some(a.hash.clone()));
    assert_eq!(to_text(&db.get_by_hash(&a.hash).unwrap().data), r#"{"v":1}"#);
    assert_eq!(db.seq(), 2);
}

#[test]
fn history_stays_when_a_document_is_deleted() {
    let mut db = open_new();
    let a = put(&mut db, "c", "x", r#"{"v": 1}"#);
    put(&mut db, "c", "y", r#"{"v": 2}"#);
    assert!(db.delete("c", "x").unwrap());
    assert!(db.get("c", "x").is_none());
    assert_eq!(db.list_ids("c"), vec!["y"]);
    assert_eq!(db.list("c").len(), 1);
    assert_eq!(field(&db.get_by_hash(&a.hash).unwrap(), "v"), 1);
    assert!(!db.delete("c", "x").unwrap());
    assert_eq!(db.seq(), 3);
}

#[test]
fn a_deletion_is_noted() {
    let mut db = Db::in_memory();
    let a = db.put_at("c", "x", json("{}"), vec![], None, None, clock("1.0")).unwrap();
    db.delete_at("c", "x", clock("2.0")).unwrap();
    let (ok, bad) = db.verify();
    assert_eq!((ok, bad.len()), (2, 0));
    let notes = db.log(10);
    assert_eq!(notes[0].id, "_del_x");
    assert_eq!(notes[0].prev, Some(a.hash.clone()));
    let want = format!(r#"{{"_deleted":"x","_prev":"{}"}}"#, a.hash);
    assert_eq!(to_text(&notes[0].data), want);
}

#[test]
fn the_head_chains_all_writes() {
    let mut db = Db::in_memory();
    assert_eq!(db.head(), "");
    let a = put(&mut db, "c", "x", "{}");
    let mut bytes = Vec::new();
    bytes.extend_from_slice(&0u64.to_le_bytes());
    bytes.extend_from_slice(a.hash.as_bytes());
    let h1 = blake2b(&bytes);
    assert_eq!(db.head(), h1);
    let b = put(&mut db, "c", "y", "{}");
    let mut bytes = h1.into_bytes();
    bytes.extend_from_slice(&1u64.to_le_bytes());
    bytes.extend_from_slice(b.hash.as_bytes());
    assert_eq!(db.head(), blake2b(&bytes));
}

#[test]
fn a_saved_database_is_read_again() {
    let mut db = open_new();
    assert!(!db.startup_ready());
    let a = put(&mut db, "c", "x:1", r#"{"v": 1}"#);
    db.put("c", "y", json(r#"{"v": 2}"#), vec![a.hash.clone()], None, None).unwrap();
    let head = db.head();
    let files = save(&mut db);
    assert!(files.manifest.is_some());
    let again = Db::open(files, None).unwrap();
    assert!(again.startup_ready());
    assert_eq!(again.head(), head);
    assert_eq!(again.seq(), 2);
    assert_eq!(field(&again.get("c", "x:1").unwrap(), "v"), 1);
    assert_eq!(again.trace(&again.get("c", "y").unwrap().hash, false, 10).len(), 2);
    assert_eq!(again.verify(), (2, vec![]));
}

#[test]
fn without_a_manifest_objects_are_scanned() {
    let mut db = open_new();
    put(&mut db, "c", "x", r#"{"v": 1}"#);
    put(&mut db, "c", "y", r#"{"v": 2}"#);
    let mut files = save(&mut db);
    files.manifest = None;
    let mut again = Db::open(files, None).unwrap();
    assert!(!again.startup_ready());
    assert_eq!(again.seq(), 0);
    let manifest = again.start_cold_scan().unwrap();
    assert!(again.startup_ready());
    assert_eq!(again.seq(), 2);
    let m = parse(&manifest).unwrap();
    assert_eq!(m.get("seq").unwrap().as_u64(), Some(2));
    assert_eq!(m.get("head").unwrap().as_str(), Some(again.head().as_str()));
    assert!(again.start_cold_scan().is_none());
}

#[test]
fn objects_may_be_scanned_in_pieces() {
    let mut db = open_new();
    put(&mut db, "c", "x", r#"{"v": 1}"#);
    put(&mut db, "c", "y", r#"{"v": 2}"#);
    let mut files = save(&mut db);
    files.manifest = None;
    let mut whole = Db::open(files, None).unwrap();
    let mut files = save(&mut db);
    files.manifest = None;
    let mut pieces = Db::open(files, None).unwrap();
    let manifest = whole.start_cold_scan().unwrap();
    let hashes = pieces.objects().all_hashes();
    let nodes = hashes.iter().filter_map(|h| pieces.get_by_hash(h)).collect();
    assert_eq!(pieces.finish_cold_scan(&hashes, &nodes), Some(manifest));
    assert_eq!((pieces.seq(), pieces.head()), (2, whole.head()));
    assert!(pieces.startup_ready());
    assert_eq!(pieces.finish_cold_scan(&hashes, &nodes), None);
}

#[test]
fn a_broken_manifest_is_not_taken_over() {
    for text in ["", "nonsense", r#"{"seq": 1}"#, r#"{"seq": -1, "head": "h"}"#, r#"{"head": "h"}"#] {
        let mut files = no_files();
        files.manifest = Some(text.as_bytes().to_vec());
        let db = Db::open(files, None).unwrap();
        assert!(!db.startup_ready(), "{}", text);
    }
    let mut files = no_files();
    files.manifest = Some(br#"{"head":"abc","seq":41}"#.to_vec());
    let db = Db::open(files, None).unwrap();
    assert!(db.startup_ready());
    assert_eq!(db.seq(), 41);
    assert_eq!(db.head(), "abc");
}

#[test]
fn the_manifest_is_saved_when_it_changed() {
    let mut db = open_new();
    assert!(db.flush_manifest_if_dirty().is_none());
    put(&mut db, "c", "x", "{}");
    let m = db.flush_manifest_if_dirty().unwrap();
    assert_eq!(String::from_utf8(m).unwrap(), format!(r#"{{"seq":1,"head":"{}"}}"#, db.head()));
    assert!(db.flush_manifest_if_dirty().is_none());
    assert!(db.flush_manifest().is_some());
    assert!(Db::in_memory().flush_manifest().is_none());
}

#[test]
fn opening_again_and_again_uses_up_no_number() {
    let mut db = open_new();
    put(&mut db, "c", "x", "{}");
    for _ in 0..3 {
        let (seq, head) = (db.seq(), db.head());
        let mut files = no_files();
        files.manifest = db.flush_manifest();
        db = Db::open(files, None).unwrap();
        assert_eq!((db.seq(), db.head()), (seq, head));
        assert!(db.startup_ready());
    }
    assert_eq!(put(&mut db, "c", "y", "{}").seq, 1);
}

#[test]
fn a_collection_outlives_its_documents() {
    let mut db = open_new();
    put(&mut db, "blocks", "1", "{}");
    put(&mut db, "other", "1", "{}");
    assert!(db.delete("blocks", "1").unwrap());
    assert_eq!(db.id_index().collections(), vec!["blocks", "other"]);
    let files = save(&mut db);
    let again = Db::open(files, None).unwrap();
    assert_eq!(again.id_index().collections(), vec!["blocks", "other"]);
    assert_eq!(again.list_ids("blocks"), Vec::<String>::new());
}

#[test]
fn an_id_that_ends_like_an_unfinished_file_is_saved() {
    let mut db = open_new();
    put(&mut db, "c", "x.tmp", r#"{"v": 1}"#);
    let files = save(&mut db);
    let again = Db::open(files, None).unwrap();
    assert_eq!(field(&again.get("c", "x.tmp").unwrap(), "v"), 1);
}

#[test]
fn the_log_starts_at_the_last_write() {
    let mut db = open_new();
    for v in 0..20 {
        put(&mut db, "c", &format!("{}", v), "{}");
    }
    let numbers = |n: usize| db.log(n).iter().map(|x| x.seq).collect::<Vec<_>>();
    assert_eq!(numbers(3), vec![19, 18, 17]);
    assert_eq!(numbers(1), vec![19]);
    assert_eq!(numbers(100).len(), 20);
}

#[test]
fn a_scan_leaves_indexes_exact() {
    let mut db = open_new();
    put(&mut db, "c", "x", r#"{"height": 1}"#);
    put(&mut db, "c", "x", r#"{"height": 2}"#);
    put(&mut db, "c", "y", r#"{"height": 3}"#);
    db.delete("c", "y").unwrap();
    let mut files = save(&mut db);
    files.manifest = None;
    let mut again = Db::open(files, None).unwrap();
    again.create_sorted_index("c", "height");
    again.start_cold_scan().unwrap();
    assert_eq!(heights(&again.order_by_asc("c", "height", 10)), vec![2]);
}

#[test]
fn a_deleted_document_is_read_at_its_time() {
    let mut db = open_new();
    put(&mut db, "c", "x", r#"{"v": 0}"#);
    put(&mut db, "c", "x", r#"{"v": 1}"#);
    assert!(db.delete("c", "x").unwrap());
    put(&mut db, "c", "x", r#"{"v": 3}"#);
    assert!(db.delete("c", "x").unwrap());
    let past = |db: &Db| {
        (0..6u64).map(|t| db.get_as_of("c", "x", t).map(|n| field(&n, "v"))).collect::<Vec<_>>()
    };
    assert_eq!(past(&db), vec![Some(0), Some(1), None, Some(3), None, None]);
    let files = save(&mut db);
    let again = Db::open(files, None).unwrap();
    assert_eq!(past(&again), vec![Some(0), Some(1), None, Some(3), None, None]);
    assert_eq!(again.list_as_of("c", 1).len(), 1);
    assert_eq!(again.list_as_of("c", 2).len(), 0);
}

#[test]
fn an_id_may_look_like_the_note_of_a_deletion() {
    let mut db = open_new();
    put(&mut db, "c", "x", r#"{"v": 0}"#);
    put(&mut db, "c", "_del_x", r#"{"v": 1}"#);
    put(&mut db, "c", "_del_x", r#"{"v": 2}"#);
    assert_eq!(field(&db.get_as_of("c", "x", 0).unwrap(), "v"), 0);
    assert_eq!(field(&db.get_as_of("c", "_del_x", 1).unwrap(), "v"), 1);
    assert!(db.get_as_of("c", "_del_x", 0).is_none());
    assert_eq!(db.list_as_of("c", 2).iter().map(|n| n.id.as_str()).collect::<Vec<_>>(), vec!["_del_x", "x"]);
}

fn op(coll: &str, id: &str, doc: &str) -> PutOp {
    (coll.to_string(), id.to_string(), json(doc), vec![], None, None)
}

#[test]
fn a_batch_is_written_in_order() {
    let mut db = open_new();
    put(&mut db, "c", "x", r#"{"v": 0}"#);
    let nodes = db
        .put_batch(vec![op("c", "x", r#"{"v": 1}"#), op("c", "y", r#"{"v": 2}"#)])
        .unwrap();
    assert_eq!(nodes.iter().map(|n| n.seq).collect::<Vec<_>>(), vec![1, 2]);
    assert_eq!(field(&db.get("c", "x").unwrap(), "v"), 1);
    assert_eq!(field(&db.get("c", "y").unwrap(), "v"), 2);
    assert_eq!(db.seq(), 3);
    assert_eq!(db.put_batch(vec![]).unwrap().len(), 0);
}

#[test]
fn a_batch_on_one_document_follows_the_version_before_it() {
    let mut db = open_new();
    let a = put(&mut db, "c", "x", r#"{"v": 0}"#);
    let nodes = db
        .put_batch(vec![op("c", "x", r#"{"v": 1}"#), op("c", "x", r#"{"v": 2}"#)])
        .unwrap();
    assert_eq!(nodes[0].prev, Some(a.hash.clone()));
    assert_eq!(nodes[1].prev, Some(a.hash.clone()));
    assert_eq!(field(&db.get("c", "x").unwrap(), "v"), 2);
}

#[test]
fn sorted_indexes_hold_current_versions_only() {
    let mut db = open_new();
    db.create_sorted_index("c", "height");
    put(&mut db, "c", "x", r#"{"height": 5}"#);
    put(&mut db, "c", "y", r#"{"height": 3}"#);
    put(&mut db, "c", "x", r#"{"height": 1}"#);
    put(&mut db, "c", "z", r#"{"other": 1}"#);
    assert_eq!(heights(&db.order_by_asc("c", "height", 10)), vec![1, 3]);
    assert_eq!(heights(&db.order_by_desc("c", "height", 10)), vec![3, 1]);
    db.put_batch(vec![op("c", "y", r#"{"height": 0}"#)]).unwrap();
    assert_eq!(heights(&db.order_by_asc("c", "height", 10)), vec![0, 1]);
    db.delete("c", "x").unwrap();
    assert_eq!(heights(&db.order_by_asc("c", "height", 10)), vec![0]);
}

#[test]
fn a_new_index_takes_in_what_is_there() {
    let mut db = open_new();
    put(&mut db, "c", "x", r#"{"height": 2}"#);
    put(&mut db, "c", "y", r#"{"height": 1}"#);
    db.create_sorted_index("c", "height");
    assert_eq!(heights(&db.order_by_asc("c", "height", 10)), vec![1, 2]);
    assert_eq!(heights(&db.order_by_desc("c", "height", 1)), vec![2]);
}

#[test]
fn ordering_without_an_index_sorts() {
    let mut db = open_new();
    put(&mut db, "c", "a", r#"{"height": 2}"#);
    put(&mut db, "c", "b", r#"{"height": 1}"#);
    put(&mut db, "c", "c", r#"{"height": 1}"#);
    put(&mut db, "c", "d", "{}");
    let ids = |ns: Vec<Node>| ns.into_iter().map(|n| n.id).collect::<Vec<_>>();
    assert_eq!(ids(db.order_by_asc("c", "height", 10)), vec!["d", "b", "c", "a"]);
    assert_eq!(ids(db.order_by_desc("c", "height", 3)), vec!["a", "b", "c"]);
}

#[test]
fn time_travel_goes_back_through_all_versions() {
    let mut db = open_new();
    for v in 0..5 {
        put(&mut db, "c", "x", &format!(r#"{{"v": {}}}"#, v));
        put(&mut db, "c", "other", "{}");
    }
    for t in 0..10u64 {
        assert_eq!(field(&db.get_as_of("c", "x", t).unwrap(), "v"), t / 2);
    }
    assert!(db.get_as_of("c", "other", 0).is_none());
    assert!(db.get_as_of("c", "none", 100).is_none());
}

#[test]
fn compaction_keeps_current_versions() {
    let mut files = no_files();
    files.segments = Some(Vec::new());
    let mut db = Db::open(files, None).unwrap();
    let old = put(&mut db, "c", "x", r#"{"v": 1}"#);
    put(&mut db, "c", "x", r#"{"v": 2}"#);
    let stats = db.compact().unwrap();
    assert_eq!((stats.live_objects, stats.dropped_objects), (1, 1));
    assert_eq!(field(&db.get("c", "x").unwrap(), "v"), 2);
    assert!(db.get_by_hash(&old.hash).is_none());
}

#[test]
fn encrypted_databases() {
    let dek = Dek::from_tmk(&[3u8; 32], b"db");
    let mut db = Db::open(no_files(), Some(dek)).unwrap();
    put(&mut db, "c", "x", r#"{"v": 7}"#);
    let files = save(&mut db);
    let again = Db::open(files, Some(dek)).unwrap();
    assert_eq!(field(&again.get("c", "x").unwrap(), "v"), 7);
}

#[test]
fn numbers_run_out() {
    let mut files = no_files();
    files.manifest = Some(format!(r#"{{"seq":{},"head":""}}"#, u64::MAX).into_bytes());
    let mut db = Db::open(files, None).unwrap();
    assert_eq!(db.seq(), u64::MAX);
    let e = db.put("c", "x", json("{}"), vec![], None, None).unwrap_err();
    assert_eq!(e.message(), "no sequence number left");
    assert!(db.put_batch(vec![op("c", "x", "{}")]).is_err());
    assert!(db.get("c", "x").is_none());
}

#[test]
fn same_content_has_the_same_hash() {
    let mut a = Db::in_memory();
    let mut b = Db::in_memory();
    let x = a.put_at("c", "x", json(r#"{"b":1,"a":2}"#), vec![], None, None, clock("5.5")).unwrap();
    let y = b.put_at("c", "x", json(r#"{"a":2,"b":1}"#), vec![], None, None, clock("5.50")).unwrap();
    assert_eq!(x.hash, y.hash);
    assert_eq!(a.head(), b.head());
}

#[test]
fn packed_and_loose_databases_answer_alike() {
    let mut loose = open_new();
    let mut files = no_files();
    files.segments = Some(Vec::new());
    let mut packed = Db::open(files, None).unwrap();
    for db in [&mut loose, &mut packed] {
        db.create_sorted_index("c", "height");
        for (k, h) in [5u64, 3, 9].iter().enumerate() {
            let ts = clock(&format!("{}.5", k));
            let doc = json(&format!(r#"{{"height": {}}}"#, h));
            db.put_at("c", &format!("d{}", k % 2), doc, vec![], None, None, ts).unwrap();
        }
    }
    assert_eq!(loose.head(), packed.head());
    assert_eq!(loose.seq(), packed.seq());
    assert_eq!(heights(&loose.order_by_asc("c", "height", 9)), vec![3, 9]);
    assert_eq!(heights(&packed.order_by_asc("c", "height", 9)), vec![3, 9]);
    for t in 0..3 {
        let a = loose.get_as_of("c", "d0", t).unwrap();
        let b = packed.get_as_of("c", "d0", t).unwrap();
        assert_eq!((a.hash, a.seq), (b.hash, b.seq));
    }
    assert_eq!(loose.objects().loose_count(), 3);
    assert_eq!(packed.objects().loose_count(), 0);
}

#[test]
fn deletions_and_batches_leave_the_past_alone() {
    let mut db = Db::in_memory();
    let x1 = put(&mut db, "c", "x", r#"{"v": 1}"#);
    let x2 = put(&mut db, "c", "x", r#"{"v": 2}"#);
    put(&mut db, "c", "y", r#"{"v": 3}"#);
    let past = |db: &Db| {
        [x1.seq, x2.seq].map(|t| db.get_as_of("c", "x", t).map(|n| (n.hash.clone(), field(&n, "v"))))
    };
    let before = past(&db);
    assert_eq!(before[0], Some((x1.hash.clone(), 1)));
    assert_eq!(before[1], Some((x2.hash.clone(), 2)));
    assert!(db.delete("c", "y").unwrap());
    assert_eq!(past(&db), before);
    let ops = vec![op("c", "x", r#"{"v": 4}"#), op("c", "x", r#"{"v": 5}"#), op("c", "z", "{}")];
    db.put_batch(ops).unwrap();
    assert_eq!(past(&db), before);
    assert!(db.get_as_of("c", "z", x2.seq).is_none());
    assert_eq!(field(&db.get("c", "x").unwrap(), "v"), 5);
}

#[test]
fn a_manifest_may_be_written_as_an_array() {
    let open = |text: &str| {
        let mut files = no_files();
        files.manifest = Some(text.as_bytes().to_vec());
        Db::open(files, None).unwrap()
    };
    let db = open(r#"[41,"abc"]"#);
    assert!(db.startup_ready());
    assert_eq!((db.seq(), db.head()), (41, "abc".to_string()));
    for text in [r#"[41]"#, r#"[41,"abc",1]"#, r#"["abc",41]"#, "[]"] {
        assert!(!open(text).startup_ready(), "{}", text);
    }
}

#[test]
fn puts_leave_the_past_alone_though_a_version_is_damaged() {
    let mut db = open_new();
    let x1 = put(&mut db, "c", "x", r#"{"v": 1}"#);
    let x2 = put(&mut db, "c", "x", r#"{"v": 2}"#);
    let y = put(&mut db, "c", "y", r#"{"v": 3}"#);
    let mut files = save(&mut db);
    for f in files.loose.iter_mut() {
        if format!("{}{}", f.prefix, f.name) == y.hash {
            f.content[4] ^= 0xff;
        }
    }
    let mut db = Db::open(files, None).unwrap();
    let past = |db: &Db| {
        let at = |c: &str, i: &str, t: u64| db.get_as_of(c, i, t).map(|n| n.hash);
        [at("c", "x", x1.seq), at("c", "x", x2.seq), at("c", "y", y.seq)]
    };
    let before = past(&db);
    assert_eq!(before, [Some(x1.hash.clone()), Some(x2.hash.clone()), None]);
    for k in 0..4 {
        put(&mut db, "c", "x", &format!(r#"{{"v": {}}}"#, k));
        put(&mut db, "c", "y", &format!(r#"{{"w": {}}}"#, k));
        assert_eq!(past(&db), before);
    }
    assert_eq!(field(&db.get("c", "y").unwrap(), "w"), 3);
}

#[test]
fn files_are_checked_as_they_stand() {
    let mut db = open_new();
    let a = put(&mut db, "c", "a", "{}");
    put(&mut db, "c", "b", "{}");
    let files = save(&mut db);
    assert_eq!(db.verify_files(files.loose, None), (2, vec![]));
    let mut files = save(&mut db);
    for f in files.loose.iter_mut() {
        if format!("{}{}", f.prefix, f.name) == a.hash {
            f.content[4] ^= 0xff;
        }
    }
    assert_eq!(db.verify(), (2, vec![]));
    assert_eq!(db.verify_files(files.loose, None), (1, vec![a.hash]));
    assert_eq!(db.verify_files(Vec::new(), None), (0, vec![]));
}

#[test]
fn a_document_may_look_like_raw_json() {
    let text = r#"{"$serde_json::private::RawValue":"1"}"#;
    let mut db = open_new();
    put(&mut db, "c", "x", text);
    assert_eq!(to_text(&db.get("c", "x").unwrap().data), text);
    let again = Db::open(save(&mut db), None).unwrap();
    assert_eq!(to_text(&again.get("c", "x").unwrap().data), text);
}
