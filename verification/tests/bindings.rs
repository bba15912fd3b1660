use nedb_engine::bindings::{CoreError, NedbCore};
use nedb_engine::db::DbFiles;
use nedb_engine::json::{parse, to_text};
use nedb_engine::nql::Answer;
use nedb_engine::segment::SegmentFile;

fn field(text: &str, key: &str) -> String {
    to_text(parse(text.as_bytes()).unwrap().get(key).unwrap())
}

#[test]
fn documents_as_text() {
    let mut core = NedbCore::new();
    let text = core.put("c", "x", r#"{"v": 1}"#).unwrap();
    assert_eq!(field(&text, "v"), "1");
    assert_eq!(field(&text, "_id"), r#""x""#);
    assert_eq!(field(&text, "_coll"), r#""c""#);
    assert_eq!(field(&text, "_seq"), "0");
    assert_eq!(core.get("c", "x"), Some(text.clone()));
    let hash = core.db().get("c", "x").unwrap().hash;
    assert_eq!(
        text,
        format!(r#"{{"_coll":"c","_hash":"{}","_id":"x","_seq":0,"v":1}}"#, hash)
    );
    core.put_ex("c", "x", r#"{"v": 2}"#, Some("client"), Some(7), None).unwrap();
    assert_eq!(field(&core.get("c", "x").unwrap(), "v"), "2");
    assert_eq!(core.get_as_of("c", "x", 0), Some(text));
    assert_eq!(core.seq(), 1);
    core.delete("c", "x").unwrap();
    assert_eq!(core.get("c", "x"), None);
    core.delete_ex("c", "x", None, None, Some("k")).unwrap();
    assert!(core.verify());
    assert!(core.verify_files(Vec::new(), None));
    assert_eq!(core.head().len(), 64);
}

#[test]
fn a_snapshot_is_read_at_the_last_number() {
    let mut core = NedbCore::new();
    assert_eq!(core.seq(), 0);
    core.create_index("users", "status", "eq");
    core.put("users", "alice", r#"{"name": "Alice", "age": 31, "status": "active"}"#).unwrap();
    let snap = core.seq();
    core.put("users", "alice", r#"{"name": "Alice", "age": 32, "status": "retired"}"#).unwrap();
    assert_eq!(field(&core.get_as_of("users", "alice", snap).unwrap(), "age"), "31");
    assert_eq!(field(&core.get("users", "alice").unwrap(), "age"), "32");
}

#[test]
fn documents_name_their_causes() {
    let mut core = NedbCore::new();
    core.put("c", "a", "{}").unwrap();
    let hash = core.db().get("c", "a").unwrap().hash;
    let doc = format!(
        r#"{{"caused_by": ["{}", 5], "valid_from": "2025", "valid_to": 6}}"#,
        hash
    );
    core.put("c", "b", &doc).unwrap();
    let b = core.db().get("c", "b").unwrap();
    assert_eq!(b.caused_by, vec![hash]);
    assert_eq!(b.valid_from.as_deref(), Some("2025"));
    assert_eq!(b.valid_to, None);
    assert_eq!(core.db().trace(&b.hash, false, 10).len(), 2);
}

#[test]
fn what_goes_wrong() {
    let mut core = NedbCore::new();
    assert!(matches!(core.put("c", "x", "{nonsense"), Err(CoreError::Json)));
    assert!(matches!(core.query("SELECT"), Err(CoreError::Nql(_))));
    let files = DbFiles {
        loose: vec![],
        segments: None,
        ids: vec![],
        colls: vec![],
        edges: vec![],
        manifest: Some(format!(r#"{{"seq":{},"head":""}}"#, u64::MAX).into_bytes()),
        aof: None,
    };
    let mut full = NedbCore::open(files).unwrap();
    assert!(matches!(full.put("c", "x", "{}"), Err(CoreError::Store(_))));
}

#[test]
fn links_are_found_from_both_ends() {
    let mut core = NedbCore::new();
    core.link("alice", "follows", "bob").unwrap();
    core.link("alice", "follows", "carol").unwrap();
    core.link("dave", "follows", "bob").unwrap();
    core.link("alice", "blocks", "eve").unwrap();
    assert_eq!(core.neighbors("alice", "follows"), vec!["bob", "carol"]);
    assert_eq!(core.inbound("bob", "follows"), vec!["alice", "dave"]);
    assert_eq!(core.neighbors("bob", "follows"), Vec::<String>::new());
    assert_eq!(core.neighbors_as_of("alice", "follows", 0), vec!["bob"]);
    assert_eq!(core.inbound_as_of("bob", "follows", 1), vec!["alice"]);
    assert_eq!(core.inbound_as_of("bob", "follows", 2), vec!["alice", "dave"]);
    core.unlink("alice", "follows", "bob").unwrap();
    assert_eq!(core.neighbors("alice", "follows"), vec!["carol"]);
    assert_eq!(core.neighbors_as_of("alice", "follows", 0), vec!["bob"]);
    assert_eq!(core.neighbors_as_of("alice", "follows", 3), vec!["bob", "carol"]);
    assert_eq!(core.neighbors_as_of("alice", "follows", 4), vec!["carol"]);
}

#[test]
fn links_time_travel_past_their_end() {
    let mut core = NedbCore::new();
    core.link("users:alice", "follows", "users:bob").unwrap();
    core.unlink("users:alice", "follows", "users:bob").unwrap();
    assert_eq!(core.neighbors("users:alice", "follows"), Vec::<String>::new());
    assert_eq!(core.neighbors_as_of("users:alice", "follows", 0), vec!["users:bob"]);
    assert_eq!(core.inbound_as_of("users:bob", "follows", 0), vec!["users:alice"]);
    assert_eq!(core.neighbors_as_of("users:alice", "follows", 1), Vec::<String>::new());
    core.link("users:alice", "follows", "users:bob").unwrap();
    core.unlink("users:alice", "follows", "users:bob").unwrap();
    for (t, there) in [(0, true), (1, false), (2, true), (3, false)] {
        let want = if there { vec!["users:bob"] } else { vec![] };
        assert_eq!(core.neighbors_as_of("users:alice", "follows", t), want);
    }
}

#[test]
fn names_with_quotes_cannot_be_asked_for() {
    let mut core = NedbCore::new();
    core.link("a\"b", "r", "c").unwrap();
    assert_eq!(core.neighbors("a\"b", "r"), Vec::<String>::new());
    assert_eq!(core.inbound("c", "r"), vec!["a\"b"]);
}

#[test]
fn linking_twice_is_one_link() {
    let mut core = NedbCore::new();
    core.link("a:1", "r", "b:2").unwrap();
    core.link("a:1", "r", "b:2").unwrap();
    assert_eq!(core.neighbors("a:1", "r"), vec!["b:2"]);
}

#[test]
fn queries_give_rows() {
    let mut core = NedbCore::new();
    core.create_index("c", "v", "eq");
    core.put("c", "a", r#"{"v": 2}"#).unwrap();
    core.put("c", "b", r#"{"v": 1}"#).unwrap();
    match core.query("FROM c ORDER BY v ASC LIMIT 1").unwrap() {
        Answer::Rows(rows) => {
            assert_eq!(rows.len(), 1);
            assert_eq!(rows[0].get("_id").unwrap().as_str(), Some("b"));
        }
        Answer::Totals(_) => panic!("rows expected"),
    }
}

#[test]
fn cores_are_saved_and_opened() {
    let files = DbFiles {
        loose: vec![],
        segments: Some(vec![]),
        ids: vec![],
        colls: vec![],
        edges: vec![],
        manifest: None,
        aof: None,
    };
    let mut core = NedbCore::open(files).unwrap();
    core.put("c", "x", r#"{"v": 1}"#).unwrap();
    let (changes, manifest) = core.flush();
    assert_eq!(changes.len(), 1);
    assert!(manifest.is_some());
    let segments = core.db().objects().segments().unwrap();
    let files = DbFiles {
        loose: vec![],
        segments: Some(
            segments
                .iter()
                .map(|f| SegmentFile { id: f.id, data: f.data.clone(), sidecar: f.sidecar.clone() })
                .collect(),
        ),
        ids: vec![],
        colls: vec![],
        edges: vec![],
        manifest,
        aof: None,
    };
    let again = NedbCore::open(files).unwrap();
    assert_eq!(again.head(), core.head());
    assert!(again.verify());
}
