use nedb_engine::batch::BatchOp;
use nedb_engine::db::DbFiles;
use nedb_engine::json::{parse, to_text, JsonValue};
use nedb_engine::nql::Answer;
use nedb_engine::server::{
    err, node_to_response, secs_to_next_hour, Manager, PutBody, QueryStep, Reply, Step,
};

fn json(s: &str) -> JsonValue {
    parse(s.as_bytes()).unwrap()
}

fn no_files() -> DbFiles {
    DbFiles {
        loose: Vec::new(),
        segments: None,
        ids: Vec::new(),
        colls: Vec::new(),
        edges: Vec::new(),
        manifest: None,
        aof: None,
    }
}

fn served() -> Manager {
    let mut m = Manager::new(None, None);
    m.create_in_memory("main");
    m
}

fn body(r: &Reply) -> String {
    to_text(&r.body)
}

fn done(s: Step) -> Reply {
    match s {
        Step::Done(r) => r,
        Step::Open => panic!("an answer expected"),
    }
}

fn doc(coll: &str, id: &str, text: &str) -> PutBody {
    PutBody {
        coll: coll.to_string(),
        id: id.to_string(),
        doc: json(text),
        caused_by: None,
        valid_from: None,
        valid_to: None,
    }
}

fn put(m: &mut Manager, coll: &str, id: &str, text: &str) -> Reply {
    done(m.put_document(None, "main", &doc(coll, id, text)))
}

fn rows(m: &Manager, nql: &str) -> Vec<JsonValue> {
    match m.query_database(None, "main", nql) {
        QueryStep::Rows(Answer::Rows(rows)) => rows,
        other => panic!("rows expected, got {:?}", other),
    }
}

#[test]
fn errors_are_objects() {
    let r = err(404, "no");
    assert_eq!(r.status, 404);
    assert_eq!(body(&r), r#"{"error":"no"}"#);
}

#[test]
fn requests_need_the_token() {
    let m = Manager::new(None, Some("t0ken".to_string()));
    assert!(!m.check_auth(None));
    assert!(!m.check_auth(Some("t0ken")));
    assert!(!m.check_auth(Some("Bearer t0ke")));
    assert!(m.check_auth(Some("Bearer t0ken")));
    assert!(Manager::new(None, None).check_auth(None));
}

#[test]
fn without_the_token_nothing_happens() {
    let mut m = Manager::new(None, Some("t".to_string()));
    m.create_in_memory("main");
    let want = r#"{"error":"unauthorized"}"#;
    let bad = Some("Bearer x");
    assert_eq!(body(&m.list_databases(bad)), want);
    assert_eq!(body(&done(m.create_database(bad, "x"))), want);
    assert_eq!(body(&m.get_database(bad, "main")), want);
    let (r, gone) = m.drop_database(bad, "main");
    assert_eq!((r.status, body(&r).as_str(), gone), (401, want, false));
    assert_eq!(body(&done(m.put_document(bad, "main", &doc("c", "x", "{}")))), want);
    assert_eq!(body(&m.delete_document(bad, "main", "c", "x")), want);
    assert!(matches!(m.query_database(bad, "main", "FROM c"), QueryStep::Done(r) if r.status == 401));
    assert_eq!(body(&m.create_index(bad, "main", "c", "f", None)), want);
    assert_eq!(body(&m.verify_database(bad, "main")), want);
    assert_eq!(body(&m.verify_files(bad, "main", Vec::new(), None)), want);
    assert_eq!(m.refuse(bad, "main").map(|r| body(&r)), Some(want.to_string()));
    assert_eq!(body(&m.checkpoint(bad, "main")), want);
    assert_eq!(body(&m.get_log(bad, "main", None)), want);
    assert_eq!(body(&done(m.batch_operations(bad, "main", &vec![]))), want);
    assert_eq!(body(&m.subscribe_query(bad, "main", "FROM c").unwrap_err()), want);
    assert_eq!(body(&m.unsubscribe_query(bad, "main", 1)), want);
    assert_eq!(m.get_db("main").unwrap().seq(), 0);
}

#[test]
fn health_names_the_databases() {
    let mut m = served();
    m.create_in_memory("other");
    let r = m.health("9.9");
    assert_eq!(r.status, 200);
    assert_eq!(
        body(&r),
        r#"{"databases":["main","other"],"encrypted":false,"engine":"dag","ok":true,"service":"nedbd","startup_ready":true,"version":"9.9"}"#
    );
}

#[test]
fn databases_are_made_and_dropped() {
    let mut m = Manager::new(None, None);
    assert_eq!(body(&done(m.create_database(None, ""))), r#"{"error":"name is required"}"#);
    assert!(matches!(m.create_database(None, "a"), Step::Open));
    assert_eq!(m.created("a").status, 404);
    m.create_db("a", no_files()).unwrap();
    let r = m.created("a");
    assert_eq!(r.status, 201);
    assert_eq!(body(&r), r#"{"database":{"head":"","name":"a","seq":0}}"#);
    assert_eq!(
        body(&m.list_databases(None)),
        r#"{"databases":[{"collections":[],"head":"","name":"a","seq":0}]}"#
    );
    assert_eq!(
        body(&m.get_database(None, "a")),
        r#"{"collections":[],"head":"","name":"a","seq":0}"#
    );
    let (r, gone) = m.drop_database(None, "a");
    assert_eq!((body(&r).as_str(), gone), (r#"{"dropped":true}"#, true));
    let (r, gone) = m.drop_database(None, "a");
    assert_eq!((body(&r).as_str(), gone), (r#"{"dropped":false}"#, false));
    assert_eq!(body(&m.get_database(None, "a")), r#"{"error":"database not found: a"}"#);
    assert!(m.names().is_empty());
}

#[test]
fn documents_are_written_and_deleted() {
    let mut m = served();
    let r = put(&mut m, "c", "x", r#"{"v": 1}"#);
    assert_eq!(r.status, 200);
    let node = m.get_db("main").unwrap().get("c", "x").unwrap();
    let head = m.get_db("main").unwrap().head();
    assert_eq!(
        body(&r),
        format!(
            r#"{{"doc":{},"head":"{}","ok":true,"seq":1}}"#,
            to_text(&node_to_response(&node)),
            head
        )
    );
    assert_eq!(
        to_text(&node_to_response(&node)),
        format!(r#"{{"_coll":"c","_hash":"{}","_id":"x","_seq":0,"data":{{"v":1}}}}"#, node.hash)
    );
    let r = m.delete_document(None, "main", "c", "x");
    assert_eq!(r.body.get("seq").unwrap().as_u64(), Some(2));
    assert!(body(&r).contains(r#""ok":true"#));
    let r = m.delete_document(None, "main", "c", "x");
    assert!(body(&r).contains(r#""ok":false"#));
    assert_eq!(m.delete_document(None, "none", "c", "x").status, 404);
}

#[test]
fn an_unknown_database_is_opened_to_write() {
    let mut m = served();
    assert!(matches!(m.put_document(None, "new", &doc("c", "x", "{}")), Step::Open));
    assert!(matches!(m.batch_operations(None, "new", &vec![]), Step::Open));
}

#[test]
fn no_writes_while_starting_up() {
    let mut m = Manager::new(None, None);
    m.create_db("main", no_files()).unwrap();
    let r = put(&mut m, "c", "x", "{}");
    assert_eq!(r.status, 503);
    assert!(body(&r).contains("startup in progress"));
    assert_eq!(done(m.batch_operations(None, "main", &vec![])).status, 503);
    assert_eq!(body(&m.delete_document(None, "main", "c", "x")), body(&r));
    assert_eq!(rows(&m, "FROM c").len(), 0);
    assert!(m.start_cold_scan("main").is_none());
    assert_eq!(put(&mut m, "c", "x", "{}").status, 200);
    assert!(m.start_cold_scan("none").is_none());
}

#[test]
fn a_scan_of_a_served_database_is_taken_over() {
    let mut m = Manager::new(None, None);
    m.create_db("main", no_files()).unwrap();
    assert!(m.finish_cold_scan("none", &vec![], &vec![]).is_none());
    assert_eq!(put(&mut m, "c", "x", "{}").status, 503);
    assert!(m.finish_cold_scan("main", &vec![], &vec![]).is_none());
    assert_eq!(put(&mut m, "c", "x", "{}").status, 200);
}

#[test]
fn queries_are_answered() {
    let mut m = served();
    put(&mut m, "c", "x", r#"{"v": 1}"#);
    let found = rows(&m, "FROM c");
    assert_eq!(found.len(), 1);
    let r = m.query_reply("main", found);
    assert_eq!(r.body.get("count").unwrap().as_u64(), Some(1));
    assert_eq!(r.body.get("seq").unwrap().as_u64(), Some(1));
    assert_eq!(m.query_reply("none", vec![]).status, 404);
    assert!(matches!(m.query_database(None, "main", " \n "),
        QueryStep::Done(r) if body(&r) == r#"{"error":"nql is required"}"#));
    assert!(matches!(m.query_database(None, "none", "FROM c"), QueryStep::Done(r) if r.status == 404));
    assert!(matches!(m.query_database(None, "main", "FRM c"), QueryStep::Failed(_)));
    let r = m.query_failed("expected");
    assert_eq!((r.status, body(&r).as_str()), (400, r#"{"error":"NQL error: expected"}"#));
}

#[test]
fn kinds_of_indexes() {
    let mut m = served();
    put(&mut m, "c", "a", r#"{"v": 2}"#);
    put(&mut m, "c", "b", r#"{"v": 1}"#);
    let r = m.create_index(None, "main", "c", "v", Some("sorted"));
    assert_eq!(body(&r), r#"{"coll":"c","field":"v","kind":"sorted","ok":true}"#);
    let r = m.create_index(None, "main", "c", "w", None);
    assert_eq!(body(&r), r#"{"coll":"c","field":"w","kind":"eq","ok":true}"#);
    let r = m.create_index(None, "main", "c", "v", Some("btree"));
    assert_eq!((r.status, body(&r).as_str()), (400, r#"{"error":"unknown index kind: btree"}"#));
    let ids: Vec<String> = rows(&m, "FROM c ORDER BY v ASC")
        .iter()
        .map(|r| r.get("_id").unwrap().as_str().unwrap().to_string())
        .collect();
    assert_eq!(ids, vec!["b", "a"]);
}

#[test]
fn databases_are_checked() {
    let mut m = served();
    put(&mut m, "c", "x", "{}");
    let r = m.verify_database(None, "main");
    let head = m.get_db("main").unwrap().head();
    assert_eq!(
        body(&r),
        format!(
            r#"{{"head":"{}","objects_checked":1,"ok":true,"seq":1,"tamper_evident":true,"tampered":[]}}"#,
            head
        )
    );
    let r = m.verify_files(None, "main", Vec::new(), None);
    assert_eq!(
        body(&r),
        format!(
            r#"{{"head":"{}","objects_checked":0,"ok":true,"seq":1,"tamper_evident":true,"tampered":[]}}"#,
            head
        )
    );
    let r = m.verify_files(None, "none", Vec::new(), None);
    assert_eq!((r.status, body(&r)), (404, r#"{"error":"database not found: none"}"#.to_string()));
    assert_eq!(m.refuse(None, "none").map(|r| r.status), Some(404));
    assert!(m.refuse(None, "main").is_none());
    let r = m.checkpoint(None, "main");
    assert_eq!(body(&r), format!(r#"{{"head":"{}","ok":true,"seq":1}}"#, head));
}

#[test]
fn the_log_has_the_latest_first() {
    let mut m = served();
    for i in 0..3 {
        put(&mut m, "c", &i.to_string(), "{}");
    }
    let r = m.get_log(None, "main", None);
    let log = match r.body.get("log").unwrap() {
        JsonValue::Array(log) => log,
        _ => panic!("a list expected"),
    };
    let seqs: Vec<u64> = log.iter().map(|n| n.get("seq").unwrap().as_u64().unwrap()).collect();
    assert_eq!(seqs, vec![2, 1, 0]);
    assert_eq!(log[0].get("op").unwrap().as_str(), Some("put"));
    assert_eq!(log[0].get("id").unwrap().as_str(), Some("2"));
    let r = m.get_log(None, "main", Some(1));
    assert!(matches!(r.body.get("log"), Some(JsonValue::Array(log)) if log.len() == 1));
}

fn op(kind: &str, coll: Option<&str>, id: Option<&str>, text: Option<&str>) -> BatchOp {
    BatchOp {
        op: kind.to_string(),
        coll: coll.map(|s| s.to_string()),
        id: id.map(|s| s.to_string()),
        doc: text.map(json),
        caused_by: None,
    }
}

#[test]
fn batches_write_and_delete() {
    let mut m = served();
    put(&mut m, "c", "old", "{}");
    let ops = vec![
        op("DEL", Some("c"), Some("old"), None),
        op("Put", Some("c"), Some("x"), Some(r#"{"v": 1}"#)),
        op("frob", None, None, None),
        op("delete", Some("c"), Some("none"), None),
        op("put", None, None, None),
    ];
    let r = done(m.batch_operations(None, "main", &ops));
    assert_eq!(r.status, 200);
    assert_eq!(r.body.get("count").unwrap().as_u64(), Some(5));
    let results = match r.body.get("results").unwrap() {
        JsonValue::Array(rs) => rs.iter().map(to_text).collect::<Vec<_>>(),
        _ => panic!("a list expected"),
    };
    let db = m.get_db("main").unwrap();
    assert_eq!(results[0], r#"{"id":"old","ok":true,"op":"del"}"#);
    assert_eq!(
        results[1],
        format!(r#"{{"hash":"{}","id":"x","op":"put","seq":1}}"#, db.get("c", "x").unwrap().hash)
    );
    assert_eq!(results[2], r#"{"error":"unknown op","op":"unknown"}"#);
    assert_eq!(results[3], r#"{"id":"none","ok":false,"op":"del"}"#);
    assert!(db.get("", "").is_some());
    assert!(db.get("c", "old").is_none());
}

#[test]
fn subscribers_hear_of_new_rows_once() {
    let mut m = served();
    let id = m.subscribe_query(None, "main", "FROM c").unwrap();
    assert_eq!(id, 1);
    assert_eq!(
        m.tell_rows("main", id, vec![], true).unwrap(),
        r#"{"count":0,"db":"main","event":"initial","nql":"FROM c","rows":[],"sub_id":1}"#
    );
    let again = m.notify_subscribers("main");
    assert_eq!(again.len(), 1);
    assert!(m.tell_rows("main", id, vec![], false).is_none());
    put(&mut m, "c", "x", "{}");
    let mut due = m.notify_subscribers("main");
    assert_eq!((due.len(), due[0].0), (1, 1));
    let found = match due.remove(0).1 {
        Answer::Rows(rows) => rows,
        Answer::Totals(_) => panic!("rows expected"),
    };
    let event = m.tell_rows("main", id, found.clone(), false).unwrap();
    assert!(event.contains(r#""count":1"#) && !event.contains("initial"));
    assert!(m.tell_rows("main", id, found, false).is_none());
    assert!(m.tell_rows("other", id, vec![], true).is_none());
    assert!(m.notify_subscribers("none").is_empty());
    assert_eq!(body(&m.unsubscribe_query(None, "main", id)), r#"{"ok":true,"sub_id":1}"#);
    assert!(m.notify_subscribers("main").is_empty());
    assert_eq!(m.subscribe_query(None, "main", "FROM").unwrap(), 2);
    assert!(m.notify_subscribers("main").is_empty());
    assert_eq!(m.subscribe_query(None, "none", "FROM c").unwrap_err().status, 404);
}

#[test]
fn saving_a_database_of_a_server() {
    let mut m = Manager::new(None, None);
    m.create_db("main", no_files()).unwrap();
    m.start_cold_scan("main");
    put(&mut m, "c", "x:1", "{}");
    let (changes, manifest) = m.flush("main").unwrap();
    assert_eq!(changes.len(), 1);
    assert_eq!((changes[0].coll.as_str(), changes[0].id.as_str()), ("c", "x:1"));
    assert_eq!(changes[0].leaf, "x%3A1");
    assert!(manifest.is_some());
    let (changes, manifest) = m.flush("main").unwrap();
    assert!(changes.is_empty() && manifest.is_none());
    assert!(m.flush("none").is_none());
}

#[test]
fn databases_have_keys_of_their_own() {
    let mut m = Manager::new(Some([1u8; 32]), None);
    m.create_db("a", no_files()).unwrap();
    m.start_cold_scan("a");
    done(m.put_document(None, "a", &doc("c", "x", r#"{"v": 1}"#)));
    let objects = m.get_db("a").unwrap().objects();
    let (hash, content) = objects.loose_at(0);
    let (hash, content) = (hash.clone(), content.clone());
    let reopened = |m: &mut Manager, name: &str| {
        let mut files = no_files();
        files.loose.push(nedb_engine::store::LooseFile {
            prefix: hash[..2].to_string(),
            name: hash[2..].to_string(),
            content: content.clone(),
        });
        m.create_db(name, files).unwrap();
        m.get_db(name).unwrap().get_by_hash(&hash).is_some()
    };
    assert!(reopened(&mut m, "a"));
    assert!(!reopened(&mut m, "b"));
    assert!(body(&m.health("1")).contains(r#""encrypted":true"#));
}

#[test]
fn seconds_to_the_hour() {
    assert_eq!(secs_to_next_hour(0), 3600);
    assert_eq!(secs_to_next_hour(1), 3599);
    assert_eq!(secs_to_next_hour(3599), 1);
    assert_eq!(secs_to_next_hour(7200), 3600);
}
