use nedb_engine::db::DbFiles;
use nedb_engine::json::{parse, to_text, JsonValue};
use nedb_engine::lexer::{tokenize, Tok};
use nedb_engine::nql::{finish_totals, query, Answer, Expected, GroupAgg, NqlError};
use nedb_engine::parser::parse as parse_query;
use nedb_engine::Db;

fn json(s: &str) -> JsonValue {
    parse(s.as_bytes()).unwrap()
}

fn open_new() -> Db {
    Db::open(
        DbFiles {
            loose: Vec::new(),
            segments: None,
            ids: Vec::new(),
            colls: Vec::new(),
            edges: Vec::new(),
            manifest: None,
            aof: None,
        },
        None,
    )
    .unwrap()
}

fn put(db: &mut Db, coll: &str, id: &str, doc: &str) -> nedb_engine::Node {
    db.put(coll, id, json(doc), vec![], None, None).unwrap()
}

fn setup() -> Db {
    let mut db = open_new();
    db.create_sorted_index("blocks", "height");
    for h in 1u64..=5 {
        let doc = format!(r#"{{"height": {}, "hash": "000{}", "n_tx": {}}}"#, h, h, h * 2);
        put(&mut db, "blocks", &h.to_string(), &doc);
    }
    db
}

fn rows(db: &Db, nql: &str) -> (Vec<JsonValue>, usize) {
    match query(db, nql).unwrap() {
        (Answer::Rows(rows), count) => (rows, count),
        (Answer::Totals(_), _) => panic!("rows expected"),
    }
}

fn number(row: &JsonValue, key: &str) -> u64 {
    row.get(key).unwrap().as_u64().unwrap()
}

fn text(row: &JsonValue, key: &str) -> String {
    row.get(key).unwrap().as_str().unwrap().to_string()
}

fn ids(db: &Db, nql: &str) -> Vec<String> {
    rows(db, nql).0.iter().map(|r| text(r, "_id")).collect()
}

fn fault(nql: &str) -> NqlError {
    query(&open_new(), nql).unwrap_err()
}

#[test]
fn from_all() {
    let db = setup();
    let (_rows, count) = rows(&db, "FROM blocks");
    assert_eq!(count, 5);
}

#[test]
fn where_eq() {
    let db = setup();
    let (rows, count) = rows(&db, r#"FROM blocks WHERE _id = "3""#);
    assert_eq!(count, 1);
    assert_eq!(text(&rows[0], "_id"), "3");
}

#[test]
fn order_by_limit() {
    let db = setup();
    let (rows, count) = rows(&db, "FROM blocks ORDER BY height ASC LIMIT 3");
    assert_eq!(count, 3);
    assert_eq!(number(&rows[0], "height"), 1);
    assert_eq!(number(&rows[2], "height"), 3);
}

#[test]
fn order_by_desc() {
    let db = setup();
    let (rows, _) = rows(&db, "FROM blocks ORDER BY height DESC LIMIT 2");
    assert_eq!(number(&rows[0], "height"), 5);
}

#[test]
fn where_gt() {
    let db = setup();
    let (rows, _) = rows(&db, "FROM blocks WHERE height > 3");
    assert_eq!(rows.len(), 2);
}

#[test]
fn group_by_count() {
    let db = setup();
    let (rows, _) = rows(&db, "FROM blocks GROUP BY n_tx COUNT");
    assert_eq!(rows.len(), 5);
}

#[test]
fn search() {
    let db = setup();
    let (rows, _) = rows(&db, r#"FROM blocks SEARCH "0003""#);
    assert_eq!(rows.len(), 1);
}

#[test]
fn nql_as_of() {
    let mut db = open_new();
    let v1 = put(&mut db, "docs", "x", r#"{"v": 1}"#);
    put(&mut db, "docs", "x", r#"{"v": 2}"#);
    let (rows, _) = rows(&db, &format!("FROM docs AS OF {}", v1.seq));
    assert_eq!(number(&rows[0], "v"), 1);
}

#[test]
fn queries_at_a_write_find_what_was_deleted_since() {
    let mut db = open_new();
    put(&mut db, "docs", "b", r#"{"v": 1}"#);
    put(&mut db, "docs", "a", r#"{"v": 2}"#);
    db.delete("docs", "b").unwrap();
    put(&mut db, "docs", "b", r#"{"v": 3}"#);
    let found = |t: u64| {
        let (rows, _) = rows(&db, &format!("FROM docs AS OF {}", t));
        rows.iter().map(|r| number(r, "v")).collect::<Vec<_>>()
    };
    assert_eq!(found(0), vec![1]);
    assert_eq!(found(1), vec![2, 1]);
    assert_eq!(found(2), vec![2]);
    assert_eq!(found(3), vec![2, 3]);
}

#[test]
fn clauses_stand_in_any_order() {
    let clauses = [
        "AS OF 7",
        r#"VALID AS OF "d""#,
        "WHERE a = 1 AND b != 2",
        r#"SEARCH "s""#,
        "ORDER BY f DESC",
        "LIMIT 9",
        "TRACE caused_by",
        "GROUP BY g MAX",
    ];
    let text = |order: &[usize]| {
        let words: Vec<&str> = order.iter().map(|i| clauses[*i]).collect();
        format!("{:?}", parse_query(&format!("FROM c {}", words.join(" "))).unwrap())
    };
    let want = text(&[0, 1, 2, 3, 4, 5, 6, 7]);
    assert_eq!(text(&[7, 6, 5, 4, 3, 2, 1, 0]), want);
    assert_eq!(text(&[4, 6, 2, 0, 7, 1, 3, 5]), want);
}

#[test]
fn valid_as_of() {
    let mut db = open_new();
    db.put(
        "events",
        "e1",
        json(r#"{"type": "a"}"#),
        vec![],
        Some("2025-01-01".to_string()),
        Some("2025-06-01".to_string()),
    )
    .unwrap();
    db.put(
        "events",
        "e2",
        json(r#"{"type": "b"}"#),
        vec![],
        Some("2026-01-01".to_string()),
        None,
    )
    .unwrap();
    let (rows, _) = rows(&db, r#"FROM events VALID AS OF "2025-03-01""#);
    assert_eq!(rows.len(), 1);
    assert_eq!(text(&rows[0], "type"), "a");
}

#[test]
fn valid_until_is_not_valid() {
    let mut db = open_new();
    db.put("e", "x", json("{}"), vec![], Some("2025".into()), Some("2026".into())).unwrap();
    assert_eq!(ids(&db, r#"FROM e VALID AS OF "2025""#), vec!["x"]);
    assert!(ids(&db, r#"FROM e VALID AS OF "2026""#).is_empty());
    assert!(ids(&db, r#"FROM e VALID AS OF "2024""#).is_empty());
}

#[test]
fn rows_carry_what_a_version_is() {
    let mut db = open_new();
    let a = put(&mut db, "c", "a", "{}");
    let b = db
        .put(
            "c",
            "b",
            json(r#"{"v": 1, "_id": "hidden"}"#),
            vec![a.hash.clone()],
            Some("2025".into()),
            None,
        )
        .unwrap();
    let (rows, _) = rows(&db, r#"FROM c WHERE v = 1"#);
    let want = format!(
        r#"{{"_caused_by":["{}"],"_coll":"c","_hash":"{}","_id":"b","_seq":1,"_valid_from":"2025","v":1}}"#,
        a.hash, b.hash
    );
    assert_eq!(to_text(&rows[0]), want);
}

#[test]
fn all_comparisons() {
    let db = setup();
    assert_eq!(ids(&db, "FROM blocks WHERE height = 3"), vec!["3"]);
    assert_eq!(ids(&db, "FROM blocks WHERE height != 3"), vec!["1", "2", "4", "5"]);
    assert_eq!(ids(&db, "FROM blocks WHERE height < 3"), vec!["1", "2"]);
    assert_eq!(ids(&db, "FROM blocks WHERE height <= 3"), vec!["1", "2", "3"]);
    assert_eq!(ids(&db, "FROM blocks WHERE height > 3"), vec!["4", "5"]);
    assert_eq!(ids(&db, "FROM blocks WHERE height >= 3"), vec!["3", "4", "5"]);
    assert_eq!(ids(&db, "FROM blocks WHERE height > 1 AND n_tx < 8"), vec!["2", "3"]);
    assert_eq!(ids(&db, r#"FROM blocks WHERE hash = "0002""#), vec!["2"]);
    assert_eq!(ids(&db, "FROM blocks WHERE missing = NULL").len(), 5);
    assert_eq!(ids(&db, "FROM blocks WHERE height = 3.0"), vec!["3"]);
    assert!(ids(&db, "FROM blocks WHERE height = -3").is_empty());
}

#[test]
fn predicates_come_before_the_limit() {
    let db = setup();
    assert_eq!(ids(&db, "FROM blocks WHERE height > 3 LIMIT 1"), vec!["4"]);
    assert_eq!(ids(&db, "FROM blocks WHERE height < 3 ORDER BY height DESC LIMIT 1"), vec!["2"]);
    assert_eq!(ids(&db, "FROM blocks LIMIT 0"), Vec::<String>::new());
}

#[test]
fn keywords_in_any_case() {
    let db = setup();
    assert_eq!(ids(&db, "from blocks where height > 3 order by height desc limit 1"), vec!["5"]);
}

#[test]
fn traces_of_causes() {
    let mut db = open_new();
    let a = put(&mut db, "inputs", "msg", "{}");
    db.put("beliefs", "dark", json("{}"), vec![a.hash.clone()], None, None).unwrap();
    assert_eq!(
        ids(&db, r#"FROM beliefs WHERE _id = "dark" TRACE caused_by"#),
        vec!["dark", "msg"]
    );
    assert_eq!(
        ids(&db, r#"FROM inputs WHERE _id = "msg" TRACE caused_by REVERSE"#),
        vec!["msg", "dark"]
    );
    assert_eq!(ids(&db, "FROM beliefs TRACE caused_by LIMIT 1"), vec!["dark"]);
}

#[test]
fn groups_and_their_rows() {
    let mut db = open_new();
    put(&mut db, "c", "a", r#"{"k": "x"}"#);
    put(&mut db, "c", "b", r#"{"k": "y"}"#);
    put(&mut db, "c", "c", r#"{"k": "x"}"#);
    let (counted, n) = rows(&db, "FROM c GROUP BY k COUNT");
    assert_eq!(n, 2);
    assert_eq!(to_text(&counted[0]), r#"{"count":2,"k":"x","value":2.0}"#);
    assert_eq!(to_text(&counted[1]), r#"{"count":1,"k":"y","value":1.0}"#);
    put(&mut db, "n", "a", r#"{"v": 3}"#);
    put(&mut db, "n", "b", r#"{"v": 3}"#);
    let (least, _) = rows(&db, "FROM n GROUP BY v MIN");
    assert_eq!(to_text(&least[0]), r#"{"count":2,"v":"3","value":3.0}"#);
    let (most, _) = rows(&db, "FROM n GROUP BY v MAX");
    assert_eq!(to_text(&most[0]), r#"{"count":2,"v":"3","value":3.0}"#);
}

#[test]
fn sums_are_left_to_the_caller() {
    let mut db = open_new();
    put(&mut db, "n", "a", r#"{"v": 3}"#);
    put(&mut db, "n", "b", r#"{"v": 3}"#);
    let (answer, count) = query(&db, "FROM n GROUP BY v AVG").unwrap();
    assert_eq!(count, 1);
    match answer {
        Answer::Totals(t) => {
            assert!(t.mean);
            assert_eq!(t.field, "v");
            assert_eq!(t.groups[0].values.len(), 2);
            let rows = finish_totals(&t, &vec![json("3.0")]);
            assert_eq!(to_text(&rows[0]), r#"{"count":2,"v":"3","value":3.0}"#);
        }
        Answer::Rows(_) => panic!("totals expected"),
    }
}

#[test]
fn faults_of_queries() {
    assert_eq!(fault("").expected, Expected::From);
    assert_eq!(fault("SELECT x").expected, Expected::From);
    assert_eq!(fault("FROM").expected, Expected::Collection);
    assert_eq!(fault("FROM 5").expected, Expected::Collection);
    assert_eq!(fault("FROM c AS 5").expected, Expected::Of);
    assert_eq!(fault("FROM c AS OF x").expected, Expected::SequenceNumber);
    assert_eq!(fault("FROM c VALID OF").expected, Expected::As);
    assert_eq!(fault("FROM c VALID AS 5").expected, Expected::Of);
    assert_eq!(fault("FROM c VALID AS OF 5").expected, Expected::Date);
    assert_eq!(fault("FROM c WHERE 5").expected, Expected::WhereField);
    assert_eq!(fault("FROM c WHERE f 5").expected, Expected::Operator);
    assert_eq!(fault("FROM c SEARCH f").expected, Expected::SearchText);
    assert_eq!(fault("FROM c ORDER f").expected, Expected::By);
    assert_eq!(fault("FROM c ORDER BY 5").expected, Expected::OrderField);
    assert_eq!(fault("FROM c LIMIT x").expected, Expected::LimitNumber);
    assert_eq!(fault("FROM c GROUP BY 5").expected, Expected::GroupField);
    assert_eq!(fault("FROM c GROUP BY f").expected, Expected::Aggregation);
    assert_eq!(fault("FROM c TRACE 5").expected, Expected::EdgeType);
    assert!(matches!(fault("FROM c LIMIT x").got, Tok::Ident(s) if s == "x"));
    assert!(matches!(fault("FROM").got, Tok::Eof));
    assert_eq!(Expected::From.phrase(), "expected keyword FROM");
    assert_eq!(Expected::Date.phrase(), "VALID AS OF expects date string");
}

#[test]
fn words_of_a_query() {
    let toks = tokenize(r#"FROM a.b:c WHERE x>=-1.5 AND y != "q r" ; z"#);
    let shown: Vec<String> = toks.iter().map(|t| format!("{:?}", t)).collect();
    assert_eq!(
        shown,
        vec![
            r#"Kw("FROM")"#,
            r#"Ident("a.b:c")"#,
            r#"Kw("WHERE")"#,
            r#"Ident("x")"#,
            r#"Op(">=")"#,
            r#"Num("-1.5")"#,
            r#"Kw("AND")"#,
            r#"Ident("y")"#,
            r#"Op("!=")"#,
            r#"Str("q r")"#,
            r#"Ident("z")"#,
        ]
    );
}

#[test]
fn odd_words() {
    assert!(tokenize("").is_empty());
    assert!(tokenize(" ;!@ ").is_empty());
    assert!(matches!(&tokenize("\"open")[0], Tok::Str(s) if s == "open"));
    assert!(matches!(&tokenize("1.2.3")[0], Tok::Num(s) if s == "1.2.3"));
    assert!(matches!(&tokenize("\u{e9}t\u{e9}")[0], Tok::Ident(s) if s == "\u{e9}t\u{e9}"));
    assert!(matches!(&tokenize("\u{2014}x")[0], Tok::Ident(s) if s == "x"));
}

#[test]
fn clauses_of_a_query() {
    let q = parse_query(
        r#"FROM c AS OF 7 VALID AS OF "d" WHERE a = TRUE SEARCH "s" ORDER BY f DESC LIMIT 9 TRACE caused_by REVERSE GROUP BY g SUM"#,
    )
    .unwrap();
    assert_eq!(q.coll, "c");
    assert_eq!(q.as_of, Some(7));
    assert_eq!(q.valid_as_of.as_deref(), Some("d"));
    assert_eq!(q.wheres.len(), 1);
    assert_eq!(to_text(&q.wheres[0].value), "true");
    assert_eq!(q.search.as_deref(), Some("s"));
    assert_eq!(q.order_by.as_deref(), Some("f"));
    assert!(q.order_desc);
    assert_eq!(q.limit, Some(9));
    assert_eq!(q.trace.as_deref(), Some("caused_by"));
    assert!(q.trace_rev);
    assert!(matches!(q.group_by, Some((f, GroupAgg::Sum)) if f == "g"));
}

#[test]
fn numbers_in_queries() {
    let limit = |s: &str| parse_query(&format!("FROM c LIMIT {}", s)).unwrap().limit;
    assert_eq!(limit("3.9"), Some(3));
    assert_eq!(limit("-4"), Some(0));
    assert_eq!(limit("1.2.3"), Some(0));
    assert_eq!(limit("99999999999999999999999"), Some(usize::MAX));
    let value = |s: &str| {
        to_text(&parse_query(&format!("FROM c WHERE f = {}", s)).unwrap().wheres[0].value)
    };
    assert_eq!(value("5"), "5.0");
    assert_eq!(value("0.25"), "0.25");
    assert_eq!(value("1.2.3"), "0.0");
    assert_eq!(value("word"), "\"word\"");
    assert_eq!(value("NULL"), "null");
    assert_eq!(value("FALSE"), "false");
}

#[test]
fn search_is_blind_to_case() {
    let mut db = open_new();
    put(&mut db, "c", "a", r#"{"bio": "Rust Hacker"}"#);
    put(&mut db, "c", "b", r#"{"bio": "python dev"}"#);
    assert_eq!(ids(&db, r#"FROM c SEARCH "rust""#), vec!["a"]);
    assert_eq!(ids(&db, r#"FROM c SEARCH "PYTHON""#), vec!["b"]);
    assert_eq!(ids(&db, r#"FROM c SEARCH """#), vec!["a", "b"]);
}

#[test]
fn queries_at_earlier_writes_stay_the_same() {
    let mut db = open_new();
    put(&mut db, "c", "a", r#"{"v": 1}"#);
    put(&mut db, "c", "b", r#"{"v": 2}"#);
    let before: Vec<String> = rows(&db, "FROM c AS OF 1").0.iter().map(to_text).collect();
    put(&mut db, "c", "a", r#"{"v": 3}"#);
    put(&mut db, "c", "d", r#"{"v": 4}"#);
    let after: Vec<String> = rows(&db, "FROM c AS OF 1").0.iter().map(to_text).collect();
    assert_eq!(before, after);
    assert_eq!(ids(&db, "FROM c AS OF 0"), vec!["a"]);
    assert_eq!(ids(&db, "FROM c AS OF 1 WHERE v > 1"), vec!["b"]);
    assert_eq!(ids(&db, "FROM c AS OF 3 ORDER BY v DESC LIMIT 2"), vec!["d", "a"]);
}
