use nedb_engine::crypto::encrypt_with;
use nedb_engine::db::DbFiles;
use nedb_engine::json::to_text;
use nedb_engine::migrate::{decode, read_v1_aof};
use nedb_engine::{Db, Dek};

fn files_with(aof: &str) -> DbFiles {
    DbFiles {
        loose: vec![],
        segments: None,
        ids: vec![],
        colls: vec![],
        edges: vec![],
        manifest: None,
        aof: Some(aof.to_string()),
    }
}

const LOG: &str = r#"{"op":"put","seq":1,"payload":{"coll":"inputs","id":"m","doc":{"text":"hi"}},"ts":1.5}

{"op":"del","seq":2,"payload":{"coll":"inputs","id":"m"}}
{"op":"put","seq":3,"payload":{"coll":"beliefs","id":"b","doc":{"v":1}},"caused_by":[1,7,"x"],"ts":2,"valid_from":"2025"}
"#;

#[test]
fn base64_text() {
    assert_eq!(decode("").unwrap(), b"");
    assert_eq!(decode("TQ==").unwrap(), b"M");
    assert_eq!(decode("TWE=").unwrap(), b"Ma");
    assert_eq!(decode("TWFu").unwrap(), b"Man");
    assert_eq!(decode(" TWFuTWE= \n").unwrap(), b"ManMa");
    assert_eq!(decode("+/+/").unwrap(), vec![0xfb, 0xff, 0xbf]);
    assert_eq!(decode("TW*u").unwrap_err(), b'*');
}

#[test]
fn lines_of_a_log() {
    let ops = read_v1_aof(LOG, None);
    assert_eq!(ops.len(), 2);
    assert_eq!((ops[0].seq, ops[0].coll.as_str(), ops[0].id.as_str()), (1, "inputs", "m"));
    assert_eq!(to_text(&ops[0].data), r#"{"text":"hi"}"#);
    assert_eq!(ops[1].caused_by, vec![1, 7]);
    assert_eq!(ops[1].valid_from.as_deref(), Some("2025"));
    assert_eq!(ops[1].valid_to, None);
}

#[test]
fn lines_that_put_nothing() {
    for line in [
        r#"{"op":"put","seq":1}"#,
        r#"{"op":"put","payload":{"coll":"","id":"x","doc":1}}"#,
        r#"{"op":"put","payload":{"coll":"c","doc":1}}"#,
        r#"{"op":5,"payload":{"coll":"c","id":"x"}}"#,
        "[]",
    ] {
        assert!(read_v1_aof(line, None).is_empty(), "{}", line);
    }
    let bare = read_v1_aof(r#"{"op":"put","payload":{"coll":"c","id":"x"}}"#, None);
    assert_eq!((bare[0].seq, to_text(&bare[0].data).as_str()), (0, "null"));
}

#[test]
fn a_broken_line_is_passed_over() {
    let lines: Vec<&str> = LOG.lines().collect();
    let log = format!("{}\n{{\"op\":\n{}\n", lines[0], lines[3]);
    let ops = read_v1_aof(&log, None);
    assert_eq!(ops.iter().map(|o| o.seq).collect::<Vec<_>>(), vec![1, 3]);
    let db = Db::open(files_with(&log), None).unwrap();
    assert!(db.get("inputs", "m").is_some());
    assert!(db.get("beliefs", "b").is_some());
}

#[test]
fn the_last_operation_on_a_document_counts() {
    let log = concat_lines(&[
        r#"{"op":"put","seq":1,"payload":{"coll":"c","id":"x","doc":{"v":1}},"ts":1.5}"#,
        r#"{"op":"put","seq":2,"payload":{"coll":"c","id":"y","doc":{"v":2}},"ts":1.5}"#,
        r#"{"op":"put","seq":5,"payload":{"coll":"c","id":"x","doc":{"v":3}},"ts":1.5}"#,
        r#"{"op":"put","seq":5,"payload":{"coll":"c","id":"x","doc":{"v":3}},"ts":1.5}"#,
    ]);
    let db = Db::open(files_with(&log), None).unwrap();
    let x = db.get("c", "x").unwrap();
    assert_eq!((x.seq, to_text(&x.data).as_str()), (5, r#"{"v":3}"#));
    let y = db.get("c", "y").unwrap();
    assert_eq!((y.seq, to_text(&y.data).as_str()), (2, r#"{"v":2}"#));
}

fn concat_lines(lines: &[&str]) -> String {
    lines.join("\n")
}

#[test]
fn a_log_is_taken_over() {
    let db = Db::open(files_with(LOG), None).unwrap();
    let b = db.get("beliefs", "b").unwrap();
    let m = db.get("inputs", "m").unwrap();
    assert_eq!(b.caused_by, vec![m.hash.clone()]);
    assert_eq!((m.seq, b.seq), (1, 3));
    assert_eq!(to_text(&b.data), r#"{"v":1}"#);
    let trace = db.trace(&b.hash, false, 10);
    assert_eq!(trace.iter().map(|n| n.id.as_str()).collect::<Vec<_>>(), vec!["b", "m"]);
    assert_eq!(db.verify(), (2, vec![]));
}

fn to_base64(data: &[u8]) -> String {
    let digits = b"ABCDEFGHIJKLMNOPQRSTUVWXYZabcdefghijklmnopqrstuvwxyz0123456789+/";
    let mut out = String::new();
    for chunk in data.chunks(3) {
        let b = [chunk[0], *chunk.get(1).unwrap_or(&0), *chunk.get(2).unwrap_or(&0)];
        let n = (b[0] as usize) << 16 | (b[1] as usize) << 8 | b[2] as usize;
        for i in 0..=chunk.len() {
            out.push(digits[n >> (18 - 6 * i) & 63] as char);
        }
        for _ in chunk.len()..3 {
            out.push('=');
        }
    }
    out
}

#[test]
fn sealed_lines_need_the_key() {
    let dek = Dek([9u8; 32]);
    let line = r#"{"op":"put","seq":1,"payload":{"coll":"c","id":"x","doc":{"v":1}}}"#;
    let sealed = encrypt_with(line.as_bytes(), &dek, &vec![0u8; 12]).unwrap();
    let log = format!(r#"{{"enc":1,"data":"{}"}}"#, to_base64(&sealed));
    let ops = read_v1_aof(&log, Some(&dek));
    assert_eq!(ops.len(), 1);
    assert_eq!(ops[0].id, "x");
    assert!(read_v1_aof(&log, Some(&Dek([8u8; 32]))).is_empty());
    assert!(read_v1_aof(&log, None).is_empty());
}
