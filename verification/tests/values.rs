use nedb_engine::crypto::{decrypt, encrypt, encrypt_with, CryptoError};
use nedb_engine::digest::{blake2b, digest_of, sha256};
use nedb_engine::double::Double;
use nedb_engine::ident::{decode_id, encode_id, id_shard};
use nedb_engine::json::{object, object_to_bytes, parse, set_field, to_bytes, to_text, JsonValue, Number};
use nedb_engine::keyed::Keyed;
use nedb_engine::names::{segment_id, segment_name, sidecar_name};
use nedb_engine::sort::sort_places;
use nedb_engine::text::{
    compare_text, contains_text, decimal_text, parse_number, trim, Order,
};
use nedb_engine::Dek;

fn json(s: &str) -> JsonValue {
    parse(s.as_bytes()).unwrap()
}

#[test]
fn digests() {
    assert_eq!(
        blake2b(b"abc"),
        "ba80a53f981c4d0d6a2797b69f12f6e94c212f14685ac4b74b12bb6fdbffa2d1"
    );
    assert_eq!(digest_of(b"abc").len(), 32);
    assert_eq!(digest_of(b"abc")[..3], [0xba, 0x80, 0xa5]);
    let h = sha256(b"abc");
    assert_eq!(h.len(), 32);
    assert_eq!(h[..4], [0xba, 0x78, 0x16, 0xbf]);
}

#[test]
fn sealing_hides_and_opening_gives_back() {
    let dek = Dek::from_tmk(&[7u8; 32], b"salt");
    let sealed = encrypt(b"secret text", &dek).unwrap();
    assert_eq!(sealed.len(), 11 + 28);
    assert_ne!(&sealed[12..23], b"secret text");
    assert_eq!(decrypt(&sealed, &dek).unwrap(), b"secret text");
    assert_eq!(decrypt(&sealed, &Dek([0u8; 32])), Err(CryptoError::Failed));
    assert_eq!(decrypt(&sealed[..11], &dek), Err(CryptoError::TooShort));
    let mut torn = sealed.clone();
    torn[20] ^= 1;
    assert_eq!(decrypt(&torn, &dek), Err(CryptoError::Failed));
    let other = encrypt(b"secret text", &dek).unwrap();
    assert_ne!(sealed[..12], other[..12]);
    let fixed = encrypt_with(b"", &dek, &vec![1u8; 12]).unwrap();
    assert_eq!(fixed.len(), 28);
    assert_eq!(fixed[..12], [1u8; 12]);
}

#[test]
fn keys_are_digests_of_key_and_salt() {
    let mut data = vec![7u8; 32];
    data.extend_from_slice(b"salt");
    assert_eq!(Dek::from_tmk(&[7u8; 32], b"salt").0.to_vec(), sha256(&data));
}

#[test]
fn json_text_has_sorted_keys() {
    assert_eq!(to_text(&json(r#" {"b": [1, -2, 2.50, 1e2], "a": {"z": null, "y": true}} "#)),
        r#"{"a":{"y":true,"z":null},"b":[1,-2,2.5,100.0]}"#);
    assert_eq!(to_bytes(&json(r#""é\n""#)), "\"\u{e9}\\n\"".as_bytes());
    assert_eq!(to_text(&json(r#"{"a": 1, "a": 2}"#)), r#"{"a":2}"#);
    assert!(parse(b"{").is_none());
    assert!(parse(b"").is_none());
    assert!(parse(&[0xff]).is_none());
}

#[test]
fn json_fields() {
    let v = json(r#"{"a": 1, "b": -1, "c": 1.0, "d": "t"}"#);
    assert_eq!(v.get("a").unwrap().as_u64(), Some(1));
    assert_eq!(v.get("b").unwrap().as_u64(), None);
    assert_eq!(v.get("c").unwrap().as_u64(), None);
    assert_eq!(v.get("d").unwrap().as_str(), Some("t"));
    assert_eq!(v.get("a").unwrap().as_str(), None);
    assert!(v.get("e").is_none());
    assert!(json("[1]").get("a").is_none());
    let mut fields = vec![];
    set_field(&mut fields, "b".to_string(), json("1"));
    set_field(&mut fields, "a".to_string(), json("2"));
    set_field(&mut fields, "b".to_string(), json("3"));
    assert_eq!(fields.iter().map(|f| f.0.as_str()).collect::<Vec<_>>(), vec!["a", "b"]);
    let open = vec![("z".to_string(), json("1")), ("a".to_string(), json("2"))];
    assert_eq!(object_to_bytes(&open), br#"{"z":1,"a":2}"#.to_vec());
    assert_eq!(to_text(&object(open)), r#"{"a":2,"z":1}"#);
}

#[test]
fn numbers_from_text() {
    let text = |s: &str| Number::from_literal(s).map(|n| to_text(&JsonValue::Number(n)));
    assert_eq!(text("1.50").as_deref(), Some("1.5"));
    assert_eq!(text("3").as_deref(), Some("3.0"));
    assert_eq!(text("-0.25").as_deref(), Some("-0.25"));
    assert_eq!(text("x"), None);
}

#[test]
fn doubles_by_their_bits() {
    let d = |x: f64| Double { bits: x.to_bits() };
    for n in [0u64, 1, 2, 3, (1 << 53) - 1, 1 << 53, (1 << 53) + 1, (1 << 53) + 3, u64::MAX, 1 << 63] {
        assert_eq!(Double::from_u64(n).bits, (n as f64).to_bits(), "{}", n);
    }
    for n in [0i64, -1, 5, -7, i64::MIN, i64::MAX, -(1 << 53) - 1] {
        assert_eq!(Double::from_i64(n).bits, (n as f64).to_bits(), "{}", n);
    }
    for x in [0.0, -0.0, 0.5, -3.0, 1.0, 3.9, 1e10, 1e19, 1e300, f64::NAN, f64::INFINITY, f64::NEG_INFINITY] {
        assert_eq!(d(x).to_u64(), x as u64, "{}", x);
        assert_eq!(d(x).is_finite(), x.is_finite());
        for y in [0.0, -0.0, 0.5, -3.0, 1e300, f64::NAN, f64::INFINITY] {
            assert_eq!(d(x).equals(&d(y)), x == y, "{} {}", x, y);
            let want = match x.total_cmp(&y) {
                std::cmp::Ordering::Less => Order::Less,
                std::cmp::Ordering::Equal => Order::Equal,
                std::cmp::Ordering::Greater => Order::Greater,
            };
            assert_eq!(d(x).order(&d(y)), want, "{} {}", x, y);
        }
    }
}

#[test]
fn texts() {
    assert_eq!(trim(" \t a b\u{2003}\n"), "a b");
    assert!(contains_text("hello", "ell"));
    assert!(contains_text("hello", ""));
    assert!(!contains_text("hello", "elo"));
    assert_eq!(compare_text("a", "b"), Order::Less);
    assert_eq!(compare_text("ab", "a"), Order::Greater);
    assert_eq!(compare_text("\u{e9}", "\u{e9}"), Order::Equal);
    assert_eq!(decimal_text(0), "0");
    assert_eq!(decimal_text(u64::MAX), u64::MAX.to_string());
    assert_eq!(parse_number("42", 100), Some(42));
    assert_eq!(parse_number("+42", 100), Some(42));
    assert_eq!(parse_number("101", 100), None);
    assert_eq!(parse_number("", 100), None);
    assert_eq!(parse_number("4x", 100), None);
}

#[test]
fn ids_as_file_names() {
    assert_eq!(encode_id("plain-id_1.x"), "plain-id_1.x");
    assert_eq!(encode_id("a/b c"), "a%2Fb%20c");
    assert_eq!(encode_id("\u{e9}"), "%C3%A9");
    for id in ["", "a", "a/b", "100%", "%41", "\u{e9}\u{1F600}", "..", "x:y"] {
        assert_eq!(decode_id(&encode_id(id)), id);
    }
    assert_eq!(decode_id("old_name"), "old_name");
    assert_eq!(id_shard(""), "c5");
    assert_eq!(id_shard("x"), "87");
}

#[test]
fn names_of_segments() {
    assert_eq!(segment_name(7), "seg-000007.dat");
    assert_eq!(sidecar_name(7), "seg-000007.idx");
    assert_eq!(segment_name(12345678), "seg-12345678.dat");
    assert_eq!(segment_id("seg-000007.dat"), Some(7));
    for id in [0, 1, 999999, 1000000, u32::MAX] {
        assert_eq!(segment_id(&segment_name(id)), Some(id));
    }
    assert_eq!(segment_id("seg-000007.idx"), None);
    assert_eq!(segment_id("seg-.dat"), None);
    assert_eq!(segment_id("other"), None);
    assert_eq!(segment_id("seg-1.dat"), Some(1));
}

#[test]
fn tables_keep_their_order() {
    let mut t: Keyed<u32> = Keyed::new();
    for (i, k) in ["c", "a", "b"].iter().enumerate() {
        t.insert(k.to_string(), i as u32);
    }
    t.insert("a".to_string(), 9);
    assert_eq!(t.len(), 3);
    assert_eq!(t.get("a"), Some(&9));
    assert_eq!(t.position("b"), Some(2));
    assert_eq!(t.key_at(0), "c");
    assert_eq!(t.value_at(1), &9);
    *t.get_mut("c").unwrap() = 5;
    assert_eq!(t.remove("c"), Some(5));
    assert_eq!(t.remove("c"), None);
    assert!(!t.contains("c") && t.contains("a") && t.contains("b"));
    t.clear();
    assert_eq!(t.len(), 0);
    assert!(!t.contains("a"));
}

#[test]
fn sorting_keeps_equal_items_in_order() {
    let keys: Vec<u64> = vec![3, 1, 2, 1, 3];
    assert_eq!(sort_places(&keys, false), vec![1, 3, 2, 0, 4]);
    assert_eq!(sort_places(&keys, true), vec![0, 4, 2, 1, 3]);
    assert!(sort_places(&Vec::<u64>::new(), false).is_empty());
}

#[test]
fn objects_are_read_back_whatever_their_keys() {
    for text in [
        r#"{"$serde_json::private::RawValue":"1"}"#,
        r#"{"$serde_json::private::Number":"1"}"#,
        r#"{"a":[{"$serde_json::private::RawValue":"x"}]}"#,
    ] {
        let v = json(text);
        assert!(matches!(v, JsonValue::Object(_)));
        assert_eq!(to_text(&v), text);
        assert_eq!(to_text(&json(&to_text(&v))), text);
    }
}
