//! Databases of the first format: one log of operations, taken over into
//! objects, indexes and edges.

use std::collections::HashMap;
use vstd::prelude::*;
use vstd::utf8::encode_utf8;
use crate::crypto::{decrypt, decrypted};
use crate::db::{
    add_causes, add_fields, causes_added, doc_fields, fields_added, float_time, wrote, SortedV,
};
use crate::graph::{GraphStore, GraphV};
use crate::index::{hash_of, id_set, opt_text, IdIndex, IdV, SortedIndexes};
use crate::json::{
    float_text, json_fits, json_get, json_parse, json_wf, lemma_field_fits, lemma_fits_deeper, Json,
    JsonValue, Num, Number, MAX_DEPTH,
};
use crate::node::{as_float, clone_text, float_number, strings, Node, NodeV};
use crate::store::{
    obj_coherent, obj_sound, write_error, Dek, ObjV, ObjectStore, StoreError,
};
use crate::text::{chars_of, text_of, trim, trimmed};

verus! {

/// An operation of the log: a document that was put.
#[derive(Debug)]
pub struct V1Op {
    pub seq: u64,
    pub coll: String,
    pub id: String,
    pub data: JsonValue,
    /// The numbers of the operations that led to it.
    pub caused_by: Vec<u64>,
    pub ts: Number,
    pub valid_from: Option<String>,
    pub valid_to: Option<String>,
}

/// What an operation is.
#[verifier::ext_equal]
pub struct V1OpV {
    pub seq: u64,
    pub coll: Seq<char>,
    pub id: Seq<char>,
    pub data: Json,
    pub caused_by: Seq<u64>,
    pub ts: Num,
    pub valid_from: Option<Seq<char>>,
    pub valid_to: Option<Seq<char>>,
}

impl View for V1Op {
    type V = V1OpV;

    open spec fn view(&self) -> V1OpV {
        V1OpV {
            seq: self.seq,
            coll: self.coll@,
            id: self.id@,
            data: self.data@,
            caused_by: self.caused_by@,
            ts: self.ts@,
            valid_from: opt_text(self.valid_from),
            valid_to: opt_text(self.valid_to),
        }
    }
}

impl V1Op {
    pub open spec fn wf(&self) -> bool {
        self.data.wf() && self.ts is Float && self.ts.wf()
    }
}

pub open spec fn ops_view(v: Seq<V1Op>) -> Seq<V1OpV> {
    v.map_values(|o: V1Op| o@)
}

/// Whether the versions that operations become can be read back.
pub open spec fn ops_storable(ops: Seq<V1OpV>) -> bool {
    forall|i: int| 0 <= i < ops.len() ==> op_storable(#[trigger] ops[i])
}

/// Whether the version that an operation becomes can be read back.
pub open spec fn op_storable(op: V1OpV) -> bool {
    json_wf(op.data) && json_fits(op.data, MAX_DEPTH - 1) && float_time(op.ts)
}

pub open spec fn ops_wf(v: Seq<V1Op>) -> bool {
    forall|i: int| 0 <= i < v.len() ==> (#[trigger] v[i]).wf()
}

/// What a base64 digit is worth.
pub open spec fn base64_value(c: u8) -> Option<int> {
    if 'A' as u8 <= c && c <= 'Z' as u8 {
        Some(c as int - 'A' as int)
    } else if 'a' as u8 <= c && c <= 'z' as u8 {
        Some(c as int - 'a' as int + 26)
    } else if '0' as u8 <= c && c <= '9' as u8 {
        Some(c as int - '0' as int + 52)
    } else if c == '+' as u8 {
        Some(62)
    } else if c == '/' as u8 {
        Some(63)
    } else {
        None
    }
}

/// The text without its padding.
pub open spec fn unpadded(s: Seq<u8>) -> Seq<u8>
    decreases s.len(),
{
    if s.len() == 0 {
        Seq::empty()
    } else if s.last() == '=' as u8 {
        unpadded(s.drop_last())
    } else {
        unpadded(s.drop_last()).push(s.last())
    }
}

pub open spec fn all_base64(s: Seq<u8>) -> bool {
    forall|i: int| 0 <= i < s.len() ==> base64_value(#[trigger] s[i]) is Some
}

/// The bytes that base64 digits stand for: three for each four digits, two for
/// three left over, one for two.
pub open spec fn base64_bytes(s: Seq<u8>) -> Seq<u8>
    decreases s.len(),
{
    if s.len() < 2 {
        Seq::empty()
    } else {
        let a = base64_value(s[0])->0;
        let b = base64_value(s[1])->0;
        let first = (a * 4 + b / 16) as u8;
        if s.len() == 2 {
            seq![first]
        } else {
            let c = base64_value(s[2])->0;
            let second = (b % 16 * 16 + c / 4) as u8;
            if s.len() == 3 {
                seq![first, second]
            } else {
                let d = base64_value(s[3])->0;
                let third = (c % 4 * 64 + d) as u8;
                seq![first, second, third] + base64_bytes(s.skip(4))
            }
        }
    }
}

fn digit_value(c: u8) -> (r: Option<u8>)
    ensures
        match r {
            Some(v) => base64_value(c) == Some(v as int) && v < 64,
            None => base64_value(c) is None,
        },
{
    if 'A' as u8 <= c && c <= 'Z' as u8 {
        Some(c - 'A' as u8)
    } else if 'a' as u8 <= c && c <= 'z' as u8 {
        Some(c - 'a' as u8 + 26)
    } else if '0' as u8 <= c && c <= '9' as u8 {
        Some(c - '0' as u8 + 52)
    } else if c == '+' as u8 {
        Some(62)
    } else if c == '/' as u8 {
        Some(63)
    } else {
        None
    }
}

/// Reads base64: white space around it and padding do not count. Gives the
/// first byte that is no digit where there is one.
pub fn decode(s: &str) -> (r: Result<Vec<u8>, u8>)
    ensures
        ({
            let digits = unpadded(encode_utf8(trimmed(s@)));
            match r {
                Ok(b) => all_base64(digits) && b@ == base64_bytes(digits),
                Err(c) => base64_value(c) is None && exists|i: int|
                    0 <= i < digits.len() && #[trigger] digits[i] == c && all_base64(
                        digits.take(i),
                    ),
            }
        }),
{
    let text = trim(s);
    let c = text.as_str().as_bytes();
    let ghost t = encode_utf8(trimmed(s@));
    let ghost digits = unpadded(t);
    let mut vals: Vec<u8> = Vec::new();
    let ghost mut seen: Seq<u8> = Seq::empty();
    let mut i: usize = 0;
    while i < c.len()
        invariant
            i <= c.len(),
            c@ == t,
            t == encode_utf8(trimmed(s@)),
            digits == unpadded(t),
            seen == unpadded(t.take(i as int)),
            vals.len() == seen.len(),
            forall|j: int|
                0 <= j < seen.len() ==> base64_value(#[trigger] seen[j]) == Some(vals@[j] as int)
                    && vals@[j] < 64,
        decreases c.len() - i,
    {
        assert(t.take(i + 1).drop_last() =~= t.take(i as int));
        assert(t.take(i + 1).last() == c@[i as int]);
        if c[i] != '=' as u8 {
            match digit_value(c[i]) {
                Some(v) => {
                    vals.push(v);
                    proof {
                        let was = seen;
                        seen = seen.push(c@[i as int]);
                        assert forall|j: int| 0 <= j < seen.len() implies base64_value(
                            #[trigger] seen[j],
                        ) == Some(vals@[j] as int) && vals@[j] < 64 by {
                            if j < was.len() {
                                assert(seen[j] == was[j]);
                            }
                        }
                    }
                },
                None => {
                    proof {
                        lemma_unpadded_prefix(t, i + 1);
                        let at = seen.len() as int;
                        let upto = unpadded(t.take(i + 1));
                        assert(upto =~= seen.push(c@[i as int]));
                        assert(digits[at] == upto[at]);
                        assert(digits.take(at) =~= seen);
                    }
                    return Err(c[i]);
                },
            }
        }
        i = i + 1;
    }
    assert(t.take(i as int) =~= t);
    let mut out: Vec<u8> = Vec::new();
    let mut p: usize = 0;
    assert(digits.skip(0) =~= digits);
    assert(out@ + base64_bytes(digits) =~= base64_bytes(digits));
    while vals.len() - p >= 4
        invariant
            p <= vals.len(),
            vals.len() == digits.len(),
            forall|j: int|
                0 <= j < digits.len() ==> base64_value(#[trigger] digits[j]) == Some(
                    vals@[j] as int,
                ) && vals@[j] < 64,
            base64_bytes(digits) == out@ + base64_bytes(digits.skip(p as int)),
        decreases vals.len() - p,
    {
        let ghost rest = digits.skip(p as int);
        let ghost was = out@;
        proof {
            assert(rest[0] == digits[p as int]);
            assert(rest[1] == digits[p + 1]);
            assert(rest[2] == digits[p + 2]);
            assert(rest[3] == digits[p + 3]);
        }
        let (a, b, x, d) = (vals[p], vals[p + 1], vals[p + 2], vals[p + 3]);
        out.push(a * 4 + b / 16);
        out.push((b % 16) * 16 + x / 4);
        out.push((x % 4) * 64 + d);
        proof {
            assert(rest.skip(4) =~= digits.skip(p + 4));
            assert(was + (seq![
                (a * 4 + b / 16) as u8,
                (b % 16 * 16 + x / 4) as u8,
                (x % 4 * 64 + d) as u8,
            ] + base64_bytes(rest.skip(4))) =~= out@ + base64_bytes(rest.skip(4)));
        }
        p = p + 4;
    }
    let ghost rest = digits.skip(p as int);
    let ghost was = out@;
    if vals.len() - p >= 2 {
        proof {
            assert(rest[0] == digits[p as int]);
            assert(rest[1] == digits[p + 1]);
        }
        out.push(vals[p] * 4 + vals[p + 1] / 16);
        if vals.len() - p >= 3 {
            assert(rest[2] == digits[p + 2]);
            out.push((vals[p + 1] % 16) * 16 + vals[p + 2] / 4);
        }
    }
    assert(out@ =~= was + base64_bytes(rest));
    Ok(out)
}

proof fn lemma_unpadded_prefix(s: Seq<u8>, n: int)
    requires
        0 <= n <= s.len(),
    ensures
        unpadded(s.take(n)).len() <= unpadded(s).len(),
        unpadded(s).take(unpadded(s.take(n)).len() as int) == unpadded(s.take(n)),
    decreases s.len() - n,
{
    if n < s.len() {
        lemma_unpadded_prefix(s, n + 1);
        assert(s.take(n + 1).drop_last() =~= s.take(n));
        let a = unpadded(s.take(n));
        let b = unpadded(s.take(n + 1));
        assert(b.take(a.len() as int) =~= a);
        assert(unpadded(s).take(a.len() as int) =~= b.take(a.len() as int));
    } else {
        assert(s.take(n) =~= s);
        assert(unpadded(s).take(unpadded(s).len() as int) =~= unpadded(s));
    }
}

/// What a line of the log holds: JSON, or JSON in an envelope that is
/// encrypted with the key.
pub open spec fn line_value(line: Seq<char>, dek: Option<Seq<u8>>) -> Option<Json> {
    match json_parse(encode_utf8(line)) {
        None => None,
        Some(j) => if json_get(j, "enc"@) == Some(Json::Number(Num::Int(1))) {
            match (dek, json_get(j, "data"@)) {
                (Some(key), Some(Json::Text(b64))) => {
                    let digits = unpadded(encode_utf8(trimmed(b64)));
                    if all_base64(digits) {
                        match decrypted(base64_bytes(digits), key) {
                            Ok(plain) => json_parse(plain),
                            Err(_) => None,
                        }
                    } else {
                        None
                    }
                },
                _ => None,
            }
        } else {
            Some(j)
        },
    }
}

fn try_decode_line(line: &str, dek: Option<&Dek>) -> (r: Option<JsonValue>)
    ensures
        ({
            let key = match dek {
                Some(d) => Some(d.0@),
                None => None,
            };
            match r {
                Some(v) => v.wf() && line_value(line@, key) == Some(v@) && json_fits(
                    v@,
                    MAX_DEPTH as int,
                ),
                None => line_value(line@, key) is None,
            }
        }),
{
    let parsed = crate::json::parse(line.as_bytes());
    let j = match parsed {
        Some(v) => v,
        None => {
            return None;
        },
    };
    let enveloped = match j.get("enc") {
        Some(v) => v.as_u64() == Some(1),
        None => false,
    };
    if !enveloped {
        return Some(j);
    }
    let key = match dek {
        Some(k) => k,
        None => {
            return None;
        },
    };
    let b64 = match j.get("data") {
        Some(JsonValue::Text(t)) => t,
        _ => {
            return None;
        },
    };
    match decode(b64.as_str()) {
        Ok(bytes) => match decrypt(bytes.as_slice(), key) {
            Ok(plain) => crate::json::parse(plain.as_slice()),
            Err(_) => None,
        },
        Err(_) => None,
    }
}

/// The text of a field, where it is one.
pub open spec fn text_of_field(j: Json, key: Seq<char>) -> Option<Seq<char>> {
    match json_get(j, key) {
        Some(Json::Text(t)) => Some(t),
        _ => None,
    }
}

/// The integers that are not negative among the items of an array.
pub open spec fn counts_in(items: Seq<Json>) -> Seq<u64>
    decreases items.len(),
{
    if items.len() == 0 {
        Seq::empty()
    } else {
        let before = counts_in(items.drop_last());
        match items.last() {
            Json::Number(Num::Int(n)) => if 0 <= n {
                before.push(n as u64)
            } else {
                before
            },
            _ => before,
        }
    }
}

/// The number of an operation; zero where it has none.
pub open spec fn op_seq(j: Json) -> u64 {
    match json_get(j, "seq"@) {
        Some(Json::Number(Num::Int(n))) => if n >= 0 {
            n as u64
        } else {
            0
        },
        _ => 0,
    }
}

/// The time of an operation; zero where it has none.
pub open spec fn op_time(j: Json) -> Num {
    match as_float(json_get(j, "ts"@)) {
        Some(t) => t,
        None => Num::Float(float_text("0"@)->0),
    }
}

/// The numbers of the operations that led to one.
pub open spec fn op_causes(j: Json) -> Seq<u64> {
    match json_get(j, "caused_by"@) {
        Some(Json::Array(items)) => counts_in(items),
        _ => Seq::empty(),
    }
}

/// The operation that a line is, if it puts a document: one with a collection,
/// an id and a payload.
pub open spec fn op_of(j: Json) -> Option<V1OpV> {
    let payload = json_get(j, "payload"@);
    if text_of_field(j, "op"@) != Some("put"@) || payload is None {
        None
    } else {
        match (text_of_field(payload->0, "coll"@), text_of_field(payload->0, "id"@)) {
            (Some(coll), Some(id)) => if coll.len() == 0 || id.len() == 0 {
                None
            } else {
                Some(
                    V1OpV {
                        seq: op_seq(j),
                        coll,
                        id,
                        data: match json_get(payload->0, "doc"@) {
                            Some(d) => d,
                            None => Json::Null,
                        },
                        caused_by: op_causes(j),
                        ts: op_time(j),
                        valid_from: text_of_field(j, "valid_from"@),
                        valid_to: text_of_field(j, "valid_to"@),
                    },
                )
            },
            _ => None,
        }
    }
}

/// The text of a field, where it is one.
pub fn field_text(j: &JsonValue, key: &str) -> (r: Option<String>)
    ensures
        opt_text(r) == text_of_field(j@, key@),
{
    match j.get(key) {
        Some(JsonValue::Text(t)) => Some(t.clone()),
        _ => None,
    }
}

fn read_causes(j: &JsonValue) -> (r: Vec<u64>)
    requires
        j.wf(),
    ensures
        r@ == op_causes(j@),
{
    let mut out: Vec<u64> = Vec::new();
    let found = j.get("caused_by");
    if let Some(JsonValue::Array(a)) = found {
        let ghost items = found->0@->Array_0;
        let mut i: usize = 0;
        assert(out@ =~= counts_in(items.take(0)));
        while i < a.len()
            invariant
                i <= a.len(),
                *found->0 == JsonValue::Array(*a),
                found->0.wf(),
                items == found->0@->Array_0,
                out@ == counts_in(items.take(i as int)),
            decreases a.len() - i,
        {
            assert(items.take(i + 1).drop_last() =~= items.take(i as int));
            assert(items.take(i + 1).last() == a@[i as int]@);
            assert(a@[i as int].wf());
            proof {
                crate::json::lemma_wf(a@[i as int]);
            }
            if let Some(n) = a[i].as_u64() {
                out.push(n);
            }
            i = i + 1;
        }
        assert(items.take(i as int) =~= items);
    }
    out
}

/// The operation that a line is, if it puts a document.
fn read_op(j: &JsonValue) -> (r: Option<V1Op>)
    requires
        j.wf(),
        json_fits(j@, MAX_DEPTH as int),
    ensures
        match r {
            Some(o) => o.wf() && op_of(j@) == Some(o@) && op_storable(o@),
            None => op_of(j@) is None,
        },
{
    let is_put = match j.get("op") {
        Some(JsonValue::Text(t)) => crate::text::same_text(t.as_str(), "put"),
        _ => false,
    };
    if !is_put {
        return None;
    }
    let payload = match j.get("payload") {
        Some(p) => p,
        None => {
            return None;
        },
    };
    let coll = match field_text(payload, "coll") {
        Some(s) => s,
        None => {
            return None;
        },
    };
    let id = match field_text(payload, "id") {
        Some(s) => s,
        None => {
            return None;
        },
    };
    let ts = match float_number(j.get("ts")) {
        Some(n) => n,
        None => {
            proof {
                reveal_strlit("0");
            }
            Number::from_literal("0").unwrap()
        },
    };
    if coll.as_str().is_empty() || id.as_str().is_empty() {
        return None;
    }
    let data = match payload.get("doc") {
        Some(d) => {
            proof {
                lemma_field_fits(j@, "payload"@, MAX_DEPTH as int);
                lemma_field_fits(payload@, "doc"@, MAX_DEPTH - 1);
                lemma_fits_deeper(d@, MAX_DEPTH - 2, MAX_DEPTH - 1);
            }
            d.clone()
        },
        None => JsonValue::Null,
    };
    proof {
        crate::json::lemma_wf(data);
    }
    let seq: u64 = match j.get("seq") {
        Some(v) => match v.as_u64() {
            Some(n) => n,
            None => 0,
        },
        None => 0,
    };
    Some(
        V1Op {
            seq,
            coll,
            id,
            data,
            caused_by: read_causes(j),
            ts,
            valid_from: field_text(j, "valid_from"),
            valid_to: field_text(j, "valid_to"),
        },
    )
}

/// The lines of a text.
pub open spec fn lines(s: Seq<char>) -> Seq<Seq<char>>
    decreases s.len(),
{
    if s.len() == 0 {
        seq![Seq::empty()]
    } else {
        let before = lines(s.drop_last());
        if s.last() == '\n' {
            before.push(Seq::empty())
        } else {
            before.drop_last().push(before.last().push(s.last()))
        }
    }
}

/// The operations of the lines of a log. Empty lines, lines that cannot be read
/// and lines that put no document are passed over.
pub open spec fn log_ops(ls: Seq<Seq<char>>, dek: Option<Seq<u8>>) -> Seq<V1OpV>
    decreases ls.len(),
{
    if ls.len() == 0 {
        Seq::empty()
    } else {
        let line = trimmed(ls[0]);
        let rest = ls.drop_first();
        if line.len() == 0 {
            log_ops(rest, dek)
        } else {
            match line_value(line, dek) {
                None => log_ops(rest, dek),
                Some(j) => match op_of(j) {
                    Some(op) => seq![op] + log_ops(rest, dek),
                    None => log_ops(rest, dek),
                },
            }
        }
    }
}

/// The operations of two parts of a log are those of the whole.
pub proof fn lemma_log_parts(a: Seq<Seq<char>>, b: Seq<Seq<char>>, dek: Option<Seq<u8>>)
    ensures
        log_ops(a + b, dek) == log_ops(a, dek) + log_ops(b, dek),
    decreases a.len(),
{
    if a.len() == 0 {
        assert(a + b =~= b);
        assert(log_ops(a, dek) + log_ops(b, dek) =~= log_ops(b, dek));
    } else {
        assert((a + b).drop_first() =~= a.drop_first() + b);
        lemma_log_parts(a.drop_first(), b, dek);
        assert(log_ops(a + b, dek) =~= log_ops(a, dek) + log_ops(b, dek));
    }
}

/// A line that cannot be read costs nothing but itself: the operations before
/// and behind it are all there.
pub proof fn lemma_corrupt_line(
    a: Seq<Seq<char>>,
    line: Seq<char>,
    b: Seq<Seq<char>>,
    dek: Option<Seq<u8>>,
)
    requires
        line_value(trimmed(line), dek) is None,
    ensures
        log_ops(a + seq![line] + b, dek) == log_ops(a, dek) + log_ops(b, dek),
{
    let one = seq![line];
    assert(log_ops(one, dek) =~= Seq::empty()) by {
        assert(one.drop_first() =~= Seq::empty());
        assert(log_ops(one.drop_first(), dek) =~= Seq::empty());
    }
    lemma_log_parts(a + one, b, dek);
    lemma_log_parts(a, one, dek);
    assert(log_ops(a, dek) + log_ops(one, dek) =~= log_ops(a, dek));
}

fn split_lines(s: &str) -> (r: Vec<String>)
    ensures
        strings(r@) == lines(s@),
{
    let c = chars_of(s);
    let mut out: Vec<String> = Vec::new();
    let mut start: usize = 0;
    let mut i: usize = 0;
    assert(c@.subrange(0, 0) =~= Seq::<char>::empty());
    assert(strings(out@).push(c@.subrange(0, 0)) =~= lines(c@.take(0)));
    while i < c.len()
        invariant
            start <= i <= c.len(),
            c@ == s@,
            strings(out@).push(c@.subrange(start as int, i as int)) == lines(c@.take(i as int)),
        decreases c.len() - i,
    {
        let ghost before = lines(c@.take(i as int));
        let ghost done = strings(out@);
        let ghost part = c@.subrange(start as int, i as int);
        assert(c@.take(i + 1).drop_last() =~= c@.take(i as int));
        assert(c@.take(i + 1).last() == c@[i as int]);
        assert(before.drop_last() =~= done);
        assert(before.last() == part);
        if c[i] == '\n' {
            out.push(text_of(&c, start, i));
            assert(strings(out@) =~= done.push(part));
            start = i + 1;
            assert(c@.subrange(start as int, i + 1) =~= Seq::<char>::empty());
        } else {
            assert(c@.subrange(start as int, i + 1) =~= part.push(c@[i as int]));
        }
        i = i + 1;
    }
    let ghost done = strings(out@);
    out.push(text_of(&c, start, c.len()));
    assert(c@.take(i as int) =~= c@);
    assert(strings(out@) =~= done.push(c@.subrange(start as int, i as int)));
    out
}

/// The operations of a log.
pub fn read_v1_aof(raw: &str, dek: Option<&Dek>) -> (r: Vec<V1Op>)
    ensures
        ops_wf(r@),
        ops_storable(ops_view(r@)),
        ops_view(r@) == log_ops(
            lines(raw@),
            match dek {
                Some(d) => Some(d.0@),
                None => None,
            },
        ),
{
    let ghost key = match dek {
        Some(d) => Some(d.0@),
        None => None,
    };
    let ls = split_lines(raw);
    let ghost all = lines(raw@);
    let mut ops: Vec<V1Op> = Vec::new();
    let mut i: usize = 0;
    assert(all.skip(0) =~= all);
    assert(ops_view(ops@) + log_ops(all, key) =~= log_ops(all, key));
    while i < ls.len()
        invariant
            i <= ls.len(),
            all == strings(ls@),
            all == lines(raw@),
            key == (match dek {
                Some(d) => Some(d.0@),
                None => None,
            }),
            ops_wf(ops@),
            ops_storable(ops_view(ops@)),
            log_ops(all, key) == ops_view(ops@) + log_ops(all.skip(i as int), key),
        decreases ls.len() - i,
    {
        let ghost rest = all.skip(i as int);
        let ghost was = ops_view(ops@);
        assert(rest[0] == ls@[i as int]@);
        assert(rest.drop_first() =~= all.skip(i + 1));
        let line = trim(ls[i].as_str());
        i = i + 1;
        if line.as_str().is_empty() {
            continue;
        }
        if let Some(j) = try_decode_line(line.as_str(), dek) {
            if let Some(op) = read_op(&j) {
                ops.push(op);
                proof {
                    assert(ops_view(ops@) =~= was.push(op@));
                    assert(was + (seq![op@] + log_ops(all.skip(i as int), key)) =~= was.push(op@)
                        + log_ops(all.skip(i as int), key));
                }
            }
        }
    }
    assert(all.skip(i as int) =~= Seq::<Seq<char>>::empty());
    assert(ops_view(ops@) + Seq::<V1OpV>::empty() =~= ops_view(ops@));
    ops
}

/// Where taking over a log stands: the stores, and the hash of what each
/// number was written as.
#[verifier::ext_equal]
pub struct TakenV {
    pub objects: ObjV,
    pub ids: IdV,
    pub sorted: SortedV,
    pub graph: GraphV,
    pub seen: Map<u64, Seq<char>>,
}

/// The hashes of the operations with these numbers, as far as they are known.
pub open spec fn known_causes(causes: Seq<u64>, seen: Map<u64, Seq<char>>) -> Seq<Seq<char>>
    decreases causes.len(),
{
    if causes.len() == 0 {
        Seq::empty()
    } else {
        let before = known_causes(causes.drop_last(), seen);
        if seen.contains_key(causes.last()) {
            before.push(seen[causes.last()])
        } else {
            before
        }
    }
}

/// The version that an operation becomes, before it has a hash.
pub open spec fn op_version(v: TakenV, op: V1OpV) -> NodeV {
    NodeV {
        id: op.id,
        coll: op.coll,
        seq: op.seq,
        data: op.data,
        prev: hash_of(v.ids, op.coll, op.id),
        caused_by: known_causes(op.caused_by, v.seen),
        ts: op.ts,
        valid_from: op.valid_from,
        valid_to: op.valid_to,
        hash: Seq::empty(),
    }
}

/// Whether taking over an operation came to this.
pub open spec fn op_taken(v: TakenV, op: V1OpV, hash: Seq<char>, w: TakenV) -> bool {
    &&& wrote(v.objects, op_version(v, op), hash, w.objects)
    &&& w == (TakenV {
        objects: w.objects,
        ids: id_set(v.ids, op.coll, op.id, hash),
        sorted: fields_added(v.sorted, op.coll, doc_fields(op.data), hash),
        graph: causes_added(v.graph, hash, known_causes(op.caused_by, v.seen)),
        seen: v.seen.insert(op.seq, hash),
    })
}

/// Whether taking over operations one after the other went through these
/// states, with these hashes.
pub open spec fn ops_taken(
    states: Seq<TakenV>,
    ops: Seq<V1OpV>,
    hashes: Seq<Seq<char>>,
) -> bool {
    &&& states.len() == ops.len() + 1
    &&& hashes.len() == ops.len()
    &&& forall|i: int|
        0 <= i < ops.len() ==> op_taken(states[i], ops[i], #[trigger] hashes[i], states[i + 1])
}

/// Whether taking over operations leads from one state to another.
pub open spec fn takes_to(v: TakenV, ops: Seq<V1OpV>, w: TakenV) -> bool {
    exists|states: Seq<TakenV>, hashes: Seq<Seq<char>>| #[trigger]
        ops_taken(states, ops, hashes) && states[0] == v && states.last() == w
}

/// Nothing taken over yet.
pub open spec fn untaken(objects: ObjV, ids: IdV, sorted: SortedV, graph: GraphV) -> TakenV {
    TakenV { objects, ids, sorted, graph, seen: Map::empty() }
}

/// Whether some state with these stores can be reached by taking over
/// operations.
pub open spec fn all_taken(v: TakenV, ops: Seq<V1OpV>, w: TakenV) -> bool {
    exists|seen: Map<u64, Seq<char>>| #[trigger] takes_to(v, ops, TakenV { seen, ..w })
}

/// Whether taking over operations stops at one that cannot be written.
pub open spec fn stopped(v: TakenV, ops: Seq<V1OpV>, w: TakenV, e: StoreError) -> bool {
    exists|n: int, seen: Map<u64, Seq<char>>|
        0 <= n < ops.len() && #[trigger] takes_to(v, ops.take(n), TakenV { seen, ..w })
            && write_error(w.objects, op_version(TakenV { seen, ..w }, ops[n]), e)
}

spec fn texts_at(m: Map<u64, String>) -> Map<u64, Seq<char>> {
    m.map_values(|s: String| s@)
}

fn resolve_causes(causes: &Vec<u64>, seen: &HashMap<u64, String>) -> (r: Vec<String>)
    ensures
        strings(r@) == known_causes(causes@, texts_at(seen@)),
{
    let mut out: Vec<String> = Vec::new();
    let mut i: usize = 0;
    assert(strings(out@) =~= known_causes(causes@.take(0), texts_at(seen@)));
    while i < causes.len()
        invariant
            i <= causes.len(),
            strings(out@) == known_causes(causes@.take(i as int), texts_at(seen@)),
        decreases causes.len() - i,
    {
        assert(causes@.take(i + 1).drop_last() =~= causes@.take(i as int));
        assert(causes@.take(i + 1).last() == causes@[i as int]);
        let ghost was = strings(out@);
        if let Some(hash) = seen.get(&causes[i]) {
            out.push(hash.clone());
            assert(strings(out@) =~= was.push(hash@));
        }
        i = i + 1;
    }
    assert(causes@.take(i as int) =~= causes@);
    out
}

/// Takes over a log, where there is one, and gives whether there was. Each
/// operation becomes a version that follows the one that is current; it is put
/// in the indexes, and its causes, which the log gives by number, become
/// edges. Where one cannot be written, what came before it stays.
pub fn migrate_if_needed(
    aof: Option<&str>,
    objects: &mut ObjectStore,
    ids: &mut IdIndex,
    sorted: &mut SortedIndexes,
    graph: &mut GraphStore,
    dek: Option<&Dek>,
) -> (r: Result<bool, StoreError>)
    requires
        old(objects).wf(),
        old(ids).wf(),
        old(sorted).wf(),
        old(graph).wf(),
    ensures
        final(objects).wf(),
        final(ids).wf(),
        final(sorted).wf(),
        final(graph).wf(),
        migrated(
            untaken(old(objects)@, old(ids)@, old(sorted)@, old(graph)@),
            match aof {
                Some(t) => Some(t@),
                None => None,
            },
            match dek {
                Some(d) => Some(d.0@),
                None => None,
            },
            r,
            untaken(final(objects)@, final(ids)@, final(sorted)@, final(graph)@),
        ),
        obj_coherent(old(objects)@) ==> obj_coherent(final(objects)@),
        obj_sound(old(objects)@) ==> obj_sound(final(objects)@),
{
    let raw = match aof {
        Some(t) => t,
        None => {
            return Ok(false);
        },
    };
    let ghost key = match dek {
        Some(d) => Some(d.0@),
        None => None,
    };
    let ghost start = untaken(objects@, ids@, sorted@, graph@);
    let ops = read_v1_aof(raw, dek);
    let ghost all = ops_view(ops@);
    let mut seen: HashMap<u64, String> = HashMap::new();
    let ghost mut states: Seq<TakenV> = seq![start];
    let ghost mut hashes: Seq<Seq<char>> = Seq::empty();
    assert(texts_at(seen@) =~= Map::<u64, Seq<char>>::empty());
    let mut i: usize = 0;
    while i < ops.len()
        invariant
            i <= ops.len(),
            objects.wf(),
            ids.wf(),
            sorted.wf(),
            graph.wf(),
            aof == Some(raw),
            key == (match dek {
                Some(d) => Some(d.0@),
                None => None,
            }),
            start == untaken(old(objects)@, old(ids)@, old(sorted)@, old(graph)@),
            all == ops_view(ops@),
            ops_wf(ops@),
            all == log_ops(lines(raw@), key),
            ops_taken(states, all.take(i as int), hashes),
            states[0] == start,
            states.last() == (TakenV {
                objects: objects@,
                ids: ids@,
                sorted: sorted@,
                graph: graph@,
                seen: texts_at(seen@),
            }),
            obj_coherent(old(objects)@) ==> obj_coherent(objects@),
            obj_sound(old(objects)@) ==> obj_sound(objects@),
        decreases ops.len() - i,
    {
        let op = &ops[i];
        let ghost v = states.last();
        assert(all[i as int] == op@);
        let mut node = Node {
            id: op.id.clone(),
            coll: op.coll.clone(),
            seq: op.seq,
            data: op.data.clone(),
            prev: ids.get(op.coll.as_str(), op.id.as_str()),
            caused_by: resolve_causes(&op.caused_by, &seen),
            ts: op.ts.clone(),
            valid_from: clone_text(&op.valid_from),
            valid_to: clone_text(&op.valid_to),
            hash: String::new(),
        };
        assert(node@ =~= op_version(v, op@));
        match objects.write(&mut node) {
            Ok(hash) => {
                ids.set(op.coll.as_str(), op.id.as_str(), hash.as_str());
                add_causes(graph, hash.as_str(), &node.caused_by);
                add_fields(sorted, op.coll.as_str(), &op.data, hash.as_str());
                let ghost known = texts_at(seen@);
                let ghost h = hash@;
                seen.insert(op.seq, hash);
                proof {
                    assert(texts_at(seen@) =~= known.insert(op.seq, h));
                    let w = TakenV {
                        objects: objects@,
                        ids: ids@,
                        sorted: sorted@,
                        graph: graph@,
                        seen: texts_at(seen@),
                    };
                    assert(op_taken(v, op@, h, w));
                    let next = states.push(w);
                    assert forall|j: int| 0 <= j < i + 1 implies op_taken(
                        next[j],
                        all.take(i + 1)[j],
                        #[trigger] hashes.push(h)[j],
                        next[j + 1],
                    ) by {
                        if j < i {
                            assert(hashes.push(h)[j] == hashes[j]);
                        }
                    }
                    states = next;
                    hashes = hashes.push(h);
                }
            },
            Err(e) => {
                proof {
                    let w = untaken(objects@, ids@, sorted@, graph@);
                    assert(TakenV { seen: v.seen, ..w } == v);
                    assert(takes_to(start, all.take(i as int), TakenV { seen: v.seen, ..w }));
                    assert(stopped(start, all, w, e));
                }
                return Err(e);
            },
        }
        i = i + 1;
    }
    proof {
        assert(all.take(i as int) =~= all);
        let w = untaken(objects@, ids@, sorted@, graph@);
        let v = states.last();
        assert(TakenV { seen: v.seen, ..w } == v);
        assert(takes_to(start, all, TakenV { seen: v.seen, ..w }));
    }
    Ok(true)
}

/// What taking over a log comes to.
pub open spec fn migrated(
    v: TakenV,
    aof: Option<Seq<char>>,
    dek: Option<Seq<u8>>,
    r: Result<bool, StoreError>,
    w: TakenV,
) -> bool {
    match aof {
        None => r == Ok::<bool, StoreError>(false) && w == v,
        Some(text) => {
            let ops = log_ops(lines(text), dek);
            match r {
                Ok(moved) => moved && ops_storable(ops) && all_taken(v, ops, w),
                Err(e) => stopped(v, ops, w, e),
            }
        },
    }
}

} // verus!
