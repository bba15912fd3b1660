//! Document versions, and the objects that they are written as.

use vstd::prelude::*;
#[allow(unused_imports)]
use vstd::string::StringExecFns;
use crate::index::opt_text;
use crate::json::{
    by_key, field_of, fields_view, fields_wf, float_text, json_fits, json_part, json_wf,
    keys_ascend, lemma_field_set, object_text, Json, JsonValue, Num, Number, MAX_DEPTH,
};
use crate::text::{decimal, decimal_text};

verus! {

/// One version of a document.
#[derive(Debug)]
pub struct Node {
    /// The id that the user gave the document.
    pub id: String,
    /// The collection that it is in.
    pub coll: String,
    /// The number of the write.
    pub seq: u64,
    /// The document itself.
    pub data: JsonValue,
    /// The hash of the version before it.
    pub prev: Option<String>,
    /// The hashes of the versions that led to it.
    pub caused_by: Vec<String>,
    /// When it was written, in seconds since 1970, as a double.
    pub ts: Number,
    /// From when on it is valid.
    pub valid_from: Option<String>,
    /// Until when it is valid.
    pub valid_to: Option<String>,
    /// The hash of the object that it is written as; empty until it is.
    pub hash: String,
}

/// What a version of a document is.
#[verifier::ext_equal]
pub struct NodeV {
    pub id: Seq<char>,
    pub coll: Seq<char>,
    pub seq: u64,
    pub data: Json,
    pub prev: Option<Seq<char>>,
    pub caused_by: Seq<Seq<char>>,
    pub ts: Num,
    pub valid_from: Option<Seq<char>>,
    pub valid_to: Option<Seq<char>>,
    pub hash: Seq<char>,
}

pub open spec fn strings(v: Seq<String>) -> Seq<Seq<char>> {
    v.map_values(|s: String| s@)
}

impl View for Node {
    type V = NodeV;

    open spec fn view(&self) -> NodeV {
        NodeV {
            id: self.id@,
            coll: self.coll@,
            seq: self.seq,
            data: self.data@,
            prev: opt_text(self.prev),
            caused_by: strings(self.caused_by@),
            ts: self.ts@,
            valid_from: opt_text(self.valid_from),
            valid_to: opt_text(self.valid_to),
            hash: self.hash@,
        }
    }
}

impl Node {
    /// The document is well formed, and the time is a double.
    pub open spec fn wf(&self) -> bool {
        self.data.wf() && self.ts is Float && self.ts.wf()
    }
}

/// Copies a list of texts.
pub fn clone_texts(v: &Vec<String>) -> (r: Vec<String>)
    ensures
        strings(r@) == strings(v@),
{
    let mut out: Vec<String> = Vec::new();
    let mut i: usize = 0;
    while i < v.len()
        invariant
            i <= v.len(),
            strings(out@) == strings(v@).take(i as int),
        decreases v.len() - i,
    {
        let ghost was = strings(out@);
        out.push(v[i].clone());
        assert(strings(out@) =~= was.push(strings(v@)[i as int]));
        assert(strings(v@).take(i + 1) =~= was.push(strings(v@)[i as int]));
        i = i + 1;
    }
    assert(strings(v@).take(i as int) =~= strings(v@));
    out
}

/// Copies a text, if there is one.
pub fn clone_text(v: &Option<String>) -> (r: Option<String>)
    ensures
        opt_text(r) == opt_text(*v),
{
    match v {
        Some(s) => Some(s.clone()),
        None => None,
    }
}

impl Clone for Node {
    fn clone(&self) -> (r: Node)
        ensures
            r@ == self@,
            self.wf() ==> r.wf(),
    {
        Node {
            id: self.id.clone(),
            coll: self.coll.clone(),
            seq: self.seq,
            data: self.data.clone(),
            prev: clone_text(&self.prev),
            caused_by: clone_texts(&self.caused_by),
            ts: self.ts.clone(),
            valid_from: clone_text(&self.valid_from),
            valid_to: clone_text(&self.valid_to),
            hash: self.hash.clone(),
        }
    }
}

/// Text or null.
pub open spec fn opt_json(s: Option<Seq<char>>) -> Json {
    match s {
        Some(t) => Json::Text(t),
        None => Json::Null,
    }
}

/// A list of texts.
pub open spec fn texts_json(v: Seq<Seq<char>>) -> Json {
    Json::Array(v.map_values(|s: Seq<char>| Json::Text(s)))
}

/// The fields of the object that a version is written as. The hash is not
/// among them: it is the hash of what is written.
pub open spec fn node_fields(n: NodeV) -> Seq<(Seq<char>, Json)> {
    seq![
        ("id"@, Json::Text(n.id)),
        ("coll"@, Json::Text(n.coll)),
        ("seq"@, Json::Number(Num::Int(n.seq as int))),
        ("data"@, n.data),
        ("prev"@, opt_json(n.prev)),
        ("caused_by"@, texts_json(n.caused_by)),
        ("ts"@, Json::Number(n.ts)),
        ("valid_from"@, opt_json(n.valid_from)),
        ("valid_to"@, opt_json(n.valid_to)),
    ]
}

/// The bytes that a version is written as.
pub open spec fn node_bytes(n: NodeV) -> Seq<u8> {
    object_text(node_fields(n))
}

/// Whether a version can be read back from what it is written as: the document
/// is not nested too deep for that.
pub open spec fn storable(n: NodeV) -> bool {
    &&& json_wf(n.data)
    &&& json_fits(n.data, MAX_DEPTH - 1)
    &&& n.ts matches Num::Float(t) && float_text(t) == Some(t)
}

/// A text that may be missing or null.
pub open spec fn opt_part(part: Option<Json>) -> Option<Option<Seq<char>>> {
    match part {
        None => Some(None),
        Some(Json::Null) => Some(None),
        Some(Json::Text(t)) => Some(Some(t)),
        Some(_) => None,
    }
}

/// The texts of an array of texts.
pub open spec fn text_items(j: Option<Json>) -> Option<Seq<Seq<char>>> {
    match j {
        Some(Json::Array(a)) => if forall|i: int| 0 <= i < a.len() ==> (#[trigger] a[i]) is Text {
            Some(Seq::new(a.len(), |i: int| a[i]->Text_0))
        } else {
            None
        },
        _ => None,
    }
}

/// An integer in decimal, with a minus sign where it is negative.
pub open spec fn integer_text(n: int) -> Seq<char> {
    if n < 0 {
        seq!['-'] + decimal((-n) as nat)
    } else {
        decimal(n as nat)
    }
}

/// A number as a double.
pub open spec fn as_float(j: Option<Json>) -> Option<Num> {
    match j {
        Some(Json::Number(Num::Float(t))) => Some(Num::Float(t)),
        Some(Json::Number(Num::Int(i))) => match float_text(integer_text(i)) {
            Some(t) => Some(Num::Float(t)),
            None => None,
        },
        _ => None,
    }
}

/// The hash that a version may name itself by; empty where it names none.
pub open spec fn hash_part(part: Option<Json>) -> Option<Seq<char>> {
    match part {
        None => Some(Seq::empty()),
        Some(Json::Text(t)) => Some(t),
        Some(_) => None,
    }
}

/// Whether a record has the parts of a version: as the fields of an object, or
/// in an array, in which only the hash may be missing.
pub open spec fn node_shaped(j: Json) -> bool {
    j matches Json::Array(items) ==> 9 <= items.len() <= 10
}

/// The version that a record is.
pub open spec fn node_from(j: Json) -> Option<NodeV> {
    let id = json_part(j, "id"@, 0);
    let coll = json_part(j, "coll"@, 1);
    let seq = json_part(j, "seq"@, 2);
    let data = json_part(j, "data"@, 3);
    let prev = opt_part(json_part(j, "prev"@, 4));
    let caused_by = text_items(json_part(j, "caused_by"@, 5));
    let ts = as_float(json_part(j, "ts"@, 6));
    let valid_from = opt_part(json_part(j, "valid_from"@, 7));
    let valid_to = opt_part(json_part(j, "valid_to"@, 8));
    let hash = hash_part(json_part(j, "hash"@, 9));
    if (id matches Some(Json::Text(_))) && (coll matches Some(Json::Text(_))) && (seq matches Some(
        Json::Number(Num::Int(n)),
    ) && 0 <= n <= u64::MAX) && data is Some && prev is Some && caused_by is Some && ts is Some
        && valid_from is Some && valid_to is Some && hash is Some && node_shaped(j) {
        Some(
            NodeV {
                id: id->0->Text_0,
                coll: coll->0->Text_0,
                seq: (seq->0->Number_0->Int_0) as u64,
                data: data->0,
                prev: prev->0,
                caused_by: caused_by->0,
                ts: ts->0,
                valid_from: valid_from->0,
                valid_to: valid_to->0,
                hash: hash->0,
            },
        )
    } else {
        None
    }
}

/// Arranging fields with different keys by key keeps each field.
pub proof fn lemma_by_key(fields: Seq<(Seq<char>, Json)>)
    requires
        forall|i: int, j: int|
            0 <= i < j < fields.len() ==> (#[trigger] fields[i]).0 != (#[trigger] fields[j]).0,
    ensures
        keys_ascend(by_key(fields)),
        forall|i: int|
            0 <= i < fields.len() ==> field_of(by_key(fields), (#[trigger] fields[i]).0) == Some(
                fields[i].1,
            ),
        forall|k: Seq<char>|
            (forall|i: int| 0 <= i < fields.len() ==> (#[trigger] fields[i]).0 != k)
                ==> #[trigger] field_of(by_key(fields), k) is None,
    decreases fields.len(),
{
    if fields.len() > 0 {
        let head = fields.drop_last();
        let last = fields.last();
        assert forall|i: int, j: int| 0 <= i < j < head.len() implies (#[trigger] head[i]).0 != (
        #[trigger] head[j]).0 by {
            assert(head[i] == fields[i] && head[j] == fields[j]);
        }
        lemma_by_key(head);
        lemma_field_set(by_key(head), last.0, last.1);
        let all = by_key(fields);
        assert forall|i: int| 0 <= i < fields.len() implies field_of(all, (#[trigger] fields[i]).0)
            == Some(fields[i].1) by {
            if i < head.len() {
                assert(head[i] == fields[i]);
                assert(fields[i].0 != fields[fields.len() - 1].0);
            }
        }
        assert forall|k: Seq<char>|
            (forall|i: int| 0 <= i < fields.len() ==> (#[trigger] fields[i]).0
                != k) implies #[trigger] field_of(all, k) is None by {
            assert(fields[fields.len() - 1].0 != k);
            assert forall|i: int| 0 <= i < head.len() implies (#[trigger] head[i]).0 != k by {
                assert(head[i] == fields[i]);
            }
            assert(field_of(by_key(head), k) is None);
        }
    }
}

proof fn lemma_field_names()
    ensures
        "id"@.len() == 2,
        "id"@[0] == 'i',
        "coll"@.len() == 4,
        "coll"@[0] == 'c',
        "seq"@.len() == 3,
        "data"@.len() == 4,
        "data"@[0] == 'd',
        "prev"@.len() == 4,
        "prev"@[0] == 'p',
        "caused_by"@.len() == 9,
        "ts"@.len() == 2,
        "ts"@[0] == 't',
        "valid_from"@.len() == 10,
        "valid_to"@.len() == 8,
        "hash"@.len() == 4,
        "hash"@[0] == 'h',
{
    reveal_strlit("id");
    reveal_strlit("coll");
    reveal_strlit("seq");
    reveal_strlit("data");
    reveal_strlit("prev");
    reveal_strlit("caused_by");
    reveal_strlit("ts");
    reveal_strlit("valid_from");
    reveal_strlit("valid_to");
    reveal_strlit("hash");
}

/// The object that a version is written as is that version, without its hash.
pub proof fn lemma_node_round_trip(n: NodeV)
    requires
        storable(n),
    ensures
        fields_wf(node_fields(n)),
        node_from(Json::Object(by_key(node_fields(n)))) == Some(
            (NodeV { hash: Seq::empty(), ..n }),
        ),
{
    let fs = node_fields(n);
    lemma_field_names();
    lemma_by_key(fs);
    let j = Json::Object(by_key(fs));
    assert(field_of(by_key(fs), fs[0].0) == Some(fs[0].1));
    assert(field_of(by_key(fs), fs[1].0) == Some(fs[1].1));
    assert(field_of(by_key(fs), fs[2].0) == Some(fs[2].1));
    assert(field_of(by_key(fs), fs[3].0) == Some(fs[3].1));
    assert(field_of(by_key(fs), fs[4].0) == Some(fs[4].1));
    assert(field_of(by_key(fs), fs[5].0) == Some(fs[5].1));
    assert(field_of(by_key(fs), fs[6].0) == Some(fs[6].1));
    assert(field_of(by_key(fs), fs[7].0) == Some(fs[7].1));
    assert(field_of(by_key(fs), fs[8].0) == Some(fs[8].1));
    assert(field_of(by_key(fs), "hash"@) is None);
    let items = texts_json(n.caused_by)->Array_0;
    assert(text_items(Some(texts_json(n.caused_by)))->0 =~= n.caused_by);
    assert(json_wf(texts_json(n.caused_by))) by {
        assert forall|i: int| 0 <= i < items.len() implies json_wf(#[trigger] items[i]) by {}
    }
    assert(json_fits(texts_json(n.caused_by), MAX_DEPTH - 1)) by {
        assert forall|i: int| 0 <= i < items.len() implies json_fits(
            #[trigger] items[i],
            MAX_DEPTH - 2,
        ) by {}
    }
    assert forall|i: int| 0 <= i < fs.len() implies json_wf((#[trigger] fs[i]).1) && json_fits(
        fs[i].1,
        MAX_DEPTH - 1,
    ) by {}
}

fn opt_value(s: &Option<String>) -> (r: JsonValue)
    ensures
        r.wf(),
        r@ == opt_json(opt_text(*s)),
{
    match s {
        Some(t) => JsonValue::Text(t.clone()),
        None => JsonValue::Null,
    }
}

/// An array of texts.
pub fn texts_value(v: &Vec<String>) -> (r: JsonValue)
    ensures
        r.wf(),
        r@ == texts_json(strings(v@)),
{
    let mut items: Vec<JsonValue> = Vec::new();
    let mut i: usize = 0;
    while i < v.len()
        invariant
            i <= v.len(),
            items.len() == i,
            forall|j: int| 0 <= j < i ==> (#[trigger] items@[j]).wf() && items@[j]@ == Json::Text(v@[j]@),
        decreases v.len() - i,
    {
        items.push(JsonValue::Text(v[i].clone()));
        i = i + 1;
    }
    let r = JsonValue::Array(items);
    assert(r@->Array_0 =~= texts_json(strings(v@))->Array_0);
    r
}

/// The bytes that a version is written as.
pub fn to_bytes(n: &Node) -> (r: Vec<u8>)
    requires
        n.wf(),
    ensures
        r@ == node_bytes(n@),
        storable(n@) ==> (crate::json::json_parse(r@) matches Some(j) && node_from(j) == Some(
            (NodeV { hash: Seq::empty(), ..n@ }),
        )),
{
    let mut fields: Vec<(String, JsonValue)> = Vec::new();
    fields.push(("id".to_owned(), JsonValue::Text(n.id.clone())));
    fields.push(("coll".to_owned(), JsonValue::Text(n.coll.clone())));
    fields.push(("seq".to_owned(), JsonValue::Number(Number::PosInt(n.seq))));
    fields.push(("data".to_owned(), n.data.clone()));
    fields.push(("prev".to_owned(), opt_value(&n.prev)));
    fields.push(("caused_by".to_owned(), texts_value(&n.caused_by)));
    fields.push(("ts".to_owned(), JsonValue::Number(n.ts.clone())));
    fields.push(("valid_from".to_owned(), opt_value(&n.valid_from)));
    fields.push(("valid_to".to_owned(), opt_value(&n.valid_to)));
    assert(fields_view(fields@) =~= node_fields(n@));
    proof {
        if storable(n@) {
            lemma_node_round_trip(n@);
        }
    }
    crate::json::object_to_bytes(&fields)
}

fn opt_text_part(part: Option<&JsonValue>) -> (r: Option<Option<String>>)
    ensures
        ({
            let v = match part {
                Some(x) => Some(x@),
                None => None,
            };
            match r {
                Some(s) => opt_part(v) == Some(opt_text(s)),
                None => opt_part(v) is None,
            }
        }),
{
    match part {
        None => Some(None),
        Some(JsonValue::Null) => Some(None),
        Some(JsonValue::Text(t)) => Some(Some(t.clone())),
        Some(_) => None,
    }
}

/// The texts of an array of texts.
fn text_list(j: Option<&JsonValue>) -> (r: Option<Vec<String>>)
    ensures
        ({
            let v = match j {
                Some(x) => Some(x@),
                None => None,
            };
            match r {
                Some(s) => text_items(v) == Some(strings(s@)),
                None => text_items(v) is None,
            }
        }),
{
    match j {
        Some(JsonValue::Array(a)) => {
            let ghost items = j->0@->Array_0;
            let mut out: Vec<String> = Vec::new();
            let mut i: usize = 0;
            while i < a.len()
                invariant
                    i <= a.len(),
                    out.len() == i,
                    *j->0 == JsonValue::Array(*a),
                    items == j->0@->Array_0,
                    forall|k: int| 0 <= k < i ==> #[trigger] items[k] == Json::Text(out@[k]@),
                decreases a.len() - i,
            {
                assert(items[i as int] == a@[i as int]@);
                match &a[i] {
                    JsonValue::Text(t) => {
                        out.push(t.clone());
                    },
                    _ => {
                        assert(!(items[i as int] is Text));
                        return None;
                    },
                }
                i = i + 1;
            }
            assert(strings(out@) =~= text_items(Some(j->0@))->0);
            Some(out)
        },
        _ => None,
    }
}

/// A number as a double.
pub fn float_number(j: Option<&JsonValue>) -> (r: Option<Number>)
    requires
        j matches Some(x) ==> x.wf(),
    ensures
        ({
            let v = match j {
                Some(x) => Some(x@),
                None => None,
            };
            match r {
                Some(n) => as_float(v) == Some(n@) && n is Float && n.wf(),
                None => as_float(v) is None,
            }
        }),
{
    match j {
        Some(JsonValue::Number(Number::Float(t))) => Some(Number::Float(t.clone())),
        Some(JsonValue::Number(Number::PosInt(n))) => {
            Number::from_literal(decimal_text(*n).as_str())
        },
        Some(JsonValue::Number(Number::NegInt(n))) => {
            let magnitude: u64 = (-(*n as i128)) as u64;
            let digits = decimal_text(magnitude);
            let mut text = String::new();
            text.push('-');
            text.append(digits.as_str());
            assert(text@ =~= integer_text(*n as int));
            Number::from_literal(text.as_str())
        },
        _ => None,
    }
}

/// The version that a record is.
pub fn from_value(j: &JsonValue) -> (r: Option<Node>)
    requires
        j.wf(),
    ensures
        match r {
            Some(n) => n.wf() && node_from(j@) == Some(n@),
            None => node_from(j@) is None,
        },
{
    if let JsonValue::Array(a) = j {
        if a.len() < 9 || a.len() > 10 {
            return None;
        }
    }
    let id = match j.part("id", 0) {
        Some(JsonValue::Text(t)) => t.clone(),
        _ => {
            return None;
        },
    };
    let coll = match j.part("coll", 1) {
        Some(JsonValue::Text(t)) => t.clone(),
        _ => {
            return None;
        },
    };
    let seq: u64 = match j.part("seq", 2) {
        Some(v) => match v.as_u64() {
            Some(n) => n,
            None => {
                proof {
                    crate::json::lemma_wf(*v);
                }
                return None;
            },
        },
        None => {
            return None;
        },
    };
    let data = match j.part("data", 3) {
        Some(v) => v.clone(),
        None => {
            return None;
        },
    };
    let prev = match opt_text_part(j.part("prev", 4)) {
        Some(s) => s,
        None => {
            return None;
        },
    };
    let caused_by = match text_list(j.part("caused_by", 5)) {
        Some(v) => v,
        None => {
            return None;
        },
    };
    let ts = match float_number(j.part("ts", 6)) {
        Some(n) => n,
        None => {
            return None;
        },
    };
    let valid_from = match opt_text_part(j.part("valid_from", 7)) {
        Some(s) => s,
        None => {
            return None;
        },
    };
    let valid_to = match opt_text_part(j.part("valid_to", 8)) {
        Some(s) => s,
        None => {
            return None;
        },
    };
    let hash = match j.part("hash", 9) {
        None => String::new(),
        Some(JsonValue::Text(t)) => t.clone(),
        Some(_) => {
            return None;
        },
    };
    Some(Node { id, coll, seq, data, prev, caused_by, ts, valid_from, valid_to, hash })
}

} // verus!
