//! JSON values, and the bytes and texts that they are read from and written to.

use vstd::prelude::*;
#[allow(unused_imports)]
use vstd::utf8::{decode_utf8, encode_utf8};
#[allow(unused_imports)]
use crate::double::{integer_bits, Double, SIGN};
#[allow(unused_imports)]
use crate::text::{all_digits, compare_text, digits_value, same_text, text_order, Order};

verus! {

/// A JSON number: an integer that fits 64 bits, or a double kept as the
/// literal that it is written as.
#[derive(Debug)]
pub enum Number {
    PosInt(u64),
    NegInt(i64),
    Float(String),
}

/// A JSON value. The fields of an object are in the order of their keys.
#[derive(Debug)]
pub enum JsonValue {
    Null,
    Bool(bool),
    Number(Number),
    Text(String),
    Array(Vec<JsonValue>),
    Object(Vec<(String, JsonValue)>),
}

/// What a number is.
pub enum Num {
    Int(int),
    Float(Seq<char>),
}

/// What a value is.
pub enum Json {
    Null,
    Bool(bool),
    Number(Num),
    Text(Seq<char>),
    Array(Seq<Json>),
    Object(Seq<(Seq<char>, Json)>),
}

impl View for Number {
    type V = Num;

    open spec fn view(&self) -> Num {
        match self {
            Number::PosInt(n) => Num::Int(*n as int),
            Number::NegInt(n) => Num::Int(*n as int),
            Number::Float(t) => Num::Float(t@),
        }
    }
}

impl JsonValue {
    /// What the value is.
    pub open spec fn json(self) -> Json
        decreases self,
    {
        match self {
            JsonValue::Null => Json::Null,
            JsonValue::Bool(b) => Json::Bool(b),
            JsonValue::Number(n) => Json::Number(n@),
            JsonValue::Text(s) => Json::Text(s@),
            JsonValue::Array(a) => Json::Array(
                Seq::new(
                    a@.len(),
                    |i: int|
                        if 0 <= i < a@.len() {
                            a@[i].json()
                        } else {
                            Json::Null
                        },
                ),
            ),
            JsonValue::Object(o) => Json::Object(
                Seq::new(
                    o@.len(),
                    |i: int|
                        if 0 <= i < o@.len() {
                            (o@[i].0@, o@[i].1.json())
                        } else {
                            (Seq::empty(), Json::Null)
                        },
                ),
            ),
        }
    }
}

impl View for JsonValue {
    type V = Json;

    open spec fn view(&self) -> Json {
        self.json()
    }
}

/// The literal of the double that a text spells, as `serde_json` writes it.
pub uninterp spec fn float_text(text: Seq<char>) -> Option<Seq<char>>;

/// The bits of the double that a text spells which is not a row of few digits.
pub uninterp spec fn parsed_bits(text: Seq<char>) -> Option<u64>;

/// Whether a text is a row of decimal digits whose worth fits 64 bits however
/// high they are.
pub open spec fn few_digits(text: Seq<char>) -> bool {
    all_digits(text) && 0 < text.len() <= 19
}

/// The bits of the double that a text spells: for a row of few digits the one
/// nearest to the integer.
pub open spec fn float_bits(text: Seq<char>) -> Option<u64> {
    if few_digits(text) {
        Some(integer_bits(digits_value(text)))
    } else {
        parsed_bits(text)
    }
}

/// Whether the keys of an object are in strictly ascending order.
pub open spec fn keys_ascend(fields: Seq<(Seq<char>, Json)>) -> bool {
    forall|i: int, j: int|
        0 <= i < j < fields.len() ==> text_order(#[trigger] fields[i].0, #[trigger] fields[j].0)
            == Order::Less
}

/// Whether a value is one that JSON text can be read into: integers fit
/// 64 bits, doubles are kept as the literal that they are written as, and the
/// keys of each object ascend.
pub open spec fn json_wf(j: Json) -> bool
    decreases j,
{
    match j {
        Json::Number(Num::Int(n)) => i64::MIN <= n <= u64::MAX,
        Json::Number(Num::Float(t)) => float_text(t) == Some(t),
        Json::Array(a) => forall|i: int| 0 <= i < a.len() ==> json_wf(#[trigger] a[i]),
        Json::Object(o) => keys_ascend(o) && forall|i: int|
            0 <= i < o.len() ==> json_wf((#[trigger] o[i]).1),
        _ => true,
    }
}

/// Whether arrays and objects nest at most `depth` deep.
pub open spec fn json_fits(j: Json, depth: int) -> bool
    decreases j,
{
    match j {
        Json::Array(a) => depth > 0 && forall|i: int|
            0 <= i < a.len() ==> json_fits(#[trigger] a[i], depth - 1),
        Json::Object(o) => depth > 0 && forall|i: int|
            0 <= i < o.len() ==> json_fits((#[trigger] o[i]).1, depth - 1),
        _ => true,
    }
}

impl Number {
    /// Whether the number is in normal form.
    pub open spec fn wf(&self) -> bool {
        match self {
            Number::PosInt(_) => true,
            Number::NegInt(n) => *n < 0,
            Number::Float(t) => float_text(t@) == Some(t@),
        }
    }
}

impl JsonValue {
    /// Whether the value is one that JSON text can be read into.
    pub open spec fn wf(self) -> bool
        decreases self,
    {
        match self {
            JsonValue::Number(n) => n.wf(),
            JsonValue::Array(a) => forall|i: int| 0 <= i < a@.len() ==> (#[trigger] a@[i]).wf(),
            JsonValue::Object(o) => keys_ascend(self.json()->Object_0) && forall|i: int|
                0 <= i < o@.len() ==> (#[trigger] o@[i]).1.wf(),
            _ => true,
        }
    }
}

/// A well-formed value denotes a well-formed one.
pub proof fn lemma_wf(v: JsonValue)
    requires
        v.wf(),
    ensures
        json_wf(v@),
    decreases v,
{
    match v {
        JsonValue::Array(a) => {
            assert forall|i: int| 0 <= i < v@->Array_0.len() implies json_wf(
                #[trigger] v@->Array_0[i],
            ) by {
                lemma_wf(a@[i]);
            }
        },
        JsonValue::Object(o) => {
            assert forall|i: int| 0 <= i < v@->Object_0.len() implies json_wf(
                (#[trigger] v@->Object_0[i]).1,
            ) by {
                lemma_wf(o@[i].1);
            }
        },
        _ => {},
    }
}

/// `serde_json`'s own value. The crate is built without `arbitrary_precision`,
/// `preserve_order`, `raw_value` and `unbounded_depth`, which would give some
/// values another meaning.
#[verifier::external_type_specification]
#[verifier::external_body]
pub struct ExSerdeValue(serde_json::Value);

/// What a value of `serde_json` holds.
pub uninterp spec fn serde_json_of(v: serde_json::Value) -> Json;

/// The bytes that a value is written as.
pub uninterp spec fn json_text(j: Json) -> Seq<u8>;

/// The bytes that an object is written as, its fields in the order given.
pub uninterp spec fn object_text(fields: Seq<(Seq<char>, Json)>) -> Seq<u8>;

/// The value that bytes spell.
pub uninterp spec fn json_parse(bytes: Seq<u8>) -> Option<Json>;

/// The fields of an object of `serde_json` values.
pub open spec fn serde_fields(fields: Seq<(String, serde_json::Value)>) -> Seq<(Seq<char>, Json)> {
    fields.map_values(|f: (String, serde_json::Value)| (f.0@, serde_json_of(f.1)))
}

/// Whether the fields of an object have different keys and values that can be
/// read back.
pub open spec fn fields_wf(fields: Seq<(Seq<char>, Json)>) -> bool {
    &&& forall|i: int, j: int|
        0 <= i < j < fields.len() ==> (#[trigger] fields[i]).0 != (#[trigger] fields[j]).0
    &&& forall|i: int|
        0 <= i < fields.len() ==> json_wf((#[trigger] fields[i]).1) && json_fits(
            fields[i].1,
            MAX_DEPTH - 1,
        )
}

/// A field put among fields that are in the order of their keys. It takes the
/// place of one with the same key.
pub open spec fn field_set(
    fields: Seq<(Seq<char>, Json)>,
    key: Seq<char>,
    value: Json,
) -> Seq<(Seq<char>, Json)>
    decreases fields.len(),
{
    if fields.len() == 0 {
        seq![(key, value)]
    } else {
        match text_order(key, fields[0].0) {
            Order::Less => seq![(key, value)] + fields,
            Order::Equal => seq![(key, value)] + fields.drop_first(),
            Order::Greater => seq![fields[0]] + field_set(fields.drop_first(), key, value),
        }
    }
}

/// The fields by ascending key.
pub open spec fn by_key(fields: Seq<(Seq<char>, Json)>) -> Seq<(Seq<char>, Json)>
    decreases fields.len(),
{
    if fields.len() == 0 {
        Seq::empty()
    } else {
        field_set(by_key(fields.drop_last()), fields.last().0, fields.last().1)
    }
}

/// How deep arrays and objects may nest in text that is read.
pub const MAX_DEPTH: u8 = 127;

/// The same value as one of `serde_json`: each variant becomes its
/// counterpart, and a literal of a double is read by `Number::from_str`.
#[verifier::external_body]
fn to_serde(v: &JsonValue) -> (r: serde_json::Value)
    requires
        v.wf(),
    ensures
        serde_json_of(r) == v@,
{
    match v {
        JsonValue::Null => serde_json::Value::Null,
        JsonValue::Bool(b) => serde_json::Value::Bool(*b),
        JsonValue::Number(Number::PosInt(n)) => serde_json::Value::from(*n),
        JsonValue::Number(Number::NegInt(n)) => serde_json::Value::from(*n),
        JsonValue::Number(Number::Float(t)) => serde_json::Value::Number(t.parse().unwrap()),
        JsonValue::Text(s) => serde_json::Value::String(s.clone()),
        JsonValue::Array(a) => a.iter().map(to_serde).collect(),
        JsonValue::Object(o) => o.iter().map(|(k, x)| (k.clone(), to_serde(x))).collect(),
    }
}

/// The same value as one of the library: each variant becomes its
/// counterpart. `serde_json` keeps the fields of an object by ascending key,
/// and a double is finite and written as the literal that spells it.
#[verifier::external_body]
fn from_serde(v: serde_json::Value) -> (r: JsonValue)
    ensures
        r.wf(),
        r@ == serde_json_of(v),
{
    match v {
        serde_json::Value::Null => JsonValue::Null,
        serde_json::Value::Bool(b) => JsonValue::Bool(b),
        serde_json::Value::Number(n) => JsonValue::Number(match (n.as_u64(), n.as_i64()) {
            (Some(u), _) => Number::PosInt(u),
            (_, Some(i)) => Number::NegInt(i),
            _ => Number::Float(n.to_string()),
        }),
        serde_json::Value::String(s) => JsonValue::Text(s),
        serde_json::Value::Array(a) => JsonValue::Array(a.into_iter().map(from_serde).collect()),
        serde_json::Value::Object(o) => {
            JsonValue::Object(o.into_iter().map(|(k, x)| (k, from_serde(x))).collect())
        },
    }
}

/// `serde_json::to_vec`: the bytes are a function of the value, and reading
/// them gives the value back where it is well formed and not nested too deep.
#[verifier::external_body]
fn serde_to_vec(v: &serde_json::Value) -> (r: Vec<u8>)
    ensures
        r@ == json_text(serde_json_of(*v)),
        json_wf(serde_json_of(*v)) && json_fits(serde_json_of(*v), MAX_DEPTH as int) ==> json_parse(
            r@,
        ) == Some(serde_json_of(*v)),
{
    serde_json::to_vec(v).unwrap()
}

/// `Display` of `serde_json::Value`: the text whose UTF-8 bytes `to_vec` gives.
#[verifier::external_body]
fn serde_to_string(v: &serde_json::Value) -> (r: String)
    ensures
        encode_utf8(r@) == json_text(serde_json_of(*v)),
{
    v.to_string()
}

/// `serde_json::from_slice`: the value is a function of the bytes, and is not
/// nested deeper than the limit that the parser keeps.
#[verifier::external_body]
fn serde_from_slice(bytes: &[u8]) -> (r: Option<serde_json::Value>)
    ensures
        match r {
            Some(v) => json_parse(bytes@) == Some(serde_json_of(v)) && json_fits(
                serde_json_of(v),
                MAX_DEPTH as int,
            ),
            None => json_parse(bytes@) is None,
        },
{
    serde_json::from_slice(bytes).ok()
}

/// `serde_json::Serializer::collect_map`: the bytes of an object with its
/// fields in the order given. Reading them gives the object back where its
/// keys differ and its values are well formed and not nested too deep.
#[verifier::external_body]
fn serde_object_to_vec(fields: &Vec<(String, serde_json::Value)>) -> (r: Vec<u8>)
    ensures
        r@ == object_text(serde_fields(fields@)),
        fields_wf(serde_fields(fields@)) ==> json_parse(r@) == Some(
            Json::Object(by_key(serde_fields(fields@))),
        ),
{
    let mut out = Vec::new();
    let pairs = fields.iter().map(|(k, v)| (k, v));
    serde::Serializer::collect_map(&mut serde_json::Serializer::new(&mut out), pairs).unwrap();
    out
}

/// `str::parse` to a double, then `serde_json::Number::from_f64` and its
/// `Display`: the literal of the double that the text spells, or `None` where
/// it spells none or one that is not finite. The literal spells the same
/// double. A row of at most 300 decimal digits spells one that is finite.
#[verifier::external_body]
pub(crate) fn float_literal(text: &str) -> (r: Option<String>)
    ensures
        match r {
            Some(t) => float_text(text@) == Some(t@) && float_text(t@) == Some(t@)
                && float_bits(text@) is Some && float_bits(t@) == float_bits(text@),
            None => float_text(text@) is None && float_bits(text@) is None,
        },
        all_digits(text@) && 0 < text@.len() <= 300 ==> r is Some,
{
    text.parse().ok().and_then(serde_json::Number::from_f64).map(|n| n.to_string())
}

/// `str::parse` to a double, then its bits, or `None` where the text spells
/// none or one that is not finite. A row of decimal digits spells the double
/// nearest to the integer; for other texts the bits are named.
#[verifier::external_body]
pub(crate) fn double_bits(text: &str) -> (r: Option<u64>)
    ensures
        few_digits(text@) ==> r == Some(integer_bits(digits_value(text@))),
        !few_digits(text@) ==> r == parsed_bits(text@),
        r matches Some(b) ==> crate::double::finite(b),
{
    let n = text.parse().ok().and_then(serde_json::Number::from_f64)?;
    n.as_f64().map(|x| x.to_bits())
}

/// The bits of the double that a number is.
pub open spec fn num_bits(n: Num) -> u64 {
    match n {
        Num::Int(i) => if i >= 0 {
            integer_bits(i as nat)
        } else {
            (SIGN + integer_bits((-i) as nat)) as u64
        },
        Num::Float(t) => match float_bits(t) {
            Some(b) => b,
            None => NAN_BITS,
        },
    }
}

/// The bits of a NaN.
pub const NAN_BITS: u64 = 0x7ff8_0000_0000_0000;

impl Number {
    /// The double that a text spells, as a number.
    pub fn from_literal(text: &str) -> (r: Option<Number>)
        ensures
            match r {
                Some(n) => n.wf() && float_text(text@) is Some && n@ == Num::Float(
                    float_text(text@)->0,
                ),
                None => float_text(text@) is None,
            },
            all_digits(text@) && 0 < text@.len() <= 300 ==> r is Some,
    {
        match float_literal(text) {
            Some(t) => Some(Number::Float(t)),
            None => None,
        }
    }

    /// The double that the number is.
    pub fn double(&self) -> (r: Double)
        ensures
            r.bits == num_bits(self@),
    {
        match self {
            Number::PosInt(n) => Double::from_u64(*n),
            Number::NegInt(n) => {
                proof {
                    if *n < 0 {
                        crate::double::lemma_integer_code((-*n) as nat);
                    }
                }
                Double::from_i64(*n)
            },
            Number::Float(t) => match double_bits(t.as_str()) {
                Some(bits) => Double { bits },
                None => Double { bits: NAN_BITS },
            },
        }
    }
}

impl Clone for Number {
    fn clone(&self) -> (r: Number)
        ensures
            r@ == self@,
            self.wf() ==> r.wf(),
    {
        match self {
            Number::PosInt(n) => Number::PosInt(*n),
            Number::NegInt(n) => Number::NegInt(*n),
            Number::Float(t) => Number::Float(t.clone()),
        }
    }
}

impl Clone for JsonValue {
    fn clone(&self) -> (r: JsonValue)
        ensures
            r@ == self@,
            self.wf() ==> r.wf(),
        decreases self,
    {
        match self {
            JsonValue::Null => JsonValue::Null,
            JsonValue::Bool(b) => JsonValue::Bool(*b),
            JsonValue::Number(n) => JsonValue::Number(n.clone()),
            JsonValue::Text(s) => JsonValue::Text(s.clone()),
            JsonValue::Array(a) => {
                let mut out: Vec<JsonValue> = Vec::new();
                let mut i: usize = 0;
                while i < a.len()
                    invariant
                        i <= a.len(),
                        out.len() == i,
                        *self == JsonValue::Array(*a),
                        forall|j: int| 0 <= j < i ==> (#[trigger] out@[j])@ == a@[j]@,
                        forall|j: int| 0 <= j < i && a@[j].wf() ==> (#[trigger] out@[j]).wf(),
                    decreases a.len() - i,
                {
                    assert(decreases_to!(self->Array_0 => self->Array_0@[i as int]));
                    out.push(a[i].clone());
                    i = i + 1;
                }
                let r = JsonValue::Array(out);
                assert(r@->Array_0 =~= self@->Array_0);
                r
            },
            JsonValue::Object(o) => {
                let mut out: Vec<(String, JsonValue)> = Vec::new();
                let mut i: usize = 0;
                while i < o.len()
                    invariant
                        i <= o.len(),
                        out.len() == i,
                        *self == JsonValue::Object(*o),
                        forall|j: int|
                            0 <= j < i ==> (#[trigger] out@[j]).0@ == o@[j].0@ && out@[j].1@
                                == o@[j].1@,
                        forall|j: int| 0 <= j < i && o@[j].1.wf() ==> (#[trigger] out@[j]).1.wf(),
                    decreases o.len() - i,
                {
                    assert(decreases_to!(self->Object_0 => self->Object_0@[i as int].1));
                    out.push((o[i].0.clone(), o[i].1.clone()));
                    i = i + 1;
                }
                let r = JsonValue::Object(out);
                assert(r@->Object_0 =~= self@->Object_0);
                r
            },
        }
    }
}

/// The value under a key among the fields of an object.
pub open spec fn field_of(fields: Seq<(Seq<char>, Json)>, key: Seq<char>) -> Option<Json>
    decreases fields.len(),
{
    if fields.len() == 0 {
        None
    } else if fields[0].0 == key {
        Some(fields[0].1)
    } else {
        field_of(fields.drop_first(), key)
    }
}

/// The value under a key of an object; nothing else has one.
pub open spec fn json_get(j: Json, key: Seq<char>) -> Option<Json> {
    match j {
        Json::Object(fields) => field_of(fields, key),
        _ => None,
    }
}

/// A part of a record: by its name in an object, by its place in an array.
pub open spec fn json_part(j: Json, key: Seq<char>, at: int) -> Option<Json> {
    match j {
        Json::Array(items) => if 0 <= at < items.len() {
            Some(items[at])
        } else {
            None
        },
        _ => json_get(j, key),
    }
}

/// What an object holds nests less deep than the object.
pub proof fn lemma_field_fits(j: Json, key: Seq<char>, depth: int)
    requires
        json_fits(j, depth),
        json_get(j, key) is Some,
    ensures
        json_fits(json_get(j, key)->0, depth - 1),
{
    lemma_fields_fit(j->Object_0, key, depth - 1);
}

proof fn lemma_fields_fit(fields: Seq<(Seq<char>, Json)>, key: Seq<char>, depth: int)
    requires
        forall|i: int| 0 <= i < fields.len() ==> json_fits((#[trigger] fields[i]).1, depth),
    ensures
        field_of(fields, key) matches Some(x) ==> json_fits(x, depth),
    decreases fields.len(),
{
    if fields.len() > 0 {
        let rest = fields.drop_first();
        assert forall|i: int| 0 <= i < rest.len() implies json_fits((#[trigger] rest[i]).1, depth) by {
            assert(rest[i] == fields[i + 1]);
        }
        lemma_fields_fit(rest, key, depth);
        assert(json_fits(fields[0].1, depth));
    }
}

/// What fits in less depth fits in more.
pub proof fn lemma_fits_deeper(j: Json, depth: int, more: int)
    requires
        json_fits(j, depth),
        depth <= more,
    ensures
        json_fits(j, more),
    decreases j,
{
    match j {
        Json::Array(a) => {
            assert forall|i: int| 0 <= i < a.len() implies json_fits(#[trigger] a[i], more - 1) by {
                assert(json_fits(a[i], depth - 1));
                lemma_fits_deeper(a[i], depth - 1, more - 1);
            }
        },
        Json::Object(o) => {
            assert forall|i: int| 0 <= i < o.len() implies json_fits(
                (#[trigger] o[i]).1,
                more - 1,
            ) by {
                assert(json_fits(o[i].1, depth - 1));
                lemma_fits_deeper(o[i].1, depth - 1, more - 1);
            }
        },
        _ => {},
    }
}

impl JsonValue {
    /// The value under a key of an object.
    pub fn get(&self, key: &str) -> (r: Option<&JsonValue>)
        ensures
            match r {
                Some(v) => json_get(self@, key@) == Some(v@) && (self.wf() ==> v.wf()),
                None => json_get(self@, key@) is None,
            },
    {
        match self {
            JsonValue::Object(o) => {
                let ghost fields = self@->Object_0;
                let mut i: usize = 0;
                assert(fields.skip(0) =~= fields);
                while i < o.len()
                    invariant
                        i <= o.len(),
                        *self == JsonValue::Object(*o),
                        fields == self@->Object_0,
                        field_of(fields, key@) == field_of(fields.skip(i as int), key@),
                    decreases o.len() - i,
                {
                    assert(fields.skip(i as int).drop_first() =~= fields.skip(i + 1));
                    assert(fields.skip(i as int)[0] == (o@[i as int].0@, o@[i as int].1@));
                    if same_text(o[i].0.as_str(), key) {
                        return Some(&o[i].1);
                    }
                    i = i + 1;
                }
                None
            },
            _ => None,
        }
    }

    /// A part of a record: by its name in an object, by its place in an array.
    pub fn part(&self, key: &str, at: usize) -> (r: Option<&JsonValue>)
        ensures
            match r {
                Some(v) => json_part(self@, key@, at as int) == Some(v@) && (self.wf() ==> v.wf()),
                None => json_part(self@, key@, at as int) is None,
            },
    {
        match self {
            JsonValue::Array(a) => if at < a.len() {
                assert(self@->Array_0[at as int] == a@[at as int]@);
                Some(&a[at])
            } else {
                None
            },
            _ => self.get(key),
        }
    }

    /// The value as an integer that is not negative.
    pub fn as_u64(&self) -> (r: Option<u64>)
        requires
            self.wf(),
        ensures
            match r {
                Some(n) => self@ == Json::Number(Num::Int(n as int)),
                None => !(self@ matches Json::Number(Num::Int(n)) && n >= 0),
            },
    {
        match self {
            JsonValue::Number(Number::PosInt(n)) => Some(*n),
            _ => None,
        }
    }

    /// The value as text.
    pub fn as_str(&self) -> (r: Option<&str>)
        ensures
            match r {
                Some(s) => self@ == Json::Text(s@),
                None => !(self@ is Text),
            },
    {
        match self {
            JsonValue::Text(s) => Some(s.as_str()),
            _ => None,
        }
    }
}

/// What the fields of an object are.
pub open spec fn fields_view(fields: Seq<(String, JsonValue)>) -> Seq<(Seq<char>, Json)> {
    fields.map_values(|f: (String, JsonValue)| (f.0@, f.1@))
}

/// An object is the fields that it is made of.
pub proof fn lemma_object_view(fields: Vec<(String, JsonValue)>)
    ensures
        JsonValue::Object(fields)@ == Json::Object(fields_view(fields@)),
{
    assert(JsonValue::Object(fields)@->Object_0 =~= fields_view(fields@));
}

/// Putting a field among fields in the order of their keys keeps the order.
/// The field is there afterwards, and the others are as they were.
pub proof fn lemma_field_set(fields: Seq<(Seq<char>, Json)>, key: Seq<char>, value: Json)
    requires
        keys_ascend(fields),
    ensures
        keys_ascend(field_set(fields, key, value)),
        field_of(field_set(fields, key, value), key) == Some(value),
        forall|other: Seq<char>|
            other != key ==> #[trigger] field_of(field_set(fields, key, value), other)
                == field_of(fields, other),
        forall|i: int|
            0 <= i < field_set(fields, key, value).len() ==> {
                let f = #[trigger] field_set(fields, key, value)[i];
                f == (key, value) || fields.contains(f)
            },
    decreases fields.len(),
{
    let set = field_set(fields, key, value);
    if fields.len() == 0 {
        assert(set.drop_first() =~= Seq::empty());
    } else {
        let head = fields[0];
        let rest = fields.drop_first();
        crate::text::lemma_text_order(key, head.0);
        assert forall|i: int| 0 <= i < rest.len() implies text_order(
            head.0,
            #[trigger] rest[i].0,
        ) == Order::Less by {
            assert(rest[i] == fields[i + 1]);
            assert(text_order(fields[0].0, fields[i + 1].0) == Order::Less);
        }
        assert(keys_ascend(rest)) by {
            assert forall|i: int, j: int| 0 <= i < j < rest.len() implies text_order(
                #[trigger] rest[i].0,
                #[trigger] rest[j].0,
            ) == Order::Less by {
                assert(text_order(fields[i + 1].0, fields[j + 1].0) == Order::Less);
            }
        }
        match text_order(key, head.0) {
            Order::Less => {
                assert(set.drop_first() =~= fields);
                assert forall|i: int, j: int| 0 <= i < j < set.len() implies text_order(
                    #[trigger] set[i].0,
                    #[trigger] set[j].0,
                ) == Order::Less by {
                    if i == 0 {
                        if j > 1 {
                            assert(set[j] == rest[j - 2]);
                            crate::text::lemma_text_order_transitive(key, head.0, set[j].0);
                        }
                    } else {
                        assert(text_order(fields[i - 1].0, fields[j - 1].0) == Order::Less);
                    }
                }
                assert forall|i: int| 0 <= i < set.len() implies {
                    let f = #[trigger] set[i];
                    f == (key, value) || fields.contains(f)
                } by {
                    if i > 0 {
                        assert(set[i] == fields[i - 1]);
                    }
                }
            },
            Order::Equal => {
                assert(set.drop_first() =~= rest);
                assert forall|i: int, j: int| 0 <= i < j < set.len() implies text_order(
                    #[trigger] set[i].0,
                    #[trigger] set[j].0,
                ) == Order::Less by {
                    assert(text_order(fields[i].0, fields[j].0) == Order::Less);
                }
                assert forall|i: int| 0 <= i < set.len() implies {
                    let f = #[trigger] set[i];
                    f == (key, value) || fields.contains(f)
                } by {
                    if i > 0 {
                        assert(set[i] == fields[i]);
                    }
                }
            },
            Order::Greater => {
                lemma_field_set(rest, key, value);
                let inner = field_set(rest, key, value);
                assert(set.drop_first() =~= inner);
                assert forall|i: int| 0 <= i < set.len() implies {
                    let f = #[trigger] set[i];
                    f == (key, value) || fields.contains(f)
                } by {
                    if i == 0 {
                        assert(set[0] == fields[0]);
                    } else {
                        assert(set[i] == inner[i - 1]);
                        if inner[i - 1] != (key, value) {
                            let k = choose|k: int| 0 <= k < rest.len() && rest[k] == inner[i - 1];
                            assert(fields[k + 1] == set[i]);
                        }
                    }
                }
                assert forall|i: int, j: int| 0 <= i < j < set.len() implies text_order(
                    #[trigger] set[i].0,
                    #[trigger] set[j].0,
                ) == Order::Less by {
                    assert(set[j] == inner[j - 1]);
                    if i == 0 {
                        let f = inner[j - 1];
                        if f != (key, value) {
                            let k = choose|k: int| 0 <= k < rest.len() && rest[k] == f;
                            assert(text_order(head.0, rest[k].0) == Order::Less);
                        }
                    } else {
                        assert(text_order(inner[i - 1].0, inner[j - 1].0) == Order::Less);
                    }
                }
            },
        }
    }
}

/// Puts a field among fields in the order of their keys.
pub fn set_field(fields: &mut Vec<(String, JsonValue)>, key: String, value: JsonValue)
    requires
        value.wf(),
        forall|i: int| 0 <= i < old(fields)@.len() ==> (#[trigger] old(fields)@[i]).1.wf(),
    ensures
        fields_view(final(fields)@) == field_set(fields_view(old(fields)@), key@, value@),
        forall|i: int| 0 <= i < final(fields)@.len() ==> (#[trigger] final(fields)@[i]).1.wf(),
{
    let ghost before = fields_view(fields@);
    let ghost k = key@;
    let ghost v = value@;
    let mut i: usize = 0;
    assert(before.skip(0) =~= before);
    assert(before.take(0) + field_set(before, k, v) =~= field_set(before, k, v));
    while i < fields.len()
        invariant
            i <= fields.len(),
            *fields == *old(fields),
            key@ == k,
            value@ == v,
            value.wf(),
            before == fields_view(fields@),
            forall|j: int| 0 <= j < fields@.len() ==> (#[trigger] fields@[j]).1.wf(),
            field_set(before, k, v) == before.take(i as int) + field_set(
                before.skip(i as int),
                k,
                v,
            ),
        decreases fields.len() - i,
    {
        let ghost rest = before.skip(i as int);
        assert(rest[0] == before[i as int]);
        match compare_text(key.as_str(), fields[i].0.as_str()) {
            Order::Less => {
                fields.insert(i, (key, value));
                assert(fields_view(fields@) =~= before.take(i as int) + (seq![(k, v)] + rest));
                assert forall|j: int| 0 <= j < fields@.len() implies (#[trigger] fields@[j]).1.wf() by {
                    if j > i {
                        assert(fields@[j] == old(fields)@[j - 1]);
                    }
                }
                return;
            },
            Order::Equal => {
                fields[i] = (key, value);
                assert(fields_view(fields@) =~= before.take(i as int) + (seq![(k, v)]
                    + rest.drop_first()));
                return;
            },
            Order::Greater => {
                assert(rest.drop_first() =~= before.skip(i + 1));
                assert(before.take(i as int) + (seq![rest[0]] + field_set(
                    rest.drop_first(),
                    k,
                    v,
                )) =~= before.take(i + 1) + field_set(before.skip(i + 1), k, v));
            },
        }
        i = i + 1;
    }
    fields.push((key, value));
    assert(before.skip(before.len() as int) =~= Seq::empty());
    assert(fields_view(fields@) =~= before.take(i as int) + seq![(k, v)]);
}

/// The text that a value is written as.
pub open spec fn json_chars(j: Json) -> Seq<char> {
    decode_utf8(json_text(j))
}

/// The bytes that a value is written as.
pub fn to_bytes(v: &JsonValue) -> (r: Vec<u8>)
    requires
        v.wf(),
    ensures
        r@ == json_text(v@),
        json_fits(v@, MAX_DEPTH as int) ==> json_parse(r@) == Some(v@),
{
    proof {
        lemma_wf(*v);
    }
    serde_to_vec(&to_serde(v))
}

/// The text that a value is written as.
pub fn to_text(v: &JsonValue) -> (r: String)
    requires
        v.wf(),
    ensures
        r@ == json_chars(v@),
{
    let r = serde_to_string(&to_serde(v));
    proof {
        vstd::utf8::encode_utf8_decode_utf8(r@);
    }
    r
}

/// The value that bytes spell.
pub fn parse(bytes: &[u8]) -> (r: Option<JsonValue>)
    ensures
        match r {
            Some(v) => v.wf() && json_parse(bytes@) == Some(v@) && json_fits(
                v@,
                MAX_DEPTH as int,
            ),
            None => json_parse(bytes@) is None,
        },
{
    match serde_from_slice(bytes) {
        Some(v) => Some(from_serde(v)),
        None => None,
    }
}

/// The bytes that an object is written as, its fields in the order given.
pub fn object_to_bytes(fields: &Vec<(String, JsonValue)>) -> (r: Vec<u8>)
    requires
        forall|i: int| 0 <= i < fields@.len() ==> (#[trigger] fields@[i]).1.wf(),
    ensures
        r@ == object_text(fields_view(fields@)),
        fields_wf(fields_view(fields@)) ==> json_parse(r@) == Some(
            Json::Object(by_key(fields_view(fields@))),
        ),
{
    let mut out: Vec<(String, serde_json::Value)> = Vec::new();
    let mut i: usize = 0;
    while i < fields.len()
        invariant
            i <= fields.len(),
            out.len() == i,
            forall|j: int| 0 <= j < fields@.len() ==> (#[trigger] fields@[j]).1.wf(),
            forall|j: int|
                0 <= j < i ==> (#[trigger] out@[j]).0@ == fields@[j].0@ && serde_json_of(out@[j].1)
                    == fields@[j].1@,
        decreases fields.len() - i,
    {
        out.push((fields[i].0.clone(), to_serde(&fields[i].1)));
        i = i + 1;
    }
    assert(serde_fields(out@) =~= fields_view(fields@));
    serde_object_to_vec(&out)
}

/// Fields arranged by key are in the order of their keys.
pub proof fn lemma_by_key_ascends(fields: Seq<(Seq<char>, Json)>)
    ensures
        keys_ascend(by_key(fields)),
    decreases fields.len(),
{
    if fields.len() > 0 {
        lemma_by_key_ascends(fields.drop_last());
        lemma_field_set(by_key(fields.drop_last()), fields.last().0, fields.last().1);
    }
}

/// The object with the fields given; of two with the same key the later one
/// counts.
pub open spec fn object_of(fields: Seq<(Seq<char>, Json)>) -> Json {
    Json::Object(by_key(fields))
}

/// The object with the fields given.
pub fn object(fields: Vec<(String, JsonValue)>) -> (r: JsonValue)
    requires
        forall|i: int| 0 <= i < fields@.len() ==> (#[trigger] fields@[i]).1.wf(),
    ensures
        r.wf(),
        r@ == object_of(fields_view(fields@)),
{
    let ghost fs = fields_view(fields@);
    let mut out: Vec<(String, JsonValue)> = Vec::new();
    assert(fields_view(out@) =~= by_key(fs.take(0)));
    for f in it: fields
        invariant
            it.seq() == fields@,
            fs == fields_view(fields@),
            fields_view(out@) == by_key(fs.take(it.index() as int)),
            forall|i: int| 0 <= i < fields@.len() ==> (#[trigger] fields@[i]).1.wf(),
            forall|i: int| 0 <= i < out@.len() ==> (#[trigger] out@[i]).1.wf(),
    {
        proof {
            let i = it.index() as int;
            assert(fs.take(i + 1).drop_last() =~= fs.take(i));
            assert(fs.take(i + 1).last() == (f.0@, f.1@));
            assert(fields@[i].1.wf());
        }
        set_field(&mut out, f.0, f.1);
    }
    assert(fs.take(fields@.len() as int) =~= fs);
    let r = JsonValue::Object(out);
    proof {
        lemma_object_view(out);
        lemma_by_key_ascends(fs);
    }
    r
}

} // verus!
