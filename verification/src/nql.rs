//! Queries: running them.

use vstd::prelude::*;
use crate::db::{
    all_as_of, doc_fields, keep_first, known_ids, listed, nodes_view, nodes_wf, ordered_by, sort_nodes,
    sorted_nodes, versions, Db, DbV,
};
use crate::double::total_order;
use crate::graph::traced;
use crate::index::{ids_in, OrderedValue};
use crate::json::{
    field_set, fields_view, float_text, json_chars, json_get, keys_ascend, lemma_field_set,
    num_bits, object, object_of, set_field, to_text, Json, JsonValue, Num, Number,
};
use crate::node::{as_float, float_number, texts_json, texts_value, Node, NodeV};
use crate::ordered::{key_equal, key_of, key_order};
use crate::parser::{parse, parsed, QueryV, WhereV};
use crate::sorted::first;
use crate::text::{
    chars_of, compare_text, contains_text, decimal, decimal_text, lemma_decimal, lemma_decimal_len,
    lowercase, occurs, same_text, text_of, text_order, Order,
};

pub use crate::parser::{Expected, GroupAgg, NqlError, Query, WhereClause};

verus! {

/// The value of a field of a version; the fields `_id`, `_coll` and `_hash`
/// are those of the version itself.
pub open spec fn field_value(n: NodeV, field: Seq<char>) -> Json {
    if field == "_id"@ {
        Json::Text(n.id)
    } else if field == "_coll"@ {
        Json::Text(n.coll)
    } else if field == "_hash"@ {
        Json::Text(n.hash)
    } else {
        match json_get(n.data, field) {
            Some(j) => j,
            None => Json::Null,
        }
    }
}

/// Whether a version meets a condition.
pub open spec fn where_holds(n: NodeV, w: WhereV) -> bool {
    let a = key_of(field_value(n, w.field));
    let b = key_of(w.value);
    if w.op == "="@ {
        key_equal(a, b)
    } else if w.op == "!="@ {
        !key_equal(a, b)
    } else if w.op == ">"@ {
        key_order(a, b) == Order::Greater
    } else if w.op == "<"@ {
        key_order(a, b) == Order::Less
    } else if w.op == ">="@ {
        key_order(a, b) != Order::Less
    } else if w.op == "<="@ {
        key_order(a, b) != Order::Greater
    } else {
        false
    }
}

/// Whether a version is valid at a date: from its start on, and before its end.
pub open spec fn valid_at(n: NodeV, date: Seq<char>) -> bool {
    &&& n.valid_from matches Some(f) ==> text_order(f, date) != Order::Greater
    &&& n.valid_to matches Some(t) ==> text_order(t, date) == Order::Greater
}

/// Whether the text of a document holds a text, in whatever case.
pub open spec fn holds_text(n: NodeV, text: Seq<char>) -> bool {
    occurs(lowercase(json_chars(n.data)), lowercase(text))
}

/// Whether a version meets all that a query asks of it.
pub open spec fn selected(n: NodeV, q: QueryV) -> bool {
    &&& forall|i: int| 0 <= i < q.wheres.len() ==> where_holds(n, #[trigger] q.wheres[i])
    &&& q.valid_as_of matches Some(date) ==> valid_at(n, date)
    &&& q.search matches Some(text) ==> holds_text(n, text)
}

/// The versions that meet all that a query asks of them.
pub open spec fn filtered(ns: Seq<NodeV>, q: QueryV) -> Seq<NodeV>
    decreases ns.len(),
{
    if ns.len() == 0 {
        Seq::empty()
    } else if selected(ns.last(), q) {
        filtered(ns.drop_last(), q).push(ns.last())
    } else {
        filtered(ns.drop_last(), q)
    }
}

/// How many versions are fetched in order: as many as are asked for, or all
/// where some may still be left out.
pub open spec fn fetch_limit(q: QueryV) -> usize {
    match q.limit {
        None => usize::MAX,
        Some(n) => if q.wheres.len() == 0 && q.valid_as_of is None && q.search is None {
            n
        } else {
            usize::MAX
        },
    }
}

/// The versions that a query looks at.
pub open spec fn candidates(v: DbV, q: QueryV) -> Seq<NodeV> {
    match q.as_of {
        Some(target) => all_as_of(v, q.coll, known_ids(v, q.coll, target), target),
        None => match q.order_by {
            Some(field) => ordered_by(v, q.coll, field, q.order_desc, fetch_limit(q) as int),
            None => listed(v, q.coll, ids_in(v.ids, q.coll)),
        },
    }
}

/// The versions in the order that a query asks for.
pub open spec fn in_query_order(ns: Seq<NodeV>, q: QueryV) -> Seq<NodeV> {
    match q.order_by {
        Some(field) => if q.as_of is Some || q.wheres.len() > 0 || q.search is Some {
            sorted_nodes(ns, field, q.order_desc)
        } else {
            ns
        },
        None => ns,
    }
}

/// What walks from versions along causes visit.
pub open spec fn walked(v: DbV, ns: Seq<NodeV>, reverse: bool, limit: nat) -> Seq<NodeV>
    decreases ns.len(),
{
    if ns.len() == 0 {
        Seq::empty()
    } else {
        walked(v, ns.drop_last(), reverse, limit) + versions(
            v.objects,
            traced(v.graph, ns.last().hash, "caused_by"@, reverse, limit),
        )
    }
}

/// How far a walk goes where no limit is asked for.
pub const TRACE_LIMIT: usize = 1000;

/// The versions that a query finds: those that meet what it asks, in order,
/// then what walks from them visit, then no more than the limit.
pub open spec fn result_nodes(v: DbV, q: QueryV) -> Seq<NodeV> {
    let kept = in_query_order(filtered(candidates(v, q), q), q);
    let found = match q.trace {
        Some(_) => walked(
            v,
            kept,
            q.trace_rev,
            match q.limit {
                Some(n) => n as nat,
                None => TRACE_LIMIT as nat,
            },
        ),
        None => kept,
    };
    match q.limit {
        Some(n) => first(found, n as int),
        None => found,
    }
}

/// The row that a version is given as: its document with its id, hash, number,
/// collection, validity and causes among the fields.
pub open spec fn node_row(n: NodeV) -> Json {
    let a = field_set(doc_fields(n.data), "_id"@, Json::Text(n.id));
    let b = field_set(a, "_hash"@, Json::Text(n.hash));
    let c = field_set(b, "_seq"@, Json::Number(Num::Int(n.seq as int)));
    let d = field_set(c, "_coll"@, Json::Text(n.coll));
    let e = match n.valid_from {
        Some(t) => field_set(d, "_valid_from"@, Json::Text(t)),
        None => d,
    };
    let f = match n.valid_to {
        Some(t) => field_set(e, "_valid_to"@, Json::Text(t)),
        None => e,
    };
    Json::Object(
        if n.caused_by.len() > 0 {
            field_set(f, "_caused_by"@, texts_json(n.caused_by))
        } else {
            f
        },
    )
}

/// Whether the fields are fit for an object.
pub open spec fn fields_ok(fields: Seq<(String, JsonValue)>) -> bool {
    &&& keys_ascend(fields_view(fields))
    &&& forall|i: int| 0 <= i < fields.len() ==> (#[trigger] fields[i]).1.wf()
}

/// Puts a field among fields that are fit for an object.
pub fn put_field(fields: &mut Vec<(String, JsonValue)>, key: &str, value: JsonValue)
    requires
        fields_ok(old(fields)@),
        value.wf(),
    ensures
        fields_ok(final(fields)@),
        fields_view(final(fields)@) == field_set(fields_view(old(fields)@), key@, value@),
{
    proof {
        lemma_field_set(fields_view(fields@), key@, value@);
    }
    set_field(fields, key.to_owned(), value);
}

/// The fields of a document.
pub fn fields_of(data: &JsonValue) -> (r: Vec<(String, JsonValue)>)
    requires
        data.wf(),
    ensures
        fields_ok(r@),
        fields_view(r@) == doc_fields(data@),
{
    match data.clone() {
        JsonValue::Object(o) => {
            proof {
                crate::json::lemma_object_view(o);
            }
            o
        },
        _ => {
            let none: Vec<(String, JsonValue)> = Vec::new();
            assert(fields_view(none@) =~= Seq::empty());
            none
        },
    }
}

/// The object that fields make.
pub fn to_object(fields: Vec<(String, JsonValue)>) -> (r: JsonValue)
    requires
        fields_ok(fields@),
    ensures
        r.wf(),
        r@ == Json::Object(fields_view(fields@)),
{
    proof {
        crate::json::lemma_object_view(fields);
    }
    JsonValue::Object(fields)
}

/// The row that a version is given as.
pub fn node_to_json(n: &Node) -> (r: JsonValue)
    requires
        n.wf(),
    ensures
        r.wf(),
        r@ == node_row(n@),
{
    let mut fields = fields_of(&n.data);
    put_field(&mut fields, "_id", JsonValue::Text(n.id.clone()));
    put_field(&mut fields, "_hash", JsonValue::Text(n.hash.clone()));
    put_field(&mut fields, "_seq", JsonValue::Number(Number::PosInt(n.seq)));
    put_field(&mut fields, "_coll", JsonValue::Text(n.coll.clone()));
    if let Some(t) = &n.valid_from {
        put_field(&mut fields, "_valid_from", JsonValue::Text(t.clone()));
    }
    if let Some(t) = &n.valid_to {
        put_field(&mut fields, "_valid_to", JsonValue::Text(t.clone()));
    }
    if n.caused_by.len() > 0 {
        put_field(&mut fields, "_caused_by", texts_value(&n.caused_by));
    }
    to_object(fields)
}

/// The value of a field of a version.
fn value_for(n: &Node, field: &str) -> (r: OrderedValue)
    ensures
        r@ == key_of(field_value(n@, field@)),
{
    if same_text(field, "_id") {
        OrderedValue::Str(n.id.clone())
    } else if same_text(field, "_coll") {
        OrderedValue::Str(n.coll.clone())
    } else if same_text(field, "_hash") {
        OrderedValue::Str(n.hash.clone())
    } else {
        match n.data.get(field) {
            Some(v) => OrderedValue::of(v),
            None => OrderedValue::Null,
        }
    }
}

/// Whether a version meets a condition.
pub fn matches_where(n: &Node, w: &WhereClause) -> (r: bool)
    ensures
        r == where_holds(n@, w@),
{
    let a = value_for(n, w.field.as_str());
    let b = OrderedValue::of(&w.value);
    let op = w.op.as_str();
    if same_text(op, "=") {
        a.equals(&b)
    } else if same_text(op, "!=") {
        !a.equals(&b)
    } else if same_text(op, ">") {
        a.order(&b) == Order::Greater
    } else if same_text(op, "<") {
        a.order(&b) == Order::Less
    } else if same_text(op, ">=") {
        a.order(&b) != Order::Less
    } else if same_text(op, "<=") {
        a.order(&b) != Order::Greater
    } else {
        false
    }
}

/// Whether a version is valid at a date.
pub fn matches_valid_as_of(n: &Node, date: &str) -> (r: bool)
    ensures
        r == valid_at(n@, date@),
{
    let from_ok = match &n.valid_from {
        Some(f) => compare_text(f.as_str(), date) != Order::Greater,
        None => true,
    };
    let to_ok = match &n.valid_to {
        Some(t) => compare_text(t.as_str(), date) == Order::Greater,
        None => true,
    };
    from_ok && to_ok
}

/// Whether the text of a document holds a text, in whatever case.
pub fn node_contains_text(n: &Node, text: &str) -> (r: bool)
    requires
        n.wf(),
    ensures
        r == holds_text(n@, text@),
{
    let s = to_text(&n.data).as_str().to_lowercase();
    contains_text(s.as_str(), text.to_lowercase().as_str())
}

fn is_selected(n: &Node, q: &Query) -> (r: bool)
    requires
        n.wf(),
    ensures
        r == selected(n@, q@),
{
    let mut i: usize = 0;
    while i < q.wheres.len()
        invariant
            i <= q.wheres.len(),
            forall|j: int| 0 <= j < i ==> where_holds(n@, #[trigger] q@.wheres[j]),
        decreases q.wheres.len() - i,
    {
        assert(q@.wheres[i as int] == q.wheres@[i as int]@);
        if !matches_where(n, &q.wheres[i]) {
            return false;
        }
        i = i + 1;
    }
    if let Some(date) = &q.valid_as_of {
        if !matches_valid_as_of(n, date.as_str()) {
            return false;
        }
    }
    if let Some(text) = &q.search {
        if !node_contains_text(n, text.as_str()) {
            return false;
        }
    }
    true
}

fn filter_nodes(nodes: Vec<Node>, q: &Query) -> (r: Vec<Node>)
    requires
        nodes_wf(nodes@),
    ensures
        nodes_wf(r@),
        nodes_view(r@) == filtered(nodes_view(nodes@), q@),
{
    let ghost ns = nodes_view(nodes@);
    let ghost all = nodes@;
    let mut out: Vec<Node> = Vec::new();
    assert(nodes_view(out@) =~= filtered(ns.take(0), q@));
    for n in it: nodes
        invariant
            it.seq() == all,
            ns == nodes_view(all),
            nodes_wf(all),
            nodes_wf(out@),
            nodes_view(out@) == filtered(ns.take(it.index() as int), q@),
    {
        let ghost i = it.index() as int;
        assert(ns.take(i + 1).drop_last() =~= ns.take(i));
        assert(ns.take(i + 1).last() == n@);
        assert(all[i].wf());
        let ghost was = nodes_view(out@);
        if is_selected(&n, q) {
            out.push(n);
            assert(nodes_view(out@) =~= was.push(n@));
        }
    }
    assert(ns.take(all.len() as int) =~= ns);
    out
}

fn find_candidates(db: &Db, q: &Query) -> (r: Vec<Node>)
    requires
        db.wf(),
    ensures
        nodes_wf(r@),
        nodes_view(r@) == candidates(db@, q@),
{
    if let Some(target) = q.as_of {
        return db.list_as_of(q.coll.as_str(), target);
    }
    match &q.order_by {
        Some(field) => {
            let limit: usize = match q.limit {
                None => usize::MAX,
                Some(n) => {
                    if q.wheres.len() == 0 && q.valid_as_of.is_none() && q.search.is_none() {
                        n
                    } else {
                        usize::MAX
                    }
                },
            };
            if q.order_desc {
                db.order_by_desc(q.coll.as_str(), field.as_str(), limit)
            } else {
                db.order_by_asc(q.coll.as_str(), field.as_str(), limit)
            }
        },
        None => db.list(q.coll.as_str()),
    }
}

fn walk_all(db: &Db, nodes: &Vec<Node>, reverse: bool, limit: usize) -> (r: Vec<Node>)
    requires
        db.wf(),
    ensures
        nodes_wf(r@),
        nodes_view(r@) == walked(db@, nodes_view(nodes@), reverse, limit as nat),
{
    let ghost ns = nodes_view(nodes@);
    let mut out: Vec<Node> = Vec::new();
    let mut i: usize = 0;
    assert(nodes_view(out@) =~= walked(db@, ns.take(0), reverse, limit as nat));
    while i < nodes.len()
        invariant
            db.wf(),
            i <= nodes.len(),
            ns == nodes_view(nodes@),
            nodes_wf(out@),
            nodes_view(out@) == walked(db@, ns.take(i as int), reverse, limit as nat),
        decreases nodes.len() - i,
    {
        assert(ns.take(i + 1).drop_last() =~= ns.take(i as int));
        assert(ns.take(i + 1).last() == nodes@[i as int]@);
        let mut chain = db.trace(nodes[i].hash.as_str(), reverse, limit);
        let ghost was = out@;
        let ghost more = chain@;
        out.append(&mut chain);
        proof {
            assert(nodes_view(out@) =~= nodes_view(was) + nodes_view(more));
            assert forall|k: int| 0 <= k < out@.len() implies (#[trigger] out@[k]).wf() by {
                if k < was.len() {
                    assert(out@[k] == was[k]);
                } else {
                    assert(out@[k] == more[k - was.len()]);
                }
            }
        }
        i = i + 1;
    }
    assert(ns.take(i as int) =~= ns);
    out
}

/// The versions that a query finds.
fn find_nodes(db: &Db, q: &Query) -> (r: Vec<Node>)
    requires
        db.wf(),
    ensures
        nodes_wf(r@),
        nodes_view(r@) == result_nodes(db@, q@),
{
    let mut rows = filter_nodes(find_candidates(db, q), q);
    if let Some(field) = &q.order_by {
        if q.as_of.is_some() || q.wheres.len() > 0 || q.search.is_some() {
            rows = sort_nodes(&rows, field.as_str(), q.order_desc);
        }
    }
    if q.trace.is_some() {
        let limit: usize = match q.limit {
            Some(n) => n,
            None => TRACE_LIMIT,
        };
        rows = walk_all(db, &rows, q.trace_rev, limit);
    }
    if let Some(n) = q.limit {
        keep_first(&mut rows, n);
    }
    rows
}

/// How many quotes there are at the front.
pub open spec fn leading_quotes(s: Seq<char>) -> int
    decreases s.len(),
{
    if s.len() > 0 && s[0] == '"' {
        1 + leading_quotes(s.drop_first())
    } else {
        0
    }
}

/// How many quotes there are at the end.
pub open spec fn trailing_quotes(s: Seq<char>) -> int
    decreases s.len(),
{
    if s.len() > 0 && s.last() == '"' {
        1 + trailing_quotes(s.drop_last())
    } else {
        0
    }
}

/// A text without the quotes at its two ends.
pub open spec fn unquoted(s: Seq<char>) -> Seq<char> {
    let rest = s.skip(leading_quotes(s));
    rest.take(rest.len() - trailing_quotes(rest))
}

/// The versions with the same value of a field: the text of the value, and the
/// number that each of them counts for.
#[derive(Debug)]
pub struct Group {
    pub key: String,
    pub values: Vec<Number>,
}

/// What a group is.
#[verifier::ext_equal]
pub struct GroupV {
    pub key: Seq<char>,
    pub values: Seq<Num>,
}

pub open spec fn numbers_view(v: Seq<Number>) -> Seq<Num> {
    v.map_values(|n: Number| n@)
}

impl View for Group {
    type V = GroupV;

    open spec fn view(&self) -> GroupV {
        GroupV { key: self.key@, values: numbers_view(self.values@) }
    }
}

pub open spec fn groups_view(v: Seq<Group>) -> Seq<GroupV> {
    v.map_values(|g: Group| g@)
}

/// Whether every number of a group is a double.
pub open spec fn group_wf(g: Group) -> bool {
    g.values@.len() > 0 && forall|i: int|
        0 <= i < g.values@.len() ==> (#[trigger] g.values@[i]) is Float && g.values@[i].wf()
}

pub open spec fn groups_wf(v: Seq<Group>) -> bool {
    forall|i: int| 0 <= i < v.len() ==> group_wf(#[trigger] v[i])
}

/// The text of the value that a version is grouped by.
pub open spec fn group_key(n: NodeV, field: Seq<char>) -> Seq<char> {
    match json_get(n.data, field) {
        Some(j) => unquoted(json_chars(j)),
        None => "null"@,
    }
}

/// The number that a version counts for: the value that it is grouped by where
/// that is a number, else one.
pub open spec fn group_value(n: NodeV, field: Seq<char>) -> Num {
    match as_float(json_get(n.data, field)) {
        Some(x) => x,
        None => Num::Float(float_text("1"@)->0),
    }
}

/// The groups with a number added to one of them, or to a new one behind them.
pub open spec fn group_added(gs: Seq<GroupV>, key: Seq<char>, value: Num) -> Seq<GroupV>
    decreases gs.len(),
{
    if gs.len() == 0 {
        seq![GroupV { key, values: seq![value] }]
    } else if gs[0].key == key {
        seq![GroupV { key, values: gs[0].values.push(value) }] + gs.drop_first()
    } else {
        seq![gs[0]] + group_added(gs.drop_first(), key, value)
    }
}

/// The groups of versions by the value of a field, in the order in which they
/// first appear.
pub open spec fn grouped(ns: Seq<NodeV>, field: Seq<char>) -> Seq<GroupV>
    decreases ns.len(),
{
    if ns.len() == 0 {
        Seq::empty()
    } else {
        group_added(
            grouped(ns.drop_last(), field),
            group_key(ns.last(), field),
            group_value(ns.last(), field),
        )
    }
}

/// The least of the numbers, or the greatest.
pub open spec fn extreme(ns: Seq<Num>, greatest: bool) -> Num
    decreases ns.len(),
{
    if ns.len() <= 1 {
        ns[0]
    } else {
        let a = extreme(ns.drop_last(), greatest);
        let b = ns.last();
        let o = total_order(num_bits(b), num_bits(a));
        if greatest && o == Order::Greater || !greatest && o == Order::Less {
            b
        } else {
            a
        }
    }
}

/// How many there are, as a double.
pub open spec fn count_json(n: nat) -> Json {
    Json::Number(Num::Float(float_text(decimal(n))->0))
}

/// The row that a group is given as.
pub open spec fn group_row(field: Seq<char>, g: GroupV, value: Json) -> Json {
    object_of(
        seq![
            (field, Json::Text(g.key)),
            ("value"@, value),
            ("count"@, Json::Number(Num::Int(g.values.len() as int))),
        ],
    )
}

/// The value that a group is given with where no sum is asked for.
pub open spec fn group_result(g: GroupV, agg: GroupAgg) -> Json {
    match agg {
        GroupAgg::Min => Json::Number(extreme(g.values, false)),
        GroupAgg::Max => Json::Number(extreme(g.values, true)),
        _ => count_json(g.values.len()),
    }
}

/// Groups whose numbers are still to be added up.
#[derive(Debug)]
pub struct Totals {
    pub field: String,
    /// Whether the sum is to be divided by how many numbers there are.
    pub mean: bool,
    pub groups: Vec<Group>,
}

/// What a query gives: rows, or groups whose numbers are still to be added up.
#[derive(Debug)]
pub enum Answer {
    Rows(Vec<JsonValue>),
    Totals(Totals),
}

/// What an answer is.
pub enum AnswerV {
    Rows(Seq<Json>),
    Totals(Seq<char>, bool, Seq<GroupV>),
}

pub open spec fn values_view(v: Seq<JsonValue>) -> Seq<Json> {
    v.map_values(|j: JsonValue| j@)
}

pub open spec fn values_wf(v: Seq<JsonValue>) -> bool {
    forall|i: int| 0 <= i < v.len() ==> (#[trigger] v[i]).wf()
}

impl View for Answer {
    type V = AnswerV;

    open spec fn view(&self) -> AnswerV {
        match self {
            Answer::Rows(rows) => AnswerV::Rows(values_view(rows@)),
            Answer::Totals(t) => AnswerV::Totals(t.field@, t.mean, groups_view(t.groups@)),
        }
    }
}

impl Answer {
    pub open spec fn wf(&self) -> bool {
        match self {
            Answer::Rows(rows) => values_wf(rows@),
            Answer::Totals(t) => groups_wf(t.groups@),
        }
    }
}

/// What a query gives.
pub open spec fn answer_of(v: DbV, q: QueryV) -> AnswerV {
    let ns = result_nodes(v, q);
    match q.group_by {
        Some((field, agg)) => {
            let gs = grouped(ns, field);
            if agg == GroupAgg::Sum || agg == GroupAgg::Avg {
                AnswerV::Totals(field, agg == GroupAgg::Avg, gs)
            } else {
                AnswerV::Rows(
                    gs.map_values(|g: GroupV| group_row(field, g, group_result(g, agg))),
                )
            }
        },
        None => AnswerV::Rows(ns.map_values(|n: NodeV| node_row(n))),
    }
}

fn unquote(s: &str) -> (r: String)
    ensures
        r@ == unquoted(s@),
{
    let c = chars_of(s);
    let mut from: usize = 0;
    assert(c@.skip(0) =~= c@);
    while from < c.len() && c[from] == '"'
        invariant
            from <= c.len(),
            c@ == s@,
            leading_quotes(c@) == from + leading_quotes(c@.skip(from as int)),
        decreases c.len() - from,
    {
        assert(c@.skip(from as int).drop_first() =~= c@.skip(from + 1));
        from = from + 1;
    }
    let ghost rest = c@.skip(from as int);
    let mut to: usize = c.len();
    assert(rest.take(rest.len() as int) =~= rest);
    while from < to && c[to - 1] == '"'
        invariant
            from <= to <= c.len(),
            c@ == s@,
            rest == c@.skip(from as int),
            trailing_quotes(rest) == (c.len() - to) + trailing_quotes(rest.take(to - from)),
        decreases to - from,
    {
        assert(rest.take(to - from).drop_last() =~= rest.take(to - from - 1));
        to = to - 1;
    }
    assert(leading_quotes(s@) == from);
    assert(trailing_quotes(rest) == c.len() - to);
    assert(c@.subrange(from as int, to as int) =~= rest.take(to - from));
    text_of(&c, from, to)
}

fn add_to_group(groups: &mut Vec<Group>, key: String, value: Number)
    requires
        groups_wf(old(groups)@),
        value is Float,
        value.wf(),
    ensures
        groups_wf(final(groups)@),
        groups_view(final(groups)@) == group_added(groups_view(old(groups)@), key@, value@),
{
    let ghost gs = groups_view(groups@);
    let ghost k = key@;
    let ghost x = value@;
    let mut i: usize = 0;
    assert(gs.skip(0) =~= gs);
    assert(gs.take(0) + group_added(gs, k, x) =~= group_added(gs, k, x));
    while i < groups.len()
        invariant
            i <= groups.len(),
            *groups == *old(groups),
            gs == groups_view(groups@),
            groups_wf(groups@),
            key@ == k,
            value@ == x,
            value is Float,
            value.wf(),
            group_added(gs, k, x) == gs.take(i as int) + group_added(gs.skip(i as int), k, x),
        decreases groups.len() - i,
    {
        let ghost rest = gs.skip(i as int);
        assert(rest[0] == groups@[i as int]@);
        assert(rest.drop_first() =~= gs.skip(i + 1));
        if same_text(groups[i].key.as_str(), key.as_str()) {
            assert(group_wf(groups@[i as int]));
            let ghost was = groups@[i as int];
            groups[i].values.push(value);
            proof {
                let now = groups@[i as int];
                assert(numbers_view(now.values@) =~= numbers_view(was.values@).push(x));
                assert forall|j: int| 0 <= j < now.values@.len() implies (
                #[trigger] now.values@[j]) is Float && now.values@[j].wf() by {
                    if j < was.values@.len() {
                        assert(now.values@[j] == was.values@[j]);
                    }
                }
                assert forall|j: int| 0 <= j < groups@.len() implies group_wf(
                    #[trigger] groups@[j],
                ) by {
                    if j != i {
                        assert(groups@[j] == old(groups)@[j]);
                    }
                }
                assert(groups_view(groups@) =~= gs.take(i as int) + (seq![
                    GroupV { key: k, values: rest[0].values.push(x) },
                ] + rest.drop_first()));
            }
            return;
        }
        assert(gs.take(i as int) + (seq![rest[0]] + group_added(rest.drop_first(), k, x))
            =~= gs.take(i + 1) + group_added(gs.skip(i + 1), k, x));
        i = i + 1;
    }
    let mut values: Vec<Number> = Vec::new();
    values.push(value);
    assert(numbers_view(values@) =~= seq![x]);
    groups.push(Group { key, values });
    proof {
        assert(gs.skip(gs.len() as int) =~= Seq::empty());
        assert(groups_view(groups@) =~= gs.take(i as int) + seq![
            GroupV { key: k, values: seq![x] },
        ]);
        assert forall|j: int| 0 <= j < groups@.len() implies group_wf(#[trigger] groups@[j]) by {
            if j < old(groups)@.len() {
                assert(groups@[j] == old(groups)@[j]);
            }
        }
    }
}

fn group_nodes(nodes: &Vec<Node>, field: &str) -> (r: Vec<Group>)
    requires
        nodes_wf(nodes@),
    ensures
        groups_wf(r@),
        groups_view(r@) == grouped(nodes_view(nodes@), field@),
{
    let ghost ns = nodes_view(nodes@);
    let mut groups: Vec<Group> = Vec::new();
    let mut i: usize = 0;
    assert(groups_view(groups@) =~= grouped(ns.take(0), field@));
    while i < nodes.len()
        invariant
            i <= nodes.len(),
            ns == nodes_view(nodes@),
            nodes_wf(nodes@),
            groups_wf(groups@),
            groups_view(groups@) == grouped(ns.take(i as int), field@),
        decreases nodes.len() - i,
    {
        assert(ns.take(i + 1).drop_last() =~= ns.take(i as int));
        assert(ns.take(i + 1).last() == nodes@[i as int]@);
        let found = nodes[i].data.get(field);
        let key = match found {
            Some(v) => unquote(to_text(v).as_str()),
            None => "null".to_owned(),
        };
        let value = match float_number(found) {
            Some(n) => n,
            None => {
                proof {
                    reveal_strlit("1");
                }
                Number::from_literal("1").unwrap()
            },
        };
        add_to_group(&mut groups, key, value);
        i = i + 1;
    }
    assert(ns.take(i as int) =~= ns);
    groups
}

fn find_extreme(values: &Vec<Number>, greatest: bool) -> (r: Number)
    requires
        values@.len() > 0,
        forall|i: int|
            0 <= i < values@.len() ==> (#[trigger] values@[i]) is Float && values@[i].wf(),
    ensures
        r.wf(),
        r@ == extreme(numbers_view(values@), greatest),
{
    let ghost ns = numbers_view(values@);
    let mut best: usize = 0;
    let mut i: usize = 1;
    assert(ns.take(1)[0] == ns[0]);
    while i < values.len()
        invariant
            1 <= i <= values.len(),
            best < i,
            ns == numbers_view(values@),
            ns[best as int] == extreme(ns.take(i as int), greatest),
        decreases values.len() - i,
    {
        assert(ns.take(i + 1).drop_last() =~= ns.take(i as int));
        assert(ns.take(i + 1).last() == values@[i as int]@);
        assert(ns[best as int] == values@[best as int]@);
        let o = values[i].double().order(&values[best].double());
        if (greatest && o == Order::Greater) || (!greatest && o == Order::Less) {
            best = i;
        }
        i = i + 1;
    }
    assert(ns.take(i as int) =~= ns);
    assert(values@[best as int].wf());
    values[best].clone()
}

fn row_for(field: &str, g: &Group, value: JsonValue) -> (r: JsonValue)
    requires
        value.wf(),
    ensures
        r.wf(),
        r@ == group_row(field@, g@, value@),
{
    let mut fields: Vec<(String, JsonValue)> = Vec::new();
    fields.push((field.to_owned(), JsonValue::Text(g.key.clone())));
    fields.push(("value".to_owned(), value));
    fields.push(
        ("count".to_owned(), JsonValue::Number(Number::PosInt(g.values.len() as u64))),
    );
    assert(fields_view(fields@) =~= seq![
        (field@, Json::Text(g@.key)),
        ("value"@, value@),
        ("count"@, Json::Number(Num::Int(g@.values.len() as int))),
    ]);
    object(fields)
}

fn result_for(g: &Group, agg: GroupAgg) -> (r: JsonValue)
    requires
        group_wf(*g),
    ensures
        r.wf(),
        r@ == group_result(g@, agg),
{
    match agg {
        GroupAgg::Min => JsonValue::Number(find_extreme(&g.values, false)),
        GroupAgg::Max => JsonValue::Number(find_extreme(&g.values, true)),
        _ => {
            let n: u64 = g.values.len() as u64;
            proof {
                lemma_decimal(n as nat);
                lemma_decimal_len(n);
            }
            JsonValue::Number(Number::from_literal(decimal_text(n).as_str()).unwrap())
        },
    }
}

fn group_rows(field: &str, groups: &Vec<Group>, agg: GroupAgg) -> (r: Vec<JsonValue>)
    requires
        groups_wf(groups@),
    ensures
        values_wf(r@),
        values_view(r@) == groups_view(groups@).map_values(
            |g: GroupV| group_row(field@, g, group_result(g, agg)),
        ),
{
    let ghost want = groups_view(groups@).map_values(
        |g: GroupV| group_row(field@, g, group_result(g, agg)),
    );
    let mut out: Vec<JsonValue> = Vec::new();
    let mut i: usize = 0;
    while i < groups.len()
        invariant
            i <= groups.len(),
            groups_wf(groups@),
            want == groups_view(groups@).map_values(
                |g: GroupV| group_row(field@, g, group_result(g, agg)),
            ),
            values_wf(out@),
            values_view(out@) == want.take(i as int),
        decreases groups.len() - i,
    {
        assert(group_wf(groups@[i as int]));
        let ghost was = values_view(out@);
        let row = row_for(field, &groups[i], result_for(&groups[i], agg));
        out.push(row);
        assert(values_view(out@) =~= was.push(want[i as int]));
        assert(want.take(i + 1) =~= was.push(want[i as int]));
        i = i + 1;
    }
    assert(want.take(i as int) =~= want);
    out
}

/// The rows of groups whose numbers were added up: `results` holds, for each
/// group, the sum of its numbers or their mean.
pub fn finish_totals(totals: &Totals, results: &Vec<JsonValue>) -> (r: Vec<JsonValue>)
    requires
        results@.len() == totals.groups@.len(),
        values_wf(results@),
    ensures
        values_wf(r@),
        r@.len() == totals.groups@.len(),
        forall|i: int|
            0 <= i < r@.len() ==> (#[trigger] r@[i])@ == group_row(
                totals.field@,
                totals.groups@[i]@,
                results@[i]@,
            ),
{
    let mut out: Vec<JsonValue> = Vec::new();
    let mut i: usize = 0;
    while i < totals.groups.len()
        invariant
            i <= totals.groups.len(),
            results@.len() == totals.groups@.len(),
            values_wf(results@),
            values_wf(out@),
            out@.len() == i,
            forall|j: int|
                0 <= j < i ==> (#[trigger] out@[j])@ == group_row(
                    totals.field@,
                    totals.groups@[j]@,
                    results@[j]@,
                ),
        decreases totals.groups.len() - i,
    {
        assert(results@[i as int].wf());
        out.push(row_for(totals.field.as_str(), &totals.groups[i], results[i].clone()));
        i = i + 1;
    }
    out
}

fn node_rows(nodes: &Vec<Node>) -> (r: Vec<JsonValue>)
    requires
        nodes_wf(nodes@),
    ensures
        values_wf(r@),
        values_view(r@) == nodes_view(nodes@).map_values(|n: NodeV| node_row(n)),
{
    let ghost want = nodes_view(nodes@).map_values(|n: NodeV| node_row(n));
    let mut out: Vec<JsonValue> = Vec::new();
    let mut i: usize = 0;
    while i < nodes.len()
        invariant
            i <= nodes.len(),
            nodes_wf(nodes@),
            want == nodes_view(nodes@).map_values(|n: NodeV| node_row(n)),
            values_wf(out@),
            values_view(out@) == want.take(i as int),
        decreases nodes.len() - i,
    {
        let ghost was = values_view(out@);
        assert(nodes@[i as int].wf());
        out.push(node_to_json(&nodes[i]));
        assert(values_view(out@) =~= was.push(want[i as int]));
        assert(want.take(i + 1) =~= was.push(want[i as int]));
        i = i + 1;
    }
    assert(want.take(i as int) =~= want);
    out
}

/// Runs a query.
pub fn execute(db: &Db, nql: &str) -> (r: Result<Answer, NqlError>)
    requires
        db.wf(),
    ensures
        match parsed(nql@) {
            Ok(q) => r matches Ok(a) && a.wf() && a@ == answer_of(db@, q),
            Err(e) => r matches Err(x) && x@ == e,
        },
{
    let q = parse(nql)?;
    let nodes = find_nodes(db, &q);
    match &q.group_by {
        Some((field, agg)) => {
            let groups = group_nodes(&nodes, field.as_str());
            if *agg == GroupAgg::Sum || *agg == GroupAgg::Avg {
                Ok(
                    Answer::Totals(
                        Totals { field: field.clone(), mean: *agg == GroupAgg::Avg, groups },
                    ),
                )
            } else {
                Ok(Answer::Rows(group_rows(field.as_str(), &groups, *agg)))
            }
        },
        None => Ok(Answer::Rows(node_rows(&nodes))),
    }
}

/// How many rows an answer has.
pub open spec fn answer_len(a: AnswerV) -> nat {
    match a {
        AnswerV::Rows(rows) => rows.len(),
        AnswerV::Totals(_, _, groups) => groups.len(),
    }
}

/// Runs a query, and counts the rows that it gives.
pub fn query(db: &Db, nql: &str) -> (r: Result<(Answer, usize), NqlError>)
    requires
        db.wf(),
    ensures
        match parsed(nql@) {
            Ok(q) => r matches Ok(a) && a.0.wf() && a.0@ == answer_of(db@, q) && a.1 == answer_len(
                a.0@,
            ),
            Err(e) => r matches Err(x) && x@ == e,
        },
{
    let answer = execute(db, nql)?;
    let count: usize = match &answer {
        Answer::Rows(rows) => rows.len(),
        Answer::Totals(t) => t.groups.len(),
    };
    Ok((answer, count))
}

} // verus!
