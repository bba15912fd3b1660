//! What requests to a server promise, from what is asked to what is read
//! afterwards.

use vstd::prelude::*;
use vstd::utf8::encode_utf8;
use crate::batch::{
    all_deleted, batch_ran, count_of, delete_row, deleted_to, deletions, is_put_for, op_kind,
    put_row, puts_ran, result_row, result_rows, BatchOp, OpKind,
};
use crate::batch_laws::lemma_settled_hash;
use crate::bindings::{core_put, core_row, core_version, doc_causes, texts_among, CoreError};
use crate::db::{
    all_settled, batch_outcome, batch_tried, batch_version, current, doc_fields, first_error,
    float_time, latest_first, new_version, nodes_view, put_outcome, versions, DbV, PutOp,
};
use crate::guarantees::lemma_deleted;
use crate::history::{clash, lemma_put_then_get};
use crate::index::{hash_of, id_wf, ids_in, opt_text};
use crate::json::{
    field_of, field_set, json_chars, json_fits, json_get, json_parse, json_wf, keys_ascend,
    lemma_field_set, object_of, Json, Num, MAX_DEPTH,
};
use crate::node::{lemma_by_key, Node, NodeV};
use crate::nql::{answer_of, AnswerV};
use crate::parser::parsed;
use crate::provenance::edge_leads;
use crate::server::{
    delete_answered, delete_ran, due, event, log_row, log_rows, put_answered, put_ran,
    query_answered, row_texts, rows_reply, rows_told, standing, subscribed, texts_or_none, ManagerV,
    PutBody, QueryStep, ReplyV, Step, SubV,
};
use crate::sort::{lemma_covers_reaches, lemma_sorted_places, sorted_places};
use crate::store::{all_keys, undamaged, ObjV, StoreError};
use crate::takeover::lemma_causes_lead;
use crate::text::{decimal, lowercase, trimmed};

verus! {

/// Whether the fields have different names.
pub open spec fn names_differ(fields: Seq<(Seq<char>, Json)>) -> bool {
    forall|i: int, j: int|
        0 <= i < j < fields.len() ==> (#[trigger] fields[i]).0 != (#[trigger] fields[j]).0
}

pub(crate) proof fn lemma_object(fields: Seq<(Seq<char>, Json)>)
    requires
        names_differ(fields),
    ensures
        forall|i: int|
            0 <= i < fields.len() ==> json_get(object_of(fields), (#[trigger] fields[i]).0) == Some(
                fields[i].1,
            ),
{
    lemma_by_key(fields);
}

/// Whether the document with a hash is the current one, and has just what was
/// asked to be written: the document, its causes, and from when to when it is
/// valid. Each of the causes is led to, and leads back.
pub open spec fn written_as(
    w: DbV,
    hash: Seq<char>,
    coll: Seq<char>,
    id: Seq<char>,
    data: Json,
    causes: Seq<Seq<char>>,
    valid_from: Option<Seq<char>>,
    valid_to: Option<Seq<char>>,
) -> bool {
    &&& hash_of(w.ids, coll, id) == Some(hash)
    &&& current(w, coll, id) matches Some(n) && n.coll == coll && n.id == id && n.data == data
        && n.caused_by == causes && n.valid_from == valid_from && n.valid_to == valid_to && n.hash
        == hash
    &&& forall|c: Seq<char>| #[trigger]
        causes.contains(c) ==> edge_leads(w.graph, "caused_by"@, hash, c) && edge_leads(
            w.graph,
            "caused_by_rev"@,
            c,
            hash,
        )
}

/// Whether a version that was written can be read back: it is not nested too
/// deep, and the digest tells it from what was there, which is not damaged.
pub open spec fn reads_back(v: DbV, n: NodeV) -> bool {
    &&& json_wf(n.data)
    &&& json_fits(n.data, MAX_DEPTH - 1)
    &&& undamaged(v.objects, n.hash)
    &&& !clash(v.objects, NodeV { hash: Seq::empty(), ..n }, n.hash)
}

/// Writing a document: what was asked for is what is read afterwards, the
/// version before it is the one that was current, and no other document
/// changes.
pub proof fn lemma_put_asked(
    v: DbV,
    coll: Seq<char>,
    id: Seq<char>,
    data: Json,
    causes: Seq<Seq<char>>,
    valid_from: Option<Seq<char>>,
    valid_to: Option<Seq<char>>,
    ts: Num,
    node: Node,
    w: DbV,
)
    requires
        put_outcome(
            v,
            new_version(v, coll, id, data, causes, valid_from, valid_to, ts),
            Ok(node),
            w,
        ),
        float_time(ts),
        reads_back(v, node@),
    ensures
        written_as(w, node@.hash, coll, id, data, causes, valid_from, valid_to),
        node@.seq == v.seq,
        node@.prev == hash_of(v.ids, coll, id),
        node@.ts == ts,
        w.seq == v.seq + 1,
        forall|c: Seq<char>, i: Seq<char>|
            (c, i) != (coll, id) ==> #[trigger] hash_of(w.ids, c, i) == hash_of(v.ids, c, i),
{
    let n = new_version(v, coll, id, data, causes, valid_from, valid_to, ts);
    assert(NodeV { hash: Seq::empty(), ..node@ } == n);
    lemma_put_then_get(v, n, node@.hash, w);
    assert forall|c: Seq<char>| #[trigger] causes.contains(c) implies edge_leads(
        w.graph,
        "caused_by"@,
        node@.hash,
        c,
    ) && edge_leads(w.graph, "caused_by_rev"@, c, node@.hash) by {
        lemma_causes_lead(v.graph, node@.hash, causes, c);
    }
}

/// The causes that a request names; none where it names none.
pub open spec fn asked_causes(body: PutBody) -> Seq<Seq<char>> {
    match body.caused_by {
        Some(ts) => ts@.map_values(|s: String| s@),
        None => Seq::empty(),
    }
}

/// Writing through a server: where a request to write a document is answered
/// with 200, the current version of the document has the document, the causes
/// and the validity that the request asked for, and its causes are led to and
/// lead back. The answer names the version, and how the database stands. No
/// other database changes.
pub proof fn lemma_put_request(
    v: ManagerV,
    auth: Option<Seq<char>>,
    name: Seq<char>,
    body: PutBody,
    r: Step,
    w: ManagerV,
)
    requires
        put_answered(v, auth, name, body, r, w),
        r matches Step::Done(x) && x@.status == 200,
    ensures
        exists|node: Node|
            #![trigger node.wf()]
            {
                let doc = json_get(r->Done_0@.body, "doc"@)->0;
                &&& node.wf()
                &&& reads_back(v.dbs[name], node@) ==> written_as(
                    w.dbs[name],
                    node@.hash,
                    body.coll@,
                    body.id@,
                    body.doc@,
                    asked_causes(body),
                    opt_text(body.valid_from),
                    opt_text(body.valid_to),
                )
                &&& json_get(doc, "_id"@) == Some(Json::Text(body.id@))
                &&& json_get(doc, "_coll"@) == Some(Json::Text(body.coll@))
                &&& json_get(doc, "_hash"@) == Some(Json::Text(node@.hash))
                &&& json_get(doc, "_seq"@) == Some(Json::Number(Num::Int(v.dbs[name].seq as int)))
                &&& json_get(doc, "data"@) == Some(body.doc@)
            },
        json_get(r->Done_0@.body, "ok"@) == Some(Json::Bool(true)),
        json_get(r->Done_0@.body, "seq"@) == Some(Json::Number(Num::Int(w.dbs[name].seq as int))),
        json_get(r->Done_0@.body, "head"@) == Some(Json::Text(w.dbs[name].head)),
        w.dbs[name].seq == v.dbs[name].seq + 1,
        forall|other: Seq<char>|
            other != name ==> #[trigger] w.dbs.contains_key(other) == v.dbs.contains_key(other)
                && w.dbs[other] == v.dbs[other],
{
    let (ts, outcome) = choose|ts: Num, outcome: Result<Node, StoreError>| #[trigger]
        put_ran(v, name, body, ts, outcome, r->Done_0@, w);
    let db = v.dbs[name];
    let node = outcome->Ok_0;
    assert(asked_causes(body) =~= texts_or_none(body.caused_by));
    if reads_back(db, node@) {
        lemma_put_asked(
            db,
            body.coll@,
            body.id@,
            body.doc@,
            asked_causes(body),
            opt_text(body.valid_from),
            opt_text(body.valid_to),
            ts,
            node,
            w.dbs[name],
        );
    }
    lemma_reply_names();
    let inner = seq![
        ("_id"@, Json::Text(node@.id)),
        ("_hash"@, Json::Text(node@.hash)),
        ("_seq"@, Json::Number(Num::Int(node@.seq as int))),
        ("_coll"@, Json::Text(node@.coll)),
        ("data"@, node@.data),
    ];
    assert(names_differ(inner));
    lemma_object(inner);
    assert(inner[0].0 == "_id"@ && inner[1].0 == "_hash"@ && inner[2].0 == "_seq"@ && inner[3].0
        == "_coll"@ && inner[4].0 == "data"@);
    let outer = seq![("ok"@, Json::Bool(true)), ("doc"@, object_of(inner))] + standing(w.dbs[name]);
    assert(outer.len() == 4);
    assert(outer[0].0 == "ok"@ && outer[1].0 == "doc"@ && outer[2].0 == "seq"@ && outer[3].0
        == "head"@);
    assert(names_differ(outer));
    lemma_object(outer);
    assert(node.wf());
}

proof fn lemma_reply_names()
    ensures
        "_id"@.len() == 3,
        "_hash"@.len() == 5 && "_hash"@[1] == 'h',
        "_seq"@.len() == 4 && "_seq"@[0] == '_',
        "_coll"@.len() == 5 && "_coll"@[1] == 'c',
        "data"@.len() == 4 && "data"@[0] == 'd',
        "ok"@.len() == 2,
        "doc"@.len() == 3 && "doc"@[0] == 'd',
        "seq"@.len() == 3 && "seq"@[0] == 's',
        "head"@.len() == 4 && "head"@[0] == 'h',
        "rows"@.len() == 4 && "rows"@[0] == 'r',
        "count"@.len() == 5,
{
    reveal_strlit("_id");
    reveal_strlit("_hash");
    reveal_strlit("_seq");
    reveal_strlit("_coll");
    reveal_strlit("data");
    reveal_strlit("ok");
    reveal_strlit("doc");
    reveal_strlit("seq");
    reveal_strlit("head");
    reveal_strlit("rows");
    reveal_strlit("count");
}

/// Requests that are turned away: where a server asks for a token, a request to
/// write without it, or with another, is answered with 401; while a database
/// starts up it is answered with 503. A write that fails is answered with 500.
/// None of these changes what is current of a document.
pub proof fn lemma_put_refused(
    v: ManagerV,
    auth: Option<Seq<char>>,
    name: Seq<char>,
    body: PutBody,
    r: Step,
    w: ManagerV,
    coll: Seq<char>,
    id: Seq<char>,
)
    requires
        put_answered(v, auth, name, body, r, w),
    ensures
        v.token matches Some(t) && auth != Some("Bearer "@ + v.token->0) ==> (r matches Step::Done(
            x,
        ) && x@.status == 401) && w == v,
        (v.token is None || auth == Some("Bearer "@ + v.token->0)) && !v.dbs.contains_key(name) ==> r
            is Open && w == v,
        (v.token is None || auth == Some("Bearer "@ + v.token->0)) && v.dbs.contains_key(name)
            && !v.dbs[name].ready ==> (r matches Step::Done(x) && x@.status == 503) && w == v,
        (v.token is None || auth == Some("Bearer "@ + v.token->0)) && v.dbs.contains_key(name)
            && v.dbs[name].ready ==> (r matches Step::Done(x) && (x@.status == 200 || x@.status
            == 500)),
        r matches Step::Done(x) && x@.status != 200 ==> w.dbs.contains_key(name)
            == v.dbs.contains_key(name) && hash_of(w.dbs[name].ids, coll, id) == hash_of(
            v.dbs[name].ids,
            coll,
            id,
        ) && w.dbs[name].objects == v.dbs[name].objects,
{
    if let Step::Done(x) = r {
        if x@.status == 500 || x@.status == 200 {
            if !(w == v) {
                let (ts, outcome) = choose|ts: Num, outcome: Result<Node, StoreError>| #[trigger]
                    put_ran(v, name, body, ts, outcome, x@, w);
            }
        }
    }
}

/// Deleting through a server: the answer says whether there was such a document.
/// Where there was, it has no current version afterwards and is not listed, and
/// the other documents are as they were; where there was none, nothing changes.
pub proof fn lemma_delete_request(
    v: ManagerV,
    auth: Option<Seq<char>>,
    name: Seq<char>,
    coll: Seq<char>,
    id: Seq<char>,
    r: ReplyV,
    w: ManagerV,
)
    requires
        delete_answered(v, auth, name, coll, id, r, w),
        r.status == 200,
        id_wf(v.dbs[name].ids),
    ensures
        json_get(r.body, "ok"@) == Some(Json::Bool(hash_of(v.dbs[name].ids, coll, id) is Some)),
        json_get(r.body, "seq"@) == Some(Json::Number(Num::Int(w.dbs[name].seq as int))),
        hash_of(w.dbs[name].ids, coll, id) is None,
        current(w.dbs[name], coll, id) is None,
        hash_of(v.dbs[name].ids, coll, id) is Some ==> !ids_in(w.dbs[name].ids, coll).contains(id)
            && w.dbs[name].seq == v.dbs[name].seq + 1,
        hash_of(v.dbs[name].ids, coll, id) is None ==> w.dbs[name] == v.dbs[name],
        forall|c: Seq<char>, i: Seq<char>|
            (c, i) != (coll, id) ==> #[trigger] hash_of(w.dbs[name].ids, c, i) == hash_of(
                v.dbs[name].ids,
                c,
                i,
            ),
        forall|other: Seq<char>|
            other != name ==> #[trigger] w.dbs.contains_key(other) == v.dbs.contains_key(other)
                && w.dbs[other] == v.dbs[other],
{
    let (ts, outcome) = choose|ts: Num, outcome: Result<bool, StoreError>| #[trigger]
        delete_ran(v, name, coll, id, ts, outcome, r, w);
    let db = v.dbs[name];
    if hash_of(db.ids, coll, id) is Some {
        lemma_deleted(db, coll, id, ts, w.dbs[name]);
    }
    lemma_reply_names();
    let existed = hash_of(db.ids, coll, id) is Some;
    let outer = seq![("ok"@, Json::Bool(existed))] + standing(w.dbs[name]);
    assert(outer.len() == 3);
    assert(outer[0].0 == "ok"@ && outer[1].0 == "seq"@ && outer[2].0 == "head"@);
    assert(names_differ(outer));
    lemma_object(outer);
    assert(outcome == Ok::<bool, StoreError>(existed));
}

/// Queries through a server: a query that can be read, on a database that is
/// there, by one who may ask, is run on that database. The answer to it has all
/// rows, in their order, and how many they are.
pub proof fn lemma_query_request(
    v: ManagerV,
    auth: Option<Seq<char>>,
    name: Seq<char>,
    nql: Seq<char>,
    r: QueryStep,
    rows: Seq<Json>,
)
    requires
        query_answered(v, auth, name, nql, r),
    ensures
        v.token matches Some(t) && auth != Some("Bearer "@ + v.token->0) ==> (r matches
            QueryStep::Done(x) && x@.status == 401),
        (v.token is None || auth == Some("Bearer "@ + v.token->0)) && !v.dbs.contains_key(name) ==> (r
            matches QueryStep::Done(x) && x@.status == 404),
        (v.token is None || auth == Some("Bearer "@ + v.token->0)) && v.dbs.contains_key(name)
            && trimmed(nql).len() > 0 ==> match parsed(nql) {
            Ok(q) => r matches QueryStep::Rows(a) && a@ == answer_of(v.dbs[name], q),
            Err(e) => r matches QueryStep::Failed(x) && x@ == e,
        },
        rows_reply(rows, v.dbs[name]).status == 200,
        json_get(rows_reply(rows, v.dbs[name]).body, "rows"@) == Some(Json::Array(rows)),
        json_get(rows_reply(rows, v.dbs[name]).body, "count"@) == Some(
            Json::Number(Num::Int(rows.len() as int)),
        ),
{
    let db = v.dbs[name];
    lemma_reply_names();
    let outer = seq![
        ("rows"@, Json::Array(rows)),
        ("count"@, Json::Number(Num::Int(rows.len() as int))),
    ] + standing(db);
    assert(outer.len() == 4);
    assert(outer[0].0 == "rows"@ && outer[1].0 == "count"@ && outer[2].0 == "seq"@ && outer[3].0
        == "head"@);
    assert(names_differ(outer));
    lemma_object(outer);
}

/// Live queries: where the rows of a query that someone listens to are not, text
/// by text, those that were told last, there is an event; where they are, there
/// is none; the first rows are told in any case, and so are those that are asked
/// for anew. What was told is remembered: after rows were told, others are told
/// and the same are not.
pub proof fn lemma_rows_told(
    v: ManagerV,
    name: Seq<char>,
    id: u64,
    rows: Seq<Json>,
    initial: bool,
    r: Option<Seq<char>>,
    w: ManagerV,
    next: Seq<Json>,
    s: Option<Seq<char>>,
    x: ManagerV,
)
    requires
        rows_told(v, name, id, rows, initial, r, w),
        v.subs.contains_key(decimal(id as nat)),
        v.subs[decimal(id as nat)].db == name,
        rows_told(w, name, id, next, false, s, x),
    ensures
        initial ==> r is Some,
        v.subs[decimal(id as nat)].last is None ==> r is Some,
        v.subs[decimal(id as nat)].last matches Some(told) && told.len() != rows.len() ==> r is Some,
        v.subs[decimal(id as nat)].last matches Some(told) && (exists|i: int|
            0 <= i < rows.len() && i < told.len() && told[i] != json_chars(#[trigger] rows[i])) ==> r
            is Some,
        (exists|i: int|
            0 <= i < rows.len() && i < next.len() && json_chars(#[trigger] rows[i]) != json_chars(
                next[i],
            )) || rows.len() != next.len() ==> s is Some,
        rows == next ==> s is None,
{
    let key = decimal(id as nat);
    let texts = row_texts(rows);
    if let Some(told) = v.subs[key].last {
        if exists|i: int|
            0 <= i < rows.len() && i < told.len() && told[i] != json_chars(#[trigger] rows[i]) {
            let i = choose|i: int|
                0 <= i < rows.len() && i < told.len() && told[i] != json_chars(#[trigger] rows[i]);
            assert(texts[i] == json_chars(rows[i]));
        }
    }
    assert(w.subs[key].last == Some(texts));
    let more = row_texts(next);
    if exists|i: int|
        0 <= i < rows.len() && i < next.len() && json_chars(#[trigger] rows[i]) != json_chars(
            next[i],
        ) {
        let i = choose|i: int|
            0 <= i < rows.len() && i < next.len() && json_chars(#[trigger] rows[i]) != json_chars(
                next[i],
            );
        assert(texts[i] == json_chars(rows[i]));
        assert(more[i] == json_chars(next[i]));
    }
    assert(texts.len() == rows.len() && more.len() == next.len());
}

/// Live queries: an event names the query that it is about and its database, and
/// has all its rows and how many they are. Only the first says so.
pub proof fn lemma_event(sub: SubV, rows: Seq<Json>, initial: bool)
    ensures
        json_get(event(sub, rows, initial), "sub_id"@) == Some(Json::Number(Num::Int(sub.id as int))),
        json_get(event(sub, rows, initial), "db"@) == Some(Json::Text(sub.db)),
        json_get(event(sub, rows, initial), "nql"@) == Some(Json::Text(sub.nql)),
        json_get(event(sub, rows, initial), "rows"@) == Some(Json::Array(rows)),
        json_get(event(sub, rows, initial), "count"@) == Some(
            Json::Number(Num::Int(rows.len() as int)),
        ),
        json_get(event(sub, rows, initial), "event"@) == if initial {
            Some(Json::Text("initial"@))
        } else {
            None
        },
{
    reveal_strlit("sub_id");
    reveal_strlit("db");
    reveal_strlit("nql");
    reveal_strlit("rows");
    reveal_strlit("count");
    reveal_strlit("event");
    let fields = seq![
        ("sub_id"@, Json::Number(Num::Int(sub.id as int))),
        ("db"@, Json::Text(sub.db)),
        ("nql"@, Json::Text(sub.nql)),
        ("rows"@, Json::Array(rows)),
        ("count"@, Json::Number(Num::Int(rows.len() as int))),
    ];
    let all = fields.push(("event"@, Json::Text("initial"@)));
    assert(fields[0].0.len() == 6 && fields[1].0.len() == 2 && fields[2].0.len() == 3
        && fields[3].0.len() == 4 && fields[4].0.len() == 5);
    assert("event"@[0] == 'e' && "count"@[0] == 'c' && "event"@.len() == 5);
    assert(names_differ(fields));
    assert(names_differ(all)) by {
        assert(all[5].0 == "event"@);
        assert forall|i: int, j: int| 0 <= i < j < all.len() implies (#[trigger] all[i]).0 != (
        #[trigger] all[j]).0 by {
            if j < 5 {
                assert(all[i] == fields[i] && all[j] == fields[j]);
            } else {
                assert(all[i] == fields[i]);
            }
        }
    }
    lemma_by_key(fields);
    lemma_by_key(all);
    assert(forall|i: int| 0 <= i < 5 ==> #[trigger] all[i] == fields[i]);
    let shown = if initial {
        all
    } else {
        fields
    };
    assert(shown[0] == fields[0] && shown[1] == fields[1] && shown[2] == fields[2] && shown[3]
        == fields[3] && shown[4] == fields[4]);
    if initial {
        assert(shown[5].0 == "event"@);
    }
}

/// Live queries: after a query was subscribed to, it is among those that a write
/// to its database has run again, with what it gives on the database as it is;
/// and nothing is run again that is not subscribed to on that database.
pub proof fn lemma_due(v: ManagerV, keys: Seq<Seq<char>>, name: Seq<char>, id: u64, a: AnswerV)
    ensures
        due(v, keys, name).contains((id, a)) <==> exists|key: Seq<char>|
            {
                &&& #[trigger] keys.contains(key)
                &&& v.subs[key].id == id
                &&& v.subs[key].db == name
                &&& parsed(v.subs[key].nql) matches Ok(q) && a == answer_of(v.dbs[name], q)
            },
    decreases keys.len(),
{
    let all = due(v, keys, name);
    if keys.len() > 0 {
        let head = keys.drop_last();
        let before = due(v, head, name);
        lemma_due(v, head, name, id, a);
        assert(keys[keys.len() - 1] == keys.last());
        assert(keys.contains(keys.last()));
        if before.contains((id, a)) {
            let k = choose|k: int| 0 <= k < before.len() && before[k] == (id, a);
            assert(all[k] == (id, a));
            let key = choose|key: Seq<char>|
                {
                    &&& #[trigger] head.contains(key)
                    &&& v.subs[key].id == id
                    &&& v.subs[key].db == name
                    &&& parsed(v.subs[key].nql) matches Ok(q) && a == answer_of(v.dbs[name], q)
                };
            let j = choose|j: int| 0 <= j < head.len() && head[j] == key;
            assert(keys[j] == key);
            assert(keys.contains(key));
        }
        if all.contains((id, a)) && !before.contains((id, a)) {
            let k = choose|k: int| 0 <= k < all.len() && all[k] == (id, a);
            if k < before.len() {
                assert(before[k] == (id, a));
            }
        }
        if exists|key: Seq<char>|
            {
                &&& #[trigger] keys.contains(key)
                &&& v.subs[key].id == id
                &&& v.subs[key].db == name
                &&& parsed(v.subs[key].nql) matches Ok(q) && a == answer_of(v.dbs[name], q)
            } {
            let key = choose|key: Seq<char>|
                {
                    &&& #[trigger] keys.contains(key)
                    &&& v.subs[key].id == id
                    &&& v.subs[key].db == name
                    &&& parsed(v.subs[key].nql) matches Ok(q) && a == answer_of(v.dbs[name], q)
                };
            if key == keys.last() {
                assert(all[all.len() - 1] == (id, a));
            } else {
                let j = choose|j: int| 0 <= j < keys.len() && keys[j] == key;
                assert(head[j] == key);
                assert(head.contains(key));
            }
        }
    } else {
        assert(!all.contains((id, a)));
    }
}

/// Live queries: a query that is subscribed to gets the next number, is run on
/// its database from then on, and has been told nothing yet; the others stay.
pub proof fn lemma_subscribed(v: ManagerV, name: Seq<char>, nql: Seq<char>, other: Seq<char>)
    ensures
        ({
            let w = subscribed(v, name, nql);
            let key = decimal(v.next_sub as nat);
            &&& w.sub_keys.contains(key)
            &&& w.subs.contains_key(key)
            &&& w.subs[key].id == v.next_sub
            &&& w.subs[key].db == name
            &&& w.subs[key].nql == nql
            &&& w.subs[key].last is None
            &&& other != key ==> (v.sub_keys.contains(other) ==> w.sub_keys.contains(other))
                && w.subs[other] == v.subs[other]
            &&& w.dbs == v.dbs
            &&& v.next_sub < u64::MAX ==> w.next_sub == v.next_sub + 1
        }),
{
    let w = subscribed(v, name, nql);
    let key = decimal(v.next_sub as nat);
    if !v.sub_keys.contains(key) {
        assert(w.sub_keys[v.sub_keys.len() as int] == key);
    }
    if v.sub_keys.contains(other) {
        let i = choose|i: int| 0 <= i < v.sub_keys.len() && v.sub_keys[i] == other;
        assert(w.sub_keys[i] == other);
    }
}

/// Whether an operation of a batch puts a document: its name is `put`, in
/// whatever case.
pub open spec fn asks_put(op: BatchOp) -> bool {
    lowercase(op.op@) == "put"@
}

/// Whether an operation of a batch deletes a document.
pub open spec fn asks_delete(op: BatchOp) -> bool {
    lowercase(op.op@) == "del"@ || lowercase(op.op@) == "delete"@
}

/// How many of the first operations put a document.
pub open spec fn puts_upto(ops: Seq<BatchOp>, n: int) -> int
    decreases n,
{
    if n <= 0 {
        0
    } else if asks_put(ops[n - 1]) {
        puts_upto(ops, n - 1) + 1
    } else {
        puts_upto(ops, n - 1)
    }
}

/// What an operation says of a text; nothing is the empty one.
pub open spec fn said(s: Option<String>) -> Seq<char> {
    match s {
        Some(t) => t@,
        None => Seq::empty(),
    }
}

/// Whether a version is what an operation asks to be written: its document, an
/// empty object where it names none, and its causes.
pub open spec fn made_as_asked(op: BatchOp, n: NodeV) -> bool {
    &&& n.coll == said(op.coll)
    &&& n.id == said(op.id)
    &&& n.data == match op.doc {
        Some(d) => d@,
        None => Json::Object(Seq::empty()),
    }
    &&& n.caused_by == match op.caused_by {
        Some(ts) => ts@.map_values(|s: String| s@),
        None => Seq::empty(),
    }
    &&& n.valid_from is None
    &&& n.valid_to is None
}

/// Whether the versions that a batch wrote, and the database when they were
/// written, are as its operations ask.
pub open spec fn batch_made(v: DbV, ops: Seq<BatchOp>, ns: Seq<NodeV>, mid: DbV) -> bool {
    &&& ns.len() == puts_upto(ops, ops.len() as int)
    &&& forall|i: int|
        0 <= i < ops.len() && asks_put(#[trigger] ops[i]) ==> made_as_asked(
            ops[i],
            ns[puts_upto(ops, i)],
        ) && ns[puts_upto(ops, i)].seq == v.seq + puts_upto(ops, i)
    &&& forall|k: int|
        0 <= k < ns.len() && last_of_document(ns, k) ==> hash_of(
            mid.ids,
            (#[trigger] ns[k]).coll,
            ns[k].id,
        ) == Some(ns[k].hash)
    &&& mid.seq == v.seq + ns.len()
}

/// Whether no later version is of the same document.
pub open spec fn last_of_document(ns: Seq<NodeV>, k: int) -> bool {
    forall|m: int| k < m < ns.len() ==> ((#[trigger] ns[m]).coll, ns[m].id) != (ns[k].coll, ns[k].id)
}

proof fn lemma_kinds(op: BatchOp)
    ensures
        asks_put(op) <==> op_kind(op) == OpKind::Put,
        asks_delete(op) <==> op_kind(op) == OpKind::Delete,
{
    reveal_strlit("put");
    reveal_strlit("del");
    reveal_strlit("delete");
    assert("put"@[0] == 'p' && "del"@[0] == 'd' && "delete"@[0] == 'd');
}

proof fn lemma_puts_counted(ops: Seq<BatchOp>, n: int)
    requires
        n <= ops.len(),
    ensures
        puts_upto(ops, n) == count_of(ops, OpKind::Put, n),
        0 <= puts_upto(ops, n),
        n >= 0 ==> puts_upto(ops, n) <= n,
    decreases n,
{
    if n > 0 {
        lemma_kinds(ops[n - 1]);
        lemma_puts_counted(ops, n - 1);
    }
}

proof fn lemma_puts_below(ops: Seq<BatchOp>, i: int, n: int)
    requires
        0 <= i < n <= ops.len(),
        asks_put(ops[i]),
    ensures
        puts_upto(ops, i) < puts_upto(ops, n),
    decreases n,
{
    if n > i + 1 {
        lemma_puts_below(ops, i, n - 1);
    }
}

/// Whether a row says that a version was written.
pub open spec fn says_put(row: Json, n: NodeV) -> bool {
    &&& json_get(row, "op"@) == Some(Json::Text("put"@))
    &&& json_get(row, "id"@) == Some(Json::Text(n.id))
    &&& json_get(row, "seq"@) == Some(Json::Number(Num::Int(n.seq as int)))
    &&& json_get(row, "hash"@) == Some(Json::Text(n.hash))
}

/// Whether the rows of a batch say of each operation that puts a document which
/// version it wrote.
pub open spec fn rows_say(ops: Seq<BatchOp>, ns: Seq<NodeV>, rows: Seq<Json>) -> bool {
    forall|i: int|
        0 <= i < ops.len() && asks_put(#[trigger] ops[i]) ==> says_put(rows[i], ns[puts_upto(ops, i)])
}

proof fn lemma_put_row(n: NodeV)
    ensures
        says_put(put_row(n), n),
{
    reveal_strlit("op");
    reveal_strlit("id");
    reveal_strlit("seq");
    reveal_strlit("hash");
    let fs = seq![
        ("op"@, Json::Text("put"@)),
        ("id"@, Json::Text(n.id)),
        ("seq"@, Json::Number(Num::Int(n.seq as int))),
        ("hash"@, Json::Text(n.hash)),
    ];
    assert("op"@[0] == 'o' && "id"@[0] == 'i' && "seq"@.len() == 3 && "hash"@.len() == 4
        && "op"@.len() == 2 && "id"@.len() == 2);
    assert(fs[0].0 == "op"@ && fs[1].0 == "id"@ && fs[2].0 == "seq"@ && fs[3].0 == "hash"@);
    assert(names_differ(fs));
    lemma_object(fs);
}

proof fn lemma_delete_row(id: Seq<char>, r: Result<bool, StoreError>)
    ensures
        json_get(delete_row(id, r), "op"@) == Some(Json::Text("del"@)),
        json_get(delete_row(id, r), "id"@) == Some(Json::Text(id)),
        r is Err ==> json_get(delete_row(id, r), "error"@) is Some,
        r matches Ok(existed) ==> json_get(delete_row(id, r), "ok"@) == Some(Json::Bool(existed)),
{
    reveal_strlit("op");
    reveal_strlit("id");
    reveal_strlit("ok");
    reveal_strlit("error");
    let fs = seq![
        ("op"@, Json::Text("del"@)),
        ("id"@, Json::Text(id)),
        match r {
            Ok(existed) => ("ok"@, Json::Bool(existed)),
            Err(e) => ("error"@, Json::Text(e.text())),
        },
    ];
    assert("op"@[0] == 'o' && "id"@[0] == 'i' && "ok"@[0] == 'o' && "op"@[1] == 'p' && "ok"@[1]
        == 'k' && "error"@[0] == 'e');
    assert(fs[0].0 == "op"@ && fs[1].0 == "id"@);
    assert(names_differ(fs));
    lemma_object(fs);
    match r {
        Ok(existed) => {
            assert(fs[2].0 == "ok"@);
        },
        Err(e) => {
            assert(fs[2].0 == "error"@);
        },
    }
}

proof fn lemma_puts_made(
    v: DbV,
    ops: Seq<BatchOp>,
    ps: Seq<PutOp>,
    ts: Num,
    nodes: Vec<Node>,
    mid: DbV,
)
    requires
        puts_ran(v, ops, ps, ts, Ok(nodes), mid),
    ensures
        batch_made(v, ops, nodes_view(nodes@), mid),
{
    let ns = nodes_view(nodes@);
    let total = ops.len() as int;
    lemma_puts_counted(ops, total);
    if ps.len() > 0 {
        lemma_batch_nodes(v, ps, ts, nodes, mid, 0);
        lemma_batch_settled(v, ps, ts, nodes, mid, ps.len() - 1);
    }
    assert forall|i: int| 0 <= i < ops.len() && asks_put(#[trigger] ops[i]) implies made_as_asked(
        ops[i],
        ns[puts_upto(ops, i)],
    ) && ns[puts_upto(ops, i)].seq == v.seq + puts_upto(ops, i) by {
        lemma_kinds(ops[i]);
        lemma_puts_counted(ops, i);
        lemma_puts_below(ops, i, total);
        let k = puts_upto(ops, i);
        assert(is_put_for(ops[i], ps[k]));
        lemma_batch_nodes(v, ps, ts, nodes, mid, k);
        assert(ns[k] == nodes@[k]@);
    }
    assert forall|k: int| 0 <= k < ns.len() && last_of_document(ns, k) implies hash_of(
        mid.ids,
        (#[trigger] ns[k]).coll,
        ns[k].id,
    ) == Some(ns[k].hash) by {
        lemma_batch_settled(v, ps, ts, nodes, mid, k);
    }
}

/// Batches: a batch that is answered with results wrote, for each of its
/// operations that puts a document, a version that is what the operation asks,
/// numbered in their order, and the last one of each document was current before
/// anything was deleted. Where the batch deletes nothing, that is how the
/// database is afterwards.
pub proof fn lemma_batch_wrote(v: DbV, ops: Seq<BatchOp>, rows: Seq<Json>, w: DbV)
    requires
        batch_ran(v, ops, Ok(rows), w),
    ensures
        rows.len() == ops.len(),
        exists|ns: Seq<NodeV>, mid: DbV|
            {
                &&& #[trigger] batch_made(v, ops, ns, mid)
                &&& (forall|i: int| 0 <= i < ops.len() ==> !asks_delete(#[trigger] ops[i])) ==> w
                    == mid
                &&& rows_say(ops, ns, rows)
            },
{
    let (ps, ts, nodes, states, rs) = choose|
        ps: Seq<PutOp>,
        ts: Num,
        nodes: Vec<Node>,
        states: Seq<DbV>,
        rs: Seq<Result<bool, StoreError>>,
    |
        {
            &&& #[trigger] puts_ran(v, ops, ps, ts, Ok(nodes), states[0])
            &&& #[trigger] all_deleted(states, deletions(ops), rs)
            &&& w == states.last()
            &&& rows == result_rows(ops, nodes_view(nodes@), rs)
        };
    let ns = nodes_view(nodes@);
    let mid = states[0];
    lemma_puts_made(v, ops, ps, ts, nodes, mid);
    if forall|i: int| 0 <= i < ops.len() ==> !asks_delete(#[trigger] ops[i]) {
        lemma_no_deletions(ops);
        assert(states.len() == 1);
    }
    assert forall|i: int| 0 <= i < ops.len() && asks_put(#[trigger] ops[i]) implies says_put(
        rows[i],
        ns[puts_upto(ops, i)],
    ) by {
        lemma_kinds(ops[i]);
        lemma_puts_counted(ops, i);
        assert(rows[i] == result_row(ops, i, ns, rs));
        lemma_put_row(ns[puts_upto(ops, i)]);
    }
    assert(rows_say(ops, ns, rows));
}

proof fn lemma_no_deletions(ops: Seq<BatchOp>)
    requires
        forall|i: int| 0 <= i < ops.len() ==> !asks_delete(#[trigger] ops[i]),
    ensures
        deletions(ops).len() == 0,
    decreases ops.len(),
{
    if ops.len() > 0 {
        let head = ops.drop_last();
        assert forall|i: int| 0 <= i < head.len() implies !asks_delete(#[trigger] head[i]) by {
            assert(head[i] == ops[i]);
        }
        lemma_no_deletions(head);
        assert(!asks_delete(ops[ops.len() - 1]));
        lemma_kinds(ops.last());
    }
}

proof fn lemma_batch_nodes(v: DbV, ps: Seq<PutOp>, ts: Num, nodes: Vec<Node>, w: DbV, k: int)
    requires
        batch_outcome(v, ps, ts, Ok(nodes), w),
        0 <= k < ps.len(),
    ensures
        nodes@.len() == ps.len(),
        nodes@[k]@ == (NodeV { hash: nodes@[k]@.hash, ..batch_version(v, ps[k], k, ts) }),
        v.seq + ps.len() <= u64::MAX,
{
    let (ns, errors, os) = choose|ns: Seq<NodeV>, errors: Seq<Option<StoreError>>, os: Seq<ObjV>|
        #[trigger]
        batch_tried(v, ps, ts, ns, errors, os) && ns.len() == ps.len() && {
            let tried = DbV { objects: os.last(), seq: (v.seq + ps.len()) as u64, ..v };
            match first_error(errors) {
                None => nodes_view(nodes@) == ns && w == all_settled(tried, ns),
                Some(e) => false,
            }
        };
    assert(nodes_view(nodes@)[k] == ns[k]);
}

proof fn lemma_batch_settled(v: DbV, ps: Seq<PutOp>, ts: Num, nodes: Vec<Node>, w: DbV, k: int)
    requires
        batch_outcome(v, ps, ts, Ok(nodes), w),
        0 <= k < ps.len(),
    ensures
        last_of_document(nodes_view(nodes@), k) ==> hash_of(
            w.ids,
            nodes@[k]@.coll,
            nodes@[k]@.id,
        ) == Some(nodes@[k]@.hash),
        w.seq == v.seq + ps.len(),
{
    let (ns, errors, os) = choose|ns: Seq<NodeV>, errors: Seq<Option<StoreError>>, os: Seq<ObjV>|
        #[trigger]
        batch_tried(v, ps, ts, ns, errors, os) && ns.len() == ps.len() && {
            let tried = DbV { objects: os.last(), seq: (v.seq + ps.len()) as u64, ..v };
            match first_error(errors) {
                None => nodes_view(nodes@) == ns && w == all_settled(tried, ns),
                Some(e) => false,
            }
        };
    let tried = DbV { objects: os.last(), seq: (v.seq + ps.len()) as u64, ..v };
    assert(nodes_view(nodes@)[k] == ns[k]);
    lemma_settled_hash(tried, ns, ns[k].coll, ns[k].id);
    lemma_settled_seq(tried, ns);
}

proof fn lemma_settled_seq(v: DbV, ns: Seq<NodeV>)
    ensures
        all_settled(v, ns).seq == v.seq,
    decreases ns.len(),
{
    if ns.len() > 0 {
        lemma_settled_seq(v, ns.drop_last());
    }
}

/// Batches: after a batch, what one of its operations deleted, and the row of
/// the operation does not say that this failed, is not there.
pub proof fn lemma_batch_deleted(v: DbV, ops: Seq<BatchOp>, rows: Seq<Json>, w: DbV, i: int)
    requires
        batch_ran(v, ops, Ok(rows), w),
        0 <= i < ops.len(),
        asks_delete(ops[i]),
        json_get(rows[i], "error"@) is None,
    ensures
        hash_of(w.ids, said(ops[i].coll), said(ops[i].id)) is None,
        json_get(rows[i], "op"@) == Some(Json::Text("del"@)),
        json_get(rows[i], "id"@) == Some(Json::Text(said(ops[i].id))),
{
    let (ps, ts, nodes, states, rs) = choose|
        ps: Seq<PutOp>,
        ts: Num,
        nodes: Vec<Node>,
        states: Seq<DbV>,
        rs: Seq<Result<bool, StoreError>>,
    |
        {
            &&& #[trigger] puts_ran(v, ops, ps, ts, Ok(nodes), states[0])
            &&& #[trigger] all_deleted(states, deletions(ops), rs)
            &&& w == states.last()
            &&& rows == result_rows(ops, nodes_view(nodes@), rs)
        };
    let k = count_of(ops, OpKind::Delete, i);
    lemma_kinds(ops[i]);
    lemma_deletion_at(ops, ops.len() as int, i);
    assert(rows[i] == result_row(ops, i, nodes_view(nodes@), rs));
    lemma_delete_row(said(ops[i].id), rs[k]);
    lemma_stays_deleted(states, deletions(ops), rs, k, deletions(ops).len() as int);
}

proof fn lemma_deletion_at(ops: Seq<BatchOp>, n: int, i: int)
    requires
        0 <= i < n <= ops.len(),
        op_kind(ops[i]) == OpKind::Delete,
    ensures
        0 <= count_of(ops, OpKind::Delete, i) < deletions(ops.take(n)).len(),
        deletions(ops.take(n))[count_of(ops, OpKind::Delete, i)] == (
            said(ops[i].coll),
            said(ops[i].id),
        ),
        deletions(ops.take(ops.len() as int)) == deletions(ops),
    decreases n,
{
    assert(ops.take(ops.len() as int) =~= ops);
    assert(ops.take(n).drop_last() =~= ops.take(n - 1));
    assert(ops.take(n).last() == ops[n - 1]);
    if i < n - 1 {
        lemma_deletion_at(ops, n - 1, i);
    } else {
        lemma_deletions_counted(ops, i);
    }
}

proof fn lemma_deletions_counted(ops: Seq<BatchOp>, n: int)
    requires
        0 <= n <= ops.len(),
    ensures
        deletions(ops.take(n)).len() == count_of(ops, OpKind::Delete, n),
    decreases n,
{
    if n > 0 {
        assert(ops.take(n).drop_last() =~= ops.take(n - 1));
        assert(ops.take(n).last() == ops[n - 1]);
        lemma_deletions_counted(ops, n - 1);
    } else {
        assert(ops.take(0) =~= Seq::empty());
    }
}

proof fn lemma_stays_deleted(
    states: Seq<DbV>,
    docs: Seq<(Seq<char>, Seq<char>)>,
    rs: Seq<Result<bool, StoreError>>,
    k: int,
    n: int,
)
    requires
        all_deleted(states, docs, rs),
        0 <= k < n <= docs.len(),
        rs[k] is Ok,
    ensures
        hash_of(states[n].ids, docs[k].0, docs[k].1) is None,
    decreases n,
{
    if n == k + 1 {
        assert(deleted_to(states[k], docs[k], rs[k], states[k + 1]));
    } else {
        lemma_stays_deleted(states, docs, rs, k, n - 1);
        assert(deleted_to(states[n - 1], docs[n - 1], rs[n - 1], states[n]));
    }
}

/// The log: its rows are the latest versions that can be read, each of them with
/// its number, document, hash and time; none that was written later than one of
/// them is left out.
pub proof fn lemma_log_latest(db: DbV, limit: usize, i: int, n: NodeV)
    requires
        0 <= i < log_rows(db, limit).len(),
    ensures
        log_rows(db, limit).len() <= limit,
        exists|m: NodeV|
            {
                let row = log_rows(db, limit)[i];
                &&& #[trigger] versions(db.objects, all_keys(db.objects)).contains(m)
                &&& json_get(row, "seq"@) == Some(Json::Number(Num::Int(m.seq as int)))
                &&& json_get(row, "coll"@) == Some(Json::Text(m.coll))
                &&& json_get(row, "id"@) == Some(Json::Text(m.id))
                &&& json_get(row, "hash"@) == Some(Json::Text(m.hash))
                &&& json_get(row, "ts"@) == Some(Json::Number(m.ts))
                &&& versions(db.objects, all_keys(db.objects)).contains(n) && n.seq > m.seq
                    ==> exists|j: int| 0 <= j < i && #[trigger] log_rows(db, limit)[j] == log_row(n)
            },
{
    let ns = versions(db.objects, all_keys(db.objects));
    let keys = ns.map_values(|n: NodeV| n.seq);
    let places = sorted_places(keys, true, 0, ns.len() as int);
    let all = latest_first(ns);
    lemma_sorted_places(keys, true, 0, ns.len() as int);
    let rows = log_rows(db, limit);
    let m = all[i];
    assert(m == ns[places[i]]);
    assert(ns.contains(m));
    assert(rows[i] == log_row(m));
    reveal_strlit("seq");
    reveal_strlit("coll");
    reveal_strlit("id");
    reveal_strlit("hash");
    reveal_strlit("ts");
    reveal_strlit("op");
    let fs = seq![
        ("seq"@, Json::Number(Num::Int(m.seq as int))),
        ("coll"@, Json::Text(m.coll)),
        ("id"@, Json::Text(m.id)),
        ("hash"@, Json::Text(m.hash)),
        ("ts"@, Json::Number(m.ts)),
        ("op"@, Json::Text("put"@)),
    ];
    assert("coll"@[0] == 'c' && "hash"@[0] == 'h' && "id"@[0] == 'i' && "ts"@[0] == 't' && "op"@[0]
        == 'o' && "seq"@.len() == 3);
    assert(fs[0].0 == "seq"@ && fs[1].0 == "coll"@ && fs[2].0 == "id"@ && fs[3].0 == "hash"@
        && fs[4].0 == "ts"@);
    assert(names_differ(fs));
    lemma_object(fs);
    if ns.contains(n) && n.seq > m.seq {
        let k = choose|k: int| 0 <= k < ns.len() && ns[k] == n;
        lemma_covers_reaches(places, ns.len() as int, k);
        let j = choose|j: int| 0 <= j < places.len() && places[j] == k;
        assert(all[j] == n);
        if j > i {
            assert(crate::sort::in_order(keys, true, places[i], places[j]));
        }
        assert(j < i);
        assert(rows[j] == log_row(n));
    }
}

/// The texts of an array that holds nothing else, in their order.
pub open spec fn only_texts(items: Seq<Json>, texts: Seq<Seq<char>>) -> bool {
    items.len() == texts.len() && forall|i: int|
        0 <= i < items.len() ==> #[trigger] items[i] == Json::Text(texts[i])
}

proof fn lemma_only_texts(items: Seq<Json>, texts: Seq<Seq<char>>)
    requires
        only_texts(items, texts),
    ensures
        texts_among(items) == texts,
    decreases items.len(),
{
    if items.len() > 0 {
        let head = items.drop_last();
        assert forall|i: int| 0 <= i < head.len() implies #[trigger] head[i] == Json::Text(
            texts.drop_last()[i],
        ) by {
            assert(head[i] == items[i]);
        }
        lemma_only_texts(head, texts.drop_last());
        assert(items[items.len() - 1] == Json::Text(texts.last()));
        assert(texts =~= texts.drop_last().push(texts.last()));
    } else {
        assert(texts_among(items) =~= texts);
    }
}

/// Writing through the bindings: the document that a text spells is what is read
/// afterwards, with the causes and the validity that the document names. A text
/// that is not JSON changes nothing.
pub proof fn lemma_core_put(
    v: DbV,
    coll: Seq<char>,
    id: Seq<char>,
    text: Seq<char>,
    ts: Num,
    outcome: Result<Node, StoreError>,
    r: Result<String, CoreError>,
    w: DbV,
    causes: Seq<Seq<char>>,
)
    requires
        core_put(v, coll, id, text, ts, outcome, r, w),
    ensures
        json_parse(encode_utf8(text)) is None ==> r is Err && w == v,
        json_parse(encode_utf8(text)) matches Some(doc) ==> {
            &&& outcome is Err ==> r is Err
            &&& outcome matches Ok(node) ==> {
                &&& r matches Ok(t) && t@ == json_chars(core_row(node@))
                &&& reads_back(v, node@) && (match json_get(doc, "caused_by"@) {
                    Some(Json::Array(items)) => only_texts(items, causes),
                    _ => causes.len() == 0,
                }) ==> written_as(
                    w,
                    node@.hash,
                    coll,
                    id,
                    doc,
                    causes,
                    match json_get(doc, "valid_from"@) {
                        Some(Json::Text(t)) => Some(t),
                        _ => None,
                    },
                    match json_get(doc, "valid_to"@) {
                        Some(Json::Text(t)) => Some(t),
                        _ => None,
                    },
                )
            }
        },
{
    if let Some(doc) = json_parse(encode_utf8(text)) {
        if let Ok(node) = outcome {
            match json_get(doc, "caused_by"@) {
                Some(Json::Array(items)) => {
                    if only_texts(items, causes) {
                        lemma_only_texts(items, causes);
                    }
                },
                _ => {
                    if causes.len() == 0 {
                        assert(doc_causes(doc) =~= causes);
                    }
                },
            }
            if reads_back(v, node@) {
                let n = core_version(v, coll, id, doc, ts);
                lemma_put_asked(
                    v,
                    coll,
                    id,
                    doc,
                    doc_causes(doc),
                    n.valid_from,
                    n.valid_to,
                    ts,
                    node,
                    w,
                );
            }
        }
    }
}

/// What the bindings say of a version: the fields of its document, and its id,
/// hash, number and collection.
pub proof fn lemma_core_row(n: NodeV, key: Seq<char>)
    requires
        keys_ascend(doc_fields(n.data)),
    ensures
        json_get(core_row(n), "_id"@) == Some(Json::Text(n.id)),
        json_get(core_row(n), "_hash"@) == Some(Json::Text(n.hash)),
        json_get(core_row(n), "_seq"@) == Some(Json::Number(Num::Int(n.seq as int))),
        json_get(core_row(n), "_coll"@) == Some(Json::Text(n.coll)),
        key != "_id"@ && key != "_hash"@ && key != "_seq"@ && key != "_coll"@ ==> json_get(
            core_row(n),
            key,
        ) == json_get(n.data, key),
{
    lemma_reply_names();
    let z = doc_fields(n.data);
    lemma_field_set(z, "_id"@, Json::Text(n.id));
    let a = field_set(z, "_id"@, Json::Text(n.id));
    lemma_field_set(a, "_hash"@, Json::Text(n.hash));
    let b = field_set(a, "_hash"@, Json::Text(n.hash));
    lemma_field_set(b, "_seq"@, Json::Number(Num::Int(n.seq as int)));
    let c = field_set(b, "_seq"@, Json::Number(Num::Int(n.seq as int)));
    lemma_field_set(c, "_coll"@, Json::Text(n.coll));
    assert(json_get(n.data, key) == field_of(z, key));
}

} // verus!
