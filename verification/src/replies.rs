//! What the answers of a server say of its databases.

use vstd::prelude::*;
use vstd::utf8::encode_utf8;
use crate::batch::{batch_ran, BatchOp};
use crate::crypto::Dek;
use crate::guarantees::lemma_verify_finds;
use crate::json::{json_get, object_of, Json, Num};
use crate::requests::{lemma_object, names_differ};
use crate::server::{
    batch_answered, batch_replied, create_answered, created_reply, databases_listed, db_created,
    drop_answered,
    health_reply, index_kind, index_reply, node_response, refusal, standing, summaries, summed_up,
    summary, unsubscribe_answered, verify_reply, ManagerV, ReplyV, Step,
};
use crate::db::{open_outcome, DbFiles, DbV};
use crate::node::{lemma_by_key, NodeV};
use crate::text::{decimal, lemma_decimal};
use crate::store::{all_keys, read_result, unreadable, StoreError};

verus! {

proof fn lemma_field_names()
    ensures
        "ok"@.len() == 2,
        "seq"@.len() == 3,
        "head"@.len() == 4 && "head"@[0] == 'h',
        "name"@.len() == 4 && "name"@[0] == 'n',
        "coll"@.len() == 4 && "coll"@[0] == 'c',
        "kind"@.len() == 4 && "kind"@[0] == 'k',
        "data"@.len() == 4 && "data"@[0] == 'd',
        "_seq"@.len() == 4 && "_seq"@[0] == '_',
        "count"@.len() == 5 && "count"@[0] == 'c',
        "field"@.len() == 5 && "field"@[0] == 'f',
        "_hash"@.len() == 5 && "_hash"@[1] == 'h' && "_hash"@[0] == '_',
        "_coll"@.len() == 5 && "_coll"@[1] == 'c' && "_coll"@[0] == '_',
        "_id"@.len() == 3 && "_id"@[0] == '_',
        "results"@.len() == 7,
        "tampered"@.len() == 8,
        "collections"@.len() == 11,
        "tamper_evident"@.len() == 14,
        "objects_checked"@.len() == 15,
{
    reveal_strlit("ok");
    reveal_strlit("seq");
    reveal_strlit("head");
    reveal_strlit("name");
    reveal_strlit("coll");
    reveal_strlit("kind");
    reveal_strlit("data");
    reveal_strlit("_seq");
    reveal_strlit("count");
    reveal_strlit("field");
    reveal_strlit("_hash");
    reveal_strlit("_coll");
    reveal_strlit("_id");
    reveal_strlit("results");
    reveal_strlit("tampered");
    reveal_strlit("collections");
    reveal_strlit("tamper_evident");
    reveal_strlit("objects_checked");
}

/// Batches through a server: a request without the token that is asked for is
/// answered with 401, and one on a database that starts up with 503; neither
/// changes anything. A batch on a database that is ready is run on it, and the
/// answer has one result for each that the batch gave, in their order, how many
/// they are, and how the database stands afterwards. No other database changes.
pub proof fn lemma_batch_request(
    v: ManagerV,
    auth: Option<Seq<char>>,
    name: Seq<char>,
    ops: Seq<BatchOp>,
    r: Step,
    w: ManagerV,
)
    requires
        batch_answered(v, auth, name, ops, r, w),
    ensures
        v.token matches Some(t) && auth != Some("Bearer "@ + v.token->0) ==> (r matches Step::Done(
            x,
        ) && x@.status == 401) && w == v,
        (v.token is None || auth == Some("Bearer "@ + v.token->0)) && !v.dbs.contains_key(name) ==> r
            is Open && w == v,
        (v.token is None || auth == Some("Bearer "@ + v.token->0)) && v.dbs.contains_key(name)
            && !v.dbs[name].ready ==> (r matches Step::Done(x) && x@.status == 503) && w == v,
        (v.token is None || auth == Some("Bearer "@ + v.token->0)) && v.dbs.contains_key(name)
            && v.dbs[name].ready ==> (r matches Step::Done(x) && (x@.status == 200 || x@.status
            == 500)),
        r matches Step::Done(x) ==> x@.status == 500 ==> exists|e: StoreError| #[trigger]
            batch_ran(v.dbs[name], ops, Err(e), w.dbs[name]),
        r matches Step::Done(x) ==> x@.status == 200 ==> (json_get(x@.body, "results"@) matches Some(
            Json::Array(rows),
        ) && batch_ran(v.dbs[name], ops, Ok(rows), w.dbs[name]) && json_get(x@.body, "count"@)
            == Some(Json::Number(Num::Int(rows.len() as int))) && json_get(x@.body, "seq"@) == Some(
            Json::Number(Num::Int(w.dbs[name].seq as int)),
        ) && json_get(x@.body, "head"@) == Some(Json::Text(w.dbs[name].head))),
        forall|other: Seq<char>|
            other != name ==> #[trigger] w.dbs.contains_key(other) == v.dbs.contains_key(other)
                && w.dbs[other] == v.dbs[other],
{
    if let Step::Done(x) = r {
        if x@.status == 200 || x@.status == 500 {
            let outcome = choose|outcome: Result<Seq<Json>, StoreError>| #[trigger]
                batch_replied(v, name, ops, outcome, x@, w);
            if let Ok(rows) = outcome {
                lemma_field_names();
                let outer = seq![
                    ("results"@, Json::Array(rows)),
                    ("count"@, Json::Number(Num::Int(rows.len() as int))),
                ] + standing(w.dbs[name]);
                assert(outer.len() == 4);
                assert(outer[0].0 == "results"@ && outer[1].0 == "count"@ && outer[2].0 == "seq"@
                    && outer[3].0 == "head"@);
                assert(names_differ(outer));
                lemma_object(outer);
            }
        }
    }
}

/// A request on a database is turned down with 401 where a token is asked for
/// and the request does not bear it, with 404 where there is no such database,
/// and otherwise not at all.
pub proof fn lemma_refusal(v: ManagerV, auth: Option<Seq<char>>, name: Seq<char>)
    ensures
        refusal(v, auth, name) is None <==> (v.token is None || auth == Some(
            "Bearer "@ + v.token->0,
        )) && v.dbs.contains_key(name),
        v.token is Some && auth != Some("Bearer "@ + v.token->0) ==> (refusal(v, auth, name) matches
            Some(x) && x.status == 401),
        refusal(v, auth, name) matches Some(x) ==> x.status == 401 || x.status == 404,
        refusal(v, auth, name) matches Some(x) ==> x.status == 404 ==> !v.dbs.contains_key(name),
{
}

/// A check of a database: the objects that cannot be read are named, each that
/// cannot be read and none that can; all is well where there are none of them;
/// and those that were checked and are good are counted.
pub proof fn lemma_verify_request(db: DbV)
    ensures
        verify_reply(db).status == 200,
        json_get(verify_reply(db).body, "tampered"@) matches Some(Json::Array(bad)) && (forall|
            hash: Seq<char>,
        | #[trigger]
            bad.contains(Json::Text(hash)) <==> all_keys(db.objects).contains(hash) && read_result(
                db.objects,
                hash,
            ) is Err) && json_get(verify_reply(db).body, "objects_checked"@) == Some(
            Json::Number(Num::Int(all_keys(db.objects).len() - bad.len())),
        ),
        json_get(verify_reply(db).body, "ok"@) == Some(
            Json::Bool(
                forall|hash: Seq<char>| #[trigger]
                    all_keys(db.objects).contains(hash) ==> read_result(db.objects, hash) is Ok,
            ),
        ),
        json_get(verify_reply(db).body, "seq"@) == Some(Json::Number(Num::Int(db.seq as int))),
        json_get(verify_reply(db).body, "head"@) == Some(Json::Text(db.head)),
{
    let keys = all_keys(db.objects);
    let bad = unreadable(db.objects, keys);
    let texts = bad.map_values(|s: Seq<char>| Json::Text(s));
    assert forall|hash: Seq<char>| #[trigger]
        texts.contains(Json::Text(hash)) <==> keys.contains(hash) && read_result(
            db.objects,
            hash,
        ) is Err by {
        lemma_verify_finds(db.objects, keys, hash);
        if texts.contains(Json::Text(hash)) {
            let i = choose|i: int| 0 <= i < texts.len() && texts[i] == Json::Text(hash);
            assert(bad[i] == hash);
        }
        if bad.contains(hash) {
            let i = choose|i: int| 0 <= i < bad.len() && bad[i] == hash;
            assert(texts[i] == Json::Text(hash));
        }
    }
    if bad.len() > 0 {
        lemma_verify_finds(db.objects, keys, bad[0]);
        assert(bad.contains(bad[0]));
    }
    assert forall|hash: Seq<char>| bad.len() == 0 && #[trigger] keys.contains(
        hash,
    ) implies read_result(db.objects, hash) is Ok by {
        lemma_verify_finds(db.objects, keys, hash);
    }
    lemma_field_names();
    let outer = seq![
        ("ok"@, Json::Bool(bad.len() == 0)),
        ("seq"@, Json::Number(Num::Int(db.seq as int))),
        ("head"@, Json::Text(db.head)),
        ("tamper_evident"@, Json::Bool(true)),
        ("objects_checked"@, Json::Number(Num::Int(keys.len() - bad.len()))),
        ("tampered"@, Json::Array(texts)),
    ];
    assert(names_differ(outer));
    lemma_object(outer);
    assert(outer[0].0 == "ok"@ && outer[1].0 == "seq"@ && outer[2].0 == "head"@ && outer[4].0
        == "objects_checked"@ && outer[5].0 == "tampered"@);
}

/// The summary of a database has its name, the number of its last write, its
/// head and its collections.
pub proof fn lemma_summary(name: Seq<char>, db: DbV, colls: Seq<Seq<char>>)
    ensures
        json_get(object_of(summary(name, db, colls)), "name"@) == Some(Json::Text(name)),
        json_get(object_of(summary(name, db, colls)), "seq"@) == Some(
            Json::Number(Num::Int(db.seq as int)),
        ),
        json_get(object_of(summary(name, db, colls)), "head"@) == Some(Json::Text(db.head)),
        json_get(object_of(summary(name, db, colls)), "collections"@) == Some(
            Json::Array(colls.map_values(|s: Seq<char>| Json::Text(s))),
        ),
{
    let fields = summary(name, db, colls);
    lemma_field_names();
    assert(fields[0].0 == "name"@ && fields[1].0 == "seq"@ && fields[2].0 == "head"@ && fields[3].0
        == "collections"@);
    assert(names_differ(fields));
    lemma_object(fields);
}

/// What is said of a version that was written is its own: its id, its hash, its
/// number, its collection and its data.
pub proof fn lemma_version_told(n: NodeV)
    ensures
        json_get(node_response(n), "_id"@) == Some(Json::Text(n.id)),
        json_get(node_response(n), "_hash"@) == Some(Json::Text(n.hash)),
        json_get(node_response(n), "_seq"@) == Some(Json::Number(Num::Int(n.seq as int))),
        json_get(node_response(n), "_coll"@) == Some(Json::Text(n.coll)),
        json_get(node_response(n), "data"@) == Some(n.data),
{
    let fields = seq![
        ("_id"@, Json::Text(n.id)),
        ("_hash"@, Json::Text(n.hash)),
        ("_seq"@, Json::Number(Num::Int(n.seq as int))),
        ("_coll"@, Json::Text(n.coll)),
        ("data"@, n.data),
    ];
    lemma_field_names();
    assert(names_differ(fields));
    lemma_object(fields);
    assert(fields[0].0 == "_id"@ && fields[1].0 == "_hash"@ && fields[2].0 == "_seq"@ && fields[3].0
        == "_coll"@ && fields[4].0 == "data"@);
}

/// The answer that an index was made names the collection, the field and the
/// kind, which is that of equality where none is asked for.
pub proof fn lemma_index_told(coll: Seq<char>, field: Seq<char>, kind: Option<Seq<char>>)
    ensures
        index_reply(coll, field, index_kind(kind)).status == 200,
        json_get(index_reply(coll, field, index_kind(kind)).body, "coll"@) == Some(
            Json::Text(coll),
        ),
        json_get(index_reply(coll, field, index_kind(kind)).body, "field"@) == Some(
            Json::Text(field),
        ),
        kind matches Some(k) ==> json_get(
            index_reply(coll, field, index_kind(kind)).body,
            "kind"@,
        ) == Some(Json::Text(k)),
        kind is None ==> json_get(index_reply(coll, field, index_kind(kind)).body, "kind"@) == Some(
            Json::Text("eq"@),
        ),
{
    let fields = seq![
        ("ok"@, Json::Bool(true)),
        ("coll"@, Json::Text(coll)),
        ("field"@, Json::Text(field)),
        ("kind"@, Json::Text(index_kind(kind))),
    ];
    lemma_field_names();
    assert(names_differ(fields));
    lemma_object(fields);
    assert(fields[1].0 == "coll"@ && fields[2].0 == "field"@ && fields[3].0 == "kind"@);
}

/// How a server is said to be: with the names of all its databases, and whether
/// they are encrypted, which they are where there is a master key.
pub proof fn lemma_health(v: ManagerV, version: Seq<char>)
    ensures
        health_reply(v, version).status == 200,
        json_get(health_reply(v, version).body, "version"@) == Some(Json::Text(version)),
        json_get(health_reply(v, version).body, "encrypted"@) == Some(Json::Bool(v.tmk is Some)),
        json_get(health_reply(v, version).body, "databases"@) == Some(
            Json::Array(v.names.map_values(|s: Seq<char>| Json::Text(s))),
        ),
{
    let fields = seq![
        ("ok"@, Json::Bool(true)),
        ("service"@, Json::Text("nedbd"@)),
        ("version"@, Json::Text(version)),
        ("engine"@, Json::Text("dag"@)),
        ("databases"@, Json::Array(v.names.map_values(|s: Seq<char>| Json::Text(s)))),
        ("encrypted"@, Json::Bool(v.tmk is Some)),
        ("startup_ready"@, Json::Bool(true)),
    ];
    reveal_strlit("ok");
    reveal_strlit("service");
    reveal_strlit("version");
    reveal_strlit("engine");
    reveal_strlit("databases");
    reveal_strlit("encrypted");
    reveal_strlit("startup_ready");
    assert("service"@[0] == 's' && "version"@[0] == 'v' && "databases"@[0] == 'd' && "encrypted"@[0]
        == 'e');
    assert("ok"@.len() == 2 && "service"@.len() == 7 && "version"@.len() == 7 && "engine"@.len() == 6
        && "databases"@.len() == 9 && "encrypted"@.len() == 9 && "startup_ready"@.len() == 13);
    assert(fields[0].0 == "ok"@ && fields[1].0 == "service"@ && fields[2].0 == "version"@
        && fields[3].0 == "engine"@ && fields[4].0 == "databases"@ && fields[5].0 == "encrypted"@
        && fields[6].0 == "startup_ready"@);
    assert(names_differ(fields));
    lemma_object(fields);
}

/// All databases summed up: one summary for each name, in their order, for one
/// who may ask; anyone else gets none.
pub proof fn lemma_databases(v: ManagerV, auth: Option<Seq<char>>, r: ReplyV)
    requires
        databases_listed(v, auth, r),
    ensures
        v.token is Some && auth != Some("Bearer "@ + v.token->0) ==> r.status == 401 && json_get(
            r.body,
            "databases"@,
        ) is None,
        v.token is None || auth == Some("Bearer "@ + v.token->0) ==> r.status == 200 && (json_get(
            r.body,
            "databases"@,
        ) matches Some(Json::Array(rows)) && rows.len() == v.names.len() && forall|i: int|
            0 <= i < rows.len() ==> summed_up(v.dbs[v.names[i]], v.names[i], #[trigger] rows[i])),
{
    reveal_strlit("databases");
    reveal_strlit("error");
    if v.token is None || auth == Some("Bearer "@ + v.token->0) {
        let rows = choose|rows: Seq<Json>| #[trigger]
            summaries(v, v.names, rows) && r == crate::server::reply_of(
                200,
                seq![("databases"@, Json::Array(rows))],
            );
        let fields = seq![("databases"@, Json::Array(rows))];
        lemma_object(fields);
        assert(fields[0].0 == "databases"@);
    } else {
        let fields = seq![("error"@, Json::Text("unauthorized"@))];
        lemma_by_key(fields);
        assert(fields[0].0 == "error"@);
        assert("error"@.len() != "databases"@.len());
    }
}

/// Making a database: it needs a name and, where one is asked for, the token.
/// The answer that it was made has its name and how it stands.
pub proof fn lemma_creation(v: ManagerV, auth: Option<Seq<char>>, name: Seq<char>, r: Step)
    requires
        create_answered(v, auth, name, r),
    ensures
        v.token is Some && auth != Some("Bearer "@ + v.token->0) ==> (r matches Step::Done(x)
            && x@.status == 401),
        (v.token is None || auth == Some("Bearer "@ + v.token->0)) && name.len() == 0 ==> (r matches
            Step::Done(x) && x@.status == 400),
        (v.token is None || auth == Some("Bearer "@ + v.token->0)) && name.len() > 0 ==> r is Open,
        !v.dbs.contains_key(name) ==> created_reply(v, name).status == 404,
        v.dbs.contains_key(name) ==> created_reply(v, name).status == 201 && (json_get(
            created_reply(v, name).body,
            "database"@,
        ) matches Some(d) && json_get(d, "name"@) == Some(Json::Text(name)) && json_get(d, "seq"@)
            == Some(Json::Number(Num::Int(v.dbs[name].seq as int))) && json_get(d, "head"@) == Some(
            Json::Text(v.dbs[name].head),
        )),
{
    if v.dbs.contains_key(name) {
        lemma_field_names();
        let inner = seq![("name"@, Json::Text(name))] + standing(v.dbs[name]);
        assert(inner.len() == 3);
        assert(inner[0].0 == "name"@ && inner[1].0 == "seq"@ && inner[2].0 == "head"@);
        assert(names_differ(inner));
        lemma_object(inner);
        let outer = seq![("database"@, object_of(inner))];
        lemma_object(outer);
        assert(outer[0].0 == "database"@);
    }
}

/// Dropping a database: afterwards it is not there, and every other one is as it
/// was. The answer says whether there was one. Without the token that is asked
/// for, nothing is dropped.
pub proof fn lemma_dropping(
    v: ManagerV,
    auth: Option<Seq<char>>,
    name: Seq<char>,
    r: ReplyV,
    there: bool,
    w: ManagerV,
)
    requires
        drop_answered(v, auth, name, r, there, w),
    ensures
        v.token is Some && auth != Some("Bearer "@ + v.token->0) ==> r.status == 401 && !there && w
            == v,
        v.token is None || auth == Some("Bearer "@ + v.token->0) ==> r.status == 200
            && !w.dbs.contains_key(name) && there == v.dbs.contains_key(name) && json_get(
            r.body,
            "dropped"@,
        ) == Some(Json::Bool(there)),
        forall|other: Seq<char>|
            other != name ==> #[trigger] w.dbs.contains_key(other) == v.dbs.contains_key(other)
                && (v.dbs.contains_key(other) ==> w.dbs[other] == v.dbs[other]),
        w.token == v.token && w.tmk == v.tmk && w.subs == v.subs,
{
    let fields = seq![("dropped"@, Json::Bool(there))];
    lemma_object(fields);
    assert(fields[0].0 == "dropped"@);
}

/// Ending a live query: afterwards no one listens to it, and everyone who
/// listened to another one still does. A query of another database is not ended
/// by it, and nothing is without the token that is asked for.
pub proof fn lemma_unsubscribing(
    v: ManagerV,
    auth: Option<Seq<char>>,
    name: Seq<char>,
    id: u64,
    other: u64,
    r: ReplyV,
    w: ManagerV,
)
    requires
        unsubscribe_answered(v, auth, name, id, r, w),
    ensures
        v.token is Some && auth != Some("Bearer "@ + v.token->0) ==> r.status == 401 && w == v,
        v.token is None || auth == Some("Bearer "@ + v.token->0) ==> r.status == 200 && json_get(
            r.body,
            "sub_id"@,
        ) == Some(Json::Number(Num::Int(id as int))),
        v.token is None || auth == Some("Bearer "@ + v.token->0) ==> v.subs.contains_key(
            decimal(id as nat),
        ) && v.subs[decimal(id as nat)].db == name ==> !w.subs.contains_key(decimal(id as nat)),
        v.subs.contains_key(decimal(id as nat)) && v.subs[decimal(id as nat)].db != name ==> w == v,
        other != id ==> w.subs.contains_key(decimal(other as nat)) == v.subs.contains_key(
            decimal(other as nat),
        ) && (v.subs.contains_key(decimal(other as nat)) ==> w.subs[decimal(other as nat)]
            == v.subs[decimal(other as nat)]),
        w.dbs == v.dbs && w.token == v.token && w.next_sub == v.next_sub,
{
    let fields = seq![("ok"@, Json::Bool(true)), ("sub_id"@, Json::Number(Num::Int(id as int)))];
    reveal_strlit("ok");
    reveal_strlit("sub_id");
    assert("ok"@.len() != "sub_id"@.len());
    assert(names_differ(fields));
    lemma_object(fields);
    assert(fields[1].0 == "sub_id"@);
    lemma_decimal(id as nat);
    lemma_decimal(other as nat);
}

/// Opening a database: it is then there under its name, as its files have it;
/// with a master key, under the digest of that key and the name, and without
/// one under no key. Every other database is as it was, and where it cannot be
/// opened all of them are.
pub proof fn lemma_opened_under(
    v: ManagerV,
    name: Seq<char>,
    files: DbFiles,
    dek: Option<Dek>,
    r: Result<(), StoreError>,
    w: ManagerV,
    other: Seq<char>,
)
    requires
        db_created(v, name, files, dek, r, w),
    ensures
        v.tmk is None ==> dek is None,
        v.tmk matches Some(k) ==> (dek matches Some(d) && d.0@ == crate::digest::sha_256(
            k + encode_utf8(name),
        )),
        r is Ok ==> w.dbs.contains_key(name) && open_outcome(files, dek, Ok(w.dbs[name]))
            && w.names.contains(name),
        r is Err ==> w == v,
        other != name ==> w.dbs.contains_key(other) == v.dbs.contains_key(other) && w.dbs[other]
            == v.dbs[other],
        v.names.contains(other) ==> w.names.contains(other),
        w.token == v.token && w.tmk == v.tmk && w.subs == v.subs,
{
    if r is Ok {
        if !v.names.contains(name) {
            assert(w.names[v.names.len() as int] == name);
        }
        if v.names.contains(other) {
            let i = choose|i: int| 0 <= i < v.names.len() && v.names[i] == other;
            assert(w.names[i] == other);
        }
    }
}

} // verus!
