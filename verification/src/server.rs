//! The server: databases by name, what is answered to a request on them, and
//! queries that are run again after every write.

use vstd::prelude::*;
#[allow(unused_imports)]
use vstd::string::StringExecFns;
use vstd::utf8::encode_utf8;
use crate::batch::{batch_ran, docs_wf, rows_outcome, run_batch, BatchOp};
use crate::db::{
    backfilled, delete_outcome, empty_db, float_time, latest_first, manifest_read, new_version,
    nodes_view, nodes_wf, open_outcome, put_outcome, scan_applied, scan_saved, scan_saves, scanned, versions, Db, DbFiles,
    DbV,
};
use crate::index::{change_for, ids_in, lists_collections, opt_text, IdChange, IdV};
use crate::json::{
    fields_view, json_chars, object, object_of, to_text, Json, JsonValue, Num, Number,
};
use crate::keyed::{with_key, without_key, Keyed};
use crate::node::{clone_text, clone_texts, strings, texts_json, texts_value, Node, NodeV};
use crate::nql::{answer_of, query, values_view, values_wf, Answer, AnswerV, NqlError};
use crate::parser::parsed;
use crate::segment::SegmentFile;
use crate::sorted::first;
use crate::store::{
    all_keys, dek_view, held_objects, unreadable, Dek, LooseFile, StoreError,
};
use crate::text::{decimal, decimal_text, same_text, trim, trimmed};

verus! {

/// The answer to a request: a status, and a body.
#[derive(Debug)]
pub struct Reply {
    pub status: u16,
    pub body: JsonValue,
}

/// What an answer is.
pub struct ReplyV {
    pub status: u16,
    pub body: Json,
}

impl View for Reply {
    type V = ReplyV;

    open spec fn view(&self) -> ReplyV {
        ReplyV { status: self.status, body: self.body@ }
    }
}

impl Reply {
    pub open spec fn wf(&self) -> bool {
        self.body.wf()
    }
}

/// An answer with an object for a body.
pub open spec fn reply_of(status: u16, fields: Seq<(Seq<char>, Json)>) -> ReplyV {
    ReplyV { status, body: object_of(fields) }
}

/// The answer that a request went wrong.
pub open spec fn error_reply(status: u16, message: Seq<char>) -> ReplyV {
    reply_of(status, seq![("error"@, Json::Text(message))])
}

/// A whole number that is not negative.
pub open spec fn int_json(n: int) -> Json {
    Json::Number(Num::Int(n))
}

fn reply(status: u16, fields: Vec<(String, JsonValue)>) -> (r: Reply)
    requires
        forall|i: int| 0 <= i < fields@.len() ==> (#[trigger] fields@[i]).1.wf(),
    ensures
        r.wf(),
        r@ == reply_of(status, fields_view(fields@)),
{
    Reply { status, body: object(fields) }
}

/// The answer that a request went wrong.
pub fn err(status: u16, message: &str) -> (r: Reply)
    ensures
        r.wf(),
        r@ == error_reply(status, message@),
{
    let fields = vec![("error".to_owned(), JsonValue::Text(message.to_owned()))];
    assert(fields_view(fields@) =~= seq![("error"@, Json::Text(message@))]);
    reply(status, fields)
}

/// A query that is run again after every write to a database.
pub struct Sub {
    id: u64,
    db: String,
    nql: String,
    /// The rows that were sent last, as text.
    last: Option<Vec<String>>,
}

/// What such a query is.
#[verifier::ext_equal]
pub struct SubV {
    pub id: u64,
    pub db: Seq<char>,
    pub nql: Seq<char>,
    pub last: Option<Seq<Seq<char>>>,
}

impl View for Sub {
    type V = SubV;

    closed spec fn view(&self) -> SubV {
        SubV {
            id: self.id,
            db: self.db@,
            nql: self.nql@,
            last: match self.last {
                Some(ts) => Some(strings(ts@)),
                None => None,
            },
        }
    }
}

/// The databases that a server has open.
pub struct Manager {
    dbs: Keyed<Db>,
    token: Option<String>,
    tmk: Option<[u8; 32]>,
    subs: Keyed<Sub>,
    sub_ctr: u64,
}

/// What the databases of a server are.
#[verifier::ext_equal]
pub struct ManagerV {
    pub dbs: Map<Seq<char>, DbV>,
    /// The names of the databases, in table order.
    pub names: Seq<Seq<char>>,
    /// What requests have to name, where they do.
    pub token: Option<Seq<char>>,
    /// The master key, where databases are encrypted.
    pub tmk: Option<Seq<u8>>,
    /// The queries to run again, by their number in decimal.
    pub subs: Map<Seq<char>, SubV>,
    pub sub_keys: Seq<Seq<char>>,
    /// The number of the next such query.
    pub next_sub: u64,
}

impl View for Manager {
    type V = ManagerV;

    closed spec fn view(&self) -> ManagerV {
        ManagerV {
            dbs: self.dbs@.map_values(|d: Db| d@),
            names: self.dbs.keys(),
            token: match self.token {
                Some(t) => Some(t@),
                None => None,
            },
            tmk: match self.tmk {
                Some(k) => Some(k@),
                None => None,
            },
            subs: self.subs@.map_values(|s: Sub| s@),
            sub_keys: self.subs.keys(),
            next_sub: self.sub_ctr,
        }
    }
}

/// Whether a request may proceed: where a token is asked for, the request has
/// to bear it.
pub open spec fn authorized(v: ManagerV, auth: Option<Seq<char>>) -> bool {
    match v.token {
        None => true,
        Some(token) => auth == Some("Bearer "@ + token),
    }
}

/// The answer to a request that may not proceed.
pub open spec fn unauthorized() -> ReplyV {
    error_reply(401, "unauthorized"@)
}

/// The answer where there is no such database.
pub open spec fn no_database(name: Seq<char>) -> ReplyV {
    error_reply(404, "database not found: "@ + name)
}

/// Why a request on a database is turned down, if it is.
pub open spec fn refusal(v: ManagerV, auth: Option<Seq<char>>, name: Seq<char>) -> Option<ReplyV> {
    if !authorized(v, auth) {
        Some(unauthorized())
    } else if !v.dbs.contains_key(name) {
        Some(no_database(name))
    } else {
        None
    }
}

/// The key of a database: made of the master key and the name.
pub open spec fn key_for(tmk: Option<Seq<u8>>, name: Seq<char>) -> Option<Seq<u8>> {
    match tmk {
        Some(k) => Some(crate::digest::sha_256(k + encode_utf8(name))),
        None => None,
    }
}

/// The fields that say how a database stands.
pub open spec fn standing(db: DbV) -> Seq<(Seq<char>, Json)> {
    seq![("seq"@, int_json(db.seq as int)), ("head"@, Json::Text(db.head))]
}

/// The fields that sum up a database, with its collections.
pub open spec fn summary(name: Seq<char>, db: DbV, colls: Seq<Seq<char>>) -> Seq<
    (Seq<char>, Json),
> {
    seq![
        ("name"@, Json::Text(name)),
        ("seq"@, int_json(db.seq as int)),
        ("head"@, Json::Text(db.head)),
        ("collections"@, texts_json(colls)),
    ]
}

/// Whether these are summaries of databases, one for each name.
pub open spec fn summaries(v: ManagerV, names: Seq<Seq<char>>, rows: Seq<Json>) -> bool {
    &&& rows.len() == names.len()
    &&& forall|i: int| 0 <= i < rows.len() ==> summed_up(v.dbs[names[i]], names[i], #[trigger] rows[i])
}

/// Whether this is the summary of a database.
pub open spec fn summed_up(db: DbV, name: Seq<char>, row: Json) -> bool {
    exists|colls: Seq<Seq<char>>| #[trigger]
        lists_collections(db.ids, colls) && row == object_of(summary(name, db, colls))
}

pub open spec fn opt_str(s: Option<&str>) -> Option<Seq<char>> {
    match s {
        Some(t) => Some(t@),
        None => None,
    }
}

/// The fields that say how a database stands.
fn standing_of(db: &Db) -> (r: Vec<(String, JsonValue)>)
    ensures
        fields_view(r@) == standing(db@),
        forall|i: int| 0 <= i < r@.len() ==> (#[trigger] r@[i]).1.wf(),
{
    let r = vec![
        ("seq".to_owned(), JsonValue::Number(Number::PosInt(db.seq()))),
        ("head".to_owned(), JsonValue::Text(db.head())),
    ];
    assert(fields_view(r@) =~= standing(db@));
    r
}

/// The summary of a database.
fn sum_up(name: &str, db: &Db) -> (r: JsonValue)
    requires
        db.wf(),
    ensures
        r.wf(),
        summed_up(db@, name@, r@),
{
    let colls = db.id_index().collections();
    let ghost cs = strings(colls@);
    let fields = vec![
        ("name".to_owned(), JsonValue::Text(name.to_owned())),
        ("seq".to_owned(), JsonValue::Number(Number::PosInt(db.seq()))),
        ("head".to_owned(), JsonValue::Text(db.head())),
        ("collections".to_owned(), texts_value(&colls)),
    ];
    assert(fields_view(fields@) =~= summary(name@, db@, cs));
    assert(lists_collections(db@.ids, cs));
    object(fields)
}

/// What opening a database under a name comes to.
pub open spec fn db_created(
    v: ManagerV,
    name: Seq<char>,
    files: DbFiles,
    dek: Option<Dek>,
    r: Result<(), StoreError>,
    w: ManagerV,
) -> bool {
    &&& dek_view(dek) == key_for(v.tmk, name)
    &&& match r {
        Ok(_) => exists|db: DbV| #[trigger]
            open_outcome(files, dek, Ok(db)) && w == with_db(v, name, db),
        Err(e) => open_outcome(files, dek, Err(e)) && w == v,
    }
}

/// The databases with one more, or with one replaced.
pub open spec fn with_db(v: ManagerV, name: Seq<char>, db: DbV) -> ManagerV {
    ManagerV { dbs: v.dbs.insert(name, db), names: with_key(v.names, name), ..v }
}

impl Manager {
    pub closed spec fn wf(&self) -> bool {
        &&& self.dbs.wf()
        &&& forall|k: Seq<char>| #[trigger] self.dbs@.contains_key(k) ==> self.dbs@[k].wf()
        &&& self.subs.wf()
        &&& forall|k: Seq<char>| #[trigger]
            self.subs@.contains_key(k) ==> decimal(self.subs@[k].id as nat) == k
    }

    /// A server with no database open.
    pub fn new(tmk: Option<[u8; 32]>, token: Option<String>) -> (r: Manager)
        ensures
            r.wf(),
            r@ == (ManagerV {
                dbs: Map::empty(),
                names: Seq::empty(),
                token: match token {
                    Some(t) => Some(t@),
                    None => None,
                },
                tmk: match tmk {
                    Some(k) => Some(k@),
                    None => None,
                },
                subs: Map::empty(),
                sub_keys: Seq::empty(),
                next_sub: 1,
            }),
    {
        let r = Manager { dbs: Keyed::new(), token, tmk, subs: Keyed::new(), sub_ctr: 1 };
        assert(r@.dbs =~= Map::<Seq<char>, DbV>::empty());
        assert(r@.subs =~= Map::<Seq<char>, SubV>::empty());
        r
    }

    /// Whether a request may proceed.
    pub fn check_auth(&self, auth: Option<&str>) -> (r: bool)
        ensures
            r == authorized(self@, opt_str(auth)),
    {
        match &self.token {
            None => true,
            Some(token) => {
                let mut required = "Bearer ".to_owned();
                required.append(token.as_str());
                match auth {
                    Some(s) => same_text(s, required.as_str()),
                    None => false,
                }
            },
        }
    }

    /// Why a request on a database is turned down, if it is.
    pub fn refuse(&self, auth: Option<&str>, name: &str) -> (r: Option<Reply>)
        requires
            self.wf(),
        ensures
            match r {
                Some(x) => x.wf() && refusal(self@, opt_str(auth), name@) == Some(x@),
                None => refusal(self@, opt_str(auth), name@) is None,
            },
    {
        if !self.check_auth(auth) {
            Some(err(401, "unauthorized"))
        } else if !self.dbs.contains(name) {
            let mut message = "database not found: ".to_owned();
            message.append(name);
            Some(err(404, message.as_str()))
        } else {
            None
        }
    }

    /// The database with a name.
    pub fn get_db(&self, name: &str) -> (r: Option<&Db>)
        requires
            self.wf(),
        ensures
            match r {
                Some(db) => db.wf() && self@.dbs.contains_key(name@) && self@.dbs[name@] == db@,
                None => !self@.dbs.contains_key(name@),
            },
    {
        self.dbs.get(name)
    }

    /// The names of the databases.
    pub fn names(&self) -> (r: Vec<String>)
        requires
            self.wf(),
        ensures
            strings(r@) == self@.names,
    {
        let mut out: Vec<String> = Vec::new();
        let mut i: usize = 0;
        while i < self.dbs.len()
            invariant
                i <= self.dbs.keys().len(),
                strings(out@) == self.dbs.keys().take(i as int),
            decreases self.dbs.keys().len() - i,
        {
            let ghost was = strings(out@);
            out.push(self.dbs.key_at(i).clone());
            assert(strings(out@) =~= was.push(self.dbs.keys()[i as int]));
            assert(self.dbs.keys().take(i + 1) =~= was.push(self.dbs.keys()[i as int]));
            i = i + 1;
        }
        assert(self.dbs.keys().take(i as int) =~= self.dbs.keys());
        out
    }

    /// Takes a database in under a name.
    fn add_db(&mut self, name: &str, db: Db)
        requires
            old(self).wf(),
            db.wf(),
        ensures
            final(self).wf(),
            final(self)@ == with_db(old(self)@, name@, db@),
    {
        let ghost v = self@;
        self.dbs.insert(name.to_owned(), db);
        assert(self@.dbs =~= v.dbs.insert(name@, db@));
        assert(self@ =~= with_db(v, name@, db@));
    }

    /// Opens the database that files hold, under a name that also goes into
    /// its key.
    pub fn create_db(&mut self, name: &str, files: DbFiles) -> (r: Result<(), StoreError>)
        requires
            old(self).wf(),
        ensures
            final(self).wf(),
            exists|dek: Option<Dek>| #[trigger]
                db_created(old(self)@, name@, files, dek, r, final(self)@),
    {
        let dek = match &self.tmk {
            Some(k) => Some(Dek::from_tmk(k, name.as_bytes())),
            None => None,
        };
        let ghost v = self@;
        match Db::open(files, dek) {
            Ok(db) => {
                self.add_db(name, db);
                assert(open_outcome(files, dek, Ok(db@)));
                assert(db_created(v, name@, files, dek, Ok(()), self@));
                Ok(())
            },
            Err(e) => {
                assert(db_created(v, name@, files, dek, Err(e), self@));
                Err(e)
            },
        }
    }

    /// Makes a database that is not kept in files.
    pub fn create_in_memory(&mut self, name: &str)
        requires
            old(self).wf(),
        ensures
            final(self).wf(),
            final(self)@ == with_db(old(self)@, name@, empty_db()),
    {
        self.add_db(name, Db::in_memory());
    }
}

/// The databases with one of them changed.
pub open spec fn changed(v: ManagerV, name: Seq<char>, db: DbV) -> ManagerV {
    ManagerV { dbs: v.dbs.insert(name, db), ..v }
}

/// What to do about a request: answer it, or open the database first and ask
/// again.
#[derive(Debug)]
pub enum Step {
    Done(Reply),
    Open,
}

/// A document to write.
#[derive(Debug)]
pub struct PutBody {
    pub coll: String,
    pub id: String,
    pub doc: JsonValue,
    pub caused_by: Option<Vec<String>>,
    pub valid_from: Option<String>,
    pub valid_to: Option<String>,
}

/// The texts of a list; none where there is no list.
pub open spec fn texts_or_none(v: Option<Vec<String>>) -> Seq<Seq<char>> {
    match v {
        Some(ts) => strings(ts@),
        None => Seq::empty(),
    }
}

/// The answer that a database is still starting up.
pub open spec fn starting() -> ReplyV {
    error_reply(
        503,
        "database startup in progress \u{2014} reads available, writes retry in a moment"@,
    )
}

/// What is said of a version that was written.
pub open spec fn node_response(n: NodeV) -> Json {
    object_of(
        seq![
            ("_id"@, Json::Text(n.id)),
            ("_hash"@, Json::Text(n.hash)),
            ("_seq"@, int_json(n.seq as int)),
            ("_coll"@, Json::Text(n.coll)),
            ("data"@, n.data),
        ],
    )
}

/// The version that a document to write becomes.
pub open spec fn put_version(db: DbV, body: PutBody, ts: Num) -> NodeV {
    new_version(
        db,
        body.coll@,
        body.id@,
        body.doc@,
        texts_or_none(body.caused_by),
        opt_text(body.valid_from),
        opt_text(body.valid_to),
        ts,
    )
}

/// The answer to a write.
pub open spec fn put_reply(r: Result<Node, StoreError>, db: DbV) -> ReplyV {
    match r {
        Ok(n) => reply_of(
            200,
            seq![("ok"@, Json::Bool(true)), ("doc"@, node_response(n@))] + standing(db),
        ),
        Err(e) => error_reply(500, e.text()),
    }
}

/// Whether a write came to this.
pub open spec fn put_ran(
    v: ManagerV,
    name: Seq<char>,
    body: PutBody,
    ts: Num,
    outcome: Result<Node, StoreError>,
    reply: ReplyV,
    w: ManagerV,
) -> bool {
    let db = w.dbs[name];
    &&& float_time(ts)
    &&& put_outcome(v.dbs[name], put_version(v.dbs[name], body, ts), outcome, db)
    &&& w == changed(v, name, db)
    &&& reply == put_reply(outcome, db)
}

/// What a request to write a document comes to.
pub open spec fn put_answered(
    v: ManagerV,
    auth: Option<Seq<char>>,
    name: Seq<char>,
    body: PutBody,
    r: Step,
    w: ManagerV,
) -> bool {
    if !authorized(v, auth) {
        r matches Step::Done(x) && x@ == unauthorized() && w == v
    } else if !v.dbs.contains_key(name) {
        r is Open && w == v
    } else if !v.dbs[name].ready {
        r matches Step::Done(x) && x@ == starting() && w == v
    } else {
        r matches Step::Done(x) && exists|ts: Num, outcome: Result<Node, StoreError>| #[trigger]
            put_ran(v, name, body, ts, outcome, x@, w)
    }
}

/// The answer to a deletion.
pub open spec fn delete_reply(r: Result<bool, StoreError>, db: DbV) -> ReplyV {
    match r {
        Ok(existed) => reply_of(200, seq![("ok"@, Json::Bool(existed))] + standing(db)),
        Err(e) => error_reply(500, e.text()),
    }
}

/// Whether a deletion came to this.
pub open spec fn delete_ran(
    v: ManagerV,
    name: Seq<char>,
    coll: Seq<char>,
    id: Seq<char>,
    ts: Num,
    outcome: Result<bool, StoreError>,
    reply: ReplyV,
    w: ManagerV,
) -> bool {
    let db = w.dbs[name];
    &&& float_time(ts)
    &&& delete_outcome(v.dbs[name], coll, id, ts, outcome, db)
    &&& w == changed(v, name, db)
    &&& reply == delete_reply(outcome, db)
}

/// What a request to delete a document comes to.
pub open spec fn delete_answered(
    v: ManagerV,
    auth: Option<Seq<char>>,
    name: Seq<char>,
    coll: Seq<char>,
    id: Seq<char>,
    r: ReplyV,
    w: ManagerV,
) -> bool {
    match refusal(v, auth, name) {
        Some(x) => r == x && w == v,
        None => if !v.dbs[name].ready {
            r == starting() && w == v
        } else {
            exists|ts: Num, outcome: Result<bool, StoreError>| #[trigger]
                delete_ran(v, name, coll, id, ts, outcome, r, w)
        },
    }
}

/// What is said of a version that was written.
pub fn node_to_response(n: &Node) -> (r: JsonValue)
    requires
        n.wf(),
    ensures
        r.wf(),
        r@ == node_response(n@),
{
    let fields = vec![
        ("_id".to_owned(), JsonValue::Text(n.id.clone())),
        ("_hash".to_owned(), JsonValue::Text(n.hash.clone())),
        ("_seq".to_owned(), JsonValue::Number(Number::PosInt(n.seq))),
        ("_coll".to_owned(), JsonValue::Text(n.coll.clone())),
        ("data".to_owned(), n.data.clone()),
    ];
    assert(fields_view(fields@) =~= seq![
        ("_id"@, Json::Text(n@.id)),
        ("_hash"@, Json::Text(n@.hash)),
        ("_seq"@, int_json(n@.seq as int)),
        ("_coll"@, Json::Text(n@.coll)),
        ("data"@, n@.data),
    ]);
    object(fields)
}

/// An answer that ends with how a database stands.
fn reply_standing(status: u16, fields: Vec<(String, JsonValue)>, db: &Db) -> (r: Reply)
    requires
        forall|i: int| 0 <= i < fields@.len() ==> (#[trigger] fields@[i]).1.wf(),
    ensures
        r.wf(),
        r@ == reply_of(status, fields_view(fields@) + standing(db@)),
{
    let mut all = fields;
    let mut more = standing_of(db);
    let ghost front = all@;
    let ghost back = more@;
    all.append(&mut more);
    proof {
        assert(fields_view(all@) =~= fields_view(front) + fields_view(back));
        assert forall|i: int| 0 <= i < all@.len() implies (#[trigger] all@[i]).1.wf() by {
            if i < front.len() {
                assert(all@[i] == front[i]);
            } else {
                assert(all@[i] == back[i - front.len()]);
            }
        }
    }
    reply(status, all)
}

/// The answer that says how the server is.
pub open spec fn health_reply(v: ManagerV, version: Seq<char>) -> ReplyV {
    reply_of(
        200,
        seq![
            ("ok"@, Json::Bool(true)),
            ("service"@, Json::Text("nedbd"@)),
            ("version"@, Json::Text(version)),
            ("engine"@, Json::Text("dag"@)),
            ("databases"@, texts_json(v.names)),
            ("encrypted"@, Json::Bool(v.tmk is Some)),
            ("startup_ready"@, Json::Bool(true)),
        ],
    )
}

/// What a request to sum up all databases comes to.
pub open spec fn databases_listed(v: ManagerV, auth: Option<Seq<char>>, r: ReplyV) -> bool {
    if authorized(v, auth) {
        exists|rows: Seq<Json>| #[trigger]
            summaries(v, v.names, rows) && r == reply_of(
                200,
                seq![("databases"@, Json::Array(rows))],
            )
    } else {
        r == unauthorized()
    }
}

/// What a request to make a database comes to.
pub open spec fn create_answered(
    v: ManagerV,
    auth: Option<Seq<char>>,
    name: Seq<char>,
    r: Step,
) -> bool {
    &&& match r {
        Step::Done(x) => x.wf() && x@ == if authorized(v, auth) {
            error_reply(400, "name is required"@)
        } else {
            unauthorized()
        },
        Step::Open => true,
    }
    &&& r is Open <==> authorized(v, auth) && name.len() > 0
}

/// The answer that a database was made.
pub open spec fn created_reply(v: ManagerV, name: Seq<char>) -> ReplyV {
    if v.dbs.contains_key(name) {
        reply_of(
            201,
            seq![
                (
                    "database"@,
                    object_of(seq![("name"@, Json::Text(name))] + standing(v.dbs[name])),
                ),
            ],
        )
    } else {
        no_database(name)
    }
}

/// What a request to drop a database comes to.
pub open spec fn drop_answered(
    v: ManagerV,
    auth: Option<Seq<char>>,
    name: Seq<char>,
    r: ReplyV,
    there: bool,
    w: ManagerV,
) -> bool {
    if authorized(v, auth) {
        &&& there == v.dbs.contains_key(name)
        &&& r == reply_of(200, seq![("dropped"@, Json::Bool(there))])
        &&& w == (ManagerV {
            dbs: v.dbs.remove(name),
            names: without_key(v.names, name),
            ..v
        })
    } else {
        r == unauthorized() && !there && w == v
    }
}

impl Manager {
    /// How the server is.
    pub fn health(&self, version: &str) -> (r: Reply)
        requires
            self.wf(),
        ensures
            r.wf(),
            r@ == health_reply(self@, version@),
    {
        let fields = vec![
            ("ok".to_owned(), JsonValue::Bool(true)),
            ("service".to_owned(), JsonValue::Text("nedbd".to_owned())),
            ("version".to_owned(), JsonValue::Text(version.to_owned())),
            ("engine".to_owned(), JsonValue::Text("dag".to_owned())),
            ("databases".to_owned(), texts_value(&self.names())),
            ("encrypted".to_owned(), JsonValue::Bool(self.tmk.is_some())),
            ("startup_ready".to_owned(), JsonValue::Bool(true)),
        ];
        assert(fields_view(fields@) =~= seq![
            ("ok"@, Json::Bool(true)),
            ("service"@, Json::Text("nedbd"@)),
            ("version"@, Json::Text(version@)),
            ("engine"@, Json::Text("dag"@)),
            ("databases"@, texts_json(self@.names)),
            ("encrypted"@, Json::Bool(self@.tmk is Some)),
            ("startup_ready"@, Json::Bool(true)),
        ]);
        reply(200, fields)
    }

    /// Sums up all databases.
    pub fn list_databases(&self, auth: Option<&str>) -> (r: Reply)
        requires
            self.wf(),
        ensures
            r.wf(),
            databases_listed(self@, opt_str(auth), r@),
    {
        if !self.check_auth(auth) {
            return err(401, "unauthorized");
        }
        proof {
            self.dbs.lemma_entries();
        }
        let mut rows: Vec<JsonValue> = Vec::new();
        let mut i: usize = 0;
        while i < self.dbs.len()
            invariant
                i <= self.dbs.keys().len(),
                self.wf(),
                self.dbs.keys().len() == self.dbs.values().len(),
                forall|k: int|
                    0 <= k < self.dbs.keys().len() ==> self.dbs@.contains_key(
                        #[trigger] self.dbs.keys()[k],
                    ) && self.dbs@[self.dbs.keys()[k]] == self.dbs.values()[k],
                values_wf(rows@),
                summaries(self@, self.dbs.keys().take(i as int), values_view(rows@)),
            decreases self.dbs.keys().len() - i,
        {
            let ghost name = self.dbs.keys()[i as int];
            let ghost was = values_view(rows@);
            assert(self.dbs@.contains_key(name));
            assert(self@.dbs[name] == self.dbs.values()[i as int]@);
            let row = sum_up(self.dbs.key_at(i).as_str(), self.dbs.value_at(i));
            rows.push(row);
            proof {
                let next = values_view(rows@);
                let names = self.dbs.keys().take(i + 1);
                assert forall|k: int| 0 <= k < next.len() implies summed_up(
                    self@.dbs[names[k]],
                    names[k],
                    #[trigger] next[k],
                ) by {
                    if k < i {
                        assert(next[k] == was[k]);
                        assert(names[k] == self.dbs.keys().take(i as int)[k]);
                    }
                }
            }
            i = i + 1;
        }
        assert(self.dbs.keys().take(i as int) =~= self@.names);
        let ghost all = values_view(rows@);
        let fields = vec![("databases".to_owned(), JsonValue::Array(rows))];
        assert(fields@[0].1@->Array_0 =~= all);
        assert(fields_view(fields@) =~= seq![("databases"@, Json::Array(all))]);
        assert(summaries(self@, self@.names, all));
        reply(200, fields)
    }

    /// Whether to make a database: where not, the answer says why.
    pub fn create_database(&self, auth: Option<&str>, name: &str) -> (r: Step)
        ensures
            create_answered(self@, opt_str(auth), name@, r),
    {
        if !self.check_auth(auth) {
            return Step::Done(err(401, "unauthorized"));
        }
        if name.is_empty() {
            return Step::Done(err(400, "name is required"));
        }
        Step::Open
    }

    /// The answer that a database was made.
    pub fn created(&self, name: &str) -> (r: Reply)
        requires
            self.wf(),
        ensures
            r.wf(),
            r@ == created_reply(self@, name@),
    {
        match self.dbs.get(name) {
            Some(db) => {
                let front = vec![("name".to_owned(), JsonValue::Text(name.to_owned()))];
                assert(fields_view(front@) =~= seq![("name"@, Json::Text(name@))]);
                let inner = reply_standing(201, front, db);
                let ghost body = inner@.body;
                let fields = vec![("database".to_owned(), inner.body)];
                assert(fields_view(fields@) =~= seq![("database"@, body)]);
                reply(201, fields)
            },
            None => {
                let mut message = "database not found: ".to_owned();
                message.append(name);
                err(404, message.as_str())
            },
        }
    }

    /// Sums up a database.
    pub fn get_database(&self, auth: Option<&str>, name: &str) -> (r: Reply)
        requires
            self.wf(),
        ensures
            r.wf(),
            match refusal(self@, opt_str(auth), name@) {
                Some(x) => r@ == x,
                None => r@.status == 200 && summed_up(self@.dbs[name@], name@, r@.body),
            },
    {
        if let Some(r) = self.refuse(auth, name) {
            return r;
        }
        Reply { status: 200, body: sum_up(name, self.dbs.get(name).unwrap()) }
    }

    /// Drops a database. Gives whether there was one, so that its files are to
    /// go too.
    pub fn drop_database(&mut self, auth: Option<&str>, name: &str) -> (r: (Reply, bool))
        requires
            old(self).wf(),
        ensures
            final(self).wf(),
            r.0.wf(),
            drop_answered(old(self)@, opt_str(auth), name@, r.0@, r.1, final(self)@),
    {
        if !self.check_auth(auth) {
            return (err(401, "unauthorized"), false);
        }
        let ghost v = self@;
        let dropped = self.dbs.remove(name).is_some();
        assert(self@.dbs =~= v.dbs.remove(name@));
        assert(self@ =~= (ManagerV {
            dbs: v.dbs.remove(name@),
            names: without_key(v.names, name@),
            ..v
        }));
        let fields = vec![("dropped".to_owned(), JsonValue::Bool(dropped))];
        assert(fields_view(fields@) =~= seq![("dropped"@, Json::Bool(dropped))]);
        (reply(200, fields), dropped)
    }

    /// Writes a document.
    pub fn put_document(&mut self, auth: Option<&str>, name: &str, body: &PutBody) -> (r: Step)
        requires
            old(self).wf(),
            body.doc.wf(),
        ensures
            final(self).wf(),
            r matches Step::Done(x) ==> x.wf(),
            put_answered(old(self)@, opt_str(auth), name@, *body, r, final(self)@),
    {
        if !self.check_auth(auth) {
            return Step::Done(err(401, "unauthorized"));
        }
        let ghost v = self@;
        match self.dbs.get_mut(name) {
            Some(db) => {
                if !db.startup_ready() {
                    assert(self@.dbs =~= v.dbs);
                    return Step::Done(
                        err(
                            503,
                            "database startup in progress \u{2014} reads available, writes retry in a moment",
                        ),
                    );
                }
                let causes = match &body.caused_by {
                    Some(ts) => clone_texts(ts),
                    None => Vec::new(),
                };
                assert(strings(causes@) =~= texts_or_none(body.caused_by));
                let ghost before = db@;
                let outcome = db.put(
                    body.coll.as_str(),
                    body.id.as_str(),
                    body.doc.clone(),
                    causes,
                    clone_text(&body.valid_from),
                    clone_text(&body.valid_to),
                );
                let ghost after = db@;
                let ghost ts = choose|ts: Num| #[trigger]
                    float_time(ts) && put_outcome(
                        before,
                        put_version(before, *body, ts),
                        outcome,
                        after,
                    );
                let answer = match &outcome {
                    Ok(node) => {
                        let front = vec![
                            ("ok".to_owned(), JsonValue::Bool(true)),
                            ("doc".to_owned(), node_to_response(node)),
                        ];
                        assert(fields_view(front@) =~= seq![
                            ("ok"@, Json::Bool(true)),
                            ("doc"@, node_response(node@)),
                        ]);
                        reply_standing(200, front, db)
                    },
                    Err(e) => err(500, e.message().as_str()),
                };
                proof {
                    assert(self@.dbs =~= v.dbs.insert(name@, after));
                    assert(self@ =~= changed(v, name@, after));
                    assert(put_ran(v, name@, *body, ts, outcome, answer@, self@));
                }
                Step::Done(answer)
            },
            None => Step::Open,
        }
    }

    /// Deletes a document.
    pub fn delete_document(
        &mut self,
        auth: Option<&str>,
        name: &str,
        coll: &str,
        id: &str,
    ) -> (r: Reply)
        requires
            old(self).wf(),
        ensures
            final(self).wf(),
            r.wf(),
            delete_answered(
                old(self)@,
                opt_str(auth),
                name@,
                coll@,
                id@,
                r@,
                final(self)@,
            ),
    {
        if let Some(r) = self.refuse(auth, name) {
            return r;
        }
        let ghost v = self@;
        let db = self.dbs.get_mut(name).unwrap();
        if !db.startup_ready() {
            assert(self@.dbs =~= v.dbs);
            return err(
                503,
                "database startup in progress \u{2014} reads available, writes retry in a moment",
            );
        }
        let ghost before = db@;
        let outcome = db.delete(coll, id);
        let ghost after = db@;
        let ghost ts = choose|ts: Num| #[trigger]
            float_time(ts) && delete_outcome(before, coll@, id@, ts, outcome, after);
        let answer = match &outcome {
            Ok(existed) => {
                let front = vec![("ok".to_owned(), JsonValue::Bool(*existed))];
                assert(fields_view(front@) =~= seq![("ok"@, Json::Bool(*existed))]);
                reply_standing(200, front, db)
            },
            Err(e) => err(500, e.message().as_str()),
        };
        proof {
            assert(self@.dbs =~= v.dbs.insert(name@, after));
            assert(self@ =~= changed(v, name@, after));
            assert(delete_ran(v, name@, coll@, id@, ts, outcome, answer@, self@));
        }
        answer
    }
}

/// What to do about a query: answer the request, put the rows of an answer into
/// `query_reply`, or say what is wrong with the query.
#[derive(Debug)]
pub enum QueryStep {
    Done(Reply),
    Rows(Answer),
    Failed(NqlError),
}

/// What a request to run a query comes to.
pub open spec fn query_answered(
    v: ManagerV,
    auth: Option<Seq<char>>,
    name: Seq<char>,
    nql: Seq<char>,
    r: QueryStep,
) -> bool {
    match refusal(v, auth, name) {
        Some(x) => r matches QueryStep::Done(y) && y.wf() && y@ == x,
        None => if trimmed(nql).len() == 0 {
            r matches QueryStep::Done(y) && y.wf() && y@ == error_reply(400, "nql is required"@)
        } else {
            match parsed(nql) {
                Ok(q) => r matches QueryStep::Rows(a) && a.wf() && a@ == answer_of(v.dbs[name], q),
                Err(e) => r matches QueryStep::Failed(x) && x@ == e,
            }
        },
    }
}

/// The answer with the rows of a query.
pub open spec fn rows_reply(rows: Seq<Json>, db: DbV) -> ReplyV {
    reply_of(
        200,
        seq![("rows"@, Json::Array(rows)), ("count"@, int_json(rows.len() as int))] + standing(db),
    )
}

/// What is said of a version in a log.
pub open spec fn log_row(n: NodeV) -> Json {
    object_of(
        seq![
            ("seq"@, int_json(n.seq as int)),
            ("coll"@, Json::Text(n.coll)),
            ("id"@, Json::Text(n.id)),
            ("hash"@, Json::Text(n.hash)),
            ("ts"@, Json::Number(n.ts)),
            ("op"@, Json::Text("put"@)),
        ],
    )
}

/// How many versions a log has where no number is asked for.
pub const LOG_LIMIT: usize = 50;

/// The rows of a log: the latest versions that can be read, at most `limit`,
/// the latest first.
pub open spec fn log_rows(db: DbV, limit: usize) -> Seq<Json> {
    first(latest_first(versions(db.objects, all_keys(db.objects))), limit as int).map_values(
        |n: NodeV| log_row(n),
    )
}

/// The array of values.
fn array_of(values: Vec<JsonValue>) -> (r: JsonValue)
    requires
        values_wf(values@),
    ensures
        r.wf(),
        r@ == Json::Array(values_view(values@)),
{
    let ghost all = values_view(values@);
    let r = JsonValue::Array(values);
    assert(r@->Array_0 =~= all);
    r
}

/// What is said of a version in a log.
fn log_entry(n: &Node) -> (r: JsonValue)
    requires
        n.wf(),
    ensures
        r.wf(),
        r@ == log_row(n@),
{
    let fields = vec![
        ("seq".to_owned(), JsonValue::Number(Number::PosInt(n.seq))),
        ("coll".to_owned(), JsonValue::Text(n.coll.clone())),
        ("id".to_owned(), JsonValue::Text(n.id.clone())),
        ("hash".to_owned(), JsonValue::Text(n.hash.clone())),
        ("ts".to_owned(), JsonValue::Number(n.ts.clone())),
        ("op".to_owned(), JsonValue::Text("put".to_owned())),
    ];
    assert(fields_view(fields@) =~= seq![
        ("seq"@, int_json(n@.seq as int)),
        ("coll"@, Json::Text(n@.coll)),
        ("id"@, Json::Text(n@.id)),
        ("hash"@, Json::Text(n@.hash)),
        ("ts"@, Json::Number(n@.ts)),
        ("op"@, Json::Text("put"@)),
    ]);
    object(fields)
}

/// The kind of an index that is asked for.
pub open spec fn index_kind(kind: Option<Seq<char>>) -> Seq<char> {
    match kind {
        Some(k) => k,
        None => "eq"@,
    }
}

/// The answer that an index was made.
pub open spec fn index_reply(coll: Seq<char>, field: Seq<char>, kind: Seq<char>) -> ReplyV {
    reply_of(
        200,
        seq![
            ("ok"@, Json::Bool(true)),
            ("coll"@, Json::Text(coll)),
            ("field"@, Json::Text(field)),
            ("kind"@, Json::Text(kind)),
        ],
    )
}

/// What a request to make an index comes to.
pub open spec fn index_answered(
    v: ManagerV,
    auth: Option<Seq<char>>,
    name: Seq<char>,
    coll: Seq<char>,
    field: Seq<char>,
    kind: Option<Seq<char>>,
    r: ReplyV,
    w: ManagerV,
) -> bool {
    let k = index_kind(kind);
    let db = v.dbs[name];
    match refusal(v, auth, name) {
        Some(x) => r == x && w == v,
        None => if k == "sorted"@ || k == "eq"@ {
            &&& r == index_reply(coll, field, k)
            &&& w == changed(
                v,
                name,
                DbV { sorted: backfilled(db, coll, field, ids_in(db.ids, coll)), ..db },
            )
        } else {
            &&& r == error_reply(400, "unknown index kind: "@ + k)
            &&& w == v
        },
    }
}

/// The answer to a request for the log.
pub open spec fn log_reply(
    v: ManagerV,
    auth: Option<Seq<char>>,
    name: Seq<char>,
    limit: Option<usize>,
) -> ReplyV {
    match refusal(v, auth, name) {
        Some(x) => x,
        None => reply_of(
            200,
            seq![
                (
                    "log"@,
                    Json::Array(
                        log_rows(
                            v.dbs[name],
                            match limit {
                                Some(n) => n,
                                None => LOG_LIMIT,
                            },
                        ),
                    ),
                ),
            ] + standing(v.dbs[name]),
        ),
    }
}

/// The answer to a request for a snapshot.
pub open spec fn checkpoint_reply(v: ManagerV, auth: Option<Seq<char>>, name: Seq<char>) -> ReplyV {
    match refusal(v, auth, name) {
        Some(x) => x,
        None => reply_of(200, seq![("ok"@, Json::Bool(true))] + standing(v.dbs[name])),
    }
}

/// What a request to run a query again comes to.
pub open spec fn subscribe_answered(
    v: ManagerV,
    auth: Option<Seq<char>>,
    name: Seq<char>,
    nql: Seq<char>,
    r: Result<u64, Reply>,
    w: ManagerV,
) -> bool {
    match refusal(v, auth, name) {
        Some(x) => r matches Err(y) && y.wf() && y@ == x && w == v,
        None => r == Ok::<u64, Reply>(v.next_sub) && w == subscribed(v, name, nql),
    }
}

/// The answer to a check that found so many objects good, and others not.
pub open spec fn verified_reply(
    seq: u64,
    head: Seq<char>,
    good: int,
    bad: Seq<Seq<char>>,
) -> ReplyV {
    reply_of(
        200,
        seq![
            ("ok"@, Json::Bool(bad.len() == 0)),
            ("seq"@, int_json(seq as int)),
            ("head"@, Json::Text(head)),
            ("tamper_evident"@, Json::Bool(true)),
            ("objects_checked"@, int_json(good)),
            ("tampered"@, texts_json(bad)),
        ],
    )
}

/// The answer to a check of all objects.
pub open spec fn verify_reply(db: DbV) -> ReplyV {
    let bad = unreadable(db.objects, all_keys(db.objects));
    verified_reply(db.seq, db.head, all_keys(db.objects).len() - bad.len(), bad)
}

fn verified(seq: u64, head: String, good: usize, bad: &Vec<String>) -> (r: Reply)
    ensures
        r.wf(),
        r@ == verified_reply(seq, head@, good as int, strings(bad@)),
{
    let fields = vec![
        ("ok".to_owned(), JsonValue::Bool(bad.len() == 0)),
        ("seq".to_owned(), JsonValue::Number(Number::PosInt(seq))),
        ("head".to_owned(), JsonValue::Text(head)),
        ("tamper_evident".to_owned(), JsonValue::Bool(true)),
        ("objects_checked".to_owned(), JsonValue::Number(Number::PosInt(good as u64))),
        ("tampered".to_owned(), texts_value(bad)),
    ];
    assert(fields_view(fields@) =~= seq![
        ("ok"@, Json::Bool(strings(bad@).len() == 0)),
        ("seq"@, int_json(seq as int)),
        ("head"@, Json::Text(head@)),
        ("tamper_evident"@, Json::Bool(true)),
        ("objects_checked"@, int_json(good as int)),
        ("tampered"@, texts_json(strings(bad@))),
    ]);
    reply(200, fields)
}

impl Manager {
    /// Runs a query on a database.
    pub fn query_database(&self, auth: Option<&str>, name: &str, nql: &str) -> (r: QueryStep)
        requires
            self.wf(),
        ensures
            query_answered(self@, opt_str(auth), name@, nql@, r),
    {
        if let Some(r) = self.refuse(auth, name) {
            return QueryStep::Done(r);
        }
        if trim(nql).as_str().is_empty() {
            return QueryStep::Done(err(400, "nql is required"));
        }
        match query(self.dbs.get(name).unwrap(), nql) {
            Ok((answer, _)) => QueryStep::Rows(answer),
            Err(e) => QueryStep::Failed(e),
        }
    }

    /// The answer with the rows of a query on a database.
    pub fn query_reply(&self, name: &str, rows: Vec<JsonValue>) -> (r: Reply)
        requires
            self.wf(),
            values_wf(rows@),
        ensures
            r.wf(),
            r@ == if self@.dbs.contains_key(name@) {
                rows_reply(values_view(rows@), self@.dbs[name@])
            } else {
                no_database(name@)
            },
    {
        match self.dbs.get(name) {
            Some(db) => {
                let ghost all = values_view(rows@);
                let count = JsonValue::Number(Number::PosInt(rows.len() as u64));
                let front = vec![
                    ("rows".to_owned(), array_of(rows)),
                    ("count".to_owned(), count),
                ];
                assert(fields_view(front@) =~= seq![
                    ("rows"@, Json::Array(all)),
                    ("count"@, int_json(all.len() as int)),
                ]);
                reply_standing(200, front, db)
            },
            None => {
                let mut message = "database not found: ".to_owned();
                message.append(name);
                err(404, message.as_str())
            },
        }
    }

    /// The answer that a query could not be read.
    pub fn query_failed(&self, message: &str) -> (r: Reply)
        ensures
            r.wf(),
            r@ == error_reply(400, "NQL error: "@ + message@),
    {
        let mut text = "NQL error: ".to_owned();
        text.append(message);
        err(400, text.as_str())
    }

    /// Makes an index for a field.
    pub fn create_index(
        &mut self,
        auth: Option<&str>,
        name: &str,
        coll: &str,
        field: &str,
        kind: Option<&str>,
    ) -> (r: Reply)
        requires
            old(self).wf(),
        ensures
            final(self).wf(),
            r.wf(),
            index_answered(
                old(self)@,
                opt_str(auth),
                name@,
                coll@,
                field@,
                opt_str(kind),
                r@,
                final(self)@,
            ),
    {
        if let Some(r) = self.refuse(auth, name) {
            return r;
        }
        let k = match kind {
            Some(k) => k,
            None => "eq",
        };
        if !same_text(k, "sorted") && !same_text(k, "eq") {
            let mut message = "unknown index kind: ".to_owned();
            message.append(k);
            return err(400, message.as_str());
        }
        let ghost v = self@;
        let db = self.dbs.get_mut(name).unwrap();
        db.create_sorted_index(coll, field);
        let ghost after = db@;
        assert(self@.dbs =~= v.dbs.insert(name@, after));
        assert(self@ =~= changed(v, name@, after));
        let fields = vec![
            ("ok".to_owned(), JsonValue::Bool(true)),
            ("coll".to_owned(), JsonValue::Text(coll.to_owned())),
            ("field".to_owned(), JsonValue::Text(field.to_owned())),
            ("kind".to_owned(), JsonValue::Text(k.to_owned())),
        ];
        assert(fields_view(fields@) =~= seq![
            ("ok"@, Json::Bool(true)),
            ("coll"@, Json::Text(coll@)),
            ("field"@, Json::Text(field@)),
            ("kind"@, Json::Text(k@)),
        ]);
        reply(200, fields)
    }

    /// Checks all objects of a database.
    pub fn verify_database(&self, auth: Option<&str>, name: &str) -> (r: Reply)
        requires
            self.wf(),
        ensures
            r.wf(),
            r@ == match refusal(self@, opt_str(auth), name@) {
                Some(x) => x,
                None => verify_reply(self@.dbs[name@]),
            },
    {
        if let Some(r) = self.refuse(auth, name) {
            return r;
        }
        let db = self.dbs.get(name).unwrap();
        let (good, bad) = db.verify();
        verified(db.seq(), db.head(), good, &bad)
    }

    /// Checks all objects of a database in the files as they stand.
    pub fn verify_files(
        &self,
        auth: Option<&str>,
        name: &str,
        loose: Vec<LooseFile>,
        segments: Option<Vec<SegmentFile>>,
    ) -> (r: Reply)
        requires
            self.wf(),
        ensures
            r.wf(),
            r@ == match refusal(self@, opt_str(auth), name@) {
                Some(x) => x,
                None => verify_reply(
                    (DbV {
                        objects: held_objects(loose, segments, self@.dbs[name@].objects.dek),
                        ..self@.dbs[name@]
                    }),
                ),
            },
    {
        if let Some(r) = self.refuse(auth, name) {
            return r;
        }
        let db = self.dbs.get(name).unwrap();
        let (good, bad) = db.verify_files(loose, segments);
        verified(db.seq(), db.head(), good, &bad)
    }

    /// Says how a database stands: what is written needs no further snapshot.
    pub fn checkpoint(&self, auth: Option<&str>, name: &str) -> (r: Reply)
        requires
            self.wf(),
        ensures
            r.wf(),
            r@ == checkpoint_reply(self@, opt_str(auth), name@),
    {
        if let Some(r) = self.refuse(auth, name) {
            return r;
        }
        let front = vec![("ok".to_owned(), JsonValue::Bool(true))];
        assert(fields_view(front@) =~= seq![("ok"@, Json::Bool(true))]);
        reply_standing(200, front, self.dbs.get(name).unwrap())
    }

    /// The log of a database.
    pub fn get_log(&self, auth: Option<&str>, name: &str, limit: Option<usize>) -> (r: Reply)
        requires
            self.wf(),
        ensures
            r.wf(),
            r@ == log_reply(self@, opt_str(auth), name@, limit),
    {
        if let Some(r) = self.refuse(auth, name) {
            return r;
        }
        let n: usize = match limit {
            Some(n) => n,
            None => LOG_LIMIT,
        };
        let db = self.dbs.get(name).unwrap();
        let nodes = db.log(n);
        let ghost want = log_rows(db@, n);
        let mut rows: Vec<JsonValue> = Vec::new();
        let mut i: usize = 0;
        while i < nodes.len()
            invariant
                i <= nodes.len(),
                nodes_wf(nodes@),
                want == nodes_view(nodes@).map_values(|n: NodeV| log_row(n)),
                values_wf(rows@),
                values_view(rows@) == want.take(i as int),
            decreases nodes.len() - i,
        {
            let ghost was = values_view(rows@);
            assert(nodes@[i as int].wf());
            rows.push(log_entry(&nodes[i]));
            assert(values_view(rows@) =~= was.push(want[i as int]));
            assert(want.take(i + 1) =~= was.push(want[i as int]));
            i = i + 1;
        }
        assert(want.take(i as int) =~= want);
        let front = vec![("log".to_owned(), array_of(rows))];
        assert(fields_view(front@) =~= seq![("log"@, Json::Array(want))]);
        reply_standing(200, front, db)
    }
}

/// How many seconds are left until the next full hour.
pub fn secs_to_next_hour(now: u64) -> (r: u64)
    ensures
        1 <= r <= 3600,
        (now + r) % 3600 == 0,
{
    3600 - now % 3600
}

/// The answer to a batch.
pub open spec fn batch_reply(r: Result<Seq<Json>, StoreError>, db: DbV) -> ReplyV {
    match r {
        Ok(rows) => reply_of(
            200,
            seq![("results"@, Json::Array(rows)), ("count"@, int_json(rows.len() as int))]
                + standing(db),
        ),
        Err(e) => error_reply(500, e.text()),
    }
}

/// Whether a batch on a database came to this.
pub open spec fn batch_replied(
    v: ManagerV,
    name: Seq<char>,
    ops: Seq<BatchOp>,
    outcome: Result<Seq<Json>, StoreError>,
    reply: ReplyV,
    w: ManagerV,
) -> bool {
    let db = w.dbs[name];
    &&& batch_ran(v.dbs[name], ops, outcome, db)
    &&& w == changed(v, name, db)
    &&& reply == batch_reply(outcome, db)
}

/// What a request to run a batch comes to.
pub open spec fn batch_answered(
    v: ManagerV,
    auth: Option<Seq<char>>,
    name: Seq<char>,
    ops: Seq<BatchOp>,
    r: Step,
    w: ManagerV,
) -> bool {
    if !authorized(v, auth) {
        r matches Step::Done(x) && x@ == unauthorized() && w == v
    } else if !v.dbs.contains_key(name) {
        r is Open && w == v
    } else if !v.dbs[name].ready {
        r matches Step::Done(x) && x@ == starting() && w == v
    } else {
        r matches Step::Done(x) && exists|outcome: Result<Seq<Json>, StoreError>| #[trigger]
            batch_replied(v, name, ops, outcome, x@, w)
    }
}

/// What a request to end running a query again comes to.
pub open spec fn unsubscribe_answered(
    v: ManagerV,
    auth: Option<Seq<char>>,
    name: Seq<char>,
    id: u64,
    r: ReplyV,
    w: ManagerV,
) -> bool {
    if authorized(v, auth) {
        &&& r == reply_of(200, seq![("ok"@, Json::Bool(true)), ("sub_id"@, int_json(id as int))])
        &&& w == if has_sub(v, name, id) {
            ManagerV {
                subs: v.subs.remove(decimal(id as nat)),
                sub_keys: without_key(v.sub_keys, decimal(id as nat)),
                ..v
            }
        } else {
            v
        }
    } else {
        r == unauthorized() && w == v
    }
}

/// What a query to run again gives on its database.
pub open spec fn due(v: ManagerV, keys: Seq<Seq<char>>, name: Seq<char>) -> Seq<(u64, AnswerV)>
    decreases keys.len(),
{
    if keys.len() == 0 {
        Seq::empty()
    } else {
        let before = due(v, keys.drop_last(), name);
        let sub = v.subs[keys.last()];
        match parsed(sub.nql) {
            Ok(q) => if sub.db == name {
                before.push((sub.id, answer_of(v.dbs[name], q)))
            } else {
                before
            },
            Err(_) => before,
        }
    }
}

pub open spec fn due_view(v: Seq<(u64, Answer)>) -> Seq<(u64, AnswerV)> {
    v.map_values(|a: (u64, Answer)| (a.0, a.1@))
}

/// The text of each row.
pub open spec fn row_texts(rows: Seq<Json>) -> Seq<Seq<char>> {
    rows.map_values(|j: Json| json_chars(j))
}

/// The event that tells the rows of a query.
pub open spec fn event(sub: SubV, rows: Seq<Json>, initial: bool) -> Json {
    let fields = seq![
        ("sub_id"@, int_json(sub.id as int)),
        ("db"@, Json::Text(sub.db)),
        ("nql"@, Json::Text(sub.nql)),
        ("rows"@, Json::Array(rows)),
        ("count"@, int_json(rows.len() as int)),
    ];
    object_of(
        if initial {
            fields.push(("event"@, Json::Text("initial"@)))
        } else {
            fields
        },
    )
}

/// Whether a query to run again has a number, on a database.
pub open spec fn has_sub(v: ManagerV, name: Seq<char>, id: u64) -> bool {
    v.subs.contains_key(decimal(id as nat)) && v.subs[decimal(id as nat)].db == name
}

/// Whether the rows of a query are to be told: the first time, and whenever
/// they are not those that were told last.
pub open spec fn is_news(sub: SubV, rows: Seq<Json>, initial: bool) -> bool {
    initial || sub.last != Some(row_texts(rows))
}

/// What having the rows of a query comes to: an event where they are to be told,
/// and then they are remembered.
pub open spec fn rows_told(
    v: ManagerV,
    name: Seq<char>,
    id: u64,
    rows: Seq<Json>,
    initial: bool,
    r: Option<Seq<char>>,
    w: ManagerV,
) -> bool {
    let key = decimal(id as nat);
    let sub = v.subs[key];
    if has_sub(v, name, id) && is_news(sub, rows, initial) {
        &&& r == Some(json_chars(event(sub, rows, initial)))
        &&& w == (ManagerV {
            subs: v.subs.insert(key, SubV { last: Some(row_texts(rows)), ..sub }),
            ..v
        })
    } else {
        r is None && w == v
    }
}

/// Rows that were told are not told again as long as they stay the same.
pub proof fn lemma_told_once(sub: SubV, rows: Seq<Json>)
    ensures
        !is_news(SubV { last: Some(row_texts(rows)), ..sub }, rows, false),
{
}

fn same_texts(a: &Vec<String>, b: &Vec<String>) -> (r: bool)
    ensures
        r == (strings(a@) == strings(b@)),
{
    if a.len() != b.len() {
        assert(strings(a@).len() != strings(b@).len());
        return false;
    }
    let mut i: usize = 0;
    while i < a.len()
        invariant
            i <= a.len(),
            a.len() == b.len(),
            forall|k: int| 0 <= k < i ==> (#[trigger] a@[k])@ == b@[k]@,
        decreases a.len() - i,
    {
        if !same_text(a[i].as_str(), b[i].as_str()) {
            assert(strings(a@)[i as int] != strings(b@)[i as int]);
            return false;
        }
        i = i + 1;
    }
    assert(strings(a@) =~= strings(b@));
    true
}

/// The text of each row.
fn texts_of_rows(rows: &Vec<JsonValue>) -> (r: Vec<String>)
    requires
        values_wf(rows@),
    ensures
        strings(r@) == row_texts(values_view(rows@)),
{
    let ghost want = row_texts(values_view(rows@));
    let mut out: Vec<String> = Vec::new();
    let mut i: usize = 0;
    while i < rows.len()
        invariant
            i <= rows.len(),
            values_wf(rows@),
            want == row_texts(values_view(rows@)),
            strings(out@) == want.take(i as int),
        decreases rows.len() - i,
    {
        let ghost was = strings(out@);
        assert(rows@[i as int].wf());
        out.push(to_text(&rows[i]));
        assert(strings(out@) =~= was.push(want[i as int]));
        assert(want.take(i + 1) =~= was.push(want[i as int]));
        i = i + 1;
    }
    assert(want.take(i as int) =~= want);
    out
}

/// The event that tells the rows of a query.
fn event_for(sub: &Sub, rows: Vec<JsonValue>, initial: bool) -> (r: String)
    requires
        values_wf(rows@),
    ensures
        r@ == json_chars(event(sub@, values_view(rows@), initial)),
{
    let ghost all = values_view(rows@);
    let count: u64 = rows.len() as u64;
    let mut fields = vec![
        ("sub_id".to_owned(), JsonValue::Number(Number::PosInt(sub.id))),
        ("db".to_owned(), JsonValue::Text(sub.db.clone())),
        ("nql".to_owned(), JsonValue::Text(sub.nql.clone())),
        ("rows".to_owned(), array_of(rows)),
        ("count".to_owned(), JsonValue::Number(Number::PosInt(count))),
    ];
    let ghost front = seq![
        ("sub_id"@, int_json(sub@.id as int)),
        ("db"@, Json::Text(sub@.db)),
        ("nql"@, Json::Text(sub@.nql)),
        ("rows"@, Json::Array(all)),
        ("count"@, int_json(all.len() as int)),
    ];
    assert(fields_view(fields@) =~= front);
    if initial {
        fields.push(("event".to_owned(), JsonValue::Text("initial".to_owned())));
        assert(fields_view(fields@) =~= front.push(("event"@, Json::Text("initial"@))));
    }
    to_text(&object(fields))
}

impl Manager {
    /// Runs a batch on a database.
    pub fn batch_operations(
        &mut self,
        auth: Option<&str>,
        name: &str,
        ops: &Vec<BatchOp>,
    ) -> (r: Step)
        requires
            old(self).wf(),
            docs_wf(ops@),
        ensures
            final(self).wf(),
            r matches Step::Done(x) ==> x.wf(),
            batch_answered(old(self)@, opt_str(auth), name@, ops@, r, final(self)@),
    {
        if !self.check_auth(auth) {
            return Step::Done(err(401, "unauthorized"));
        }
        let ghost v = self@;
        match self.dbs.get_mut(name) {
            Some(db) => {
                if !db.startup_ready() {
                    assert(self@.dbs =~= v.dbs);
                    return Step::Done(
                        err(
                            503,
                            "database startup in progress \u{2014} reads available, writes retry in a moment",
                        ),
                    );
                }
                let ran = run_batch(db, ops);
                let ghost after = db@;
                let ghost outcome = rows_outcome(ran);
                let answer = match ran {
                    Ok(rows) => {
                        let ghost all = values_view(rows@);
                        let count: u64 = rows.len() as u64;
                        let front = vec![
                            ("results".to_owned(), array_of(rows)),
                            ("count".to_owned(), JsonValue::Number(Number::PosInt(count))),
                        ];
                        assert(fields_view(front@) =~= seq![
                            ("results"@, Json::Array(all)),
                            ("count"@, int_json(all.len() as int)),
                        ]);
                        reply_standing(200, front, db)
                    },
                    Err(e) => err(500, e.message().as_str()),
                };
                proof {
                    assert(self@.dbs =~= v.dbs.insert(name@, after));
                    assert(self@ =~= changed(v, name@, after));
                    assert(batch_replied(v, name@, ops@, outcome, answer@, self@));
                }
                Step::Done(answer)
            },
            None => Step::Open,
        }
    }

    /// Asks for a query to be run again after every write to a database. Gives
    /// its number.
    fn subscribe(&mut self, name: &str, nql: &str) -> (id: u64)
        requires
            old(self).wf(),
        ensures
            final(self).wf(),
            id == old(self)@.next_sub,
            final(self)@ == subscribed(old(self)@, name@, nql@),
    {
        let ghost v = self@;
        let id = self.sub_ctr;
        self.sub_ctr = id.wrapping_add(1);
        let sub = Sub { id, db: name.to_owned(), nql: nql.to_owned(), last: None };
        let ghost s = sub@;
        self.subs.insert(decimal_text(id), sub);
        assert(self@.subs =~= v.subs.insert(decimal(id as nat), s));
        assert(self@ =~= subscribed(v, name@, nql@));
        id
    }

    /// Asks for a query to be run again after every write to a database: gives
    /// its number, or why that is refused.
    pub fn subscribe_query(&mut self, auth: Option<&str>, name: &str, nql: &str) -> (r: Result<
        u64,
        Reply,
    >)
        requires
            old(self).wf(),
        ensures
            final(self).wf(),
            subscribe_answered(old(self)@, opt_str(auth), name@, nql@, r, final(self)@),
    {
        if let Some(r) = self.refuse(auth, name) {
            return Err(r);
        }
        Ok(self.subscribe(name, nql))
    }

    /// Ends running a query again.
    pub fn unsubscribe_query(&mut self, auth: Option<&str>, name: &str, id: u64) -> (r: Reply)
        requires
            old(self).wf(),
        ensures
            final(self).wf(),
            r.wf(),
            unsubscribe_answered(old(self)@, opt_str(auth), name@, id, r@, final(self)@),
    {
        if !self.check_auth(auth) {
            return err(401, "unauthorized");
        }
        let ghost v = self@;
        let key = decimal_text(id);
        let there = match self.subs.get(key.as_str()) {
            Some(sub) => same_text(sub.db.as_str(), name),
            None => false,
        };
        if there {
            self.subs.remove(key.as_str());
            assert(self@.subs =~= v.subs.remove(key@));
            assert(self@ =~= (ManagerV {
                subs: v.subs.remove(key@),
                sub_keys: without_key(v.sub_keys, key@),
                ..v
            }));
        }
        let fields = vec![
            ("ok".to_owned(), JsonValue::Bool(true)),
            ("sub_id".to_owned(), JsonValue::Number(Number::PosInt(id))),
        ];
        assert(fields_view(fields@) =~= seq![
            ("ok"@, Json::Bool(true)),
            ("sub_id"@, int_json(id as int)),
        ]);
        reply(200, fields)
    }

    /// Runs again all queries that a write to a database concerns. Their rows
    /// are to be put into `tell_rows`.
    pub fn notify_subscribers(&self, name: &str) -> (r: Vec<(u64, Answer)>)
        requires
            self.wf(),
        ensures
            forall|i: int| 0 <= i < r@.len() ==> (#[trigger] r@[i]).1.wf(),
            due_view(r@) == if self@.dbs.contains_key(name@) {
                due(self@, self@.sub_keys, name@)
            } else {
                Seq::empty()
            },
    {
        let mut out: Vec<(u64, Answer)> = Vec::new();
        assert(due_view(out@) =~= Seq::empty());
        let db = match self.dbs.get(name) {
            Some(db) => db,
            None => {
                return out;
            },
        };
        proof {
            self.subs.lemma_entries();
        }
        let ghost keys = self.subs.keys();
        let mut i: usize = 0;
        assert(due_view(out@) =~= due(self@, keys.take(0), name@));
        while i < self.subs.len()
            invariant
                i <= keys.len(),
                self.wf(),
                db.wf(),
                self.dbs@.contains_key(name@),
                self@.dbs[name@] == db@,
                keys == self.subs.keys(),
                keys.len() == self.subs.values().len(),
                forall|k: int|
                    0 <= k < keys.len() ==> self.subs@.contains_key(#[trigger] keys[k])
                        && self.subs@[keys[k]] == self.subs.values()[k],
                forall|k: int| 0 <= k < out@.len() ==> (#[trigger] out@[k]).1.wf(),
                due_view(out@) == due(self@, keys.take(i as int), name@),
            decreases keys.len() - i,
        {
            assert(keys.take(i + 1).drop_last() =~= keys.take(i as int));
            assert(keys.take(i + 1).last() == keys[i as int]);
            let ghost was = out@;
            let sub = self.subs.value_at(i);
            assert(self@.subs[keys[i as int]] == sub@);
            if same_text(sub.db.as_str(), name) {
                if let Ok((answer, _)) = query(db, sub.nql.as_str()) {
                    let ghost a = answer@;
                    out.push((sub.id, answer));
                    assert(due_view(out@) =~= due_view(was).push((sub.id, a)));
                }
            }
            i = i + 1;
        }
        assert(keys.take(i as int) =~= keys);
        out
    }

    /// The event to send for the rows of a query, where they are to be told.
    pub fn tell_rows(
        &mut self,
        name: &str,
        id: u64,
        rows: Vec<JsonValue>,
        initial: bool,
    ) -> (r: Option<String>)
        requires
            old(self).wf(),
            values_wf(rows@),
        ensures
            final(self).wf(),
            rows_told(
                old(self)@,
                name@,
                id,
                values_view(rows@),
                initial,
                opt_text(r),
                final(self)@,
            ),
    {
        let ghost v = self@;
        let ghost all = values_view(rows@);
        let key = decimal_text(id);
        match self.subs.get_mut(key.as_str()) {
            Some(sub) => {
                let ghost was = sub@;
                let told = match &sub.last {
                    Some(ts) => Some(ts),
                    None => None,
                };
                let texts = texts_of_rows(&rows);
                let same = match told {
                    Some(ts) => same_texts(ts, &texts),
                    None => false,
                };
                if !same_text(sub.db.as_str(), name) || !initial && same {
                    assert(self@.subs =~= v.subs);
                    assert(self@ =~= v);
                    return None;
                }
                let text = event_for(sub, rows, initial);
                sub.last = Some(texts);
                let ghost now = sub@;
                proof {
                    assert(now =~= (SubV { last: Some(row_texts(all)), ..was }));
                    assert(self@.subs =~= v.subs.insert(key@, now));
                    assert(self@ =~= (ManagerV { subs: v.subs.insert(key@, now), ..v }));
                }
                Some(text)
            },
            None => None,
        }
    }

    /// Scans a database that did not start up at once. Gives the manifest to
    /// save.
    pub fn start_cold_scan(&mut self, name: &str) -> (r: Option<Vec<u8>>)
        requires
            old(self).wf(),
        ensures
            final(self).wf(),
            final(self)@ == if old(self)@.dbs.contains_key(name@) {
                changed(old(self)@, name@, scanned(old(self)@.dbs[name@]))
            } else {
                old(self)@
            },
            if old(self)@.dbs.contains_key(name@) {
                scan_saves(old(self)@.dbs[name@], r)
            } else {
                r is None
            },
    {
        let ghost v = self@;
        match self.dbs.get_mut(name) {
            Some(db) => {
                let r = db.start_cold_scan();
                let ghost after = db@;
                assert(self@.dbs =~= v.dbs.insert(name@, after));
                assert(self@ =~= changed(v, name@, after));
                r
            },
            None => None,
        }
    }

    /// Takes over what a scan of a database found: the hashes of objects, and
    /// the versions that could be read. Gives the manifest to save.
    pub fn finish_cold_scan(&mut self, name: &str, hashes: &Vec<String>, nodes: &Vec<Node>) -> (r:
        Option<Vec<u8>>)
        requires
            old(self).wf(),
        ensures
            final(self).wf(),
            final(self)@ == if old(self)@.dbs.contains_key(name@) {
                changed(
                    old(self)@,
                    name@,
                    scan_applied(old(self)@.dbs[name@], strings(hashes@), nodes_view(nodes@)),
                )
            } else {
                old(self)@
            },
            if old(self)@.dbs.contains_key(name@) {
                scan_saved(old(self)@.dbs[name@], strings(hashes@), nodes_view(nodes@), r)
            } else {
                r is None
            },
    {
        let ghost v = self@;
        match self.dbs.get_mut(name) {
            Some(db) => {
                let r = db.finish_cold_scan(hashes, nodes);
                let ghost after = db@;
                assert(self@.dbs =~= v.dbs.insert(name@, after));
                assert(self@ =~= changed(v, name@, after));
                r
            },
            None => None,
        }
    }

    /// What of a database is to be saved: the changes to its id index, and the
    /// manifest where the head changed.
    pub fn flush(&mut self, name: &str) -> (r: Option<(Vec<IdChange>, Option<Vec<u8>>)>)
        requires
            old(self).wf(),
        ensures
            final(self).wf(),
            r is Some <==> old(self)@.dbs.contains_key(name@),
            match r {
                None => final(self)@ == old(self)@,
                Some((changes, manifest)) => {
                    let db = old(self)@.dbs[name@];
                    &&& final(self)@ == changed(
                        old(self)@,
                        name@,
                        DbV {
                            ids: IdV { dirty: Seq::empty(), ..db.ids },
                            dirty: db.dirty && db.memory,
                            ..db
                        },
                    )
                    &&& changes@.len() == db.ids.dirty.len()
                    &&& forall|i: int|
                        0 <= i < changes@.len() ==> change_for(
                            db.ids,
                            db.ids.dirty[i],
                            #[trigger] changes@[i],
                        )
                    &&& if db.memory || !db.dirty {
                        manifest is None
                    } else {
                        manifest matches Some(b) && manifest_read(b@) == Some((db.seq, db.head))
                    }
                },
            },
    {
        let ghost v = self@;
        match self.dbs.get_mut(name) {
            Some(db) => {
                let saved = db.flush_all();
                let ghost after = db@;
                assert(self@.dbs =~= v.dbs.insert(name@, after));
                assert(self@ =~= changed(v, name@, after));
                Some(saved)
            },
            None => None,
        }
    }
}

/// The databases with a query to run again.
pub open spec fn subscribed(v: ManagerV, name: Seq<char>, nql: Seq<char>) -> ManagerV {
    let key = decimal(v.next_sub as nat);
    ManagerV {
        subs: v.subs.insert(key, SubV { id: v.next_sub, db: name, nql, last: None }),
        sub_keys: with_key(v.sub_keys, key),
        next_sub: if v.next_sub == u64::MAX {
            0
        } else {
            (v.next_sub + 1) as u64
        },
        ..v
    }
}

} // verus!
