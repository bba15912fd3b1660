//! What a program that holds a database is promised: links that are made are
//! found, and those that are ended are not; what is deleted is gone; and the
//! requests of a server for an index, the log and a live query.

use vstd::prelude::*;
use crate::bindings::{
    all_readable, core_delete, core_link, core_row, doc_deleted, inbound_of, last_seq, link_doc,
    link_ended, link_id, link_made, link_version, neighbors_of, opt_core_text, CoreError,
};
use crate::db::{as_of, current, version, DbV};
use crate::guarantees::{lemma_deleted, lemma_verify_finds};
use crate::history::{delete_step, lemma_read_back, lemma_tombstone_storable};
use crate::index::{hash_of, id_wf, ids_in};
use crate::index_laws::{hashes_true, indexes_exact, lemma_new_index_exact};
use crate::json::{json_chars, json_get, Json, Num};
use crate::links::{
    is_link, is_linked, lemma_links_found, lemma_links_found_as_of, unquotable, was_linked,
};
use crate::node::{Node, NodeV};
use crate::query_laws::lists_all;
use crate::requests::{lemma_object, lemma_put_asked, names_differ, reads_back};
use crate::server::{
    checkpoint_reply, index_answered, log_reply, log_rows, standing, subscribe_answered, ManagerV,
    Reply, ReplyV,
};
use crate::store::{all_keys, read_result, unreadable, ObjV, StoreError};
use crate::text::decimal;

verus! {

proof fn lemma_link_fields(from: Seq<char>, rel: Seq<char>, to: Seq<char>)
    ensures
        json_get(link_doc(from, rel, to), "_from"@) == Some(Json::Text(from)),
        json_get(link_doc(from, rel, to), "_rel"@) == Some(Json::Text(rel)),
        json_get(link_doc(from, rel, to), "_to"@) == Some(Json::Text(to)),
{
    let fields = seq![
        ("_from"@, Json::Text(from)),
        ("_rel"@, Json::Text(rel)),
        ("_to"@, Json::Text(to)),
    ];
    reveal_strlit("_from");
    reveal_strlit("_rel");
    reveal_strlit("_to");
    assert("_from"@[1] == 'f' && "_rel"@[1] == 'r' && "_to"@[1] == 't');
    assert(names_differ(fields));
    lemma_object(fields);
    assert(fields[0].0 == "_from"@ && fields[1].0 == "_rel"@ && fields[2].0 == "_to"@);
}

/// Links are directed and named: a name is a neighbor of another just where a
/// document links the two, this way round and by this relation; and the other is
/// then found from it, and only then. The same holds as of a write.
pub proof fn lemma_neighbors(v: DbV, from: Seq<char>, rel: Seq<char>, to: Seq<char>, seq: u64)
    requires
        unquotable(from),
        unquotable(rel),
        unquotable(to),
    ensures
        id_wf(v.ids) ==> (neighbors_of(v, None, from, rel).contains(to) <==> exists|id: Seq<char>|
            (#[trigger] current(v, "__links__"@, id)) matches Some(n) && is_link(n, from, rel, to)),
        id_wf(v.ids) ==> (inbound_of(v, None, to, rel).contains(from) <==> neighbors_of(
            v,
            None,
            from,
            rel,
        ).contains(to)),
        lists_all(v) && seq < 9_007_199_254_740_992 ==> (neighbors_of(
            v,
            Some(seq),
            from,
            rel,
        ).contains(to) <==> exists|id: Seq<char>|
            (#[trigger] as_of(v, "__links__"@, id, seq)) matches Some(n) && is_link(
                n,
                from,
                rel,
                to,
            )),
        lists_all(v) && seq < 9_007_199_254_740_992 ==> (inbound_of(v, Some(seq), to, rel).contains(
            from,
        ) <==> neighbors_of(v, Some(seq), from, rel).contains(to)),
{
    if id_wf(v.ids) {
        lemma_links_found(v, from, rel, to);
        assert(is_linked(v, from, rel, to) <==> exists|id: Seq<char>|
            (#[trigger] current(v, "__links__"@, id)) matches Some(n) && is_link(n, from, rel, to));
    }
    if lists_all(v) && seq < 9_007_199_254_740_992 {
        lemma_links_found_as_of(v, seq, from, rel, to);
        assert(was_linked(v, seq, from, rel, to) <==> exists|id: Seq<char>|
            (#[trigger] as_of(v, "__links__"@, id, seq)) matches Some(n) && is_link(
                n,
                from,
                rel,
                to,
            ));
    }
}

/// Linking: names that were linked are linked, and found from both ends; no
/// other document changes. Where linking fails, the error says so.
pub proof fn lemma_link_made(
    v: DbV,
    from: Seq<char>,
    rel: Seq<char>,
    to: Seq<char>,
    r: Result<(), CoreError>,
    w: DbV,
)
    requires
        link_made(v, from, rel, to, r, w),
        r is Ok,
        id_wf(w.ids),
        unquotable(from),
        unquotable(rel),
        unquotable(to),
        forall|ts: Num, node: Node| #[trigger]
            core_link(v, link_version(v, from, rel, to, ts), ts, Ok(node), r, w) ==> reads_back(
                v,
                node@,
            ),
    ensures
        neighbors_of(w, None, from, rel).contains(to),
        inbound_of(w, None, to, rel).contains(from),
        w.seq == v.seq + 1,
        forall|c: Seq<char>, i: Seq<char>|
            (c, i) != ("__links__"@, link_id(from, rel, to)) ==> #[trigger] hash_of(w.ids, c, i)
                == hash_of(v.ids, c, i),
{
    let (ts, outcome) = choose|ts: Num, outcome: Result<Node, StoreError>| #[trigger]
        core_link(v, link_version(v, from, rel, to, ts), ts, outcome, r, w);
    if let Ok(node) = outcome {
        assert(core_link(v, link_version(v, from, rel, to, ts), ts, Ok(node), r, w));
        lemma_put_asked(
            v,
            "__links__"@,
            link_id(from, rel, to),
            link_doc(from, rel, to),
            Seq::empty(),
            None,
            None,
            ts,
            node,
            w,
        );
        lemma_link_fields(from, rel, to);
        let n = current(w, "__links__"@, link_id(from, rel, to))->0;
        assert(is_link(n, from, rel, to));
        assert(is_linked(w, from, rel, to));
        lemma_links_found(w, from, rel, to);
    }
}

/// Links of different names, or by different relations, are different documents
/// where no name before the last has a bar in it.
pub proof fn lemma_link_ids(
    a: Seq<char>,
    r: Seq<char>,
    b: Seq<char>,
    c: Seq<char>,
    s: Seq<char>,
    d: Seq<char>,
)
    requires
        !a.contains('|') && !r.contains('|') && !c.contains('|') && !s.contains('|'),
        link_id(a, r, b) == link_id(c, s, d),
    ensures
        a == c && r == s && b == d,
{
    reveal_strlit("|");
    let x = r + "|"@ + b;
    let y = s + "|"@ + d;
    assert(link_id(a, r, b) =~= a + seq!['|'] + x);
    assert(link_id(c, s, d) =~= c + seq!['|'] + y);
    lemma_bar(a, x, c, y);
    assert(x =~= r + seq!['|'] + b);
    assert(y =~= s + seq!['|'] + d);
    lemma_bar(r, b, s, d);
}

proof fn lemma_bar(a: Seq<char>, x: Seq<char>, c: Seq<char>, y: Seq<char>)
    requires
        !a.contains('|') && !c.contains('|'),
        a + seq!['|'] + x == c + seq!['|'] + y,
    ensures
        a == c && x == y,
{
    let s = a + seq!['|'] + x;
    let t = c + seq!['|'] + y;
    assert(s[a.len() as int] == '|' && t[c.len() as int] == '|');
    if a.len() < c.len() {
        assert(t[a.len() as int] == c[a.len() as int]);
        assert(c.contains('|'));
    }
    if c.len() < a.len() {
        assert(s[c.len() as int] == a[c.len() as int]);
        assert(a.contains('|'));
    }
    assert forall|i: int| 0 <= i < a.len() implies a[i] == c[i] by {
        assert(s[i] == a[i] && t[i] == c[i]);
    }
    assert(a =~= c);
    assert(s.len() == t.len());
    assert forall|i: int| 0 <= i < x.len() implies x[i] == y[i] by {
        assert(s[a.len() + 1 + i] == x[i] && t[c.len() + 1 + i] == y[i]);
    }
    assert(x =~= y);
}

/// Deleting: where it succeeds, the document has no current version and is not
/// listed, and every other document is as it was; so it is no error to delete
/// what is not there.
pub proof fn lemma_doc_deleted(
    v: DbV,
    coll: Seq<char>,
    id: Seq<char>,
    r: Result<(), CoreError>,
    w: DbV,
)
    requires
        doc_deleted(v, coll, id, r, w),
        id_wf(v.ids),
    ensures
        r is Ok ==> hash_of(w.ids, coll, id) is None && current(w, coll, id) is None,
        r is Ok && hash_of(v.ids, coll, id) is Some ==> !ids_in(w.ids, coll).contains(id) && w.seq
            == v.seq + 1,
        hash_of(v.ids, coll, id) is None ==> r is Ok && w == v,
        forall|c: Seq<char>, i: Seq<char>|
            (c, i) != (coll, id) ==> #[trigger] hash_of(w.ids, c, i) == hash_of(v.ids, c, i),
{
    let (ts, outcome) = choose|ts: Num, outcome: Result<bool, StoreError>| #[trigger]
        core_delete(v, coll, id, ts, outcome, r, w);
    if hash_of(v.ids, coll, id) is Some && outcome is Ok {
        lemma_deleted(v, coll, id, ts, w);
    }
}

/// A deletion is noted: an object says which document was deleted, in which
/// collection, by which write and when, and leads to the version that was
/// current until then. It was caused by nothing, and it is not a version of the
/// document.
pub proof fn lemma_deletion_noted(
    v: DbV,
    coll: Seq<char>,
    id: Seq<char>,
    prev: Seq<char>,
    ts: Num,
    hash: Seq<char>,
    w: DbV,
)
    requires
        delete_step(v, coll, id, prev, ts, hash, w),
    ensures
        version(w.objects, hash) matches Some(n) && n.hash == hash && n.coll == coll && n.id != id
            && n.prev == Some(prev) && n.seq == v.seq && n.ts == ts && n.caused_by.len() == 0
            && n.valid_from is None && n.valid_to is None && json_get(n.data, "_deleted"@) == Some(
            Json::Text(id),
        ) && json_get(n.data, "_prev"@) == Some(Json::Text(prev)),
        w.graph == v.graph,
{
    let n = crate::db::tombstone(v, coll, id, prev, ts);
    lemma_tombstone_storable(v, coll, id, prev, ts);
    lemma_read_back(v.objects, n, hash, w.objects);
    reveal_strlit("_deleted");
    reveal_strlit("_prev");
    reveal_strlit("_del_");
    assert("_del_"@.len() == 5);
    assert(n.id.len() == id.len() + 5);
    assert("_deleted"@.len() != "_prev"@.len());
    let fields = seq![("_deleted"@, Json::Text(id)), ("_prev"@, Json::Text(prev))];
    assert(names_differ(fields));
    lemma_object(fields);
    assert(fields[0].0 == "_deleted"@ && fields[1].0 == "_prev"@);
}

/// Ending a link: the document of the link has no current version afterwards.
pub proof fn lemma_link_ended(
    v: DbV,
    from: Seq<char>,
    rel: Seq<char>,
    to: Seq<char>,
    r: Result<(), CoreError>,
    w: DbV,
)
    requires
        link_ended(v, from, rel, to, r, w),
        r is Ok,
        id_wf(v.ids),
    ensures
        current(w, "__links__"@, link_id(from, rel, to)) is None,
        forall|c: Seq<char>, i: Seq<char>|
            (c, i) != ("__links__"@, link_id(from, rel, to)) ==> #[trigger] hash_of(w.ids, c, i)
                == hash_of(v.ids, c, i),
{
    lemma_doc_deleted(v, "__links__"@, link_id(from, rel, to), r, w);
}

/// All is well with a database just where every object that it has can be read.
pub proof fn lemma_all_readable(v: ObjV)
    ensures
        all_readable(v) <==> forall|hash: Seq<char>| #[trigger]
            all_keys(v).contains(hash) ==> read_result(v, hash) is Ok,
{
    let bad = unreadable(v, all_keys(v));
    if bad.len() > 0 {
        assert(bad.contains(bad[0]));
        lemma_verify_finds(v, all_keys(v), bad[0]);
    } else {
        assert forall|hash: Seq<char>| #[trigger] all_keys(v).contains(hash) implies read_result(
            v,
            hash,
        ) is Ok by {
            lemma_verify_finds(v, all_keys(v), hash);
        }
    }
}

/// The number of the last write is one less than that of the next one.
pub proof fn lemma_last_seq(v: DbV)
    ensures
        v.seq > 0 ==> last_seq(v) + 1 == v.seq,
        v.seq == 0 ==> last_seq(v) == 0,
{
}

/// A document is given as a text where it has a version, and not otherwise.
pub proof fn lemma_text_given(n: Option<NodeV>)
    ensures
        n is None <==> opt_core_text(n) is None,
        n matches Some(x) ==> opt_core_text(n) == Some(json_chars(core_row(x))),
{
}

/// Indexes through a server: an index can be of two kinds, and is made of the
/// documents that there are. Where the indexes of a database say what its
/// documents are, they still do. No document changes, and no other database;
/// and for an unknown kind nothing does.
pub proof fn lemma_index_request(
    v: ManagerV,
    auth: Option<Seq<char>>,
    name: Seq<char>,
    coll: Seq<char>,
    field: Seq<char>,
    kind: Option<Seq<char>>,
    r: ReplyV,
    w: ManagerV,
)
    requires
        index_answered(v, auth, name, coll, field, kind, r, w),
    ensures
        r.status == 200 <==> (v.token is None || auth == Some("Bearer "@ + v.token->0))
            && v.dbs.contains_key(name) && (kind is None || kind == Some("sorted"@) || kind == Some(
            "eq"@,
        )),
        r.status != 200 ==> w == v && (r.status == 400 || r.status == 401 || r.status == 404),
        r.status == 200 && indexes_exact(v.dbs[name]) && id_wf(v.dbs[name].ids) && hashes_true(
            v.dbs[name],
        ) ==> indexes_exact(w.dbs[name]),
        r.status == 200 ==> w.dbs.contains_key(name) && w.dbs[name].ids == v.dbs[name].ids
            && w.dbs[name].objects == v.dbs[name].objects && w.dbs[name].graph == v.dbs[name].graph
            && w.dbs[name].seq == v.dbs[name].seq && w.dbs[name].head == v.dbs[name].head,
        forall|other: Seq<char>|
            other != name ==> #[trigger] w.dbs.contains_key(other) == v.dbs.contains_key(other)
                && w.dbs[other] == v.dbs[other],
{
    if r.status == 200 && indexes_exact(v.dbs[name]) && id_wf(v.dbs[name].ids) && hashes_true(
        v.dbs[name],
    ) {
        lemma_new_index_exact(v.dbs[name], coll, field);
    }
}

/// The log through a server: for one who may ask, of a database that is there,
/// as many of the latest versions as are asked for, or fifty; and how the
/// database stands, which is also what a request for a snapshot is told.
pub proof fn lemma_log_request(
    v: ManagerV,
    auth: Option<Seq<char>>,
    name: Seq<char>,
    limit: Option<usize>,
)
    ensures
        ({
            let may = (v.token is None || auth == Some("Bearer "@ + v.token->0))
                && v.dbs.contains_key(name);
            let r = log_reply(v, auth, name, limit);
            let c = checkpoint_reply(v, auth, name);
            let seq = Json::Number(Num::Int(v.dbs[name].seq as int));
            let head = Json::Text(v.dbs[name].head);
            &&& r.status == 200 <==> may
            &&& c.status == 200 <==> may
            &&& may ==> json_get(r.body, "seq"@) == Some(seq) && json_get(r.body, "head"@) == Some(
                head,
            ) && json_get(c.body, "seq"@) == Some(seq) && json_get(c.body, "head"@) == Some(head)
            &&& may && limit is None ==> json_get(r.body, "log"@) == Some(
                Json::Array(log_rows(v.dbs[name], 50)),
            )
            &&& limit matches Some(n) ==> may ==> json_get(r.body, "log"@) == Some(
                Json::Array(log_rows(v.dbs[name], n)),
            )
        }),
{
    reveal_strlit("log");
    reveal_strlit("ok");
    reveal_strlit("seq");
    reveal_strlit("head");
    let n = match limit {
        Some(n) => n,
        None => 50usize,
    };
    let db = v.dbs[name];
    let fields = seq![("log"@, Json::Array(log_rows(db, n)))] + standing(db);
    assert(fields.len() == 3);
    assert(fields[0].0 == "log"@ && fields[1].0 == "seq"@ && fields[2].0 == "head"@);
    assert("log"@[0] == 'l' && "seq"@[0] == 's' && "head"@[0] == 'h');
    assert(names_differ(fields));
    lemma_object(fields);
    let told = seq![("ok"@, Json::Bool(true))] + standing(db);
    assert(told.len() == 3);
    assert(told[0].0 == "ok"@ && told[1].0 == "seq"@ && told[2].0 == "head"@);
    assert("ok"@[0] == 'o');
    assert(names_differ(told));
    lemma_object(told);
}

/// Live queries through a server: one who may ask, of a database that is there,
/// listens to the query from then on under a number of its own; for anyone else
/// nothing changes.
pub proof fn lemma_subscribe_request(
    v: ManagerV,
    auth: Option<Seq<char>>,
    name: Seq<char>,
    nql: Seq<char>,
    r: Result<u64, Reply>,
    w: ManagerV,
)
    requires
        subscribe_answered(v, auth, name, nql, r, w),
    ensures
        r is Ok <==> (v.token is None || auth == Some("Bearer "@ + v.token->0))
            && v.dbs.contains_key(name),
        r matches Ok(id) ==> w.subs.contains_key(decimal(id as nat)) && w.subs[decimal(
            id as nat,
        )].nql == nql && w.subs[decimal(id as nat)].db == name && w.subs[decimal(id as nat)].id
            == id,
        r is Err ==> w == v,
        w.dbs == v.dbs,
{
}

} // verus!
