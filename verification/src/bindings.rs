//! The database as other languages see it: documents go in and come out as
//! JSON text, and links are documents of a collection of their own.

use vstd::prelude::*;
#[allow(unused_imports)]
use vstd::string::StringExecFns;
use vstd::utf8::encode_utf8;
use crate::db::{
    as_of, backfilled, current, delete_outcome, doc_fields, empty_db, float_time, new_version,
    open_outcome, put_outcome, Db, DbFiles, DbV,
};
use crate::index::{change_for, ids_in, opt_text, IdChange, IdV};
use crate::json::{
    field_set, fields_view, json_chars, json_get, json_parse, object, object_of, to_text, Json,
    JsonValue, Num, Number,
};
use crate::migrate::{field_text, text_of_field};
use crate::node::{strings, Node, NodeV};
use crate::nql::{answer_of, fields_of, put_field, query, to_object, Answer, AnswerV, NqlError};
use crate::parser::parsed;
use crate::segment::SegmentFile;
use crate::store::{all_keys, held_objects, unreadable, LooseFile, ObjV, StoreError};
use crate::text::{decimal, decimal_text, same_text};

verus! {

/// Why a call failed.
#[derive(Debug)]
pub enum CoreError {
    /// The document is not JSON.
    Json,
    /// The document could not be written.
    Store(StoreError),
    /// The query could not be read.
    Nql(NqlError),
}

/// The number of the last write; zero before any.
pub open spec fn last_seq(v: DbV) -> u64 {
    if v.seq == 0 {
        0
    } else {
        (v.seq - 1) as u64
    }
}

/// The document of a version with its id, hash, number and collection.
pub open spec fn core_row(n: NodeV) -> Json {
    let a = field_set(doc_fields(n.data), "_id"@, Json::Text(n.id));
    let b = field_set(a, "_hash"@, Json::Text(n.hash));
    let c = field_set(b, "_seq"@, Json::Number(Num::Int(n.seq as int)));
    Json::Object(field_set(c, "_coll"@, Json::Text(n.coll)))
}

/// The text of a version.
pub open spec fn core_text(n: NodeV) -> Seq<char> {
    json_chars(core_row(n))
}

/// The text of a version, if there is one.
pub open spec fn opt_core_text(n: Option<NodeV>) -> Option<Seq<char>> {
    match n {
        Some(x) => Some(core_text(x)),
        None => None,
    }
}

fn node_to_json_str(n: &Node) -> (r: String)
    requires
        n.wf(),
    ensures
        r@ == core_text(n@),
{
    let mut fields = fields_of(&n.data);
    put_field(&mut fields, "_id", JsonValue::Text(n.id.clone()));
    put_field(&mut fields, "_hash", JsonValue::Text(n.hash.clone()));
    put_field(&mut fields, "_seq", JsonValue::Number(Number::PosInt(n.seq)));
    put_field(&mut fields, "_coll", JsonValue::Text(n.coll.clone()));
    to_text(&to_object(fields))
}

/// The texts among the items of an array.
pub open spec fn texts_among(items: Seq<Json>) -> Seq<Seq<char>>
    decreases items.len(),
{
    if items.len() == 0 {
        Seq::empty()
    } else {
        let before = texts_among(items.drop_last());
        match items.last() {
            Json::Text(t) => before.push(t),
            _ => before,
        }
    }
}

/// The causes that a document names.
pub open spec fn doc_causes(doc: Json) -> Seq<Seq<char>> {
    match json_get(doc, "caused_by"@) {
        Some(Json::Array(items)) => texts_among(items),
        _ => Seq::empty(),
    }
}

fn causes_in(doc: &JsonValue) -> (r: Vec<String>)
    ensures
        strings(r@) == doc_causes(doc@),
{
    let mut out: Vec<String> = Vec::new();
    assert(strings(out@) =~= Seq::<Seq<char>>::empty());
    let found = doc.get("caused_by");
    if let Some(JsonValue::Array(a)) = found {
        let ghost items = found->0@->Array_0;
        let mut i: usize = 0;
        while i < a.len()
            invariant
                i <= a.len(),
                *found->0 == JsonValue::Array(*a),
                items == found->0@->Array_0,
                strings(out@) == texts_among(items.take(i as int)),
            decreases a.len() - i,
        {
            assert(items.take(i + 1).drop_last() =~= items.take(i as int));
            assert(items.take(i + 1).last() == a@[i as int]@);
            let ghost was = strings(out@);
            if let Some(t) = a[i].as_str() {
                out.push(t.to_owned());
                assert(strings(out@) =~= was.push(t@));
            }
            i = i + 1;
        }
        assert(items.take(i as int) =~= items);
    }
    out
}

/// The version that putting a document makes.
pub open spec fn core_version(db: DbV, coll: Seq<char>, id: Seq<char>, doc: Json, ts: Num) -> NodeV {
    new_version(
        db,
        coll,
        id,
        doc,
        doc_causes(doc),
        text_of_field(doc, "valid_from"@),
        text_of_field(doc, "valid_to"@),
        ts,
    )
}

/// Whether putting a document came to this.
pub open spec fn core_put(
    v: DbV,
    coll: Seq<char>,
    id: Seq<char>,
    text: Seq<char>,
    ts: Num,
    outcome: Result<Node, StoreError>,
    r: Result<String, CoreError>,
    w: DbV,
) -> bool {
    match json_parse(encode_utf8(text)) {
        None => r matches Err(e) && e is Json && w == v,
        Some(doc) => {
            &&& float_time(ts)
            &&& put_outcome(v, core_version(v, coll, id, doc, ts), outcome, w)
            &&& match outcome {
                Ok(n) => r matches Ok(t) && t@ == core_text(n@),
                Err(x) => r matches Err(CoreError::Store(e)) && e == x,
            }
        },
    }
}

/// The id of a link.
pub open spec fn link_id(from: Seq<char>, rel: Seq<char>, to: Seq<char>) -> Seq<char> {
    from + "|"@ + rel + "|"@ + to
}

/// The document of a link.
pub open spec fn link_doc(from: Seq<char>, rel: Seq<char>, to: Seq<char>) -> Json {
    object_of(
        seq![
            ("_from"@, Json::Text(from)),
            ("_rel"@, Json::Text(rel)),
            ("_to"@, Json::Text(to)),
        ],
    )
}

/// The version that linking makes.
pub open spec fn link_version(
    db: DbV,
    from: Seq<char>,
    rel: Seq<char>,
    to: Seq<char>,
    ts: Num,
) -> NodeV {
    new_version(
        db,
        "__links__"@,
        link_id(from, rel, to),
        link_doc(from, rel, to),
        Seq::empty(),
        None,
        None,
        ts,
    )
}

/// Whether linking came to this.
pub open spec fn core_link(
    v: DbV,
    n: NodeV,
    ts: Num,
    outcome: Result<Node, StoreError>,
    r: Result<(), CoreError>,
    w: DbV,
) -> bool {
    &&& float_time(ts)
    &&& put_outcome(v, n, outcome, w)
    &&& match outcome {
        Ok(_) => r is Ok,
        Err(x) => r matches Err(CoreError::Store(e)) && e == x,
    }
}

/// Whether deleting came to this.
pub open spec fn core_delete(
    v: DbV,
    coll: Seq<char>,
    id: Seq<char>,
    ts: Num,
    outcome: Result<bool, StoreError>,
    r: Result<(), CoreError>,
    w: DbV,
) -> bool {
    &&& float_time(ts)
    &&& delete_outcome(v, coll, id, ts, outcome, w)
    &&& match outcome {
        Ok(_) => r is Ok,
        Err(x) => r matches Err(CoreError::Store(e)) && e == x,
    }
}

/// What linking two names by a relation comes to.
pub open spec fn link_made(
    v: DbV,
    from: Seq<char>,
    rel: Seq<char>,
    to: Seq<char>,
    r: Result<(), CoreError>,
    w: DbV,
) -> bool {
    exists|ts: Num, outcome: Result<Node, StoreError>| #[trigger]
        core_link(v, link_version(v, from, rel, to, ts), ts, outcome, r, w)
}

/// What deleting a document comes to.
pub open spec fn doc_deleted(
    v: DbV,
    coll: Seq<char>,
    id: Seq<char>,
    r: Result<(), CoreError>,
    w: DbV,
) -> bool {
    exists|ts: Num, outcome: Result<bool, StoreError>| #[trigger]
        core_delete(v, coll, id, ts, outcome, r, w)
}

/// What ending the link of two names comes to.
pub open spec fn link_ended(
    v: DbV,
    from: Seq<char>,
    rel: Seq<char>,
    to: Seq<char>,
    r: Result<(), CoreError>,
    w: DbV,
) -> bool {
    doc_deleted(v, "__links__"@, link_id(from, rel, to), r, w)
}

/// What a name is linked to, now or at a write.
pub open spec fn neighbors_of(v: DbV, as_of: Option<u64>, from: Seq<char>, rel: Seq<char>) -> Seq<
    Seq<char>,
> {
    other_ends(v, link_query(as_of, "_from"@, from, rel), "_to"@)
}

/// What is linked to a name, now or at a write.
pub open spec fn inbound_of(v: DbV, as_of: Option<u64>, to: Seq<char>, rel: Seq<char>) -> Seq<
    Seq<char>,
> {
    other_ends(v, link_query(as_of, "_to"@, to, rel), "_from"@)
}

/// Whether all objects can be read.
pub open spec fn all_readable(v: ObjV) -> bool {
    unreadable(v, all_keys(v)).len() == 0
}

/// The query for links with one end, now or at a write.
pub open spec fn link_query(
    as_of: Option<u64>,
    end: Seq<char>,
    name: Seq<char>,
    rel: Seq<char>,
) -> Seq<char> {
    let head = match as_of {
        Some(n) => "FROM __links__ AS OF "@ + decimal(n as nat) + " WHERE "@,
        None => "FROM __links__ WHERE "@,
    };
    head + end + " = \""@ + name + "\" AND _rel = \""@ + rel + "\""@
}

/// The texts under a key among rows.
pub open spec fn texts_under(rows: Seq<Json>, key: Seq<char>) -> Seq<Seq<char>>
    decreases rows.len(),
{
    if rows.len() == 0 {
        Seq::empty()
    } else {
        let before = texts_under(rows.drop_last(), key);
        match json_get(rows.last(), key) {
            Some(Json::Text(t)) => before.push(t),
            _ => before,
        }
    }
}

/// The texts under a key among the rows of an answer. The rows of groups have
/// the text of each group under the field that they are grouped by.
pub open spec fn answer_texts(a: AnswerV, key: Seq<char>) -> Seq<Seq<char>> {
    match a {
        AnswerV::Rows(rows) => texts_under(rows, key),
        AnswerV::Totals(field, _, groups) => if field == key {
            groups.map_values(|g: crate::nql::GroupV| g.key)
        } else {
            Seq::empty()
        },
    }
}

/// The other ends of the links that a query finds; none where the query cannot
/// be read.
pub open spec fn other_ends(db: DbV, text: Seq<char>, key: Seq<char>) -> Seq<Seq<char>> {
    match parsed(text) {
        Ok(q) => answer_texts(answer_of(db, q), key),
        Err(_) => Seq::empty(),
    }
}

/// The query for links with one end.
fn query_for_links(as_of: Option<u64>, end: &str, name: &str, rel: &str) -> (r: String)
    ensures
        r@ == link_query(as_of, end@, name@, rel@),
{
    let mut text = match as_of {
        Some(n) => {
            let mut head = "FROM __links__ AS OF ".to_owned();
            head.append(decimal_text(n).as_str());
            head.append(" WHERE ");
            head
        },
        None => "FROM __links__ WHERE ".to_owned(),
    };
    text.append(end);
    text.append(" = \"");
    text.append(name);
    text.append("\" AND _rel = \"");
    text.append(rel);
    text.append("\"");
    text
}

/// The texts under a key among the rows of an answer.
fn texts_in(answer: &Answer, key: &str) -> (r: Vec<String>)
    ensures
        strings(r@) == answer_texts(answer@, key@),
{
    let mut out: Vec<String> = Vec::new();
    assert(strings(out@) =~= Seq::<Seq<char>>::empty());
    match answer {
        Answer::Rows(rows) => {
            let ghost all = crate::nql::values_view(rows@);
            let mut i: usize = 0;
            while i < rows.len()
                invariant
                    i <= rows.len(),
                    all == crate::nql::values_view(rows@),
                    strings(out@) == texts_under(all.take(i as int), key@),
                decreases rows.len() - i,
            {
                assert(all.take(i + 1).drop_last() =~= all.take(i as int));
                assert(all.take(i + 1).last() == rows@[i as int]@);
                let ghost was = strings(out@);
                if let Some(JsonValue::Text(t)) = rows[i].get(key) {
                    out.push(t.clone());
                    assert(strings(out@) =~= was.push(t@));
                }
                i = i + 1;
            }
            assert(all.take(i as int) =~= all);
        },
        Answer::Totals(t) => {
            if same_text(t.field.as_str(), key) {
                let ghost all = crate::nql::groups_view(t.groups@);
                let ghost want = all.map_values(|g: crate::nql::GroupV| g.key);
                let mut i: usize = 0;
                while i < t.groups.len()
                    invariant
                        i <= t.groups.len(),
                        all == crate::nql::groups_view(t.groups@),
                        want == all.map_values(|g: crate::nql::GroupV| g.key),
                        strings(out@) == want.take(i as int),
                    decreases t.groups.len() - i,
                {
                    let ghost was = strings(out@);
                    out.push(t.groups[i].key.clone());
                    assert(strings(out@) =~= was.push(want[i as int]));
                    assert(want.take(i + 1) =~= was.push(want[i as int]));
                    i = i + 1;
                }
                assert(want.take(i as int) =~= want);
            }
        },
    }
    out
}

/// A database as other languages see it.
pub struct NedbCore {
    inner: Db,
}

impl View for NedbCore {
    type V = DbV;

    closed spec fn view(&self) -> DbV {
        self.inner@
    }
}

impl NedbCore {
    pub closed spec fn wf(&self) -> bool {
        self.inner.wf()
    }

    /// A database that is not kept in files.
    pub fn new() -> (r: NedbCore)
        ensures
            r.wf(),
            r@ == empty_db(),
    {
        NedbCore { inner: Db::in_memory() }
    }

    /// Opens the database that files hold.
    pub fn open(files: DbFiles) -> (r: Result<NedbCore, CoreError>)
        ensures
            match r {
                Ok(c) => c.wf() && open_outcome(files, None, Ok(c@)),
                Err(CoreError::Store(e)) => open_outcome(files, None, Err(e)),
                Err(_) => false,
            },
    {
        match Db::open(files, None) {
            Ok(db) => Ok(NedbCore { inner: db }),
            Err(e) => Err(CoreError::Store(e)),
        }
    }

    /// Makes an index for a field. An index of every kind is a sorted one.
    #[allow(unused_variables)]
    pub fn create_index(&mut self, coll: &str, field: &str, kind: &str)
        requires
            old(self).wf(),
        ensures
            final(self).wf(),
            final(self)@ == (DbV {
                sorted: backfilled(old(self)@, coll@, field@, ids_in(old(self)@.ids, coll@)),
                ..old(self)@
            }),
    {
        self.inner.create_sorted_index(coll, field);
    }

    /// Puts a document. Gives the document as it was stored.
    pub fn put(&mut self, coll: &str, id: &str, doc_json: &str) -> (r: Result<String, CoreError>)
        requires
            old(self).wf(),
        ensures
            final(self).wf(),
            exists|ts: Num, outcome: Result<Node, StoreError>| #[trigger]
                core_put(old(self)@, coll@, id@, doc_json@, ts, outcome, r, final(self)@),
    {
        let ghost v = self@;
        let doc = match crate::json::parse(doc_json.as_bytes()) {
            Some(d) => d,
            None => {
                let r = Err(CoreError::Json);
                assert(core_put(
                    v,
                    coll@,
                    id@,
                    doc_json@,
                    arbitrary(),
                    arbitrary(),
                    r,
                    self@,
                ));
                return r;
            },
        };
        let ghost d = doc@;
        let causes = causes_in(&doc);
        let valid_from = field_text(&doc, "valid_from");
        let valid_to = field_text(&doc, "valid_to");
        let outcome = self.inner.put(coll, id, doc, causes, valid_from, valid_to);
        let ghost ts = choose|ts: Num| #[trigger]
            float_time(ts) && put_outcome(v, core_version(v, coll@, id@, d, ts), outcome, self@);
        let r = match &outcome {
            Ok(n) => Ok(node_to_json_str(n)),
            Err(e) => Err(CoreError::Store(*e)),
        };
        assert(core_put(v, coll@, id@, doc_json@, ts, outcome, r, self@));
        r
    }

    /// Puts a document. Who asks for it, under which number and key, is not
    /// kept.
    #[allow(unused_variables)]
    pub fn put_ex(
        &mut self,
        coll: &str,
        id: &str,
        doc_json: &str,
        client: Option<&str>,
        nonce: Option<u64>,
        idem: Option<&str>,
    ) -> (r: Result<String, CoreError>)
        requires
            old(self).wf(),
        ensures
            final(self).wf(),
            exists|ts: Num, outcome: Result<Node, StoreError>| #[trigger]
                core_put(old(self)@, coll@, id@, doc_json@, ts, outcome, r, final(self)@),
    {
        self.put(coll, id, doc_json)
    }

    /// Deletes a document.
    pub fn delete(&mut self, coll: &str, id: &str) -> (r: Result<(), CoreError>)
        requires
            old(self).wf(),
        ensures
            final(self).wf(),
            doc_deleted(old(self)@, coll@, id@, r, final(self)@),
    {
        let ghost v = self@;
        let outcome = self.inner.delete(coll, id);
        let ghost ts = choose|ts: Num| #[trigger]
            float_time(ts) && delete_outcome(v, coll@, id@, ts, outcome, self@);
        let r = match &outcome {
            Ok(_) => Ok(()),
            Err(e) => Err(CoreError::Store(*e)),
        };
        assert(core_delete(v, coll@, id@, ts, outcome, r, self@));
        r
    }

    /// Deletes a document. Who asks for it, under which number and key, is not
    /// kept.
    #[allow(unused_variables)]
    pub fn delete_ex(
        &mut self,
        coll: &str,
        id: &str,
        client: Option<&str>,
        nonce: Option<u64>,
        idem: Option<&str>,
    ) -> (r: Result<(), CoreError>)
        requires
            old(self).wf(),
        ensures
            final(self).wf(),
            doc_deleted(old(self)@, coll@, id@, r, final(self)@),
    {
        self.delete(coll, id)
    }

    /// Links two names by a relation.
    pub fn link(&mut self, frm: &str, rel: &str, to: &str) -> (r: Result<(), CoreError>)
        requires
            old(self).wf(),
        ensures
            final(self).wf(),
            link_made(old(self)@, frm@, rel@, to@, r, final(self)@),
    {
        let ghost v = self@;
        let fields = vec![
            ("_from".to_owned(), JsonValue::Text(frm.to_owned())),
            ("_rel".to_owned(), JsonValue::Text(rel.to_owned())),
            ("_to".to_owned(), JsonValue::Text(to.to_owned())),
        ];
        assert(fields_view(fields@) =~= seq![
            ("_from"@, Json::Text(frm@)),
            ("_rel"@, Json::Text(rel@)),
            ("_to"@, Json::Text(to@)),
        ]);
        let id = id_for_link(frm, rel, to);
        let causes: Vec<String> = Vec::new();
        assert(strings(causes@) =~= Seq::<Seq<char>>::empty());
        let outcome = self.inner.put("__links__", id.as_str(), object(fields), causes, None, None);
        let ghost ts = choose|ts: Num| #[trigger]
            float_time(ts) && put_outcome(
                v,
                link_version(v, frm@, rel@, to@, ts),
                outcome,
                self@,
            );
        let r = match &outcome {
            Ok(_) => Ok(()),
            Err(e) => Err(CoreError::Store(*e)),
        };
        assert(core_link(v, link_version(v, frm@, rel@, to@, ts), ts, outcome, r, self@));
        r
    }

    /// Ends a link.
    pub fn unlink(&mut self, frm: &str, rel: &str, to: &str) -> (r: Result<(), CoreError>)
        requires
            old(self).wf(),
        ensures
            final(self).wf(),
            link_ended(old(self)@, frm@, rel@, to@, r, final(self)@),
    {
        self.delete("__links__", id_for_link(frm, rel, to).as_str())
    }

    /// The current version of a document.
    pub fn get(&self, coll: &str, id: &str) -> (r: Option<String>)
        requires
            self.wf(),
        ensures
            opt_text(r) == opt_core_text(current(self@, coll@, id@)),
    {
        match self.inner.get(coll, id) {
            Some(n) => Some(node_to_json_str(&n)),
            None => None,
        }
    }

    /// The version of a document that was current at a write.
    pub fn get_as_of(&self, coll: &str, id: &str, seq: u64) -> (r: Option<String>)
        requires
            self.wf(),
        ensures
            opt_text(r) == opt_core_text(as_of(self@, coll@, id@, seq)),
    {
        match self.inner.get_as_of(coll, id, seq) {
            Some(n) => Some(node_to_json_str(&n)),
            None => None,
        }
    }

    /// Runs a query.
    pub fn query(&self, nql: &str) -> (r: Result<Answer, CoreError>)
        requires
            self.wf(),
        ensures
            match parsed(nql@) {
                Ok(q) => r matches Ok(a) && a.wf() && a@ == answer_of(self@, q),
                Err(e) => r matches Err(CoreError::Nql(x)) && x@ == e,
            },
    {
        match query(&self.inner, nql) {
            Ok((answer, _)) => Ok(answer),
            Err(e) => Err(CoreError::Nql(e)),
        }
    }

    /// The other ends of links, now or at a write.
    fn ends(&self, as_of: Option<u64>, end: &str, name: &str, rel: &str, other: &str) -> (r: Vec<
        String,
    >)
        requires
            self.wf(),
        ensures
            strings(r@) == other_ends(self@, link_query(as_of, end@, name@, rel@), other@),
    {
        let text = query_for_links(as_of, end, name, rel);
        match query(&self.inner, text.as_str()) {
            Ok((answer, _)) => texts_in(&answer, other),
            Err(_) => {
                let none: Vec<String> = Vec::new();
                assert(strings(none@) =~= Seq::<Seq<char>>::empty());
                none
            },
        }
    }

    /// What a name is linked to by a relation.
    pub fn neighbors(&self, frm: &str, rel: &str) -> (r: Vec<String>)
        requires
            self.wf(),
        ensures
            strings(r@) == neighbors_of(self@, None, frm@, rel@),
    {
        self.ends(None, "_from", frm, rel, "_to")
    }

    /// What a name was linked to by a relation at a write.
    pub fn neighbors_as_of(&self, frm: &str, rel: &str, seq: u64) -> (r: Vec<String>)
        requires
            self.wf(),
        ensures
            strings(r@) == neighbors_of(self@, Some(seq), frm@, rel@),
    {
        self.ends(Some(seq), "_from", frm, rel, "_to")
    }

    /// What is linked to a name by a relation.
    pub fn inbound(&self, to: &str, rel: &str) -> (r: Vec<String>)
        requires
            self.wf(),
        ensures
            strings(r@) == inbound_of(self@, None, to@, rel@),
    {
        self.ends(None, "_to", to, rel, "_from")
    }

    /// What was linked to a name by a relation at a write.
    pub fn inbound_as_of(&self, to: &str, rel: &str, seq: u64) -> (r: Vec<String>)
        requires
            self.wf(),
        ensures
            strings(r@) == inbound_of(self@, Some(seq), to@, rel@),
    {
        self.ends(Some(seq), "_to", to, rel, "_from")
    }

    /// Whether all objects can be read.
    pub fn verify(&self) -> (r: bool)
        requires
            self.wf(),
        ensures
            r == all_readable(self@.objects),
    {
        let (_, bad) = self.inner.verify();
        assert(strings(bad@).len() == bad@.len());
        bad.len() == 0
    }

    /// Whether all objects can be read in the files as they stand.
    pub fn verify_files(&self, loose: Vec<LooseFile>, segments: Option<Vec<SegmentFile>>) -> (r:
        bool)
        requires
            self.wf(),
        ensures
            r == all_readable(held_objects(loose, segments, self@.objects.dek)),
    {
        let (_, bad) = self.inner.verify_files(loose, segments);
        assert(strings(bad@).len() == bad@.len());
        bad.len() == 0
    }

    /// The digest that all writes are chained into.
    pub fn head(&self) -> (r: String)
        ensures
            r@ == self@.head,
    {
        self.inner.head()
    }

    /// The number of the last write; zero before any.
    pub fn seq(&self) -> (r: u64)
        ensures
            r == last_seq(self@),
    {
        let next = self.inner.seq();
        if next == 0 {
            0
        } else {
            next - 1
        }
    }

    /// What is to be saved in files.
    pub fn flush(&mut self) -> (r: (Vec<IdChange>, Option<Vec<u8>>))
        requires
            old(self).wf(),
        ensures
            final(self).wf(),
            final(self)@ == (DbV {
                ids: IdV { dirty: Seq::empty(), ..old(self)@.ids },
                dirty: old(self)@.dirty && old(self)@.memory,
                ..old(self)@
            }),
            r.0@.len() == old(self)@.ids.dirty.len(),
            forall|i: int|
                0 <= i < r.0@.len() ==> change_for(
                    old(self)@.ids,
                    old(self)@.ids.dirty[i],
                    #[trigger] r.0@[i],
                ),
            if old(self)@.memory || !old(self)@.dirty {
                r.1 is None
            } else {
                r.1 matches Some(b) && crate::db::manifest_read(b@) == Some(
                    (old(self)@.seq, old(self)@.head),
                )
            },
    {
        self.inner.flush_all()
    }

    /// The database itself.
    pub fn db(&self) -> (r: &Db)
        requires
            self.wf(),
        ensures
            r.wf(),
            r@ == self@,
    {
        &self.inner
    }
}

/// The id of a link.
fn id_for_link(from: &str, rel: &str, to: &str) -> (r: String)
    ensures
        r@ == link_id(from@, rel@, to@),
{
    let mut id = from.to_owned();
    id.append("|");
    id.append(rel);
    id.append("|");
    id.append(to);
    id
}

} // verus!
