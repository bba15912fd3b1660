//! Batches of operations: all writes together, then the deletions one by one,
//! and what came of each in the order of the operations.

use vstd::prelude::*;
use crate::db::{batch_outcome, delete_outcome, float_time, nodes_view, Db, DbV, PutOp};
use crate::json::{fields_view, object, object_of, Json, JsonValue, Num, Number};
use crate::node::{clone_texts, strings, Node, NodeV};
use crate::nql::{values_view, values_wf};
use crate::store::StoreError;
use crate::text::{lowercase, same_text};

verus! {

/// An operation of a batch.
#[derive(Debug)]
pub struct BatchOp {
    pub op: String,
    pub coll: Option<String>,
    pub id: Option<String>,
    pub doc: Option<JsonValue>,
    pub caused_by: Option<Vec<String>>,
}

/// What an operation does.
#[derive(Clone, Copy, Debug, PartialEq, Eq, Structural)]
pub enum OpKind {
    Put,
    Delete,
    Unknown,
}

/// What an operation does: its name counts in whatever case.
pub open spec fn op_kind(op: BatchOp) -> OpKind {
    let t = lowercase(op.op@);
    if t == "put"@ {
        OpKind::Put
    } else if t == "del"@ || t == "delete"@ {
        OpKind::Delete
    } else {
        OpKind::Unknown
    }
}

/// A text; none is the empty one.
pub open spec fn text_or_empty(s: Option<String>) -> Seq<char> {
    match s {
        Some(t) => t@,
        None => Seq::empty(),
    }
}

/// How many of the first `n` operations are of a kind.
pub open spec fn count_of(ops: Seq<BatchOp>, kind: OpKind, n: int) -> int
    decreases n,
{
    if n <= 0 {
        0
    } else if op_kind(ops[n - 1]) == kind {
        count_of(ops, kind, n - 1) + 1
    } else {
        count_of(ops, kind, n - 1)
    }
}

/// Whether this is the write that an operation asks for.
pub open spec fn is_put_for(op: BatchOp, p: PutOp) -> bool {
    &&& p.0@ == text_or_empty(op.coll)
    &&& p.1@ == text_or_empty(op.id)
    &&& p.2.wf()
    &&& p.2@ == match op.doc {
        Some(d) => d@,
        None => Json::Object(Seq::empty()),
    }
    &&& strings(p.3@) == match op.caused_by {
        Some(ts) => strings(ts@),
        None => Seq::empty(),
    }
    &&& p.4 is None
    &&& p.5 is None
}

/// Whether these are the writes that operations ask for, in their order.
pub open spec fn are_puts_of(ops: Seq<BatchOp>, ps: Seq<PutOp>) -> bool {
    &&& ps.len() == count_of(ops, OpKind::Put, ops.len() as int)
    &&& forall|i: int|
        0 <= i < ops.len() && op_kind(#[trigger] ops[i]) == OpKind::Put ==> is_put_for(
            ops[i],
            ps[count_of(ops, OpKind::Put, i)],
        )
}

/// The documents that operations delete.
pub open spec fn deletions(ops: Seq<BatchOp>) -> Seq<(Seq<char>, Seq<char>)>
    decreases ops.len(),
{
    if ops.len() == 0 {
        Seq::empty()
    } else {
        let before = deletions(ops.drop_last());
        if op_kind(ops.last()) == OpKind::Delete {
            before.push((text_or_empty(ops.last().coll), text_or_empty(ops.last().id)))
        } else {
            before
        }
    }
}

/// Whether a deletion leads from one database to another.
pub open spec fn deleted_to(
    v: DbV,
    doc: (Seq<char>, Seq<char>),
    r: Result<bool, StoreError>,
    w: DbV,
) -> bool {
    exists|ts: Num| #[trigger] float_time(ts) && delete_outcome(v, doc.0, doc.1, ts, r, w)
}

/// Whether deletions one after the other went through these states.
pub open spec fn all_deleted(
    states: Seq<DbV>,
    docs: Seq<(Seq<char>, Seq<char>)>,
    rs: Seq<Result<bool, StoreError>>,
) -> bool {
    &&& states.len() == docs.len() + 1
    &&& rs.len() == docs.len()
    &&& forall|i: int|
        0 <= i < docs.len() ==> deleted_to(states[i], docs[i], #[trigger] rs[i], states[i + 1])
}

/// What is said of a version that was written.
pub open spec fn put_row(n: NodeV) -> Json {
    object_of(
        seq![
            ("op"@, Json::Text("put"@)),
            ("id"@, Json::Text(n.id)),
            ("seq"@, Json::Number(Num::Int(n.seq as int))),
            ("hash"@, Json::Text(n.hash)),
        ],
    )
}

/// What is said of a deletion.
pub open spec fn delete_row(id: Seq<char>, r: Result<bool, StoreError>) -> Json {
    object_of(
        seq![
            ("op"@, Json::Text("del"@)),
            ("id"@, Json::Text(id)),
            match r {
                Ok(existed) => ("ok"@, Json::Bool(existed)),
                Err(e) => ("error"@, Json::Text(e.text())),
            },
        ],
    )
}

/// What is said of an operation that is neither.
pub open spec fn unknown_row() -> Json {
    object_of(seq![("op"@, Json::Text("unknown"@)), ("error"@, Json::Text("unknown op"@))])
}

/// What is said of the `i`th operation.
pub open spec fn result_row(
    ops: Seq<BatchOp>,
    i: int,
    ns: Seq<NodeV>,
    rs: Seq<Result<bool, StoreError>>,
) -> Json {
    match op_kind(ops[i]) {
        OpKind::Put => put_row(ns[count_of(ops, OpKind::Put, i)]),
        OpKind::Delete => delete_row(
            text_or_empty(ops[i].id),
            rs[count_of(ops, OpKind::Delete, i)],
        ),
        OpKind::Unknown => unknown_row(),
    }
}

/// What is said of each operation.
pub open spec fn result_rows(
    ops: Seq<BatchOp>,
    ns: Seq<NodeV>,
    rs: Seq<Result<bool, StoreError>>,
) -> Seq<Json> {
    Seq::new(ops.len(), |i: int| result_row(ops, i, ns, rs))
}

/// Whether the writes of a batch came to this.
pub open spec fn puts_ran(
    v: DbV,
    ops: Seq<BatchOp>,
    ps: Seq<PutOp>,
    ts: Num,
    r: Result<Vec<Node>, StoreError>,
    w: DbV,
) -> bool {
    are_puts_of(ops, ps) && float_time(ts) && batch_outcome(v, ps, ts, r, w)
}

/// Whether a batch came to this. Where the writes fail, nothing is deleted.
pub open spec fn batch_ran(
    v: DbV,
    ops: Seq<BatchOp>,
    r: Result<Seq<Json>, StoreError>,
    w: DbV,
) -> bool {
    match r {
        Err(e) => exists|ps: Seq<PutOp>, ts: Num| #[trigger]
            puts_ran(v, ops, ps, ts, Err(e), w),
        Ok(rows) => exists|
            ps: Seq<PutOp>,
            ts: Num,
            nodes: Vec<Node>,
            states: Seq<DbV>,
            rs: Seq<Result<bool, StoreError>>,
        |
            {
                &&& #[trigger] puts_ran(v, ops, ps, ts, Ok(nodes), states[0])
                &&& #[trigger] all_deleted(states, deletions(ops), rs)
                &&& w == states.last()
                &&& rows == result_rows(ops, nodes_view(nodes@), rs)
            },
    }
}

/// What an operation does.
fn kind_of(op: &BatchOp) -> (r: OpKind)
    ensures
        r == op_kind(*op),
{
    let t = op.op.as_str().to_lowercase();
    let s = t.as_str();
    if same_text(s, "put") {
        OpKind::Put
    } else if same_text(s, "del") || same_text(s, "delete") {
        OpKind::Delete
    } else {
        OpKind::Unknown
    }
}

fn owned_or_empty(s: &Option<String>) -> (r: String)
    ensures
        r@ == text_or_empty(*s),
{
    match s {
        Some(t) => t.clone(),
        None => String::new(),
    }
}

/// The write that an operation asks for.
fn put_for(op: &BatchOp) -> (r: PutOp)
    requires
        op.doc matches Some(d) ==> d.wf(),
    ensures
        is_put_for(*op, r),
{
    let doc = match &op.doc {
        Some(d) => d.clone(),
        None => object(Vec::new()),
    };
    let causes = match &op.caused_by {
        Some(ts) => clone_texts(ts),
        None => Vec::new(),
    };
    proof {
        if op.doc is None {
            assert(fields_view(Seq::empty()) =~= Seq::<(Seq<char>, Json)>::empty());
        }
        if op.caused_by is None {
            assert(strings(causes@) =~= Seq::<Seq<char>>::empty());
        }
    }
    (owned_or_empty(&op.coll), owned_or_empty(&op.id), doc, causes, None, None)
}

fn row_of_put(n: &Node) -> (r: JsonValue)
    ensures
        r.wf(),
        r@ == put_row(n@),
{
    let fields = vec![
        ("op".to_owned(), JsonValue::Text("put".to_owned())),
        ("id".to_owned(), JsonValue::Text(n.id.clone())),
        ("seq".to_owned(), JsonValue::Number(Number::PosInt(n.seq))),
        ("hash".to_owned(), JsonValue::Text(n.hash.clone())),
    ];
    assert(fields_view(fields@) =~= seq![
        ("op"@, Json::Text("put"@)),
        ("id"@, Json::Text(n@.id)),
        ("seq"@, Json::Number(Num::Int(n@.seq as int))),
        ("hash"@, Json::Text(n@.hash)),
    ]);
    object(fields)
}

fn row_of_delete(id: String, outcome: &Result<bool, StoreError>) -> (r: JsonValue)
    ensures
        r.wf(),
        r@ == delete_row(id@, *outcome),
{
    let ghost name = id@;
    let last = match outcome {
        Ok(existed) => ("ok".to_owned(), JsonValue::Bool(*existed)),
        Err(e) => ("error".to_owned(), JsonValue::Text(e.message())),
    };
    let fields = vec![
        ("op".to_owned(), JsonValue::Text("del".to_owned())),
        ("id".to_owned(), JsonValue::Text(id)),
        last,
    ];
    assert(fields_view(fields@) =~= seq![
        ("op"@, Json::Text("del"@)),
        ("id"@, Json::Text(name)),
        match *outcome {
            Ok(existed) => ("ok"@, Json::Bool(existed)),
            Err(e) => ("error"@, Json::Text(e.text())),
        },
    ]);
    object(fields)
}

fn row_of_unknown() -> (r: JsonValue)
    ensures
        r.wf(),
        r@ == unknown_row(),
{
    let fields = vec![
        ("op".to_owned(), JsonValue::Text("unknown".to_owned())),
        ("error".to_owned(), JsonValue::Text("unknown op".to_owned())),
    ];
    assert(fields_view(fields@) =~= seq![
        ("op"@, Json::Text("unknown"@)),
        ("error"@, Json::Text("unknown op"@)),
    ]);
    object(fields)
}

proof fn lemma_count_grows(ops: Seq<BatchOp>, kind: OpKind, i: int, n: int)
    requires
        0 <= i <= n <= ops.len(),
    ensures
        0 <= count_of(ops, kind, i) <= count_of(ops, kind, n),
        i < n && op_kind(ops[i]) == kind ==> count_of(ops, kind, i) < count_of(ops, kind, n),
    decreases n,
{
    if i < n {
        lemma_count_grows(ops, kind, i, n - 1);
    } else if n > 0 {
        lemma_count_grows(ops, kind, n - 1, n - 1);
    }
}

/// There is a deletion for each operation that deletes.
proof fn lemma_deletions(ops: Seq<BatchOp>, n: int)
    requires
        0 <= n <= ops.len(),
    ensures
        deletions(ops.take(n)).len() == count_of(ops, OpKind::Delete, n),
    decreases n,
{
    if n > 0 {
        lemma_deletions(ops, n - 1);
        assert(ops.take(n).drop_last() =~= ops.take(n - 1));
    }
}

/// Runs the deletions of a batch one by one.
fn run_deletions(db: &mut Db, ops: &Vec<BatchOp>, kinds: &Vec<OpKind>) -> (r: Vec<
    Result<bool, StoreError>,
>)
    requires
        old(db).wf(),
        kinds@.len() == ops@.len(),
        forall|i: int| 0 <= i < ops@.len() ==> #[trigger] kinds@[i] == op_kind(ops@[i]),
    ensures
        final(db).wf(),
        exists|states: Seq<DbV>| #[trigger]
            all_deleted(states, deletions(ops@), r@) && states[0] == old(db)@ && states.last()
                == final(db)@,
{
    let mut rs: Vec<Result<bool, StoreError>> = Vec::new();
    let ghost mut states: Seq<DbV> = seq![db@];
    let mut i: usize = 0;
    while i < ops.len()
        invariant
            i <= ops.len(),
            db.wf(),
            kinds@.len() == ops@.len(),
            forall|k: int| 0 <= k < ops@.len() ==> #[trigger] kinds@[k] == op_kind(ops@[k]),
            all_deleted(states, deletions(ops@.take(i as int)), rs@),
            states[0] == old(db)@,
            states.last() == db@,
        decreases ops.len() - i,
    {
        assert(ops@.take(i + 1).drop_last() =~= ops@.take(i as int));
        assert(ops@.take(i + 1).last() == ops@[i as int]);
        if kinds[i] == OpKind::Delete {
            let ghost before = db@;
            let ghost docs = deletions(ops@.take(i as int));
            let ghost done = rs@;
            let coll = owned_or_empty(&ops[i].coll);
            let id = owned_or_empty(&ops[i].id);
            let outcome = db.delete(coll.as_str(), id.as_str());
            rs.push(outcome);
            proof {
                assert(deleted_to(before, (coll@, id@), outcome, db@));
                let next = states.push(db@);
                let more = docs.push((coll@, id@));
                assert forall|k: int| 0 <= k < more.len() implies deleted_to(
                    next[k],
                    more[k],
                    #[trigger] rs@[k],
                    next[k + 1],
                ) by {
                    if k < docs.len() {
                        assert(rs@[k] == done[k]);
                    }
                }
                states = next;
            }
        }
        i = i + 1;
    }
    assert(ops@.take(i as int) =~= ops@);
    rs
}

/// Tells operations apart: the kind of each, and the writes among them.
fn tell_apart(ops: &Vec<BatchOp>) -> (r: (Vec<OpKind>, Vec<PutOp>))
    requires
        docs_wf(ops@),
    ensures
        r.0@.len() == ops@.len(),
        forall|i: int| 0 <= i < ops@.len() ==> #[trigger] r.0@[i] == op_kind(ops@[i]),
        are_puts_of(ops@, r.1@),
        forall|i: int| 0 <= i < r.1@.len() ==> (#[trigger] r.1@[i]).2.wf(),
{
    let mut kinds: Vec<OpKind> = Vec::new();
    let mut puts: Vec<PutOp> = Vec::new();
    let mut i: usize = 0;
    while i < ops.len()
        invariant
            i <= ops.len(),
            kinds@.len() == i,
            docs_wf(ops@),
            forall|k: int| 0 <= k < i ==> #[trigger] kinds@[k] == op_kind(ops@[k]),
            puts@.len() == count_of(ops@, OpKind::Put, i as int),
            forall|k: int|
                0 <= k < i && op_kind(#[trigger] ops@[k]) == OpKind::Put ==> is_put_for(
                    ops@[k],
                    puts@[count_of(ops@, OpKind::Put, k)],
                ),
            forall|k: int| 0 <= k < puts@.len() ==> (#[trigger] puts@[k]).2.wf(),
        decreases ops.len() - i,
    {
        let kind = kind_of(&ops[i]);
        kinds.push(kind);
        if kind == OpKind::Put {
            let ghost was = puts@;
            assert(ops@[i as int].doc matches Some(d) ==> d.wf());
            puts.push(put_for(&ops[i]));
            proof {
                assert forall|k: int|
                    0 <= k < i + 1 && op_kind(#[trigger] ops@[k]) == OpKind::Put implies is_put_for(
                    ops@[k],
                    puts@[count_of(ops@, OpKind::Put, k)],
                ) by {
                    lemma_count_grows(ops@, OpKind::Put, k, i as int);
                    if k < i {
                        let c = count_of(ops@, OpKind::Put, k);
                        assert(puts@[c] == was[c]);
                    }
                }
                assert forall|k: int| 0 <= k < puts@.len() implies (#[trigger] puts@[k]).2.wf() by {
                    if k < was.len() {
                        assert(puts@[k] == was[k]);
                    }
                }
            }
        }
        i = i + 1;
    }
    (kinds, puts)
}

/// What is said of each operation.
fn rows_for(
    ops: &Vec<BatchOp>,
    kinds: &Vec<OpKind>,
    nodes: &Vec<Node>,
    rs: &Vec<Result<bool, StoreError>>,
) -> (rows: Vec<JsonValue>)
    requires
        kinds@.len() == ops@.len(),
        forall|i: int| 0 <= i < ops@.len() ==> #[trigger] kinds@[i] == op_kind(ops@[i]),
        nodes@.len() == count_of(ops@, OpKind::Put, ops@.len() as int),
        rs@.len() == count_of(ops@, OpKind::Delete, ops@.len() as int),
    ensures
        values_wf(rows@),
        values_view(rows@) == result_rows(ops@, nodes_view(nodes@), rs@),
{
    let ghost want = result_rows(ops@, nodes_view(nodes@), rs@);
    let mut rows: Vec<JsonValue> = Vec::new();
    let mut next_put: usize = 0;
    let mut next_del: usize = 0;
    let mut j: usize = 0;
    while j < ops.len()
        invariant
            j <= ops.len(),
            kinds@.len() == ops@.len(),
            forall|k: int| 0 <= k < ops@.len() ==> #[trigger] kinds@[k] == op_kind(ops@[k]),
            nodes.len() == count_of(ops@, OpKind::Put, ops@.len() as int),
            rs.len() == count_of(ops@, OpKind::Delete, ops@.len() as int),
            next_put == count_of(ops@, OpKind::Put, j as int),
            next_del == count_of(ops@, OpKind::Delete, j as int),
            want == result_rows(ops@, nodes_view(nodes@), rs@),
            values_wf(rows@),
            values_view(rows@) == want.take(j as int),
        decreases ops.len() - j,
    {
        let ghost was = values_view(rows@);
        proof {
            lemma_count_grows(ops@, OpKind::Put, j as int, ops@.len() as int);
            lemma_count_grows(ops@, OpKind::Delete, j as int, ops@.len() as int);
        }
        let row = match kinds[j] {
            OpKind::Put => {
                let row = row_of_put(&nodes[next_put]);
                next_put = next_put + 1;
                row
            },
            OpKind::Delete => {
                let row = row_of_delete(owned_or_empty(&ops[j].id), &rs[next_del]);
                next_del = next_del + 1;
                row
            },
            OpKind::Unknown => row_of_unknown(),
        };
        rows.push(row);
        assert(values_view(rows@) =~= was.push(want[j as int]));
        assert(want.take(j + 1) =~= was.push(want[j as int]));
        j = j + 1;
    }
    assert(want.take(j as int) =~= want);
    rows
}

/// What came of a batch: rows, or an error.
pub open spec fn rows_outcome(r: Result<Vec<JsonValue>, StoreError>) -> Result<
    Seq<Json>,
    StoreError,
> {
    match r {
        Ok(rows) => Ok(values_view(rows@)),
        Err(e) => Err(e),
    }
}

pub open spec fn docs_wf(ops: Seq<BatchOp>) -> bool {
    forall|i: int| 0 <= i < ops.len() ==> ((#[trigger] ops[i]).doc matches Some(d) ==> d.wf())
}

/// Runs a batch. Gives what came of each operation, in their order.
pub fn run_batch(db: &mut Db, ops: &Vec<BatchOp>) -> (r: Result<Vec<JsonValue>, StoreError>)
    requires
        old(db).wf(),
        docs_wf(ops@),
    ensures
        final(db).wf(),
        r matches Ok(rows) ==> values_wf(rows@),
        batch_ran(old(db)@, ops@, rows_outcome(r), final(db)@),
{
    let ghost v = db@;
    let (kinds, puts) = tell_apart(ops);
    let ghost ps = puts@;
    let outcome = db.put_batch(puts);
    let ghost mid = db@;
    let ghost ts = choose|ts: Num| #[trigger]
        float_time(ts) && batch_outcome(v, ps, ts, outcome, mid);
    assert(puts_ran(v, ops@, ps, ts, outcome, mid));
    let nodes = match outcome {
        Ok(nodes) => nodes,
        Err(e) => {
            return Err(e);
        },
    };
    let rs = run_deletions(db, ops, &kinds);
    let ghost states = choose|states: Seq<DbV>| #[trigger]
        all_deleted(states, deletions(ops@), rs@) && states[0] == mid && states.last() == db@;
    proof {
        assert(ops@.take(ops@.len() as int) =~= ops@);
        lemma_deletions(ops@, ops@.len() as int);
        lemma_batch_len(v, ps, ts, nodes, mid);
    }
    let rows = rows_for(ops, &kinds, &nodes, &rs);
    proof {
        assert(puts_ran(v, ops@, ps, ts, Ok(nodes), states[0]));
        assert(all_deleted(states, deletions(ops@), rs@));
    }
    Ok(rows)
}

/// A batch of writes that goes through gives a version for each.
proof fn lemma_batch_len(v: DbV, ps: Seq<PutOp>, ts: Num, nodes: Vec<Node>, w: DbV)
    requires
        batch_outcome(v, ps, ts, Ok(nodes), w),
    ensures
        nodes@.len() == ps.len(),
{
    if ps.len() > 0 {
        assert(nodes_view(nodes@).len() == nodes@.len());
    }
}

} // verus!
