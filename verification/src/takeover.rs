//! What taking over a log of the first format gives, line by line: the version
//! that a line becomes has what the JSON of the line says.

use vstd::prelude::*;
use crate::db::causes_added;
use crate::graph::{edge_added, lemma_edge_idempotent, successors, GraphV};
use crate::index::hash_of;
use crate::json::{json_get, Json, Num};
use crate::migrate::{
    counts_in, known_causes, lemma_log_parts, line_value, lines, log_ops, migrated, op_of,
    op_storable, op_taken, ops_storable, ops_taken, takes_to, TakenV, V1OpV,
};
use crate::node::NodeV;
use crate::persistence::{lemma_log_taken, lemma_taken_ids, told_from};
use crate::provenance::edge_leads;
use crate::store::read_result;
use crate::text::trimmed;

verus! {

/// Whether the line of a log at a place holds a JSON value.
pub open spec fn line_holds(text: Seq<char>, dek: Option<Seq<u8>>, k: int, j: Json) -> bool {
    &&& 0 <= k < lines(text).len()
    &&& trimmed(lines(text)[k]).len() > 0
    &&& line_value(trimmed(lines(text)[k]), dek) == Some(j)
}

/// Whether a line puts a document.
pub open spec fn puts(j: Json, coll: Seq<char>, id: Seq<char>) -> bool {
    &&& json_get(j, "op"@) == Some(Json::Text("put"@))
    &&& json_get(j, "payload"@) matches Some(p) && json_get(p, "coll"@) == Some(Json::Text(coll))
        && json_get(p, "id"@) == Some(Json::Text(id))
    &&& coll.len() > 0
    &&& id.len() > 0
}

/// Whether a text is what a line says under a key: none where it says none, or
/// something that is no text.
pub open spec fn says_text(j: Json, key: Seq<char>, said: Option<Seq<char>>) -> bool {
    match said {
        Some(t) => json_get(j, key) == Some(Json::Text(t)),
        None => !(json_get(j, key) matches Some(Json::Text(_))),
    }
}

/// Whether a version has what a line that puts a document says: its document,
/// its number, its time, and from when to when it is valid.
pub open spec fn says(j: Json, n: NodeV) -> bool {
    let p = json_get(j, "payload"@)->0;
    &&& puts(j, n.coll, n.id)
    &&& n.data == match json_get(p, "doc"@) {
        Some(d) => d,
        None => Json::Null,
    }
    &&& says_text(j, "valid_from"@, n.valid_from)
    &&& says_text(j, "valid_to"@, n.valid_to)
    &&& n.seq == line_number(j)
    &&& json_get(j, "ts"@) matches Some(Json::Number(Num::Float(t))) ==> n.ts == Num::Float(t)
}

/// The number of a line; zero where it names none that is not negative.
pub open spec fn line_number(j: Json) -> u64 {
    match json_get(j, "seq"@) {
        Some(Json::Number(Num::Int(s))) => if s < 0 {
            0
        } else {
            s as u64
        },
        _ => 0,
    }
}

/// Whether a line puts some document.
pub open spec fn puts_some(j: Json) -> bool {
    exists|coll: Seq<char>, id: Seq<char>| #[trigger] puts(j, coll, id)
}

/// Whether a line names the number of another as one of its causes.
pub open spec fn names_cause(j: Json, seq: u64) -> bool {
    json_get(j, "caused_by"@) matches Some(Json::Array(items)) && items.contains(
        Json::Number(Num::Int(seq as int)),
    )
}

/// How many lines before a place put a document.
pub open spec fn puts_before(text: Seq<char>, dek: Option<Seq<u8>>, k: int) -> int {
    log_ops(lines(text).take(k), dek).len() as int
}

/// Whether taking over the operations of a log went through these states, with
/// these hashes.
pub open spec fn taken_through(
    text: Seq<char>,
    dek: Option<Seq<u8>>,
    states: Seq<TakenV>,
    hashes: Seq<Seq<char>>,
) -> bool {
    ops_storable(log_ops(lines(text), dek)) && ops_taken(states, log_ops(lines(text), dek), hashes)
}

proof fn lemma_counts(items: Seq<Json>, seq: u64)
    requires
        forall|i: int|
            0 <= i < items.len() ==> ((#[trigger] items[i]) matches Json::Number(Num::Int(n)) ==> n
                <= u64::MAX),
    ensures
        counts_in(items).contains(seq) <==> items.contains(Json::Number(Num::Int(seq as int))),
    decreases items.len(),
{
    let want = Json::Number(Num::Int(seq as int));
    if items.len() > 0 {
        let head = items.drop_last();
        assert forall|i: int| 0 <= i < head.len() implies ((#[trigger] head[i]) matches Json::Number(
            Num::Int(n),
        ) ==> n <= u64::MAX) by {
            assert(head[i] == items[i]);
        }
        lemma_counts(head, seq);
        let before = counts_in(head);
        let all = counts_in(items);
        assert(items[items.len() - 1] == items.last());
        if head.contains(want) {
            let i = choose|i: int| 0 <= i < head.len() && head[i] == want;
            assert(items[i] == want);
        }
        if items.contains(want) && items.last() != want {
            let i = choose|i: int| 0 <= i < items.len() && items[i] == want;
            assert(head[i] == want);
        }
        if before.contains(seq) {
            let i = choose|i: int| 0 <= i < before.len() && before[i] == seq;
            assert(all[i] == seq);
        }
        if items.last() == want {
            assert(all[all.len() - 1] == seq);
        }
        if all.contains(seq) && !before.contains(seq) {
            let i = choose|i: int| 0 <= i < all.len() && all[i] == seq;
            if i < before.len() {
                assert(before[i] == seq);
            }
            assert(items.last() == want);
        }
    }
}

proof fn lemma_known_causes(causes: Seq<u64>, seen: Map<u64, Seq<char>>, seq: u64)
    requires
        causes.contains(seq),
        seen.contains_key(seq),
    ensures
        known_causes(causes, seen).contains(seen[seq]),
    decreases causes.len(),
{
    let head = causes.drop_last();
    let before = known_causes(head, seen);
    let all = known_causes(causes, seen);
    if causes.last() == seq {
        assert(all[all.len() - 1] == seen[seq]);
    } else {
        let i = choose|i: int| 0 <= i < causes.len() && causes[i] == seq;
        assert(head[i] == seq);
        lemma_known_causes(head, seen, seq);
        let k = choose|k: int| 0 <= k < before.len() && before[k] == seen[seq];
        assert(all[k] == seen[seq]);
    }
}

proof fn lemma_causes_known(causes: Seq<u64>, seen: Map<u64, Seq<char>>, hash: Seq<char>)
    requires
        known_causes(causes, seen).contains(hash),
    ensures
        exists|seq: u64| #[trigger] causes.contains(seq) && seen.contains_key(seq) && seen[seq] == hash,
    decreases causes.len(),
{
    let all = known_causes(causes, seen);
    if causes.len() > 0 {
        let head = causes.drop_last();
        let before = known_causes(head, seen);
        let k = choose|k: int| 0 <= k < all.len() && all[k] == hash;
        if k < before.len() {
            assert(before[k] == hash);
            lemma_causes_known(head, seen, hash);
            let seq = choose|seq: u64| #[trigger]
                head.contains(seq) && seen.contains_key(seq) && seen[seq] == hash;
            let i = choose|i: int| 0 <= i < head.len() && head[i] == seq;
            assert(causes[i] == seq);
            assert(causes.contains(seq));
        } else {
            assert(causes[causes.len() - 1] == causes.last());
            assert(causes.contains(causes.last()));
        }
    }
}

/// What a line is as an operation.
proof fn lemma_line_op(j: Json, coll: Seq<char>, id: Seq<char>)
    requires
        puts(j, coll, id),
    ensures
        op_of(j) matches Some(op) && op.coll == coll && op.id == id && says(
            j,
            NodeV {
                id,
                coll,
                seq: op.seq,
                data: op.data,
                prev: None,
                caused_by: Seq::empty(),
                ts: op.ts,
                valid_from: op.valid_from,
                valid_to: op.valid_to,
                hash: Seq::empty(),
            },
        ),
{
}

proof fn lemma_op_line(j: Json)
    requires
        op_of(j) is Some,
    ensures
        puts(j, op_of(j)->0.coll, op_of(j)->0.id),
        op_of(j)->0.seq == line_number(j),
{
}

/// Which operation a line is.
proof fn lemma_op_at(text: Seq<char>, dek: Option<Seq<u8>>, k: int, j: Json)
    requires
        line_holds(text, dek, k, j),
        op_of(j) is Some,
    ensures
        ({
            let p = puts_before(text, dek, k);
            &&& 0 <= p < log_ops(lines(text), dek).len()
            &&& log_ops(lines(text), dek)[p] == op_of(j)->0
            &&& puts_before(text, dek, k + 1) == p + 1
        }),
{
    let ls = lines(text);
    let head = ls.take(k);
    let one = seq![ls[k]];
    let rest = ls.skip(k + 1);
    assert(ls.take(k + 1) =~= head + one);
    assert(ls =~= head + one + rest);
    lemma_log_parts(head, one, dek);
    lemma_log_parts(head + one, rest, dek);
    assert(one.drop_first() =~= Seq::empty());
    assert(log_ops(one, dek) =~= seq![op_of(j)->0]) by {
        assert(log_ops(one.drop_first(), dek) =~= Seq::empty());
    }
}

/// Which line an operation is.
proof fn lemma_line_of(text: Seq<char>, dek: Option<Seq<u8>>, n: int, p: int) -> (r: (int, Json))
    requires
        0 <= n <= lines(text).len(),
        0 <= p < log_ops(lines(text).take(n), dek).len(),
    ensures
        0 <= r.0 < n,
        line_holds(text, dek, r.0, r.1),
        op_of(r.1) == Some(log_ops(lines(text), dek)[p]),
        puts_before(text, dek, r.0) == p,
    decreases n,
{
    let ls = lines(text);
    if n == 0 {
        assert(ls.take(0) =~= Seq::empty());
        (0, Json::Null)
    } else {
        let head = ls.take(n - 1);
        let one = seq![ls[n - 1]];
        assert(ls.take(n) =~= head + one);
        lemma_log_parts(head, one, dek);
        assert(one.drop_first() =~= Seq::empty());
        assert(log_ops(one.drop_first(), dek) =~= Seq::empty());
        if p < log_ops(head, dek).len() {
            lemma_line_of(text, dek, n - 1, p)
        } else {
            let line = trimmed(ls[n - 1]);
            let j = line_value(line, dek)->0;
            assert(log_ops(one, dek).len() > 0);
            assert(line_holds(text, dek, n - 1, j));
            assert(op_of(j) is Some);
            lemma_op_at(text, dek, n - 1, j);
            (n - 1, j)
        }
    }
}

/// Migration, line by line: a line that puts a document is taken over as a
/// version that has what its JSON says, under a hash that it is read back by
/// when all is taken over; where no later line puts the document, that version
/// is what the document is. The digest has to tell the version from what was
/// there.
pub proof fn lemma_line_taken(
    text: Seq<char>,
    dek: Option<Seq<u8>>,
    states: Seq<TakenV>,
    hashes: Seq<Seq<char>>,
    k: int,
    j: Json,
    coll: Seq<char>,
    id: Seq<char>,
)
    requires
        taken_through(text, dek, states, hashes),
        line_holds(text, dek, k, j),
        puts(j, coll, id),
        told_from(states, log_ops(lines(text), dek), hashes, puts_before(text, dek, k)),
    ensures
        ({
            let w = states.last();
            let h = hashes[puts_before(text, dek, k)];
            &&& read_result(w.objects, h) matches Ok(n) && n.coll == coll && n.id == id && n.hash == h
                && says(j, n)
            &&& (forall|l: int, other: Json| #[trigger]
                line_holds(text, dek, l, other) && l > k ==> !puts(other, coll, id)) ==> hash_of(
                w.ids,
                coll,
                id,
            ) == Some(h)
        }),
{
    let ops = log_ops(lines(text), dek);
    let p = puts_before(text, dek, k);
    lemma_line_op(j, coll, id);
    lemma_op_at(text, dek, k, j);
    assert(op_storable(ops[p]));
    lemma_log_taken(states, ops, hashes, p);
    let n = read_result(states.last().objects, hashes[p])->Ok_0;
    assert(says(j, n));
    if forall|l: int, other: Json| #[trigger]
        line_holds(text, dek, l, other) && l > k ==> !puts(other, coll, id) {
        assert forall|q: int| p < q < ops.len() implies ((#[trigger] ops[q]).coll, ops[q].id) != (
            ops[p].coll,
            ops[p].id,
        ) by {
            assert(lines(text).take(lines(text).len() as int) =~= lines(text));
            let (l, other) = lemma_line_of(text, dek, lines(text).len() as int, q);
            lemma_op_line(other);
            if l <= k {
                lemma_puts_grow(text, dek, l, k);
            }
        }
        lemma_taken_ids(states, ops, hashes, p, ops.len() as int);
    }
}

proof fn lemma_puts_grow(text: Seq<char>, dek: Option<Seq<u8>>, a: int, b: int)
    requires
        0 <= a <= b <= lines(text).len(),
    ensures
        puts_before(text, dek, a) <= puts_before(text, dek, b),
{
    let ls = lines(text);
    assert(ls.take(b) =~= ls.take(a) + ls.subrange(a, b));
    lemma_log_parts(ls.take(a), ls.subrange(a, b), dek);
}

proof fn lemma_seen(
    text: Seq<char>,
    dek: Option<Seq<u8>>,
    states: Seq<TakenV>,
    hashes: Seq<Seq<char>>,
    p: int,
    n: int,
)
    requires
        taken_through(text, dek, states, hashes),
        0 <= p < n <= log_ops(lines(text), dek).len(),
        forall|q: int|
            p < q < n ==> (#[trigger] log_ops(lines(text), dek)[q]).seq != log_ops(
                lines(text),
                dek,
            )[p].seq,
    ensures
        states[n].seen.contains_key(log_ops(lines(text), dek)[p].seq),
        states[n].seen[log_ops(lines(text), dek)[p].seq] == hashes[p],
    decreases n,
{
    let ops = log_ops(lines(text), dek);
    assert(op_taken(states[n - 1], ops[n - 1], hashes[n - 1], states[n]));
    if p < n - 1 {
        assert(ops[n - 1].seq != ops[p].seq);
        lemma_seen(text, dek, states, hashes, p, n - 1);
    }
}

proof fn lemma_edges_kept(g: GraphV, hash: Seq<char>, causes: Seq<Seq<char>>, a: Seq<char>, t: Seq<char>, b: Seq<char>)
    requires
        edge_leads(g, t, a, b),
    ensures
        edge_leads(causes_added(g, hash, causes), t, a, b),
    decreases causes.len(),
{
    if causes.len() > 0 {
        let c = causes.last();
        lemma_edges_kept(g, hash, causes.drop_last(), a, t, b);
        let x = causes_added(g, hash, causes.drop_last());
        let y = edge_added(x, (hash, "caused_by"@, c));
        lemma_one_kept(x, (hash, "caused_by"@, c), a, t, b);
        lemma_one_kept(y, (c, "caused_by_rev"@, hash), a, t, b);
    }
}

proof fn lemma_one_kept(
    g: GraphV,
    e: (Seq<char>, Seq<char>, Seq<char>),
    a: Seq<char>,
    t: Seq<char>,
    b: Seq<char>,
)
    requires
        edge_leads(g, t, a, b),
    ensures
        edge_leads(edge_added(g, e), t, a, b),
{
    let was = successors(g, a, t);
    let now = successors(edge_added(g, e), a, t);
    let i = choose|i: int| 0 <= i < was.len() && was[i] == b;
    assert(now[i] == b);
}

/// Adding a version's causes puts an edge to each of them into the graph, and
/// one back.
pub proof fn lemma_causes_lead(g: GraphV, hash: Seq<char>, causes: Seq<Seq<char>>, c: Seq<char>)
    requires
        causes.contains(c),
    ensures
        edge_leads(causes_added(g, hash, causes), "caused_by"@, hash, c),
        edge_leads(causes_added(g, hash, causes), "caused_by_rev"@, c, hash),
    decreases causes.len(),
{
    let head = causes.drop_last();
    let last = causes.last();
    let x = causes_added(g, hash, head);
    let e = (hash, "caused_by"@, last);
    let y = edge_added(x, e);
    let f = (last, "caused_by_rev"@, hash);
    lemma_edge_idempotent(x, e);
    lemma_edge_idempotent(y, f);
    if last == c {
        assert(edge_leads(y, "caused_by"@, hash, c));
        lemma_one_kept(y, f, hash, "caused_by"@, c);
    } else {
        let i = choose|i: int| 0 <= i < causes.len() && causes[i] == c;
        assert(head[i] == c);
        lemma_causes_lead(g, hash, head, c);
        lemma_one_kept(x, e, hash, "caused_by"@, c);
        lemma_one_kept(y, f, hash, "caused_by"@, c);
        lemma_one_kept(x, e, c, "caused_by_rev"@, hash);
        lemma_one_kept(y, f, c, "caused_by_rev"@, hash);
    }
}

proof fn lemma_edges_stay(
    states: Seq<TakenV>,
    ops: Seq<V1OpV>,
    hashes: Seq<Seq<char>>,
    m: int,
    n: int,
    a: Seq<char>,
    t: Seq<char>,
    b: Seq<char>,
)
    requires
        ops_taken(states, ops, hashes),
        0 <= m <= n <= ops.len(),
        edge_leads(states[m].graph, t, a, b),
    ensures
        edge_leads(states[n].graph, t, a, b),
    decreases n - m,
{
    if m < n {
        assert(op_taken(states[m], ops[m], hashes[m], states[m + 1]));
        lemma_edges_kept(
            states[m].graph,
            hashes[m],
            known_causes(ops[m].caused_by, states[m].seen),
            a,
            t,
            b,
        );
        lemma_edges_stay(states, ops, hashes, m + 1, n, a, t, b);
    }
}

/// Migration, causes: where a line names the number of an earlier line, the last
/// one before it with that number, the version that the earlier line became is
/// among the causes of the version that the line became, and the graph has an
/// edge from the one to the other and one back.
pub proof fn lemma_causes_taken(
    text: Seq<char>,
    dek: Option<Seq<u8>>,
    states: Seq<TakenV>,
    hashes: Seq<Seq<char>>,
    k: int,
    j: Json,
    coll: Seq<char>,
    id: Seq<char>,
    from: int,
    cause: Json,
    seq: u64,
)
    requires
        taken_through(text, dek, states, hashes),
        line_holds(text, dek, k, j),
        puts(j, coll, id),
        line_holds(text, dek, from, cause),
        from < k,
        puts_some(cause),
        line_number(cause) == seq,
        names_cause(j, seq),
        crate::json::json_wf(j),
        forall|l: int, other: Json| #[trigger]
            line_holds(text, dek, l, other) && from < l < k && puts_some(other) ==> line_number(other)
                != seq,
        told_from(states, log_ops(lines(text), dek), hashes, puts_before(text, dek, k)),
    ensures
        ({
            let w = states.last();
            let h = hashes[puts_before(text, dek, k)];
            let c = hashes[puts_before(text, dek, from)];
            &&& read_result(w.objects, h) matches Ok(n) && n.caused_by.contains(c)
            &&& edge_leads(w.graph, "caused_by"@, h, c)
            &&& edge_leads(w.graph, "caused_by_rev"@, c, h)
        }),
{
    let ops = log_ops(lines(text), dek);
    let p = puts_before(text, dek, k);
    let f = puts_before(text, dek, from);
    let (cc, ci) = choose|cc: Seq<char>, ci: Seq<char>| #[trigger] puts(cause, cc, ci);
    lemma_line_op(j, coll, id);
    lemma_line_op(cause, cc, ci);
    lemma_op_at(text, dek, k, j);
    lemma_op_at(text, dek, from, cause);
    lemma_puts_grow(text, dek, from + 1, k);
    assert(f < p);
    lemma_op_line(cause);
    assert(ops[f].seq == seq);
    assert forall|q: int| f < q < p implies (#[trigger] ops[q]).seq != ops[f].seq by {
        let ls = lines(text);
        assert(ls.take(k).len() == k);
        let (l, other) = lemma_line_of(text, dek, k, q);
        lemma_op_line(other);
        if l <= from {
            lemma_puts_grow(text, dek, l, from);
        }
    }
    lemma_seen(text, dek, states, hashes, f, p);
    let items = json_get(j, "caused_by"@)->0->Array_0;
    lemma_items_fit(j);
    lemma_counts(items, seq);
    let v = states[p];
    lemma_known_causes(ops[p].caused_by, v.seen, seq);
    assert(op_storable(ops[p]));
    lemma_log_taken(states, ops, hashes, p);
    assert(op_taken(v, ops[p], hashes[p], states[p + 1]));
    let causes = known_causes(ops[p].caused_by, v.seen);
    lemma_causes_lead(v.graph, hashes[p], causes, hashes[f]);
    lemma_edges_stay(
        states,
        ops,
        hashes,
        p + 1,
        ops.len() as int,
        hashes[p],
        "caused_by"@,
        hashes[f],
    );
    lemma_edges_stay(
        states,
        ops,
        hashes,
        p + 1,
        ops.len() as int,
        hashes[f],
        "caused_by_rev"@,
        hashes[p],
    );
}

proof fn lemma_seen_only(
    states: Seq<TakenV>,
    ops: Seq<V1OpV>,
    hashes: Seq<Seq<char>>,
    p: int,
    seq: u64,
)
    requires
        ops_taken(states, ops, hashes),
        states[0].seen == Map::<u64, Seq<char>>::empty(),
        0 <= p <= ops.len(),
        states[p].seen.contains_key(seq),
    ensures
        exists|q: int|
            0 <= q < p && (#[trigger] ops[q]).seq == seq && hashes[q] == states[p].seen[seq],
    decreases p,
{
    if p > 0 {
        assert(op_taken(states[p - 1], ops[p - 1], hashes[p - 1], states[p - 1 + 1]));
        if ops[p - 1].seq != seq {
            lemma_seen_only(states, ops, hashes, p - 1, seq);
        }
    }
}

/// Migration, causes: a version that a line became has no causes but versions
/// that earlier lines became whose numbers the line names.
pub proof fn lemma_causes_named(
    text: Seq<char>,
    dek: Option<Seq<u8>>,
    states: Seq<TakenV>,
    hashes: Seq<Seq<char>>,
    k: int,
    j: Json,
    coll: Seq<char>,
    id: Seq<char>,
    c: Seq<char>,
)
    requires
        taken_through(text, dek, states, hashes),
        states[0].seen == Map::<u64, Seq<char>>::empty(),
        line_holds(text, dek, k, j),
        puts(j, coll, id),
        crate::json::json_wf(j),
        told_from(states, log_ops(lines(text), dek), hashes, puts_before(text, dek, k)),
        read_result(
            states.last().objects,
            hashes[puts_before(text, dek, k)],
        )->Ok_0.caused_by.contains(c),
    ensures
        exists|l: int, cause: Json| #[trigger]
            line_holds(text, dek, l, cause) && l < k && puts_some(cause) && names_cause(
                j,
                line_number(cause),
            ) && hashes[puts_before(text, dek, l)] == c,
{
    let ops = log_ops(lines(text), dek);
    let p = puts_before(text, dek, k);
    lemma_line_op(j, coll, id);
    lemma_op_at(text, dek, k, j);
    assert(op_storable(ops[p]));
    lemma_log_taken(states, ops, hashes, p);
    let v = states[p];
    lemma_causes_known(ops[p].caused_by, v.seen, c);
    let seq = choose|seq: u64| #[trigger]
        ops[p].caused_by.contains(seq) && v.seen.contains_key(seq) && v.seen[seq] == c;
    lemma_seen_only(states, ops, hashes, p, seq);
    let q = choose|q: int| 0 <= q < p && (#[trigger] ops[q]).seq == seq && hashes[q] == c;
    let (l, cause) = lemma_line_of(text, dek, k, q);
    lemma_op_line(cause);
    if let Some(Json::Array(items)) = json_get(j, "caused_by"@) {
        lemma_items_fit(j);
        lemma_counts(items, seq);
    }
    assert(line_holds(text, dek, l, cause));
}

proof fn lemma_items_fit(j: Json)
    requires
        crate::json::json_wf(j),
        json_get(j, "caused_by"@) matches Some(Json::Array(_)),
    ensures
        ({
            let items = json_get(j, "caused_by"@)->0->Array_0;
            forall|i: int|
                0 <= i < items.len() ==> ((#[trigger] items[i]) matches Json::Number(Num::Int(n)) ==> n
                    <= u64::MAX)
        }),
{
    lemma_field_wf(j->Object_0, "caused_by"@);
    let items = json_get(j, "caused_by"@)->0->Array_0;
    assert forall|i: int| 0 <= i < items.len() implies ((#[trigger] items[i]) matches Json::Number(
        Num::Int(n),
    ) ==> n <= u64::MAX) by {
        assert(crate::json::json_wf(items[i]));
    }
}

proof fn lemma_field_wf(fs: Seq<(Seq<char>, Json)>, key: Seq<char>)
    requires
        forall|i: int| 0 <= i < fs.len() ==> crate::json::json_wf((#[trigger] fs[i]).1),
        crate::json::field_of(fs, key) is Some,
    ensures
        crate::json::json_wf(crate::json::field_of(fs, key)->0),
    decreases fs.len(),
{
    if fs.len() > 0 {
        if fs[0].0 != key {
            let rest = fs.drop_first();
            assert forall|i: int| 0 <= i < rest.len() implies crate::json::json_wf(
                (#[trigger] rest[i]).1,
            ) by {
                assert(rest[i] == fs[i + 1]);
            }
            lemma_field_wf(rest, key);
        }
    }
}

/// Migration: where a log was taken over, its operations were taken over one
/// after the other, from the stores that there were to those that there are.
pub proof fn lemma_taken_through(v: TakenV, text: Seq<char>, dek: Option<Seq<u8>>, w: TakenV)
    requires
        migrated(v, Some(text), dek, Ok(true), w),
    ensures
        exists|states: Seq<TakenV>, hashes: Seq<Seq<char>>|
            {
                &&& #[trigger] taken_through(text, dek, states, hashes)
                &&& states[0] == v
                &&& states.last().objects == w.objects
                &&& states.last().ids == w.ids
                &&& states.last().sorted == w.sorted
                &&& states.last().graph == w.graph
            },
{
    let ops = log_ops(lines(text), dek);
    let seen = choose|seen: Map<u64, Seq<char>>| #[trigger] takes_to(v, ops, TakenV { seen, ..w });
    let (states, hashes) = choose|states: Seq<TakenV>, hashes: Seq<Seq<char>>| #[trigger]
        ops_taken(states, ops, hashes) && states[0] == v && states.last() == (TakenV { seen, ..w });
    assert(taken_through(text, dek, states, hashes));
}

/// The lines of a text, joined by line breaks.
pub open spec fn joined_lines(ls: Seq<Seq<char>>) -> Seq<char>
    decreases ls.len(),
{
    if ls.len() == 0 {
        Seq::empty()
    } else if ls.len() == 1 {
        ls[0]
    } else {
        joined_lines(ls.drop_last()).push('\n') + ls.last()
    }
}

/// A text is its lines joined by line breaks, and no line has one in it.
pub proof fn lemma_lines_joined(s: Seq<char>)
    ensures
        lines(s).len() > 0,
        joined_lines(lines(s)) == s,
        forall|i: int| 0 <= i < lines(s).len() ==> !(#[trigger] lines(s)[i]).contains('\n'),
    decreases s.len(),
{
    if s.len() > 0 {
        let head = s.drop_last();
        let before = lines(head);
        let all = lines(s);
        lemma_lines_joined(head);
        assert(s =~= head.push(s.last()));
        if s.last() == '\n' {
            assert(all.drop_last() =~= before);
            assert(joined_lines(all) =~= s);
        } else {
            assert(all.drop_last() =~= before.drop_last());
            assert(!before[before.len() - 1].contains('\n'));
            assert(joined_lines(all) =~= s) by {
                if all.len() > 1 {
                    let x = joined_lines(before.drop_last()).push('\n');
                    assert(x + before.last().push(s.last()) =~= (x + before.last()).push(s.last()));
                }
            }
            let last = before.last().push(s.last());
            assert(!last.contains('\n')) by {
                if last.contains('\n') {
                    let i = choose|i: int| 0 <= i < last.len() && last[i] == '\n';
                    assert(before.last()[i] == '\n');
                }
            }
        }
        assert forall|i: int| 0 <= i < all.len() implies !(#[trigger] all[i]).contains('\n') by {
            if i < all.len() - 1 {
                assert(all[i] == before[i]);
            }
        }
    }
}

} // verus!
