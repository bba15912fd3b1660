//! Any number of writes, one after the other: what was current at an earlier
//! write stays what documents, queries and links show of that write.

use vstd::prelude::*;
use crate::batch_laws::{lemma_batch_time_travel, lemma_failed_batch, told_apart};
use crate::bindings::{link_query, other_ends};
use crate::db::{all_settled, as_of, batch_tried, current, first_error, DbV, PutOp};
use crate::double::EXPONENT_UNIT;
use crate::history::{
    delete_step, lemma_delete_time_travel, lemma_put_keeps_past, lemma_snapshot, lemma_time_travel,
    orderly, owned, put_step, unmissed,
};
use crate::json::Num;
use crate::links::{is_link, is_linked, lemma_links_found_as_of, unquotable, was_linked};
use crate::node::NodeV;
use crate::nql::result_nodes;
use crate::parser::QueryV;
use crate::query_laws::{lemma_query_time_travel, lists_all};
use crate::store::{ObjV, StoreError};

verus! {

/// Whether a batch of versions was put, or failed and left the documents as
/// they were.
pub open spec fn batch_step(
    v: DbV,
    ops: Seq<PutOp>,
    ts: Num,
    nodes: Seq<NodeV>,
    errors: Seq<Option<StoreError>>,
    os: Seq<ObjV>,
    w: DbV,
) -> bool {
    &&& batch_tried(v, ops, ts, nodes, errors, os)
    &&& told_apart(v, ops, ts, nodes, errors, os)
    &&& v.seq + nodes.len() <= u64::MAX
    &&& {
        let tried = DbV { objects: os.last(), seq: (v.seq + nodes.len()) as u64, ..v };
        match first_error(errors) {
            None => w == all_settled(tried, nodes),
            Some(_) => w == tried,
        }
    }
}

/// Whether a write led from one state to another: a document was put or
/// deleted, a batch was put or failed, or the write failed and only used up a
/// number.
pub open spec fn step(v: DbV, w: DbV) -> bool {
    ||| exists|n: NodeV, hash: Seq<char>| put_step(v, n, hash, w)
    ||| exists|coll: Seq<char>, id: Seq<char>, prev: Seq<char>, ts: Num, hash: Seq<char>|
        delete_step(v, coll, id, prev, ts, hash, w)
    ||| exists|
        ops: Seq<PutOp>,
        ts: Num,
        nodes: Seq<NodeV>,
        errors: Seq<Option<StoreError>>,
        os: Seq<ObjV>,
    | batch_step(v, ops, ts, nodes, errors, os, w)
    ||| v.seq < u64::MAX && w == (DbV { seq: (v.seq + 1) as u64, ..v })
}

/// Whether each state follows from the one before it by a write.
pub open spec fn steps(states: Seq<DbV>) -> bool {
    &&& states.len() > 0
    &&& forall|k: int| 0 <= k < states.len() ==> lists_all(#[trigger] states[k])
    &&& forall|k: int|
        #![trigger states[k]]
        0 < k < states.len() ==> step(states[k - 1], states[k])
}

proof fn lemma_settled_number(v: DbV, ns: Seq<NodeV>)
    ensures
        all_settled(v, ns).seq == v.seq,
    decreases ns.len(),
{
    if ns.len() > 0 {
        lemma_settled_number(v, ns.drop_last());
    }
}

proof fn lemma_step(v: DbV, w: DbV, c: Seq<char>, i: Seq<char>, target: u64)
    requires
        orderly(v),
        lists_all(v),
        step(v, w),
        target < v.seq,
    ensures
        orderly(w),
        v.seq <= w.seq,
        as_of(w, c, i, target) == as_of(v, c, i, target),
{
    if exists|n: NodeV, hash: Seq<char>| put_step(v, n, hash, w) {
        let (n, hash) = choose|n: NodeV, hash: Seq<char>| put_step(v, n, hash, w);
        lemma_time_travel(v, n, hash, w, c, i, target);
    } else if exists|coll: Seq<char>, id: Seq<char>, prev: Seq<char>, ts: Num, hash: Seq<char>|
        delete_step(v, coll, id, prev, ts, hash, w) {
        let (coll, id, prev, ts, hash) = choose|
            coll: Seq<char>,
            id: Seq<char>,
            prev: Seq<char>,
            ts: Num,
            hash: Seq<char>,
        | delete_step(v, coll, id, prev, ts, hash, w);
        lemma_delete_time_travel(v, coll, id, prev, ts, hash, w, c, i, target);
    } else if exists|
        ops: Seq<PutOp>,
        ts: Num,
        nodes: Seq<NodeV>,
        errors: Seq<Option<StoreError>>,
        os: Seq<ObjV>,
    | batch_step(v, ops, ts, nodes, errors, os, w) {
        let (ops, ts, nodes, errors, os) = choose|
            ops: Seq<PutOp>,
            ts: Num,
            nodes: Seq<NodeV>,
            errors: Seq<Option<StoreError>>,
            os: Seq<ObjV>,
        | batch_step(v, ops, ts, nodes, errors, os, w);
        if first_error(errors) is None {
            lemma_batch_time_travel(v, ops, ts, nodes, errors, os, w, c, i, target);
            lemma_settled_number(
                DbV { objects: os.last(), seq: (v.seq + nodes.len()) as u64, ..v },
                nodes,
            );
        } else {
            lemma_failed_batch(v, ops, ts, nodes, errors, os, w, c, i, target);
        }
    } else {
        crate::history::lemma_failed_write(v, w, c, i, target);
    }
}

/// Time travel: any number of writes, deletions among them, never change what
/// was current at an earlier write, of any document. The past stays in order.
pub proof fn lemma_past_kept(states: Seq<DbV>, c: Seq<char>, i: Seq<char>, target: u64)
    requires
        steps(states),
        orderly(states[0]),
        target < states[0].seq,
    ensures
        as_of(states.last(), c, i, target) == as_of(states[0], c, i, target),
        orderly(states.last()),
        states[0].seq <= states.last().seq,
    decreases states.len(),
{
    if states.len() > 1 {
        let head = states.drop_last();
        assert forall|k: int| 0 <= k < head.len() implies lists_all(#[trigger] head[k]) by {
            assert(head[k] == states[k]);
        }
        assert forall|k: int|
            #![trigger head[k]]
            0 < k < head.len() implies step(head[k - 1], head[k]) by {
            assert(head[k] == states[k] && head[k - 1] == states[k - 1]);
        }
        assert(head[0] == states[0]);
        lemma_past_kept(head, c, i, target);
        let last = states.len() - 1;
        assert(states[last] == states.last());
        assert(states[last - 1] == head.last());
        assert(lists_all(states[last - 1]));
        lemma_step(head.last(), states.last(), c, i, target);
    }
}

/// Whether a document was put, and the write did not bring back what was
/// missing.
pub open spec fn put_kept(v: DbV, n: NodeV, hash: Seq<char>, w: DbV) -> bool {
    put_step(v, n, hash, w) && unmissed(v, hash) && owned(v, n.coll, n.id)
}

/// Whether one put leads from a state to another.
pub open spec fn next_put(v: DbV, w: DbV) -> bool {
    exists|n: NodeV, hash: Seq<char>| #[trigger] put_kept(v, n, hash, w)
}

/// Time travel: any number of puts never change what was current at an earlier
/// write, of any document of any database, whatever it misses or has damaged.
pub proof fn lemma_puts_keep_past(states: Seq<DbV>, c: Seq<char>, i: Seq<char>, target: u64)
    requires
        states.len() > 0,
        forall|k: int|
            #![trigger states[k]]
            0 < k < states.len() ==> next_put(states[k - 1], states[k]),
        target < states[0].seq,
    ensures
        as_of(states.last(), c, i, target) == as_of(states[0], c, i, target),
        states[0].seq <= states.last().seq,
    decreases states.len(),
{
    if states.len() > 1 {
        let head = states.drop_last();
        assert forall|k: int|
            #![trigger head[k]]
            0 < k < head.len() implies next_put(head[k - 1], head[k]) by {
            assert(head[k] == states[k] && head[k - 1] == states[k - 1]);
        }
        assert(head[0] == states[0]);
        lemma_puts_keep_past(head, c, i, target);
        let last = states.len() - 1;
        assert(states[last] == states.last() && states[last - 1] == head.last());
        let (n, hash) = choose|n: NodeV, hash: Seq<char>| #[trigger]
            put_kept(states[last - 1], n, hash, states[last]);
        lemma_put_keeps_past(head.last(), n, hash, states.last(), c, i, target);
    }
}

/// A snapshot lasts: what was current of a document is read, after any number
/// of later writes, as of the number of the last write before them.
pub proof fn lemma_snapshot_lasts(states: Seq<DbV>, c: Seq<char>, i: Seq<char>)
    requires
        steps(states),
        orderly(states[0]),
        states[0].seq > 0,
    ensures
        as_of(states.last(), c, i, (states[0].seq - 1) as u64) == current(states[0], c, i),
{
    lemma_snapshot(states[0], c, i);
    lemma_past_kept(states, c, i, (states[0].seq - 1) as u64);
}

/// Queries time-travel: a query at an earlier write, without a walk, gives
/// after any number of later writes what it gave before them.
pub proof fn lemma_queries_last(states: Seq<DbV>, q: QueryV, target: u64)
    requires
        steps(states),
        orderly(states[0]),
        target < states[0].seq,
        q.as_of == Some(target),
        q.trace is None,
    ensures
        result_nodes(states.last(), q) == result_nodes(states[0], q),
{
    assert forall|i: Seq<char>| #[trigger] as_of(states.last(), q.coll, i, target) == as_of(
        states[0],
        q.coll,
        i,
        target,
    ) by {
        lemma_past_kept(states, q.coll, i, target);
    }
    assert(states[states.len() - 1] == states.last());
    lemma_query_time_travel(states[0], states.last(), q, target);
}

/// Links time-travel past what is written later, their own deletion included:
/// names that were linked at a write are found from both ends as of that write,
/// for as long as the database is written to. The number of the write has at
/// most 53 bits, and names with quotes in them cannot be asked for.
pub proof fn lemma_links_last(
    states: Seq<DbV>,
    seq: u64,
    from: Seq<char>,
    rel: Seq<char>,
    to: Seq<char>,
)
    requires
        steps(states),
        orderly(states[0]),
        seq < states[0].seq,
        seq < 2 * EXPONENT_UNIT,
        was_linked(states[0], seq, from, rel, to),
        unquotable(rel),
    ensures
        unquotable(from) ==> other_ends(
            states.last(),
            link_query(Some(seq), "_from"@, from, rel),
            "_to"@,
        ).contains(to),
        unquotable(to) ==> other_ends(
            states.last(),
            link_query(Some(seq), "_to"@, to, rel),
            "_from"@,
        ).contains(from),
{
    let id = choose|id: Seq<char>|
        (#[trigger] as_of(states[0], "__links__"@, id, seq)) matches Some(n) && is_link(
            n,
            from,
            rel,
            to,
        );
    lemma_past_kept(states, "__links__"@, id, seq);
    assert(as_of(states.last(), "__links__"@, id, seq) is Some);
    assert(was_linked(states.last(), seq, from, rel, to));
    assert(states[states.len() - 1] == states.last());
    lemma_links_found_as_of(states.last(), seq, from, rel, to);
}

/// Names that are linked were linked at the last write.
pub proof fn lemma_linked_then(v: DbV, from: Seq<char>, rel: Seq<char>, to: Seq<char>)
    requires
        orderly(v),
        v.seq > 0,
        is_linked(v, from, rel, to),
    ensures
        was_linked(v, (v.seq - 1) as u64, from, rel, to),
{
    let id = choose|id: Seq<char>|
        (#[trigger] current(v, "__links__"@, id)) matches Some(n) && is_link(n, from, rel, to);
    lemma_snapshot(v, "__links__"@, id);
    assert(as_of(v, "__links__"@, id, (v.seq - 1) as u64) == current(v, "__links__"@, id));
}

} // verus!
