//! What the head of a database commits to: all that was written, in its order.

use vstd::bytes::{
    lemma_auto_spec_u64_to_from_le_bytes, spec_u64_from_le_bytes, spec_u64_to_le_bytes,
};
use vstd::prelude::*;
use vstd::utf8::encode_utf8;
use crate::db::{all_settled, delete_done, head_after, put_done, DbV};
use crate::digest::{content_hash, lemma_content_hash};
use crate::node::NodeV;
use crate::text::lemma_same_bytes;

verus! {

/// The number of a write, and the hash of what was written.
pub type WriteV = (u64, Seq<char>);

/// The head that writes give, one after the other, on a new database.
pub open spec fn chained(ws: Seq<WriteV>) -> Seq<char>
    decreases ws.len(),
{
    if ws.len() == 0 {
        Seq::empty()
    } else {
        head_after(chained(ws.drop_last()), ws.last().0, ws.last().1)
    }
}

/// The bytes that the head after writes is the digest of.
pub open spec fn head_bytes(ws: Seq<WriteV>) -> Seq<u8> {
    encode_utf8(chained(ws.drop_last())) + spec_u64_to_le_bytes(ws.last().0) + encode_utf8(
        ws.last().1,
    )
}

/// Whether all that was written has a hash of 64 bytes.
pub open spec fn hashes_sized(ws: Seq<WriteV>) -> bool {
    forall|i: int| 0 <= i < ws.len() ==> encode_utf8((#[trigger] ws[i]).1).len() == 64
}

/// Whether, at some point of two histories, different bytes gave one digest.
pub open spec fn collide(a: Seq<WriteV>, b: Seq<WriteV>, i: int, j: int) -> bool {
    &&& 0 < i <= a.len()
    &&& 0 < j <= b.len()
    &&& head_bytes(a.take(i)) != head_bytes(b.take(j))
    &&& content_hash(head_bytes(a.take(i))) == content_hash(head_bytes(b.take(j)))
}

/// A write chains itself into the head: what it wrote has a hash of 64 bytes,
/// and the head is that of one more write.
pub proof fn lemma_put_chained(v: DbV, n: NodeV, hash: Seq<char>, w: DbV, ws: Seq<WriteV>)
    requires
        put_done(v, n, hash, w),
        v.head == chained(ws),
        hashes_sized(ws),
    ensures
        w.head == chained(ws.push((n.seq, hash))),
        hashes_sized(ws.push((n.seq, hash))),
{
    assert(ws.push((n.seq, hash)).drop_last() =~= ws);
}

/// A batch chains its writes into the head, in their order.
pub proof fn lemma_batch_chained(v: DbV, nodes: Seq<NodeV>, ws: Seq<WriteV>)
    requires
        v.head == chained(ws),
    ensures
        all_settled(v, nodes).head == chained(
            ws + nodes.map_values(|n: NodeV| (n.seq, n.hash)),
        ),
    decreases nodes.len(),
{
    let more = nodes.map_values(|n: NodeV| (n.seq, n.hash));
    if nodes.len() == 0 {
        assert(ws + more =~= ws);
    } else {
        lemma_batch_chained(v, nodes.drop_last(), ws);
        let before = nodes.drop_last().map_values(|n: NodeV| (n.seq, n.hash));
        assert((ws + more).drop_last() =~= ws + before);
        assert((ws + more).last() == (nodes.last().seq, nodes.last().hash));
    }
}

/// A deletion chains itself into the head.
pub proof fn lemma_delete_chained(
    v: DbV,
    n: NodeV,
    prev: Seq<char>,
    coll: Seq<char>,
    id: Seq<char>,
    hash: Seq<char>,
    w: DbV,
    ws: Seq<WriteV>,
)
    requires
        delete_done(v, n, prev, coll, id, hash, w),
        v.head == chained(ws),
        hashes_sized(ws),
    ensures
        w.head == chained(ws.push((v.seq, hash))),
        hashes_sized(ws.push((v.seq, hash))),
{
    assert(ws.push((v.seq, hash)).drop_last() =~= ws);
}

proof fn lemma_chained_sized(ws: Seq<WriteV>)
    ensures
        encode_utf8(chained(ws)).len() == if ws.len() == 0 {
            0nat
        } else {
            64nat
        },
        chained(ws).len() == if ws.len() == 0 {
            0nat
        } else {
            64nat
        },
{
    if ws.len() == 0 {
        assert(encode_utf8(chained(ws)) =~= Seq::empty());
    } else {
        lemma_content_hash(head_bytes(ws));
    }
}

/// Where the bytes behind two heads are the same, so are the last writes and
/// the heads before them.
proof fn lemma_last_write(a: Seq<WriteV>, b: Seq<WriteV>)
    requires
        a.len() > 0,
        b.len() > 0,
        hashes_sized(a),
        hashes_sized(b),
        head_bytes(a) == head_bytes(b),
    ensures
        a.last() == b.last(),
        chained(a.drop_last()) == chained(b.drop_last()),
{
    lemma_auto_spec_u64_to_from_le_bytes();
    lemma_chained_sized(a.drop_last());
    lemma_chained_sized(b.drop_last());
    let ha = encode_utf8(chained(a.drop_last()));
    let hb = encode_utf8(chained(b.drop_last()));
    let na = spec_u64_to_le_bytes(a.last().0);
    let nb = spec_u64_to_le_bytes(b.last().0);
    let ca = encode_utf8(a.last().1);
    let cb = encode_utf8(b.last().1);
    let x = head_bytes(a);
    let k = ha.len() as int;
    assert(encode_utf8(a[a.len() - 1].1).len() == 64 && encode_utf8(b[b.len() - 1].1).len() == 64);
    assert(x.len() == k + 8 + 64);
    assert(head_bytes(b).len() == hb.len() + 8 + 64);
    assert(ha =~= x.take(k) && hb =~= head_bytes(b).take(k));
    assert(na =~= x.subrange(k, k + 8) && nb =~= head_bytes(b).subrange(k, k + 8));
    assert(ca =~= x.skip(k + 8) && cb =~= head_bytes(b).skip(k + 8));
    lemma_same_bytes(chained(a.drop_last()), chained(b.drop_last()));
    lemma_same_bytes(a.last().1, b.last().1);
    assert(spec_u64_from_le_bytes(na) == a.last().0);
    assert(spec_u64_from_le_bytes(nb) == b.last().0);
}

/// The head commits to the whole history: two histories with the same head are
/// the same, write for write, unless the digest gave the same for different
/// bytes somewhere in them.
pub proof fn lemma_head_commits(a: Seq<WriteV>, b: Seq<WriteV>)
    requires
        hashes_sized(a),
        hashes_sized(b),
        chained(a) == chained(b),
    ensures
        a == b || exists|i: int, j: int| collide(a, b, i, j),
    decreases a.len(),
{
    lemma_chained_sized(a);
    lemma_chained_sized(b);
    if a.len() == 0 {
        assert(a =~= b);
    } else if head_bytes(a) != head_bytes(b) {
        assert(a.take(a.len() as int) =~= a);
        assert(b.take(b.len() as int) =~= b);
        assert(collide(a, b, a.len() as int, b.len() as int));
    } else {
        lemma_last_write(a, b);
        let x = a.drop_last();
        let y = b.drop_last();
        assert forall|i: int| 0 <= i < x.len() implies encode_utf8((#[trigger] x[i]).1).len() == 64 by {
            assert(x[i] == a[i]);
        }
        assert forall|i: int| 0 <= i < y.len() implies encode_utf8((#[trigger] y[i]).1).len() == 64 by {
            assert(y[i] == b[i]);
        }
        lemma_head_commits(x, y);
        if x == y {
            assert(a =~= x.push(a.last()));
            assert(b =~= y.push(b.last()));
        } else {
            let (i, j) = choose|i: int, j: int| collide(x, y, i, j);
            assert(x.take(i) =~= a.take(i));
            assert(y.take(j) =~= b.take(j));
            assert(collide(a, b, i, j));
        }
    }
}

} // verus!
