//! What a query that traces causes finds: the versions that meet it, and what
//! led to them or followed from them.

use vstd::prelude::*;
use crate::db::{version, versions, DbV};
use crate::graph::{
    edge_added, edges_added, followed_type, leads_to, lemma_traced, lemma_unseen, successors, traced,
    unseen, walk, EdgeV, GraphV,
};
use crate::node::NodeV;
use crate::nql::{
    candidates, filtered, in_query_order, result_nodes, selected, walked, TRACE_LIMIT,
};
use crate::parser::QueryV;
use crate::query_laws::{lemma_filtered, lemma_sorted_nodes};
use crate::store::ObjV;

verus! {

/// The type of the edges from a version to its causes, or back from a cause to
/// what it led to.
pub open spec fn cause_type(back: bool) -> Seq<char> {
    if back {
        "caused_by_rev"@
    } else {
        "caused_by"@
    }
}

/// Whether one edge of a type leads from a node to another.
pub open spec fn edge_leads(g: GraphV, t: Seq<char>, a: Seq<char>, b: Seq<char>) -> bool {
    successors(g, a, t).contains(b)
}

/// Whether nodes follow one another along edges of a type.
pub open spec fn is_path(g: GraphV, t: Seq<char>, path: Seq<Seq<char>>) -> bool {
    forall|i: int| 0 < i < path.len() ==> edge_leads(g, t, path[i - 1], #[trigger] path[i])
}

/// Whether no edge of a type leads out of a set.
pub open spec fn closed_under(g: GraphV, t: Seq<char>, s: Set<Seq<char>>) -> bool {
    forall|a: Seq<char>, b: Seq<char>| s.contains(a) && #[trigger] edge_leads(g, t, a, b) ==> s.contains(b)
}

/// In the graph of a list of edges, one leads from a node to another just where
/// it is in the list.
pub proof fn lemma_edges_lead(es: Seq<EdgeV>, a: Seq<char>, t: Seq<char>, b: Seq<char>)
    ensures
        edge_leads(edges_added(es), t, a, b) <==> es.contains((a, t, b)),
    decreases es.len(),
{
    if es.len() > 0 {
        let head = es.drop_last();
        let e = es.last();
        let g = edges_added(head);
        lemma_edges_lead(head, a, t, b);
        if es.contains((a, t, b)) && e != (a, t, b) {
            let i = choose|i: int| 0 <= i < es.len() && es[i] == (a, t, b);
            assert(head[i] == (a, t, b));
        }
        if head.contains((a, t, b)) {
            let i = choose|i: int| 0 <= i < head.len() && head[i] == (a, t, b);
            assert(es[i] == (a, t, b));
        }
        assert(es[es.len() - 1] == e);
        let was = successors(g, e.0, e.1);
        if !was.contains(e.2) {
            let now = was.push(e.2);
            assert(successors(edge_added(g, e), e.0, e.1) == now);
            assert(now[was.len() as int] == e.2);
            if (e.0, e.1) == (a, t) {
                if was.contains(b) {
                    let i = choose|i: int| 0 <= i < was.len() && was[i] == b;
                    assert(now[i] == b);
                }
                if now.contains(b) && !was.contains(b) {
                    let i = choose|i: int| 0 <= i < now.len() && now[i] == b;
                    assert(b == e.2);
                }
            }
        }
    }
}

proof fn lemma_same_type(back: bool)
    ensures
        followed_type("caused_by"@, back) == cause_type(back),
{
    reveal_strlit("caused_by");
    reveal_strlit("caused_by_rev");
    assert(followed_type("caused_by"@, back) =~= cause_type(back));
}

proof fn lemma_path_of(g: GraphV, t: Seq<char>, a: Seq<char>, b: Seq<char>, n: nat) -> (path: Seq<
    Seq<char>,
>)
    requires
        leads_to(g, t, a, b, n),
    ensures
        is_path(g, t, path),
        path.len() == n + 1,
        path.first() == a,
        path.last() == b,
    decreases n,
{
    if n == 0 {
        seq![a]
    } else {
        let m = choose|m: Seq<char>| #[trigger]
            successors(g, a, t).contains(m) && leads_to(g, t, m, b, (n - 1) as nat);
        let rest = lemma_path_of(g, t, m, b, (n - 1) as nat);
        let path = seq![a] + rest;
        assert forall|i: int| 0 < i < path.len() implies edge_leads(
            g,
            t,
            path[i - 1],
            #[trigger] path[i],
        ) by {
            if i > 1 {
                assert(path[i] == rest[i - 1]);
                assert(path[i - 1] == rest[i - 2]);
            } else {
                assert(path[1] == m);
            }
        }
        path
    }
}

proof fn lemma_subset_len(r: Seq<Seq<char>>, s: Set<Seq<char>>)
    requires
        r.no_duplicates(),
        s.finite(),
        forall|i: int| 0 <= i < r.len() ==> s.contains(#[trigger] r[i]),
    ensures
        r.len() <= s.len(),
        r.len() == s.len() ==> forall|x: Seq<char>| #[trigger] s.contains(x) ==> r.contains(x),
{
    r.unique_seq_to_set();
    assert(r.to_set().subset_of(s));
    vstd::set_lib::lemma_len_subset(r.to_set(), s);
    if r.len() == s.len() {
        vstd::set_lib::lemma_subset_equality(r.to_set(), s);
    }
}

proof fn lemma_path_stays(g: GraphV, t: Seq<char>, path: Seq<Seq<char>>, s: Set<Seq<char>>, i: int)
    requires
        is_path(g, t, path),
        closed_under(g, t, s),
        0 <= i < path.len(),
        s.contains(path[0]),
    ensures
        s.contains(path[i]),
    decreases i,
{
    if i > 0 {
        lemma_path_stays(g, t, path, s, i - 1);
        assert(edge_leads(g, t, path[i - 1], path[i]));
    }
}

/// A walk visits all that can be reached from where it starts, unless that is
/// more than it may visit.
proof fn lemma_walk_complete(
    g: GraphV,
    start: Seq<char>,
    back: bool,
    limit: nat,
    near: Set<Seq<char>>,
    path: Seq<Seq<char>>,
)
    requires
        is_path(g, cause_type(back), path),
        path.len() > 0,
        path.first() == start,
        near.finite(),
        near.len() <= limit,
        near.contains(start),
        closed_under(g, cause_type(back), near),
    ensures
        traced(g, start, "caused_by"@, back, limit).contains(path.last()),
{
    let t = cause_type(back);
    let r = traced(g, start, "caused_by"@, back, limit);
    lemma_same_type(back);
    lemma_traced(g, start, "caused_by"@, back, limit);
    if limit == 0 {
        assert(near.is_empty()) by {
            near.lemma_len0_is_empty();
        }
    }
    assert(r.contains(r[0]));
    assert forall|i: int| 0 <= i < r.len() implies near.contains(#[trigger] r[i]) by {
        assert(r.contains(r[i]));
        let n = choose|n: nat| #[trigger] leads_to(g, t, start, r[i], n);
        let way = lemma_path_of(g, t, start, r[i], n);
        lemma_path_stays(g, t, way, near, n as int);
    }
    lemma_subset_len(r, near);
    let last = path.len() - 1;
    if r.len() < limit {
        let seen = r.to_set();
        assert(closed_under(g, t, seen)) by {
            assert forall|a: Seq<char>, b: Seq<char>|
                seen.contains(a) && #[trigger] edge_leads(g, t, a, b) implies seen.contains(b) by {
                assert(r.contains(a) && successors(g, a, t).contains(b));
            }
        }
        lemma_path_stays(g, t, path, seen, last);
    } else {
        lemma_path_stays(g, t, path, near, last);
    }
}

proof fn lemma_versions(v: ObjV, hs: Seq<Seq<char>>, m: NodeV)
    ensures
        versions(v, hs).contains(m) <==> exists|h: Seq<char>|
            hs.contains(h) && #[trigger] version(v, h) == Some(m),
    decreases hs.len(),
{
    let all = versions(v, hs);
    if hs.len() > 0 {
        let head = hs.drop_last();
        let before = versions(v, head);
        lemma_versions(v, head, m);
        assert(hs[hs.len() - 1] == hs.last());
        assert(hs.contains(hs.last()));
        if before.contains(m) {
            let k = choose|k: int| 0 <= k < before.len() && before[k] == m;
            assert(all[k] == m);
            let h = choose|h: Seq<char>| head.contains(h) && #[trigger] version(v, h) == Some(m);
            let j = choose|j: int| 0 <= j < head.len() && head[j] == h;
            assert(hs[j] == h);
        }
        if version(v, hs.last()) == Some(m) {
            assert(all[all.len() - 1] == m);
        }
        if all.contains(m) && !before.contains(m) {
            let k = choose|k: int| 0 <= k < all.len() && all[k] == m;
            if k < before.len() {
                assert(before[k] == m);
            }
        }
        if exists|h: Seq<char>| hs.contains(h) && #[trigger] version(v, h) == Some(m) {
            let h = choose|h: Seq<char>| hs.contains(h) && #[trigger] version(v, h) == Some(m);
            if h != hs.last() {
                let j = choose|j: int| 0 <= j < hs.len() && hs[j] == h;
                assert(head[j] == h);
            }
        }
    } else {
        assert(!all.contains(m));
    }
}

proof fn lemma_walked(v: DbV, ns: Seq<NodeV>, back: bool, limit: nat, m: NodeV)
    ensures
        walked(v, ns, back, limit).contains(m) <==> exists|n: NodeV|
            ns.contains(n) && #[trigger] versions(
                v.objects,
                traced(v.graph, n.hash, "caused_by"@, back, limit),
            ).contains(m),
    decreases ns.len(),
{
    let all = walked(v, ns, back, limit);
    if ns.len() > 0 {
        let head = ns.drop_last();
        let before = walked(v, head, back, limit);
        let more = versions(v.objects, traced(v.graph, ns.last().hash, "caused_by"@, back, limit));
        lemma_walked(v, head, back, limit, m);
        assert(ns[ns.len() - 1] == ns.last());
        assert(ns.contains(ns.last()));
        if before.contains(m) {
            let k = choose|k: int| 0 <= k < before.len() && before[k] == m;
            assert(all[k] == m);
            let n = choose|n: NodeV|
                head.contains(n) && #[trigger] versions(
                    v.objects,
                    traced(v.graph, n.hash, "caused_by"@, back, limit),
                ).contains(m);
            let j = choose|j: int| 0 <= j < head.len() && head[j] == n;
            assert(ns[j] == n);
        }
        if more.contains(m) {
            let k = choose|k: int| 0 <= k < more.len() && more[k] == m;
            assert(all[before.len() + k] == m);
        }
        if all.contains(m) && !before.contains(m) {
            let k = choose|k: int| 0 <= k < all.len() && all[k] == m;
            if k < before.len() {
                assert(before[k] == m);
            } else {
                assert(more[k - before.len()] == m);
            }
        }
        if exists|n: NodeV|
            ns.contains(n) && #[trigger] versions(
                v.objects,
                traced(v.graph, n.hash, "caused_by"@, back, limit),
            ).contains(m) {
            let n = choose|n: NodeV|
                ns.contains(n) && #[trigger] versions(
                    v.objects,
                    traced(v.graph, n.hash, "caused_by"@, back, limit),
                ).contains(m);
            if n != ns.last() {
                let j = choose|j: int| 0 <= j < ns.len() && ns[j] == n;
                assert(head[j] == n);
            }
        }
    } else {
        assert(!all.contains(m));
    }
}

proof fn lemma_roots(v: DbV, q: QueryV, n: NodeV)
    ensures
        in_query_order(filtered(candidates(v, q), q), q).contains(n) <==> candidates(
            v,
            q,
        ).contains(n) && selected(n, q),
{
    let ns = filtered(candidates(v, q), q);
    lemma_filtered(candidates(v, q), q, n);
    if let Some(field) = q.order_by {
        lemma_sorted_nodes(ns, field, q.order_desc);
    }
}

/// Provenance: a query that traces causes, without a limit, finds all that can
/// be read of what led to a version that meets it, over any number of edges,
/// the version itself included; back along the edges, all that followed from
/// it. This holds of every version that meets the query, as long as no more
/// nodes can be reached from it than a walk may visit.
pub proof fn lemma_trace_reaches(
    v: DbV,
    q: QueryV,
    n: NodeV,
    near: Set<Seq<char>>,
    path: Seq<Seq<char>>,
    m: NodeV,
)
    requires
        q.trace is Some,
        q.limit is None,
        candidates(v, q).contains(n),
        selected(n, q),
        near.finite(),
        near.len() <= TRACE_LIMIT,
        near.contains(n.hash),
        closed_under(v.graph, cause_type(q.trace_rev), near),
        is_path(v.graph, cause_type(q.trace_rev), path),
        path.len() > 0,
        path.first() == n.hash,
        version(v.objects, path.last()) == Some(m),
    ensures
        result_nodes(v, q).contains(m),
{
    let kept = in_query_order(filtered(candidates(v, q), q), q);
    let limit = TRACE_LIMIT as nat;
    let visited = traced(v.graph, n.hash, "caused_by"@, q.trace_rev, limit);
    lemma_roots(v, q, n);
    lemma_walk_complete(v.graph, n.hash, q.trace_rev, limit, near, path);
    lemma_versions(v.objects, visited, m);
    assert(version(v.objects, path.last()) == Some(m));
    lemma_walked(v, kept, q.trace_rev, limit, m);
    assert(versions(v.objects, visited).contains(m));
}

/// Provenance: whatever a query that traces causes finds can be read and is
/// reached, along causes or back along them, from a version that meets the
/// query.
pub proof fn lemma_trace_only(v: DbV, q: QueryV, m: NodeV)
    requires
        q.trace is Some,
        result_nodes(v, q).contains(m),
    ensures
        exists|n: NodeV, path: Seq<Seq<char>>|
            {
                &&& #[trigger] candidates(v, q).contains(n)
                &&& selected(n, q)
                &&& #[trigger] is_path(v.graph, cause_type(q.trace_rev), path)
                &&& path.len() > 0
                &&& path.first() == n.hash
                &&& version(v.objects, path.last()) == Some(m)
            },
{
    let kept = in_query_order(filtered(candidates(v, q), q), q);
    let limit = match q.limit {
        Some(k) => k as nat,
        None => TRACE_LIMIT as nat,
    };
    let found = walked(v, kept, q.trace_rev, limit);
    let out = result_nodes(v, q);
    let k = choose|k: int| 0 <= k < out.len() && out[k] == m;
    assert(found[k] == m);
    lemma_walked(v, kept, q.trace_rev, limit, m);
    let n = choose|n: NodeV|
        kept.contains(n) && #[trigger] versions(
            v.objects,
            traced(v.graph, n.hash, "caused_by"@, q.trace_rev, limit),
        ).contains(m);
    let visited = traced(v.graph, n.hash, "caused_by"@, q.trace_rev, limit);
    lemma_roots(v, q, n);
    lemma_versions(v.objects, visited, m);
    let h = choose|h: Seq<char>| visited.contains(h) && #[trigger] version(v.objects, h) == Some(m);
    lemma_same_type(q.trace_rev);
    lemma_traced(v.graph, n.hash, "caused_by"@, q.trace_rev, limit);
    let steps = choose|steps: nat| #[trigger]
        leads_to(v.graph, cause_type(q.trace_rev), n.hash, h, steps);
    let path = lemma_path_of(v.graph, cause_type(q.trace_rev), n.hash, h, steps);
    assert(candidates(v, q).contains(n) && is_path(v.graph, cause_type(q.trace_rev), path));
}

/// Whether nodes come in the order of how near they are: where one of them
/// leads to another, whatever comes before that other is led to by it, or by one
/// that comes before it. Only the first few need not be led to.
pub open spec fn nearest_first(g: GraphV, t: Seq<char>, r: Seq<Seq<char>>, given: int) -> bool {
    forall|i: int, j: int, p: int|
        given <= i < j < r.len() && 0 <= p < r.len() && #[trigger] edge_leads(g, t, r[p], r[j])
            ==> #[trigger] led_to_by(g, t, r, i, p)
}

/// Whether a node is led to by one of the first few.
pub open spec fn led_to_by(g: GraphV, t: Seq<char>, r: Seq<Seq<char>>, i: int, p: int) -> bool {
    exists|k: int| 0 <= k <= p && #[trigger] edge_leads(g, t, r[k], r[i])
}

proof fn lemma_walk_order(
    g: GraphV,
    t: Seq<char>,
    waiting: Seq<Seq<char>>,
    seen: Set<Seq<char>>,
    limit: nat,
)
    ensures
        ({
            let r = walk(g, t, waiting, seen, limit);
            &&& forall|i: int| 0 <= i < waiting.len() && i < r.len() ==> r[i] == #[trigger] waiting[i]
            &&& forall|i: int| waiting.len() <= i < r.len() ==> !seen.contains(#[trigger] r[i])
            &&& nearest_first(g, t, r, waiting.len() as int)
        }),
    decreases limit,
{
    let r = walk(g, t, waiting, seen, limit);
    if limit > 0 && waiting.len() > 0 {
        let found = successors(g, waiting[0], t);
        let new = unseen(found, seen);
        let next = waiting.drop_first() + new;
        let all = seen.union(new.to_set());
        let v = walk(g, t, next, all, (limit - 1) as nat);
        let n = waiting.len() as int;
        lemma_unseen(found, seen);
        lemma_walk_order(g, t, next, all, (limit - 1) as nat);
        assert(forall|i: int| 0 < i < r.len() ==> #[trigger] r[i] == v[i - 1]);
        assert(r[0] == waiting[0]);
        assert forall|i: int| 0 <= i < n && i < r.len() implies r[i] == #[trigger] waiting[i] by {
            if i > 0 {
                assert(next[i - 1] == waiting[i]);
            }
        }
        assert forall|i: int| n <= i < r.len() && i - n < new.len() implies new.contains(
            #[trigger] r[i],
        ) by {
            assert(next[i - 1] == new[i - n]);
            assert(r[i] == new[i - n]);
        }
        assert forall|i: int| n <= i < r.len() implies !seen.contains(#[trigger] r[i]) by {
            if i - n < new.len() {
                assert(new.contains(r[i]));
            } else {
                assert(!all.contains(v[i - 1]));
            }
        }
        assert forall|i: int, j: int, p: int|
            n <= i < j < r.len() && 0 <= p < r.len() && #[trigger] edge_leads(
                g,
                t,
                r[p],
                r[j],
            ) implies #[trigger] led_to_by(g, t, r, i, p) by {
            if i - n < new.len() {
                assert(new.contains(r[i]));
                assert(edge_leads(g, t, r[0], r[i]));
            } else if p == 0 {
                assert(found.contains(r[j]));
                assert(!all.contains(v[j - 1]));
                assert(!seen.contains(r[j]));
                assert(new.contains(r[j]));
                assert(all.contains(r[j]));
            } else {
                assert(edge_leads(g, t, v[p - 1], v[j - 1]));
                assert(led_to_by(g, t, v, i - 1, p - 1));
                let k = choose|k: int|
                    0 <= k <= p - 1 && #[trigger] edge_leads(g, t, v[k], v[i - 1]);
                assert(r[k + 1] == v[k]);
                assert(edge_leads(g, t, r[k + 1], r[i]));
            }
        }
    }
}

/// A walk visits what is near before what is farther away: all that a node leads
/// to is visited before anything that only a later node leads to.
pub proof fn lemma_nearest_first(
    g: GraphV,
    start: Seq<char>,
    edge_type: Seq<char>,
    back: bool,
    limit: nat,
)
    ensures
        nearest_first(
            g,
            followed_type(edge_type, back),
            traced(g, start, edge_type, back, limit),
            1,
        ),
{
    lemma_walk_order(g, followed_type(edge_type, back), seq![start], set![start], limit);
}

/// The versions of hashes one behind the other are those of the first and
/// behind them those of the others. A hash that names no version has none.
pub proof fn lemma_versions_apart(v: ObjV, a: Seq<Seq<char>>, b: Seq<Seq<char>>, h: Seq<char>)
    ensures
        versions(v, a + b) == versions(v, a) + versions(v, b),
        version(v, h) matches Some(n) ==> versions(v, seq![h]) == seq![n],
        version(v, h) is None ==> versions(v, seq![h]) == Seq::<NodeV>::empty(),
    decreases b.len(),
{
    if b.len() == 0 {
        assert(a + b =~= a);
        assert(versions(v, a) + versions(v, b) =~= versions(v, a));
    } else {
        lemma_versions_apart(v, a, b.drop_last(), h);
        assert((a + b).drop_last() =~= a + b.drop_last());
        assert((a + b).last() == b.last());
        assert(versions(v, a + b) =~= versions(v, a) + versions(v, b));
    }
    reveal_with_fuel(versions, 2);
    assert(seq![h].drop_last() =~= Seq::<Seq<char>>::empty());
    assert(seq![h].last() == h);
}

/// What is found from versions one behind the other is what is found from the
/// first and behind it what is found from the others, though it was found
/// before. What is found from one version starts with the version that its hash
/// names.
pub proof fn lemma_walks_apart(
    v: DbV,
    a: Seq<NodeV>,
    b: Seq<NodeV>,
    n: NodeV,
    back: bool,
    limit: nat,
)
    ensures
        walked(v, a + b, back, limit) == walked(v, a, back, limit) + walked(v, b, back, limit),
        limit > 0 && version(v.objects, n.hash) == Some(n) ==> walked(
            v,
            seq![n],
            back,
            limit,
        ).len() > 0 && walked(v, seq![n], back, limit)[0] == n,
    decreases b.len(),
{
    let all = walked(v, a, back, limit) + walked(v, b, back, limit);
    if b.len() == 0 {
        assert(a + b =~= a);
        assert(all =~= walked(v, a, back, limit));
    } else {
        lemma_walks_apart(v, a, b.drop_last(), n, back, limit);
        assert((a + b).drop_last() =~= a + b.drop_last());
        assert((a + b).last() == b.last());
        assert(walked(v, a + b, back, limit) =~= all);
    }
    if limit > 0 && version(v.objects, n.hash) == Some(n) {
        let t = traced(v.graph, n.hash, "caused_by"@, back, limit);
        lemma_traced(v.graph, n.hash, "caused_by"@, back, limit);
        assert(t =~= seq![n.hash] + t.drop_first());
        lemma_versions_apart(v.objects, seq![n.hash], t.drop_first(), n.hash);
        reveal_with_fuel(walked, 2);
        assert(seq![n].drop_last() =~= Seq::<NodeV>::empty());
        assert(seq![n].last() == n);
        assert(walked(v, seq![n], back, limit) =~= versions(v.objects, t));
    }
}

} // verus!
