//! Typed edges between nodes, and walks along them.

use vstd::prelude::*;
#[allow(unused_imports)]
use vstd::string::StringExecFns;
use crate::keyed::Keyed;
use crate::text::same_text;

verus! {

/// An edge: where it starts, its type, and where it leads.
pub type EdgeV = (Seq<char>, Seq<char>, Seq<char>);

/// What a graph is.
#[verifier::ext_equal]
pub struct GraphV {
    /// The nodes that edges of a type lead to from a node, in the order in
    /// which the edges were added.
    pub targets: Map<(Seq<char>, Seq<char>), Seq<Seq<char>>>,
    /// All edges, in the order in which they were added.
    pub edges: Seq<EdgeV>,
}

/// The nodes that edges of a type lead to from a node.
pub open spec fn successors(g: GraphV, from: Seq<char>, edge_type: Seq<char>) -> Seq<Seq<char>> {
    if g.targets.contains_key((from, edge_type)) {
        g.targets[(from, edge_type)]
    } else {
        Seq::empty()
    }
}

/// The graph with an edge. One that is there is not added again.
pub open spec fn edge_added(g: GraphV, e: EdgeV) -> GraphV {
    let was = successors(g, e.0, e.1);
    if was.contains(e.2) {
        g
    } else {
        GraphV { targets: g.targets.insert((e.0, e.1), was.push(e.2)), edges: g.edges.push(e) }
    }
}

/// Adding an edge that is there changes nothing.
pub proof fn lemma_edge_idempotent(g: GraphV, e: EdgeV)
    ensures
        edge_added(edge_added(g, e), e) == edge_added(g, e),
        successors(edge_added(g, e), e.0, e.1).contains(e.2),
{
    let was = successors(g, e.0, e.1);
    if !was.contains(e.2) {
        assert(was.push(e.2)[was.len() as int] == e.2);
    }
}

pub open spec fn no_edges() -> GraphV {
    GraphV { targets: Map::empty(), edges: Seq::empty() }
}

/// The graph of a list of edges.
pub open spec fn edges_added(es: Seq<EdgeV>) -> GraphV
    decreases es.len(),
{
    if es.len() == 0 {
        no_edges()
    } else {
        edge_added(edges_added(es.drop_last()), es.last())
    }
}

/// Those of the nodes that were not seen, each once.
pub open spec fn unseen(nodes: Seq<Seq<char>>, seen: Set<Seq<char>>) -> Seq<Seq<char>>
    decreases nodes.len(),
{
    if nodes.len() == 0 {
        Seq::empty()
    } else {
        let before = unseen(nodes.drop_last(), seen);
        if seen.contains(nodes.last()) || before.contains(nodes.last()) {
            before
        } else {
            before.push(nodes.last())
        }
    }
}

/// A breadth-first walk: the waiting nodes are visited in turn, and the nodes
/// that a visit finds for the first time wait behind them. At most `limit`
/// nodes are visited.
pub open spec fn walk(
    g: GraphV,
    edge_type: Seq<char>,
    waiting: Seq<Seq<char>>,
    seen: Set<Seq<char>>,
    limit: nat,
) -> Seq<Seq<char>>
    decreases limit,
{
    if limit == 0 || waiting.len() == 0 {
        Seq::empty()
    } else {
        let new = unseen(successors(g, waiting[0], edge_type), seen);
        seq![waiting[0]] + walk(
            g,
            edge_type,
            waiting.drop_first() + new,
            seen.union(new.to_set()),
            (limit - 1) as nat,
        )
    }
}

/// The type of the edges that lead back along edges of a type.
pub open spec fn reverse_type(edge_type: Seq<char>) -> Seq<char> {
    edge_type + seq!['_', 'r', 'e', 'v']
}

/// The type of the edges that a walk follows.
pub open spec fn followed_type(edge_type: Seq<char>, reverse: bool) -> Seq<char> {
    if reverse {
        reverse_type(edge_type)
    } else {
        edge_type
    }
}

/// The nodes that a walk from a node visits, the node itself first.
pub open spec fn traced(
    g: GraphV,
    start: Seq<char>,
    edge_type: Seq<char>,
    reverse: bool,
    limit: nat,
) -> Seq<Seq<char>> {
    let t = followed_type(edge_type, reverse);
    walk(g, t, seq![start], set![start], limit)
}

/// Whether `n` edges of a type lead from one node to another.
pub open spec fn leads_to(
    g: GraphV,
    edge_type: Seq<char>,
    a: Seq<char>,
    b: Seq<char>,
    n: nat,
) -> bool
    decreases n,
{
    if n == 0 {
        a == b
    } else {
        exists|m: Seq<char>| #[trigger]
            successors(g, a, edge_type).contains(m) && leads_to(g, edge_type, m, b, (n - 1) as nat)
    }
}

pub(crate) proof fn lemma_unseen(nodes: Seq<Seq<char>>, seen: Set<Seq<char>>)
    ensures
        unseen(nodes, seen).no_duplicates(),
        forall|x: Seq<char>| #[trigger]
            unseen(nodes, seen).contains(x) <==> nodes.contains(x) && !seen.contains(x),
    decreases nodes.len(),
{
    if nodes.len() > 0 {
        let head = nodes.drop_last();
        let last = nodes.last();
        lemma_unseen(head, seen);
        let before = unseen(head, seen);
        let all = unseen(nodes, seen);
        assert(nodes =~= head.push(last));
        assert forall|x: Seq<char>| #[trigger] all.contains(x) <==> nodes.contains(x)
            && !seen.contains(x) by {
            if nodes.contains(x) && x != last {
                let i = choose|i: int| 0 <= i < nodes.len() && nodes[i] == x;
                assert(head[i] == x);
            }
            if head.contains(x) {
                let i = choose|i: int| 0 <= i < head.len() && head[i] == x;
                assert(nodes[i] == x);
            }
            assert(nodes[nodes.len() - 1] == last);
            if before.contains(x) {
                let i = choose|i: int| 0 <= i < before.len() && before[i] == x;
                assert(all[i] == x);
            }
            if all.contains(x) && !before.contains(x) {
                let i = choose|i: int| 0 <= i < all.len() && all[i] == x;
                if i < before.len() {
                    assert(before[i] == x);
                }
                assert(x == last);
            }
            if all.len() > before.len() {
                assert(all[all.len() - 1] == last);
            }
        }
    }
}

/// Whether a walk may go on from here: the waiting nodes are different and
/// have been seen.
spec fn walk_ready(waiting: Seq<Seq<char>>, seen: Set<Seq<char>>) -> bool {
    &&& waiting.no_duplicates()
    &&& forall|i: int| 0 <= i < waiting.len() ==> seen.contains(#[trigger] waiting[i])
}

proof fn lemma_walk(
    g: GraphV,
    t: Seq<char>,
    waiting: Seq<Seq<char>>,
    seen: Set<Seq<char>>,
    limit: nat,
)
    requires
        walk_ready(waiting, seen),
    ensures
        ({
            let w = walk(g, t, waiting, seen, limit);
            &&& w.len() <= limit
            &&& w.no_duplicates()
            &&& forall|x: Seq<char>| #[trigger]
                w.contains(x) ==> !(seen.contains(x) && !waiting.contains(x))
            &&& forall|x: Seq<char>| #[trigger]
                w.contains(x) ==> exists|a: Seq<char>, n: nat|
                    waiting.contains(a) && #[trigger] leads_to(g, t, a, x, n)
            &&& w.len() < limit ==> (forall|x: Seq<char>| #[trigger]
                waiting.contains(x) ==> w.contains(x))
            &&& w.len() < limit ==> (forall|x: Seq<char>, y: Seq<char>| #[trigger]
                w.contains(x) && #[trigger] successors(g, x, t).contains(y) ==> w.contains(y) || (
                seen.contains(y) && !waiting.contains(y)))
        }),
    decreases limit,
{
    let w = walk(g, t, waiting, seen, limit);
    if limit > 0 && waiting.len() > 0 {
        let c = waiting[0];
        let rest = waiting.drop_first();
        let found = successors(g, c, t);
        let new = unseen(found, seen);
        let next = rest + new;
        let all = seen.union(new.to_set());
        lemma_unseen(found, seen);
        assert forall|x: Seq<char>| next.contains(x) <==> rest.contains(x) || new.contains(x) by {
            if rest.contains(x) {
                let i = choose|i: int| 0 <= i < rest.len() && rest[i] == x;
                assert(next[i] == x);
            }
            if new.contains(x) {
                let i = choose|i: int| 0 <= i < new.len() && new[i] == x;
                assert(next[rest.len() + i] == x);
            }
        }
        assert forall|x: Seq<char>| waiting.contains(x) <==> x == c || rest.contains(x) by {
            if rest.contains(x) {
                let i = choose|i: int| 0 <= i < rest.len() && rest[i] == x;
                assert(waiting[i + 1] == x);
            }
            if waiting.contains(x) && x != c {
                let i = choose|i: int| 0 <= i < waiting.len() && waiting[i] == x;
                assert(rest[i - 1] == x);
            }
            if x == c {
                assert(waiting[0] == x);
            }
        }
        assert(!rest.contains(c)) by {
            if rest.contains(c) {
                let i = choose|i: int| 0 <= i < rest.len() && rest[i] == c;
                assert(waiting[i + 1] == waiting[0]);
            }
        }
        assert forall|x: Seq<char>| rest.contains(x) implies seen.contains(x) by {
            let i = choose|i: int| 0 <= i < rest.len() && rest[i] == x;
            assert(waiting[i + 1] == x);
        }
        assert(walk_ready(next, all)) by {
            assert forall|i: int| 0 <= i < next.len() implies all.contains(#[trigger] next[i]) by {
                assert(next.contains(next[i]));
                if new.contains(next[i]) {
                    assert(new.to_set().contains(next[i]));
                }
            }
            assert forall|i: int, j: int|
                0 <= i < next.len() && 0 <= j < next.len() && i != j implies next[i] != next[j] by {
                if i < rest.len() && j < rest.len() {
                    assert(waiting[i + 1] != waiting[j + 1]);
                } else if i >= rest.len() && j >= rest.len() {
                    assert(new[i - rest.len()] != new[j - rest.len()]);
                } else {
                    let a = if i < rest.len() {
                        i
                    } else {
                        j
                    };
                    let b = if i < rest.len() {
                        j
                    } else {
                        i
                    };
                    assert(rest.contains(rest[a]));
                    assert(new.contains(new[b - rest.len()]));
                }
            }
        }
        lemma_walk(g, t, next, all, (limit - 1) as nat);
        let v = walk(g, t, next, all, (limit - 1) as nat);
        assert(seen.contains(c)) by {
            assert(seen.contains(waiting[0]));
        }
        assert(all.contains(c) && !next.contains(c));
        assert(!v.contains(c));
        assert forall|x: Seq<char>| w.contains(x) <==> x == c || v.contains(x) by {
            if v.contains(x) {
                let i = choose|i: int| 0 <= i < v.len() && v[i] == x;
                assert(w[i + 1] == x);
            }
            if w.contains(x) && x != c {
                let i = choose|i: int| 0 <= i < w.len() && w[i] == x;
                assert(v[i - 1] == x);
            }
            assert(w[0] == c);
        }
        assert forall|i: int, j: int|
            0 <= i < w.len() && 0 <= j < w.len() && i != j implies w[i] != w[j] by {
            if i == 0 {
                assert(v.contains(v[j - 1]));
            } else if j == 0 {
                assert(v.contains(v[i - 1]));
            } else {
                assert(v[i - 1] != v[j - 1]);
            }
        }
        assert forall|x: Seq<char>| #[trigger] w.contains(x) implies exists|a: Seq<char>, n: nat|
            waiting.contains(a) && #[trigger] leads_to(g, t, a, x, n) by {
            if x == c {
                assert(leads_to(g, t, c, x, 0));
            } else {
                assert(v.contains(x));
                let (a, n) = choose|a: Seq<char>, n: nat|
                    next.contains(a) && #[trigger] leads_to(g, t, a, x, n);
                if !rest.contains(a) {
                    assert(new.contains(a));
                    assert(found.contains(a));
                    assert(leads_to(g, t, c, x, n + 1));
                }
            }
        }
        if w.len() < limit {
            assert forall|x: Seq<char>, y: Seq<char>| #[trigger] w.contains(x) && #[trigger] successors(
                g,
                x,
                t,
            ).contains(y) implies w.contains(y) || (seen.contains(y) && !waiting.contains(y)) by {
                if x == c {
                    if !seen.contains(y) {
                        assert(new.contains(y));
                        assert(next.contains(y));
                        assert(v.contains(y));
                    } else if waiting.contains(y) && y != c {
                        assert(next.contains(y));
                        assert(v.contains(y));
                    }
                } else {
                    assert(v.contains(x));
                    if !v.contains(y) {
                        assert(all.contains(y) && !next.contains(y));
                        assert(!new.contains(y));
                        assert(!new.to_set().contains(y));
                    }
                }
            }
        }
    }
}

/// A walk visits no node twice and no more than it may; it starts where it is
/// asked to, and every node that it visits is reached from there along edges of
/// the type. Where it does not stop at the limit, whatever an edge leads to
/// from a visited node is visited as well.
pub proof fn lemma_traced(
    g: GraphV,
    start: Seq<char>,
    edge_type: Seq<char>,
    reverse: bool,
    limit: nat,
)
    ensures
        ({
            let t = followed_type(edge_type, reverse);
            let r = traced(g, start, edge_type, reverse, limit);
            &&& r.len() <= limit
            &&& r.no_duplicates()
            &&& limit > 0 ==> r.len() > 0 && r[0] == start
            &&& forall|x: Seq<char>| #[trigger]
                r.contains(x) ==> exists|n: nat| #[trigger] leads_to(g, t, start, x, n)
            &&& r.len() < limit ==> forall|x: Seq<char>, y: Seq<char>| #[trigger]
                r.contains(x) && #[trigger] successors(g, x, t).contains(y) ==> r.contains(y)
        }),
{
    let t = followed_type(edge_type, reverse);
    let waiting = seq![start];
    let seen = set![start];
    let r = traced(g, start, edge_type, reverse, limit);
    lemma_walk(g, t, waiting, seen, limit);
    assert(waiting[0] == start);
    assert(waiting.contains(start));
    assert forall|x: Seq<char>| #[trigger] r.contains(x) implies exists|n: nat| #[trigger] leads_to(
        g,
        t,
        start,
        x,
        n,
    ) by {
        let (a, n) = choose|a: Seq<char>, n: nat|
            waiting.contains(a) && #[trigger] leads_to(g, t, a, x, n);
        assert(a == start);
    }
    if r.len() < limit {
        assert forall|x: Seq<char>, y: Seq<char>| #[trigger] r.contains(x) && #[trigger] successors(
            g,
            x,
            t,
        ).contains(y) implies r.contains(y) by {}
    }
}

/// Directed edges between nodes, each with a type.
pub struct GraphStore {
    targets: Keyed<Keyed<Vec<String>>>,
    edges: Vec<(String, String, String)>,
}

spec fn strings(v: Seq<String>) -> Seq<Seq<char>> {
    v.map_values(|s: String| s@)
}

pub open spec fn edges_view(v: Seq<(String, String, String)>) -> Seq<EdgeV> {
    v.map_values(|e: (String, String, String)| (e.0@, e.1@, e.2@))
}

impl View for GraphStore {
    type V = GraphV;

    closed spec fn view(&self) -> GraphV {
        GraphV {
            targets: Map::new(
                |p: (Seq<char>, Seq<char>)|
                    self.targets@.contains_key(p.0) && self.targets@[p.0]@.contains_key(p.1),
                |p: (Seq<char>, Seq<char>)| strings(self.targets@[p.0]@[p.1]@),
            ),
            edges: edges_view(self.edges@),
        }
    }
}

fn holds(list: &Vec<String>, s: &str) -> (r: bool)
    ensures
        r == strings(list@).contains(s@),
{
    let mut i: usize = 0;
    while i < list.len()
        invariant
            i <= list.len(),
            forall|j: int| 0 <= j < i ==> strings(list@)[j] != s@,
        decreases list.len() - i,
    {
        if same_text(list[i].as_str(), s) {
            assert(strings(list@)[i as int] == s@);
            return true;
        }
        i = i + 1;
    }
    false
}

impl GraphStore {
    pub closed spec fn wf(&self) -> bool {
        &&& self.targets.wf()
        &&& forall|c: Seq<char>| #[trigger] self.targets@.contains_key(c) ==> self.targets@[c].wf()
    }

    /// A graph without edges.
    pub fn in_memory() -> (r: GraphStore)
        ensures
            r.wf(),
            r@ == no_edges(),
    {
        let r = GraphStore { targets: Keyed::new(), edges: Vec::new() };
        assert(r@ =~= no_edges());
        r
    }

    /// The graph of a list of edges.
    pub fn new(edges: Vec<(String, String, String)>) -> (r: GraphStore)
        ensures
            r.wf(),
            r@ == edges_added(edges_view(edges@)),
    {
        let ghost es = edges_view(edges@);
        let mut r = GraphStore::in_memory();
        let mut i: usize = 0;
        while i < edges.len()
            invariant
                i <= edges.len(),
                es == edges_view(edges@),
                r.wf(),
                r@ == edges_added(es.take(i as int)),
            decreases edges.len() - i,
        {
            let e = &edges[i];
            r.add_edge(e.0.as_str(), e.1.as_str(), e.2.as_str());
            assert(es.take(i + 1).drop_last() =~= es.take(i as int));
            assert(es.take(i + 1).last() == (e.0@, e.1@, e.2@));
            i = i + 1;
        }
        assert(es.take(i as int) =~= es);
        r
    }

    /// All edges, in the order in which they were added.
    pub fn edges(&self) -> (r: &Vec<(String, String, String)>)
        ensures
            edges_view(r@) == self@.edges,
    {
        &self.edges
    }

    /// The name of the file that stands for an edge.
    pub fn edge_path(&self, from: &str, edge_type: &str, to: &str) -> (r: String)
        ensures
            r@ == from@ + seq!['/'] + edge_type@ + seq!['/'] + to@,
    {
        let mut path = from.to_owned();
        path.push('/');
        path.append(edge_type);
        path.push('/');
        path.append(to);
        assert(path@ =~= from@ + seq!['/'] + edge_type@ + seq!['/'] + to@);
        path
    }

    /// Adds an edge. One that is there is not added again.
    pub fn add_edge(&mut self, from: &str, edge_type: &str, to: &str)
        requires
            old(self).wf(),
        ensures
            final(self).wf(),
            final(self)@ == edge_added(old(self)@, (from@, edge_type@, to@)),
    {
        let ghost v = self@;
        let ghost e = (from@, edge_type@, to@);
        let ghost was = successors(v, from@, edge_type@);
        match self.targets.get_mut(from) {
            Some(types) => {
                match types.get_mut(edge_type) {
                    Some(list) => {
                        if holds(list, to) {
                            assert(self@ =~= v);
                            return;
                        }
                        list.push(to.to_owned());
                        assert(strings(list@) =~= was.push(to@));
                    },
                    None => {
                        let mut list: Vec<String> = Vec::new();
                        list.push(to.to_owned());
                        assert(strings(list@) =~= was.push(to@));
                        types.insert(edge_type.to_owned(), list);
                    },
                }
            },
            None => {
                let mut list: Vec<String> = Vec::new();
                list.push(to.to_owned());
                assert(strings(list@) =~= was.push(to@));
                let mut types: Keyed<Vec<String>> = Keyed::new();
                types.insert(edge_type.to_owned(), list);
                self.targets.insert(from.to_owned(), types);
            },
        }
        self.edges.push((from.to_owned(), edge_type.to_owned(), to.to_owned()));
        proof {
            assert(edges_view(self.edges@) =~= v.edges.push(e));
            assert(self@.targets =~= v.targets.insert((from@, edge_type@), was.push(to@)));
            assert(self@ =~= edge_added(v, e));
        }
    }

    /// The nodes that edges of a type lead to from a node.
    pub fn outgoing(&self, from: &str, edge_type: &str) -> (r: Vec<String>)
        requires
            self.wf(),
        ensures
            r@.map_values(|s: String| s@) == successors(self@, from@, edge_type@),
    {
        let mut out: Vec<String> = Vec::new();
        assert(strings(out@) =~= Seq::<Seq<char>>::empty());
        if let Some(types) = self.targets.get(from) {
            if let Some(list) = types.get(edge_type) {
                let mut i: usize = 0;
                while i < list.len()
                    invariant
                        i <= list.len(),
                        strings(out@) == strings(list@).take(i as int),
                    decreases list.len() - i,
                {
                    let ghost was = strings(out@);
                    out.push(list[i].clone());
                    assert(strings(out@) =~= was.push(strings(list@)[i as int]));
                    assert(strings(list@).take(i + 1) =~= was.push(strings(list@)[i as int]));
                    i = i + 1;
                }
                assert(strings(list@).take(i as int) =~= strings(list@));
            }
        }
        assert(strings(out@) == out@.map_values(|s: String| s@));
        out
    }

    /// The nodes that edges of a type lead to a node from, found along the
    /// edges that lead back.
    pub fn incoming(&self, to: &str, reverse_edge_type: &str) -> (r: Vec<String>)
        requires
            self.wf(),
        ensures
            r@.map_values(|s: String| s@) == successors(self@, to@, reverse_edge_type@),
    {
        self.outgoing(to, reverse_edge_type)
    }

    /// Walks from a node along edges of a type, or along the edges that lead
    /// back, breadth first, to at most `limit` nodes.
    pub fn trace(&self, start: &str, edge_type: &str, reverse: bool, limit: usize) -> (r: Vec<
        String,
    >)
        requires
            self.wf(),
        ensures
            r@.map_values(|s: String| s@) == traced(
                self@,
                start@,
                edge_type@,
                reverse,
                limit as nat,
            ),
    {
        let mut along = edge_type.to_owned();
        if reverse {
            along.push('_');
            along.push('r');
            along.push('e');
            along.push('v');
            assert(along@ =~= reverse_type(edge_type@));
        }
        let ghost t = along@;
        let ghost g = self@;
        let mut order: Vec<String> = Vec::new();
        order.push(start.to_owned());
        let mut seen: Keyed<bool> = Keyed::new();
        seen.insert(start.to_owned(), true);
        let mut head: usize = 0;
        proof {
            assert(strings(order@) =~= seq![start@]);
            assert(strings(order@).skip(0) =~= seq![start@]);
            assert(seen@.dom() =~= set![start@]);
            let w = walk(g, t, seq![start@], set![start@], limit as nat);
            assert(strings(order@).take(0) + w =~= w);
        }
        while head < limit && head < order.len()
            invariant
                self.wf(),
                g == self@,
                t == along@,
                seen.wf(),
                head <= limit,
                head <= order.len(),
                walk(g, t, seq![start@], set![start@], limit as nat) == strings(order@).take(
                    head as int,
                ) + walk(
                    g,
                    t,
                    strings(order@).skip(head as int),
                    seen@.dom(),
                    (limit - head) as nat,
                ),
            decreases limit - head,
        {
            let ghost waiting = strings(order@).skip(head as int);
            let ghost visited = strings(order@).take(head as int);
            let ghost before = strings(order@);
            let ghost known = seen@.dom();
            let next = self.outgoing(order[head].as_str(), along.as_str());
            let ghost found = strings(next@);
            assert(found == successors(g, waiting[0], t));
            let mut i: usize = 0;
            proof {
                assert(before + unseen(found.take(0), known) =~= before);
                assert(known.union(unseen(found.take(0), known).to_set()) =~= known);
            }
            while i < next.len()
                invariant
                    i <= next.len(),
                    seen.wf(),
                    found == strings(next@),
                    strings(order@) == before + unseen(found.take(i as int), known),
                    seen@.dom() == known.union(unseen(found.take(i as int), known).to_set()),
                decreases next.len() - i,
            {
                let ghost so_far = unseen(found.take(i as int), known);
                proof {
                    assert(found.take(i + 1).drop_last() =~= found.take(i as int));
                    assert(found.take(i + 1).last() == next@[i as int]@);
                    assert(so_far.to_set().contains(next@[i as int]@) <==> so_far.contains(
                        next@[i as int]@,
                    ));
                }
                if !seen.contains(next[i].as_str()) {
                    seen.insert(next[i].clone(), true);
                    let ghost was = strings(order@);
                    order.push(next[i].clone());
                    proof {
                        let x = next@[i as int]@;
                        assert(strings(order@) =~= was.push(x));
                        assert(was.push(x) =~= before + so_far.push(x));
                        assert(so_far.push(x).to_set() =~= so_far.to_set().insert(x)) by {
                            let p = so_far.push(x);
                            assert(p[so_far.len() as int] == x);
                            assert forall|y: Seq<char>| p.to_set().contains(y)
                                <==> so_far.to_set().insert(x).contains(y) by {
                                if so_far.contains(y) {
                                    let k = choose|k: int| 0 <= k < so_far.len() && so_far[k] == y;
                                    assert(p[k] == y);
                                }
                            }
                        }
                        assert(seen@.dom() =~= known.union(so_far.push(x).to_set()));
                    }
                }
                i = i + 1;
            }
            proof {
                let new = unseen(found, known);
                assert(found.take(i as int) =~= found);
                assert(strings(order@).skip(head + 1) =~= waiting.drop_first() + new);
                assert(strings(order@).take(head + 1) =~= visited.push(waiting[0]));
                let rest = walk(
                    g,
                    t,
                    waiting.drop_first() + new,
                    known.union(new.to_set()),
                    (limit - head - 1) as nat,
                );
                assert(visited + (seq![waiting[0]] + rest) =~= visited.push(waiting[0]) + rest);
            }
            head = head + 1;
        }
        let ghost whole = strings(order@);
        order.truncate(head);
        proof {
            assert(strings(order@) =~= whole.take(head as int));
            assert(whole.take(head as int) + Seq::<Seq<char>>::empty() =~= whole.take(head as int));
            assert(strings(order@) == order@.map_values(|s: String| s@));
        }
        order
    }
}

} // verus!
