//! What queries promise.

use vstd::prelude::*;
use crate::ascending::{ascending, lemma_all_placed, lemma_one_order};
use crate::db::{
    all_as_of, as_of, current, deleted_ids, deletion, deletions_in, first_noted, known_ids,
    lemma_deletions_in, listed, noted, sort_key, sorted_nodes, DbV,
};
use crate::history::lists_readable;
use crate::index::{hash_of, id_wf, ids_in};
use crate::index_laws::{indexes_exact, lemma_index_orders};
use crate::json::Num;
use crate::node::NodeV;
use crate::nql::{
    candidates, fetch_limit, filtered, group_added, group_key, group_value, grouped,
    in_query_order, result_nodes, selected, GroupV,
};
use crate::ordered::key_order;
use crate::parser::QueryV;
use crate::sort::{lemma_covers_reaches, lemma_sorted_places, sorted_places};
use crate::store::{all_keys, read_result};
use crate::text::{text_order, Order};

verus! {

/// A filter keeps just those that meet what a query asks.
pub proof fn lemma_filtered(ns: Seq<NodeV>, q: QueryV, n: NodeV)
    ensures
        filtered(ns, q).contains(n) <==> ns.contains(n) && selected(n, q),
    decreases ns.len(),
{
    if ns.len() > 0 {
        let head = ns.drop_last();
        let before = filtered(head, q);
        let all = filtered(ns, q);
        lemma_filtered(head, q, n);
        if ns.contains(n) && ns.last() != n {
            let i = choose|i: int| 0 <= i < ns.len() && ns[i] == n;
            assert(head[i] == n);
        }
        if head.contains(n) {
            let i = choose|i: int| 0 <= i < head.len() && head[i] == n;
            assert(ns[i] == n);
        }
        if before.contains(n) {
            let i = choose|i: int| 0 <= i < before.len() && before[i] == n;
            assert(all[i] == n);
        }
        assert(ns[ns.len() - 1] == ns.last());
        if selected(ns.last(), q) {
            assert(all[all.len() - 1] == ns.last());
            if all.contains(n) && !before.contains(n) {
                let i = choose|i: int| 0 <= i < all.len() && all[i] == n;
                if i < before.len() {
                    assert(before[i] == n);
                }
            }
        }
    }
}

/// Sorting keeps the versions, and puts them in the order of the field.
pub proof fn lemma_sorted_nodes(ns: Seq<NodeV>, field: Seq<char>, descending: bool)
    ensures
        sorted_nodes(ns, field, descending).len() == ns.len(),
        forall|n: NodeV| #[trigger]
            sorted_nodes(ns, field, descending).contains(n) <==> ns.contains(n),
        in_field_order(sorted_nodes(ns, field, descending), field, descending),
{
    let keys = ns.map_values(|n: NodeV| sort_key(n, field));
    let places = sorted_places(keys, descending, 0, ns.len() as int);
    let out = sorted_nodes(ns, field, descending);
    lemma_sorted_places(keys, descending, 0, ns.len() as int);
    assert forall|n: NodeV| #[trigger] out.contains(n) <==> ns.contains(n) by {
        if out.contains(n) {
            let i = choose|i: int| 0 <= i < out.len() && out[i] == n;
            assert(ns[places[i]] == n);
        }
        if ns.contains(n) {
            let k = choose|k: int| 0 <= k < ns.len() && ns[k] == n;
            lemma_covers_reaches(places, ns.len() as int, k);
            let i = choose|i: int| 0 <= i < places.len() && places[i] == k;
            assert(out[i] == n);
        }
    }
    assert forall|i: int, j: int| 0 <= i < j < out.len() implies may_precede(
        #[trigger] out[i],
        #[trigger] out[j],
        field,
        descending,
    ) by {
        assert(crate::sort::in_order(keys, descending, places[i], places[j]));
        assert(out[i] == ns[places[i]] && out[j] == ns[places[j]]);
        crate::ordered::lemma_key_order(keys[places[i]], keys[places[j]]);
    }
}

/// Whether a version may stand before another by the value of a field.
pub open spec fn may_precede(a: NodeV, b: NodeV, field: Seq<char>, descending: bool) -> bool {
    key_order(sort_key(a, field), sort_key(b, field)) != if descending {
        Order::Less
    } else {
        Order::Greater
    }
}

/// Whether versions are in the order of a field.
pub open spec fn in_field_order(ns: Seq<NodeV>, field: Seq<char>, descending: bool) -> bool {
    forall|i: int, j: int|
        0 <= i < j < ns.len() ==> may_precede(#[trigger] ns[i], #[trigger] ns[j], field, descending)
}

proof fn lemma_kept(v: DbV, q: QueryV, n: NodeV)
    ensures
        in_query_order(filtered(candidates(v, q), q), q).contains(n) <==> candidates(
            v,
            q,
        ).contains(n) && selected(n, q),
{
    let ns = filtered(candidates(v, q), q);
    lemma_filtered(candidates(v, q), q, n);
    if let Some(field) = q.order_by {
        lemma_sorted_nodes(ns, field, q.order_desc);
    }
}

/// Predicates: whatever a query finds without a walk is among the versions that
/// it looks at and meets all that it asks. Without a limit it finds all that
/// do.
pub proof fn lemma_query_finds(v: DbV, q: QueryV, n: NodeV)
    requires
        q.trace is None,
    ensures
        result_nodes(v, q).contains(n) ==> candidates(v, q).contains(n) && selected(n, q),
        q.limit is None && candidates(v, q).contains(n) && selected(n, q) ==> result_nodes(
            v,
            q,
        ).contains(n),
{
    let kept = in_query_order(filtered(candidates(v, q), q), q);
    lemma_kept(v, q, n);
    let out = result_nodes(v, q);
    if out.contains(n) {
        let i = choose|i: int| 0 <= i < out.len() && out[i] == n;
        assert(kept[i] == n);
    }
}

/// A query finds no more than its limit.
pub proof fn lemma_query_limit(v: DbV, q: QueryV)
    requires
        q.limit is Some,
    ensures
        result_nodes(v, q).len() <= q.limit->0,
{
}

/// Order: what a query that sorts finds without a walk is in the order of the
/// field.
pub proof fn lemma_query_order(v: DbV, q: QueryV, field: Seq<char>)
    requires
        q.trace is None,
        q.order_by == Some(field),
        indexes_exact(v),
    ensures
        in_field_order(result_nodes(v, q), field, q.order_desc),
{
    let ns = filtered(candidates(v, q), q);
    let kept = in_query_order(ns, q);
    if q.as_of is Some || q.wheres.len() > 0 || q.search is Some {
        lemma_sorted_nodes(ns, field, q.order_desc);
    } else if v.sorted.contains_key((q.coll, field)) {
        lemma_index_orders(v, q.coll, field, q.order_desc, fetch_limit(q) as int);
        lemma_filter_keeps_order(candidates(v, q), q, field, q.order_desc);
    } else {
        let all = listed(v, q.coll, ids_in(v.ids, q.coll));
        lemma_sorted_nodes(all, field, q.order_desc);
        let sorted = sorted_nodes(all, field, q.order_desc);
        let cut = candidates(v, q);
        assert forall|i: int, j: int| 0 <= i < j < cut.len() implies may_precede(
            #[trigger] cut[i],
            #[trigger] cut[j],
            field,
            q.order_desc,
        ) by {
            assert(cut[i] == sorted[i] && cut[j] == sorted[j]);
        }
        lemma_filter_keeps_order(cut, q, field, q.order_desc);
    }
    let out = result_nodes(v, q);
    assert forall|i: int, j: int| 0 <= i < j < out.len() implies may_precede(
        #[trigger] out[i],
        #[trigger] out[j],
        field,
        q.order_desc,
    ) by {
        assert(out[i] == kept[i] && out[j] == kept[j]);
    }
}

proof fn lemma_filter_keeps_order(ns: Seq<NodeV>, q: QueryV, field: Seq<char>, descending: bool)
    requires
        in_field_order(ns, field, descending),
    ensures
        in_field_order(filtered(ns, q), field, descending),
    decreases ns.len(),
{
    if ns.len() > 0 {
        let head = ns.drop_last();
        assert(in_field_order(head, field, descending)) by {
            assert forall|i: int, j: int| 0 <= i < j < head.len() implies may_precede(
                #[trigger] head[i],
                #[trigger] head[j],
                field,
                descending,
            ) by {
                assert(head[i] == ns[i] && head[j] == ns[j]);
            }
        }
        lemma_filter_keeps_order(head, q, field, descending);
        let before = filtered(head, q);
        let all = filtered(ns, q);
        assert forall|i: int, j: int| 0 <= i < j < all.len() implies may_precede(
            #[trigger] all[i],
            #[trigger] all[j],
            field,
            descending,
        ) by {
            if j < before.len() {
                assert(all[i] == before[i] && all[j] == before[j]);
            } else {
                assert(all[i] == before[i]);
                assert(before.contains(before[i]));
                lemma_filtered(head, q, before[i]);
                let k = choose|k: int| 0 <= k < head.len() && head[k] == before[i];
                assert(ns[k] == before[i]);
                assert(all[j] == ns[ns.len() - 1]);
            }
        }
    }
}

/// A query without an order looks at the current version of each document of
/// the collection that can be read, and at nothing else.
pub proof fn lemma_lists_current(v: DbV, coll: Seq<char>, ids: Seq<Seq<char>>, n: NodeV)
    ensures
        listed(v, coll, ids).contains(n) <==> exists|i: Seq<char>|
            ids.contains(i) && #[trigger] current(v, coll, i) == Some(n),
    decreases ids.len(),
{
    let all = listed(v, coll, ids);
    if ids.len() == 0 {
        assert(!all.contains(n));
    } else {
        let head = ids.drop_last();
        let before = listed(v, coll, head);
        lemma_lists_current(v, coll, head, n);
        if before.contains(n) {
            let k = choose|k: int| 0 <= k < before.len() && before[k] == n;
            assert(all[k] == n);
            let i = choose|i: Seq<char>| head.contains(i) && #[trigger] current(v, coll, i) == Some(n);
            let j = choose|j: int| 0 <= j < head.len() && head[j] == i;
            assert(ids[j] == i);
        }
        assert(ids[ids.len() - 1] == ids.last());
        assert(ids.contains(ids.last()));
        if current(v, coll, ids.last()) == Some(n) {
            assert(all[all.len() - 1] == n);
        }
        if all.contains(n) && !before.contains(n) {
            let k = choose|k: int| 0 <= k < all.len() && all[k] == n;
            if k < before.len() {
                assert(before[k] == n);
            }
        }
        if exists|i: Seq<char>| ids.contains(i) && #[trigger] current(v, coll, i) == Some(n) {
            let i = choose|i: Seq<char>| ids.contains(i) && #[trigger] current(v, coll, i) == Some(n);
            if i != ids.last() {
                let j = choose|j: int| 0 <= j < ids.len() && ids[j] == i;
                assert(head[j] == i);
            }
        }
    }
}

proof fn lemma_lists_some(
    v: DbV,
    coll: Seq<char>,
    ids: Seq<Seq<char>>,
    target: u64,
    n: NodeV,
)
    ensures
        all_as_of(v, coll, ids, target).contains(n) <==> exists|i: Seq<char>|
            ids.contains(i) && #[trigger] as_of(v, coll, i, target) == Some(n),
    decreases ids.len(),
{
    let all = all_as_of(v, coll, ids, target);
    if ids.len() == 0 {
        assert(!all.contains(n));
    } else {
        let head = ids.drop_last();
        let before = all_as_of(v, coll, head, target);
        lemma_lists_some(v, coll, head, target, n);
        if before.contains(n) {
            let k = choose|k: int| 0 <= k < before.len() && before[k] == n;
            assert(all[k] == n);
            let i = choose|i: Seq<char>|
                head.contains(i) && #[trigger] as_of(v, coll, i, target) == Some(n);
            let j = choose|j: int| 0 <= j < head.len() && head[j] == i;
            assert(ids[j] == i);
        }
        assert(ids[ids.len() - 1] == ids.last());
        assert(ids.contains(ids.last()));
        if as_of(v, coll, ids.last(), target) == Some(n) {
            assert(all[all.len() - 1] == n);
        }
        if all.contains(n) && !before.contains(n) {
            let k = choose|k: int| 0 <= k < all.len() && all[k] == n;
            if k < before.len() {
                assert(before[k] == n);
            }
        }
        if exists|i: Seq<char>| ids.contains(i) && #[trigger] as_of(v, coll, i, target) == Some(n) {
            let i = choose|i: Seq<char>|
                ids.contains(i) && #[trigger] as_of(v, coll, i, target) == Some(n);
            if i != ids.last() {
                let j = choose|j: int| 0 <= j < ids.len() && ids[j] == i;
                assert(head[j] == i);
            }
        }
    }
}

/// Whether a database lists all that it holds.
pub open spec fn lists_all(v: DbV) -> bool {
    id_wf(v.ids) && lists_readable(v.objects)
}

/// A document that had a version at a write is among those that a query at
/// that write looks at.
proof fn lemma_known(v: DbV, coll: Seq<char>, id: Seq<char>, target: u64)
    requires
        lists_all(v),
        as_of(v, coll, id, target) is Some,
    ensures
        known_ids(v, coll, target).contains(id),
{
    let o = v.objects;
    let here = ids_in(v.ids, coll);
    let ds = deletions_in(o, coll, target, all_keys(o));
    let all = here + deleted_ids(ds);
    lemma_all_placed(all);
    if hash_of(v.ids, coll, id) is Some {
        assert(v.ids.docs.contains_key((coll, id)));
        assert(here.contains(id));
        let k = choose|k: int| 0 <= k < here.len() && here[k] == id;
        assert(all[k] == id);
    } else {
        let h = choose|h: Seq<char>| first_noted(o, coll, id, target, h);
        assert(noted(o, coll, id, target, h));
        assert(read_result(o, h) is Ok);
        lemma_deletions_in(o, coll, target, all_keys(o));
        assert(deletion(o, coll, target, h) is Some);
        let d = deletion(o, coll, target, h)->0;
        assert(ds.contains(d));
        let k = choose|k: int| 0 <= k < ds.len() && ds[k] == d;
        assert(all[here.len() + k] == id);
    }
    assert(all.contains(id));
}

/// A query at an earlier write looks at what was current then of each document,
/// deleted since or not, and at nothing else.
pub proof fn lemma_lists_as_of(v: DbV, coll: Seq<char>, target: u64, n: NodeV)
    requires
        lists_all(v),
    ensures
        all_as_of(v, coll, known_ids(v, coll, target), target).contains(n) <==> exists|
            i: Seq<char>,
        | #[trigger] as_of(v, coll, i, target) == Some(n),
{
    let ids = known_ids(v, coll, target);
    lemma_lists_some(v, coll, ids, target, n);
    if exists|i: Seq<char>| #[trigger] as_of(v, coll, i, target) == Some(n) {
        let i = choose|i: Seq<char>| #[trigger] as_of(v, coll, i, target) == Some(n);
        lemma_known(v, coll, i, target);
        assert(ids.contains(i));
    }
}

/// Those of the ids whose documents had a version at a write.
spec fn found_ids(v: DbV, coll: Seq<char>, ids: Seq<Seq<char>>, target: u64) -> Seq<Seq<char>>
    decreases ids.len(),
{
    if ids.len() == 0 {
        Seq::empty()
    } else {
        let before = found_ids(v, coll, ids.drop_last(), target);
        if as_of(v, coll, ids.last(), target) is Some {
            before.push(ids.last())
        } else {
            before
        }
    }
}

proof fn lemma_found_ids(v: DbV, coll: Seq<char>, ids: Seq<Seq<char>>, target: u64)
    requires
        ascending(ids),
    ensures
        ascending(found_ids(v, coll, ids, target)),
        forall|x: Seq<char>| #[trigger]
            found_ids(v, coll, ids, target).contains(x) <==> ids.contains(x) && as_of(
                v,
                coll,
                x,
                target,
            ) is Some,
        all_as_of(v, coll, ids, target) == found_ids(v, coll, ids, target).map_values(
            |i: Seq<char>| as_of(v, coll, i, target)->0,
        ),
    decreases ids.len(),
{
    let all = found_ids(v, coll, ids, target);
    let f = |i: Seq<char>| as_of(v, coll, i, target)->0;
    if ids.len() == 0 {
        assert(all_as_of(v, coll, ids, target) =~= all.map_values(f));
    } else {
        let head = ids.drop_last();
        let before = found_ids(v, coll, head, target);
        lemma_found_ids(v, coll, head, target);
        assert(all_as_of(v, coll, ids, target) =~= all.map_values(f));
        assert forall|x: Seq<char>| #[trigger] all.contains(x) <==> ids.contains(x) && as_of(
            v,
            coll,
            x,
            target,
        ) is Some by {
            if before.contains(x) {
                let k = choose|k: int| 0 <= k < before.len() && before[k] == x;
                assert(all[k] == x);
                let j = choose|j: int| 0 <= j < head.len() && head[j] == x;
                assert(ids[j] == x);
            }
            if all.contains(x) && !before.contains(x) {
                let k = choose|k: int| 0 <= k < all.len() && all[k] == x;
                if k < before.len() {
                    assert(before[k] == x);
                }
                assert(ids[ids.len() - 1] == x);
            }
            if ids.contains(x) && as_of(v, coll, x, target) is Some {
                if x == ids.last() {
                    assert(all[all.len() - 1] == x);
                } else {
                    let j = choose|j: int| 0 <= j < ids.len() && ids[j] == x;
                    assert(head[j] == x);
                    assert(before.contains(x));
                }
            }
        }
        assert forall|i: int, j: int| 0 <= i < j < all.len() implies text_order(
            #[trigger] all[i],
            #[trigger] all[j],
        ) == Order::Less by {
            if j == before.len() {
                assert(before.contains(all[i]));
                let k = choose|k: int| 0 <= k < head.len() && head[k] == all[i];
                assert(text_order(ids[k], ids[ids.len() - 1]) == Order::Less);
            } else {
                assert(all[i] == before[i] && all[j] == before[j]);
            }
        }
    }
}

/// Databases whose documents had the same versions at a write list the same at
/// that write.
pub proof fn lemma_all_as_of_same(v: DbV, w: DbV, coll: Seq<char>, target: u64)
    requires
        lists_all(v),
        lists_all(w),
        forall|i: Seq<char>| #[trigger] as_of(w, coll, i, target) == as_of(v, coll, i, target),
    ensures
        all_as_of(w, coll, known_ids(w, coll, target), target) == all_as_of(
            v,
            coll,
            known_ids(v, coll, target),
            target,
        ),
{
    let a = known_ids(v, coll, target);
    let b = known_ids(w, coll, target);
    lemma_all_placed(
        ids_in(v.ids, coll) + deleted_ids(
            deletions_in(v.objects, coll, target, all_keys(v.objects)),
        ),
    );
    lemma_all_placed(
        ids_in(w.ids, coll) + deleted_ids(
            deletions_in(w.objects, coll, target, all_keys(w.objects)),
        ),
    );
    lemma_found_ids(v, coll, a, target);
    lemma_found_ids(w, coll, b, target);
    let x = found_ids(v, coll, a, target);
    let y = found_ids(w, coll, b, target);
    assert forall|i: Seq<char>| #[trigger] x.contains(i) <==> y.contains(i) by {
        if x.contains(i) {
            assert(as_of(w, coll, i, target) == as_of(v, coll, i, target));
            lemma_known(w, coll, i, target);
        }
        if y.contains(i) {
            assert(as_of(w, coll, i, target) == as_of(v, coll, i, target));
            lemma_known(v, coll, i, target);
        }
    }
    lemma_one_order(x, y);
    assert(all_as_of(w, coll, b, target) =~= all_as_of(v, coll, a, target));
}

/// Time travel: where the documents of a collection had the same versions at a
/// write, a query at that write, without a walk, finds just the same, in the
/// same order. So it does after any writes and deletions that came later.
pub proof fn lemma_query_time_travel(v: DbV, w: DbV, q: QueryV, target: u64)
    requires
        lists_all(v),
        lists_all(w),
        forall|i: Seq<char>| #[trigger] as_of(w, q.coll, i, target) == as_of(v, q.coll, i, target),
        q.as_of == Some(target),
        q.trace is None,
    ensures
        result_nodes(w, q) == result_nodes(v, q),
{
    lemma_all_as_of_same(v, w, q.coll, target);
    assert(candidates(w, q) == candidates(v, q));
}

/// Whether one of the groups has a key.
pub open spec fn has_group(gs: Seq<GroupV>, key: Seq<char>) -> bool {
    exists|i: int| 0 <= i < gs.len() && (#[trigger] gs[i]).key == key
}

/// Whether no two groups have the same key.
pub open spec fn groups_differ(gs: Seq<GroupV>) -> bool {
    forall|i: int, j: int|
        0 <= i < j < gs.len() ==> (#[trigger] gs[i]).key != (#[trigger] gs[j]).key
}

/// How many numbers groups have together.
pub open spec fn group_total(gs: Seq<GroupV>) -> nat
    decreases gs.len(),
{
    if gs.len() == 0 {
        0
    } else {
        gs[0].values.len() + group_total(gs.drop_first())
    }
}

proof fn lemma_group_added(gs: Seq<GroupV>, key: Seq<char>, value: Num)
    requires
        groups_differ(gs),
    ensures
        groups_differ(group_added(gs, key, value)),
        forall|k: Seq<char>| #[trigger]
            has_group(group_added(gs, key, value), k) <==> has_group(gs, k) || k == key,
        group_total(group_added(gs, key, value)) == group_total(gs) + 1,
    decreases gs.len(),
{
    let w = group_added(gs, key, value);
    if gs.len() == 0 {
        assert(w[0].key == key);
        assert(w.drop_first() =~= Seq::empty());
        assert(group_total(w) == 1 + group_total(w.drop_first()));
    } else {
        let rest = gs.drop_first();
        assert forall|i: int, j: int| 0 <= i < j < rest.len() implies (#[trigger] rest[i]).key != (
        #[trigger] rest[j]).key by {
            assert(gs[i + 1].key != gs[j + 1].key);
        }
        let tail = if gs[0].key == key {
            rest
        } else {
            lemma_group_added(rest, key, value);
            group_added(rest, key, value)
        };
        assert(w.drop_first() =~= tail);
        assert(w[0].key == gs[0].key);
        assert forall|k: Seq<char>| has_group(gs, k) <==> gs[0].key == k || has_group(rest, k) by {
            if has_group(gs, k) && gs[0].key != k {
                let i = choose|i: int| 0 <= i < gs.len() && (#[trigger] gs[i]).key == k;
                assert(rest[i - 1].key == k);
            }
            if has_group(rest, k) {
                let i = choose|i: int| 0 <= i < rest.len() && (#[trigger] rest[i]).key == k;
                assert(gs[i + 1].key == k);
            }
        }
        assert forall|k: Seq<char>| has_group(w, k) <==> gs[0].key == k || has_group(tail, k) by {
            if has_group(w, k) && gs[0].key != k {
                let i = choose|i: int| 0 <= i < w.len() && (#[trigger] w[i]).key == k;
                assert(tail[i - 1].key == k);
            }
            if has_group(tail, k) {
                let i = choose|i: int| 0 <= i < tail.len() && (#[trigger] tail[i]).key == k;
                assert(w[i + 1].key == k);
            }
        }
        assert(!has_group(rest, gs[0].key)) by {
            if has_group(rest, gs[0].key) {
                let i = choose|i: int| 0 <= i < rest.len() && (#[trigger] rest[i]).key == gs[0].key;
                assert(gs[i + 1].key != gs[0].key);
            }
        }
        assert(!has_group(tail, gs[0].key));
        assert forall|i: int, j: int| 0 <= i < j < w.len() implies (#[trigger] w[i]).key != (
        #[trigger] w[j]).key by {
            assert(w[j] == tail[j - 1]);
            if i > 0 {
                assert(w[i] == tail[i - 1]);
            } else {
                assert(tail[j - 1].key != gs[0].key) by {
                    assert(!has_group(tail, gs[0].key));
                }
            }
        }
    }
}

/// Grouping leaves nothing out and counts nothing twice: there is one group for
/// each value of the field that a version has, and the groups have as many
/// numbers together as there are versions.
pub proof fn lemma_grouped(ns: Seq<NodeV>, field: Seq<char>)
    ensures
        groups_differ(grouped(ns, field)),
        forall|k: Seq<char>| #[trigger]
            has_group(grouped(ns, field), k) <==> exists|i: int|
                0 <= i < ns.len() && group_key(#[trigger] ns[i], field) == k,
        group_total(grouped(ns, field)) == ns.len(),
    decreases ns.len(),
{
    if ns.len() > 0 {
        let before = ns.drop_last();
        lemma_grouped(before, field);
        lemma_group_added(
            grouped(before, field),
            group_key(ns.last(), field),
            group_value(ns.last(), field),
        );
        assert forall|k: Seq<char>| #[trigger]
            has_group(grouped(ns, field), k) <==> exists|i: int|
                0 <= i < ns.len() && group_key(#[trigger] ns[i], field) == k by {
            if has_group(grouped(before, field), k) {
                let i = choose|i: int|
                    0 <= i < before.len() && group_key(#[trigger] before[i], field) == k;
                assert(group_key(ns[i], field) == k);
            }
            if group_key(ns.last(), field) == k {
                assert(group_key(ns[ns.len() - 1], field) == k);
            }
            if exists|i: int| 0 <= i < ns.len() && group_key(#[trigger] ns[i], field) == k {
                let i = choose|i: int| 0 <= i < ns.len() && group_key(#[trigger] ns[i], field) == k;
                if i < before.len() {
                    assert(group_key(before[i], field) == k);
                }
            }
        }
    }
}

} // verus!
