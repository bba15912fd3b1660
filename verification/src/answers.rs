//! What the answer to a query holds: which documents it finds, in which order,
//! how many, what a row says of a version, and what a row says of a group.

use vstd::prelude::*;
use crate::conditions::{bits_before, precedes};
use crate::db::{
    as_of, current, doc_fields, listed, sort_key, version, versions, DbV,
};
use crate::double::total_order;
use crate::index::{id_wf, ids_in};
use crate::index_laws::{indexes_exact, lemma_index_complete, lemma_index_orders};
use crate::json::{
    field_of, field_set, json_chars, json_get, keys_ascend, lemma_field_set, num_bits, Json, Num,
};
use crate::node::{as_float, lemma_by_key, texts_json, NodeV};
use crate::nql::{
    answer_of, candidates, extreme, filtered, group_added, group_key, group_result,
    group_row, group_value, grouped, leading_quotes, node_row, result_nodes, selected,
    trailing_quotes, AnswerV, GroupAgg, GroupV,
};
use crate::ordered::lemma_key_order;
use crate::parser::QueryV;
use crate::query_laws::{
    lemma_lists_as_of, lemma_lists_current, lemma_query_finds,
    lemma_query_order, lemma_sorted_nodes, lists_all, may_precede,
};
use crate::sorted::{first, flat_asc, flat_desc};
use crate::text::Order;

verus! {

proof fn lemma_listed_len(v: DbV, coll: Seq<char>, ids: Seq<Seq<char>>)
    ensures
        listed(v, coll, ids).len() <= ids.len(),
    decreases ids.len(),
{
    if ids.len() > 0 {
        lemma_listed_len(v, coll, ids.drop_last());
    }
}

/// Whether the current version of some document of a collection is this.
pub open spec fn is_current(v: DbV, coll: Seq<char>, n: NodeV) -> bool {
    exists|id: Seq<char>| #[trigger] current(v, coll, id) == Some(n)
}

/// A query without a limit and without a walk finds the current version of every
/// document of its collection that meets it, and nothing else, in whatever order
/// it is asked for. Where the order is that of a sorted index, only documents
/// that have the field are meant.
pub proof fn lemma_finds_current(v: DbV, q: QueryV, n: NodeV)
    requires
        q.trace is None,
        q.limit is None,
        q.as_of is None,
        id_wf(v.ids),
        ids_in(v.ids, q.coll).len() <= usize::MAX,
        q.order_by matches Some(f) ==> (v.sorted.contains_key((q.coll, f)) ==> indexes_exact(v)
            && flat_asc(v.sorted[(q.coll, f)]).len() <= usize::MAX && flat_desc(
            v.sorted[(q.coll, f)],
        ).len() <= usize::MAX && (is_current(v, q.coll, n) ==> json_get(n.data, f) is Some)),
    ensures
        result_nodes(v, q).contains(n) <==> is_current(v, q.coll, n) && selected(n, q),
{
    let ids = ids_in(v.ids, q.coll);
    let all = listed(v, q.coll, ids);
    lemma_query_finds(v, q, n);
    lemma_listed_len(v, q.coll, ids);
    lemma_lists_current(v, q.coll, ids, n);
    if is_current(v, q.coll, n) {
        let id = choose|id: Seq<char>| #[trigger] current(v, q.coll, id) == Some(n);
        assert(v.ids.docs.contains_key((q.coll, id)));
        assert(ids.contains(id));
    }
    assert(all.contains(n) <==> is_current(v, q.coll, n));
    if let Some(f) = q.order_by {
        if v.sorted.contains_key((q.coll, f)) {
            lemma_index_orders(v, q.coll, f, q.order_desc, usize::MAX as int);
            if is_current(v, q.coll, n) {
                let id = choose|id: Seq<char>| #[trigger] current(v, q.coll, id) == Some(n);
                lemma_index_complete(v, q.coll, f, q.order_desc, usize::MAX as int, id);
            }
        } else {
            lemma_sorted_nodes(all, f, q.order_desc);
        }
    }
}

/// A query at an earlier write, without a limit and without a walk, finds what
/// was current then of every document that meets it, and nothing else.
pub proof fn lemma_finds_as_of(v: DbV, q: QueryV, target: u64, n: NodeV)
    requires
        q.trace is None,
        q.limit is None,
        q.as_of == Some(target),
        lists_all(v),
    ensures
        result_nodes(v, q).contains(n) <==> (exists|id: Seq<char>| #[trigger]
            as_of(v, q.coll, id, target) == Some(n)) && selected(n, q),
{
    lemma_query_finds(v, q, n);
    lemma_lists_as_of(v, q.coll, target, n);
}

proof fn lemma_versions_first(v: DbV, hs: Seq<Seq<char>>, k: int)
    requires
        0 <= k <= hs.len(),
        forall|i: int| 0 <= i < hs.len() ==> version(v.objects, #[trigger] hs[i]) is Some,
    ensures
        versions(v.objects, hs.take(k)) == versions(v.objects, hs).take(k),
        versions(v.objects, hs).len() == hs.len(),
    decreases hs.len(),
{
    if hs.len() > 0 {
        let head = hs.drop_last();
        assert forall|i: int| 0 <= i < head.len() implies version(
            v.objects,
            #[trigger] head[i],
        ) is Some by {
            assert(head[i] == hs[i]);
        }
        assert(version(v.objects, hs[hs.len() - 1]) is Some);
        if k < hs.len() {
            lemma_versions_first(v, head, k);
            assert(head.take(k) =~= hs.take(k));
            assert(versions(v.objects, hs).take(k) =~= versions(v.objects, head).take(k));
        } else {
            lemma_versions_first(v, head, head.len() as int);
            assert(hs.take(k) =~= hs);
            assert(versions(v.objects, hs).take(k) =~= versions(v.objects, hs));
        }
    } else {
        assert(hs.take(k) =~= hs);
        assert(versions(v.objects, hs).take(k) =~= versions(v.objects, hs));
    }
}

/// Whether all that a sorted index lists can be read.
pub open spec fn index_readable(v: DbV, coll: Seq<char>, field: Seq<char>) -> bool {
    &&& forall|i: int|
        0 <= i < flat_asc(v.sorted[(coll, field)]).len() ==> version(
            v.objects,
            #[trigger] flat_asc(v.sorted[(coll, field)])[i],
        ) is Some
    &&& forall|i: int|
        0 <= i < flat_desc(v.sorted[(coll, field)]).len() ==> version(
            v.objects,
            #[trigger] flat_desc(v.sorted[(coll, field)])[i],
        ) is Some
}

proof fn lemma_nothing_asked(ns: Seq<NodeV>, q: QueryV)
    requires
        q.wheres.len() == 0,
        q.valid_as_of is None,
        q.search is None,
    ensures
        filtered(ns, q) == ns,
    decreases ns.len(),
{
    if ns.len() > 0 {
        lemma_nothing_asked(ns.drop_last(), q);
        assert(ns =~= ns.drop_last().push(ns.last()));
    } else {
        assert(filtered(ns, q) =~= ns);
    }
}

proof fn lemma_same_filter(ns: Seq<NodeV>, q: QueryV, r: QueryV)
    requires
        forall|n: NodeV| #[trigger] selected(n, q) == selected(n, r),
    ensures
        filtered(ns, q) == filtered(ns, r),
    decreases ns.len(),
{
    if ns.len() > 0 {
        lemma_same_filter(ns.drop_last(), q, r);
        assert(selected(ns.last(), q) == selected(ns.last(), r));
    }
}

/// A limit: a query with one, without a walk, gives the first rows, as many, of
/// those that it gives without; where it has fewer it gives them all. A filter
/// counts only what it leaves, and an order is that of all rows.
pub proof fn lemma_limit_first(v: DbV, q: QueryV, k: usize)
    requires
        q.trace is None,
        q.limit == Some(k),
        ids_in(v.ids, q.coll).len() <= usize::MAX,
        q.as_of is None && (q.order_by matches Some(f) && v.sorted.contains_key((q.coll, f)))
            ==> index_readable(v, q.coll, q.order_by->0) && flat_asc(
            v.sorted[(q.coll, q.order_by->0)],
        ).len() <= usize::MAX && flat_desc(v.sorted[(q.coll, q.order_by->0)]).len() <= usize::MAX,
    ensures
        ({
            let all = result_nodes(v, QueryV { limit: None, ..q });
            let some = result_nodes(v, q);
            &&& some.len() == if all.len() <= k {
                all.len()
            } else {
                k as nat
            }
            &&& forall|i: int| 0 <= i < some.len() ==> #[trigger] some[i] == all[i]
        }),
{
    let r = QueryV { limit: None, ..q };
    let a = candidates(v, q);
    let b = candidates(v, r);
    assert forall|n: NodeV| #[trigger] selected(n, q) == selected(n, r) by {
        assert(q.wheres == r.wheres);
        if selected(n, q) {
            assert forall|i: int| 0 <= i < r.wheres.len() implies crate::nql::where_holds(
                n,
                #[trigger] r.wheres[i],
            ) by {
                assert(crate::nql::where_holds(n, q.wheres[i]));
            }
        }
        if selected(n, r) {
            assert forall|i: int| 0 <= i < q.wheres.len() implies crate::nql::where_holds(
                n,
                #[trigger] q.wheres[i],
            ) by {
                assert(crate::nql::where_holds(n, r.wheres[i]));
            }
        }
    }
    lemma_same_filter(b, q, r);
    if q.as_of is None && q.order_by is Some && q.wheres.len() == 0 && q.valid_as_of is None
        && q.search is None {
        let f = q.order_by->0;
        lemma_nothing_asked(a, q);
        lemma_nothing_asked(b, r);
        lemma_listed_len(v, q.coll, ids_in(v.ids, q.coll));
        if v.sorted.contains_key((q.coll, f)) {
            let hs = if q.order_desc {
                flat_desc(v.sorted[(q.coll, f)])
            } else {
                flat_asc(v.sorted[(q.coll, f)])
            };
            lemma_versions_first(v, hs, hs.len() as int);
            if hs.len() > k {
                lemma_versions_first(v, hs, k as int);
            }
            assert(first(hs, usize::MAX as int) == hs);
        } else {
            lemma_sorted_nodes(listed(v, q.coll, ids_in(v.ids, q.coll)), f, q.order_desc);
        }
        assert(a == first(b, k as int));
    } else {
        assert(a == b);
    }
}

/// The value that a version is sorted by: that of the field, null where the
/// document has none.
pub open spec fn sort_value(n: NodeV, field: Seq<char>) -> Json {
    match json_get(n.data, field) {
        Some(j) => j,
        None => Json::Null,
    }
}

/// Order: of two rows of a query that sorts, the later one does not have a value
/// that comes before that of the earlier one; descending, the other way round.
pub proof fn lemma_rows_in_order(v: DbV, q: QueryV, field: Seq<char>, i: int, j: int)
    requires
        q.trace is None,
        q.order_by == Some(field),
        indexes_exact(v),
        0 <= i < j < result_nodes(v, q).len(),
    ensures
        ({
            let a = sort_value(result_nodes(v, q)[i], field);
            let b = sort_value(result_nodes(v, q)[j], field);
            if q.order_desc {
                !precedes(a, b)
            } else {
                !precedes(b, a)
            }
        }),
{
    lemma_query_order(v, q, field);
    let out = result_nodes(v, q);
    assert(may_precede(out[i], out[j], field, q.order_desc));
    lemma_key_order(sort_key(out[i], field), sort_key(out[j], field));
}

/// What a row says of a version: its id, hash, number and collection, from when
/// to when it is valid and what caused it where that is so, and every field of
/// the document that is not named like one of these.
pub proof fn lemma_row(n: NodeV, key: Seq<char>)
    requires
        keys_ascend(doc_fields(n.data)),
    ensures
        json_get(node_row(n), "_id"@) == Some(Json::Text(n.id)),
        json_get(node_row(n), "_hash"@) == Some(Json::Text(n.hash)),
        json_get(node_row(n), "_seq"@) == Some(Json::Number(Num::Int(n.seq as int))),
        json_get(node_row(n), "_coll"@) == Some(Json::Text(n.coll)),
        n.valid_from matches Some(t) ==> json_get(node_row(n), "_valid_from"@) == Some(Json::Text(t)),
        n.valid_to matches Some(t) ==> json_get(node_row(n), "_valid_to"@) == Some(Json::Text(t)),
        n.caused_by.len() > 0 ==> json_get(node_row(n), "_caused_by"@) == Some(
            Json::Array(Seq::new(n.caused_by.len(), |i: int| Json::Text(n.caused_by[i]))),
        ),
        n.valid_from is None ==> json_get(node_row(n), "_valid_from"@) == json_get(
            n.data,
            "_valid_from"@,
        ),
        n.valid_to is None ==> json_get(node_row(n), "_valid_to"@) == json_get(n.data, "_valid_to"@),
        n.caused_by.len() == 0 ==> json_get(node_row(n), "_caused_by"@) == json_get(
            n.data,
            "_caused_by"@,
        ),
        key.len() == 0 || key[0] != '_' ==> json_get(node_row(n), key) == json_get(n.data, key),
{
    reveal_strlit("_id");
    reveal_strlit("_hash");
    reveal_strlit("_seq");
    reveal_strlit("_coll");
    reveal_strlit("_valid_from");
    reveal_strlit("_valid_to");
    reveal_strlit("_caused_by");
    assert("_id"@.len() == 3 && "_hash"@.len() == 5 && "_seq"@.len() == 4 && "_coll"@.len() == 5
        && "_valid_from"@.len() == 11 && "_valid_to"@.len() == 9 && "_caused_by"@.len() == 10);
    assert("_hash"@[1] == 'h' && "_coll"@[1] == 'c');
    assert("_id"@[0] == '_' && "_hash"@[0] == '_' && "_seq"@[0] == '_' && "_coll"@[0] == '_'
        && "_valid_from"@[0] == '_' && "_valid_to"@[0] == '_' && "_caused_by"@[0] == '_');
    let z = doc_fields(n.data);
    lemma_field_set(z, "_id"@, Json::Text(n.id));
    let a = field_set(z, "_id"@, Json::Text(n.id));
    lemma_field_set(a, "_hash"@, Json::Text(n.hash));
    let b = field_set(a, "_hash"@, Json::Text(n.hash));
    lemma_field_set(b, "_seq"@, Json::Number(Num::Int(n.seq as int)));
    let c = field_set(b, "_seq"@, Json::Number(Num::Int(n.seq as int)));
    lemma_field_set(c, "_coll"@, Json::Text(n.coll));
    let d = field_set(c, "_coll"@, Json::Text(n.coll));
    let e = match n.valid_from {
        Some(t) => {
            lemma_field_set(d, "_valid_from"@, Json::Text(t));
            field_set(d, "_valid_from"@, Json::Text(t))
        },
        None => d,
    };
    let f = match n.valid_to {
        Some(t) => {
            lemma_field_set(e, "_valid_to"@, Json::Text(t));
            field_set(e, "_valid_to"@, Json::Text(t))
        },
        None => e,
    };
    if n.caused_by.len() > 0 {
        lemma_field_set(f, "_caused_by"@, texts_json(n.caused_by));
        assert(texts_json(n.caused_by)->Array_0 =~= Seq::new(
            n.caused_by.len(),
            |i: int| Json::Text(n.caused_by[i]),
        ));
    }
    assert(json_get(n.data, "_valid_from"@) == field_of(z, "_valid_from"@));
    assert(json_get(n.data, "_valid_to"@) == field_of(z, "_valid_to"@));
    assert(json_get(n.data, "_caused_by"@) == field_of(z, "_caused_by"@));
    assert(json_get(n.data, key) == field_of(z, key));
}

/// A query that groups nothing is answered with one row for each version that
/// it finds, in their order.
pub proof fn lemma_rows_of_answer(v: DbV, q: QueryV)
    requires
        q.group_by is None,
    ensures
        answer_of(v, q) matches AnswerV::Rows(rows) && rows.len() == result_nodes(v, q).len()
            && forall|i: int|
            0 <= i < rows.len() ==> #[trigger] rows[i] == node_row(result_nodes(v, q)[i]),
{
}

/// Those of the versions that belong to the group of a key.
pub open spec fn members(ns: Seq<NodeV>, field: Seq<char>, key: Seq<char>) -> Seq<NodeV>
    decreases ns.len(),
{
    if ns.len() == 0 {
        Seq::empty()
    } else if group_key(ns.last(), field) == key {
        members(ns.drop_last(), field, key).push(ns.last())
    } else {
        members(ns.drop_last(), field, key)
    }
}

/// What a version counts for in a group: the number in the field, else one.
pub open spec fn counts_for(n: NodeV, field: Seq<char>, x: Num) -> bool {
    match json_get(n.data, field) {
        Some(Json::Number(Num::Float(t))) => x == Num::Float(t),
        Some(Json::Number(Num::Int(_))) => as_float(json_get(n.data, field)) == Some(x)
            || as_float(json_get(n.data, field)) is None,
        _ => crate::json::float_text("1"@) matches Some(t) ==> x == Num::Float(t),
    }
}

/// The numbers that the group of a key has among groups; none where there is no
/// such group.
pub open spec fn numbers_at(gs: Seq<GroupV>, key: Seq<char>) -> Seq<Num>
    decreases gs.len(),
{
    if gs.len() == 0 {
        Seq::empty()
    } else if gs[0].key == key {
        gs[0].values
    } else {
        numbers_at(gs.drop_first(), key)
    }
}

proof fn lemma_added_at(gs: Seq<GroupV>, key: Seq<char>, x: Num, k: Seq<char>)
    ensures
        numbers_at(group_added(gs, key, x), k) == if k == key {
            numbers_at(gs, k).push(x)
        } else {
            numbers_at(gs, k)
        },
    decreases gs.len(),
{
    let w = group_added(gs, key, x);
    if gs.len() == 0 {
        assert(w.drop_first() =~= Seq::empty());
        assert(numbers_at(w.drop_first(), k) =~= Seq::empty());
        if k == key {
            assert(w[0].values =~= Seq::<Num>::empty().push(x));
        }
    } else if gs[0].key == key {
        assert(w.drop_first() =~= gs.drop_first());
    } else {
        assert(w.drop_first() =~= group_added(gs.drop_first(), key, x));
        lemma_added_at(gs.drop_first(), key, x, k);
    }
}

/// Groups: the group of a key has one number for each version with that key, in
/// their order: the number that the version has in the field, or one.
pub proof fn lemma_group_numbers(ns: Seq<NodeV>, field: Seq<char>, key: Seq<char>)
    ensures
        numbers_at(grouped(ns, field), key).len() == members(ns, field, key).len(),
        forall|i: int|
            0 <= i < members(ns, field, key).len() ==> counts_for(
                #[trigger] members(ns, field, key)[i],
                field,
                numbers_at(grouped(ns, field), key)[i],
            ),
    decreases ns.len(),
{
    if ns.len() > 0 {
        let head = ns.drop_last();
        let n = ns.last();
        lemma_group_numbers(head, field, key);
        lemma_added_at(grouped(head, field), group_key(n, field), group_value(n, field), key);
        let before = members(head, field, key);
        let all = members(ns, field, key);
        assert forall|i: int| 0 <= i < all.len() implies counts_for(
            #[trigger] all[i],
            field,
            numbers_at(grouped(ns, field), key)[i],
        ) by {
            if i < before.len() {
                assert(all[i] == before[i]);
            } else {
                assert(counts_for(n, field, group_value(n, field)));
            }
        }
    }
}

/// Whether a text is made of quotes.
pub open spec fn all_quotes(s: Seq<char>) -> bool {
    forall|i: int| 0 <= i < s.len() ==> #[trigger] s[i] == '"'
}

proof fn lemma_leading(s: Seq<char>)
    ensures
        0 <= leading_quotes(s) <= s.len(),
        all_quotes(s.take(leading_quotes(s))),
        leading_quotes(s) < s.len() ==> s[leading_quotes(s)] != '"',
    decreases s.len(),
{
    if s.len() > 0 && s[0] == '"' {
        let rest = s.drop_first();
        lemma_leading(rest);
        let k = leading_quotes(rest);
        assert forall|i: int| 0 <= i < k + 1 implies #[trigger] s.take(k + 1)[i] == '"' by {
            if i > 0 {
                assert(rest.take(k)[i - 1] == '"');
            }
        }
    }
}

proof fn lemma_trailing(s: Seq<char>)
    ensures
        0 <= trailing_quotes(s) <= s.len(),
        all_quotes(s.skip(s.len() - trailing_quotes(s))),
        trailing_quotes(s) < s.len() ==> s[s.len() - trailing_quotes(s) - 1] != '"',
    decreases s.len(),
{
    if s.len() > 0 && s.last() == '"' {
        let rest = s.drop_last();
        lemma_trailing(rest);
        let k = trailing_quotes(rest);
        let tail = s.skip(s.len() - k - 1);
        assert forall|i: int| 0 <= i < tail.len() implies #[trigger] tail[i] == '"' by {
            if i < tail.len() - 1 {
                assert(rest.skip(rest.len() - k)[i] == '"');
            }
        }
    }
}

/// Groups: the key of a version is the JSON of its value in the field, without
/// the quotes at both ends.
pub proof fn lemma_group_key(n: NodeV, field: Seq<char>)
    ensures
        match json_get(n.data, field) {
            Some(j) => {
                &&& exists|a: Seq<char>, b: Seq<char>|
                    #![trigger all_quotes(a), all_quotes(b)]
                    all_quotes(a) && all_quotes(b) && json_chars(j) == a + group_key(n, field) + b
                &&& group_key(n, field).len() > 0 ==> group_key(n, field)[0] != '"' && group_key(
                    n,
                    field,
                ).last() != '"'
            },
            None => group_key(n, field) == "null"@,
        },
{
    if let Some(j) = json_get(n.data, field) {
        let s = json_chars(j);
        lemma_leading(s);
        let k = leading_quotes(s);
        let rest = s.skip(k);
        lemma_trailing(rest);
        let t = trailing_quotes(rest);
        let a = s.take(k);
        let b = rest.skip(rest.len() - t);
        assert(s =~= a + group_key(n, field) + b);
        assert(all_quotes(a) && all_quotes(b));
    }
}

/// Groups: versions with the same value of the field are in one group.
pub proof fn lemma_same_group(a: NodeV, b: NodeV, field: Seq<char>)
    requires
        json_get(a.data, field) == json_get(b.data, field),
    ensures
        group_key(a, field) == group_key(b, field),
        json_get(a.data, field) is None ==> group_key(a, field) == "null"@,
{
}

proof fn lemma_extreme(ns: Seq<Num>, greatest: bool)
    requires
        ns.len() > 0,
    ensures
        ns.contains(extreme(ns, greatest)),
        forall|i: int|
            0 <= i < ns.len() ==> if greatest {
                total_order(num_bits(extreme(ns, greatest)), num_bits(#[trigger] ns[i]))
                    != Order::Less
            } else {
                total_order(num_bits(ns[i]), num_bits(extreme(ns, greatest))) != Order::Less
            },
    decreases ns.len(),
{
    if ns.len() == 1 {
        assert(ns[0] == extreme(ns, greatest));
    } else {
        let head = ns.drop_last();
        lemma_extreme(head, greatest);
        let a = extreme(head, greatest);
        let k = choose|k: int| 0 <= k < head.len() && head[k] == a;
        assert(ns[k] == a);
        assert(ns[ns.len() - 1] == ns.last());
        assert forall|i: int| 0 <= i < ns.len() implies if greatest {
            total_order(num_bits(extreme(ns, greatest)), num_bits(#[trigger] ns[i])) != Order::Less
        } else {
            total_order(num_bits(ns[i]), num_bits(extreme(ns, greatest))) != Order::Less
        } by {
            if i < head.len() {
                assert(head[i] == ns[i]);
            }
        }
    }
}

/// What is made of a group: MIN gives one of its numbers that none of the others
/// comes before, MAX one that comes before none of the others, and COUNT how
/// many there are.
pub proof fn lemma_group_results(g: GroupV, i: int)
    requires
        0 <= i < g.values.len(),
    ensures
        group_result(g, GroupAgg::Min) matches Json::Number(x) && g.values.contains(x)
            && !bits_before(num_bits(g.values[i]), num_bits(x)),
        group_result(g, GroupAgg::Max) matches Json::Number(x) && g.values.contains(x)
            && !bits_before(num_bits(x), num_bits(g.values[i])),
        group_result(g, GroupAgg::Count) == Json::Number(
            Num::Float(crate::json::float_text(crate::text::decimal(g.values.len()))->0),
        ),
{
    lemma_extreme(g.values, true);
    lemma_extreme(g.values, false);
}

/// What a row says of a group: its value under the field that is grouped by, what
/// was made of it, and how many versions it has.
pub proof fn lemma_group_row(field: Seq<char>, g: GroupV, value: Json)
    requires
        field != "value"@,
        field != "count"@,
    ensures
        json_get(group_row(field, g, value), field) == Some(Json::Text(g.key)),
        json_get(group_row(field, g, value), "value"@) == Some(value),
        json_get(group_row(field, g, value), "count"@) == Some(
            Json::Number(Num::Int(g.values.len() as int)),
        ),
{
    reveal_strlit("value");
    reveal_strlit("count");
    assert("value"@[0] == 'v' && "count"@[0] == 'c');
    let fs = seq![
        (field, Json::Text(g.key)),
        ("value"@, value),
        ("count"@, Json::Number(Num::Int(g.values.len() as int))),
    ];
    lemma_by_key(fs);
    assert(fs[0].0 == field && fs[1].0 == "value"@ && fs[2].0 == "count"@);
}

/// A query that groups is answered with one row for each group of what it finds,
/// in the order in which the groups first appear; sums and means are left to be
/// made of the numbers.
pub proof fn lemma_groups_of_answer(v: DbV, q: QueryV, field: Seq<char>, agg: GroupAgg)
    requires
        q.group_by == Some((field, agg)),
    ensures
        ({
            let gs = grouped(result_nodes(v, q), field);
            match agg {
                GroupAgg::Sum => answer_of(v, q) == AnswerV::Totals(field, false, gs),
                GroupAgg::Avg => answer_of(v, q) == AnswerV::Totals(field, true, gs),
                _ => answer_of(v, q) matches AnswerV::Rows(rows) && rows.len() == gs.len()
                    && forall|i: int|
                    0 <= i < rows.len() ==> #[trigger] rows[i] == group_row(
                        field,
                        gs[i],
                        group_result(gs[i], agg),
                    ),
            }
        }),
{
}

} // verus!
