//! The clauses of a query: how each is spelled, what it asks for, and that they
//! may stand in any order.

use vstd::prelude::*;
use crate::lexer::{tokens, TokV};
use crate::parser::{
    aggregation, all_of, as_of_clause, clause, clauses, conditions, group_clause, limit_of, literal,
    name_of, number_cut, order_clause, parsed, query_of, tok_at, trace_clause, valid_clause, Fault,
    QueryV, WhereV,
};

verus! {

/// A condition as it is spelled: the field, the operator and the value.
pub type ConditionV = (TokV, Seq<char>, TokV);

/// A clause as it is spelled.
pub enum ClauseV {
    /// The number of a write.
    AsOf(Seq<char>),
    /// A date.
    Valid(Seq<char>),
    /// Conditions.
    Where(Seq<ConditionV>),
    /// A text.
    Search(Seq<char>),
    /// A field, and whether the order is descending.
    Order(TokV, bool),
    /// The number of rows.
    Limit(Seq<char>),
    /// A field, and what is made of each group.
    Group(TokV, TokV),
    /// A type of edge, and whether it is followed backwards.
    Trace(TokV, bool),
}

/// Whether a clause is complete.
pub open spec fn complete(c: ClauseV) -> bool {
    match c {
        ClauseV::Where(cs) => cs.len() > 0 && forall|i: int|
            0 <= i < cs.len() ==> name_of((#[trigger] cs[i]).0) is Some,
        ClauseV::Order(field, _) => name_of(field) is Some,
        ClauseV::Group(field, agg) => name_of(field) is Some && aggregation(agg) is Some,
        ClauseV::Trace(edge, _) => name_of(edge) is Some,
        _ => true,
    }
}

/// The word that a clause starts with.
pub open spec fn keyword(c: ClauseV) -> Seq<char> {
    match c {
        ClauseV::AsOf(_) => "AS"@,
        ClauseV::Valid(_) => "VALID"@,
        ClauseV::Where(_) => "WHERE"@,
        ClauseV::Search(_) => "SEARCH"@,
        ClauseV::Order(_, _) => "ORDER"@,
        ClauseV::Limit(_) => "LIMIT"@,
        ClauseV::Group(_, _) => "GROUP"@,
        ClauseV::Trace(_, _) => "TRACE"@,
    }
}

/// The words of conditions.
pub open spec fn condition_words(cs: Seq<ConditionV>) -> Seq<TokV>
    decreases cs.len(),
{
    if cs.len() == 0 {
        Seq::empty()
    } else if cs.len() == 1 {
        seq![cs[0].0, TokV::Op(cs[0].1), cs[0].2]
    } else {
        seq![cs[0].0, TokV::Op(cs[0].1), cs[0].2, TokV::Kw("AND"@)] + condition_words(
            cs.drop_first(),
        )
    }
}

/// The words of a clause behind the one that it starts with.
pub open spec fn clause_tail(c: ClauseV) -> Seq<TokV> {
    match c {
        ClauseV::AsOf(n) => seq![TokV::Kw("OF"@), TokV::Num(n)],
        ClauseV::Valid(date) => seq![TokV::Kw("AS"@), TokV::Kw("OF"@), TokV::Str(date)],
        ClauseV::Where(cs) => condition_words(cs),
        ClauseV::Search(text) => seq![TokV::Str(text)],
        ClauseV::Order(field, descending) => if descending {
            seq![TokV::Kw("BY"@), field, TokV::Kw("DESC"@)]
        } else {
            seq![TokV::Kw("BY"@), field]
        },
        ClauseV::Limit(n) => seq![TokV::Num(n)],
        ClauseV::Group(field, agg) => seq![TokV::Kw("BY"@), field, agg],
        ClauseV::Trace(edge, reverse) => if reverse {
            seq![edge, TokV::Kw("REVERSE"@)]
        } else {
            seq![edge]
        },
    }
}

/// The words of a clause.
pub open spec fn clause_words(c: ClauseV) -> Seq<TokV> {
    seq![TokV::Kw(keyword(c))] + clause_tail(c)
}

/// The words of clauses one behind the other.
pub open spec fn all_words(cs: Seq<ClauseV>) -> Seq<TokV>
    decreases cs.len(),
{
    if cs.len() == 0 {
        Seq::empty()
    } else {
        clause_words(cs[0]) + all_words(cs.drop_first())
    }
}

/// The words of a query: where from, and its clauses.
pub open spec fn query_words(from: TokV, cs: Seq<ClauseV>) -> Seq<TokV> {
    seq![TokV::Kw("FROM"@), from] + all_words(cs)
}

/// What conditions ask for.
pub open spec fn condition_values(cs: Seq<ConditionV>) -> Seq<WhereV> {
    cs.map_values(
        |c: ConditionV| WhereV { field: name_of(c.0)->0, op: c.1, value: literal(c.2) },
    )
}

/// A query with what a clause asks for.
pub open spec fn applied(q: QueryV, c: ClauseV) -> QueryV {
    match c {
        ClauseV::AsOf(n) => QueryV { as_of: Some(number_cut(n) as u64), ..q },
        ClauseV::Valid(date) => QueryV { valid_as_of: Some(date), ..q },
        ClauseV::Where(cs) => QueryV { wheres: q.wheres + condition_values(cs), ..q },
        ClauseV::Search(text) => QueryV { search: Some(text), ..q },
        ClauseV::Order(field, descending) => QueryV {
            order_by: name_of(field),
            order_desc: descending || q.order_desc,
            ..q
        },
        ClauseV::Limit(n) => QueryV { limit: Some(limit_of(n)), ..q },
        ClauseV::Group(field, agg) => QueryV {
            group_by: Some((name_of(field)->0, aggregation(agg)->0)),
            ..q
        },
        ClauseV::Trace(edge, reverse) => QueryV {
            trace: name_of(edge),
            trace_rev: reverse || q.trace_rev,
            ..q
        },
    }
}

/// A query with what clauses ask for.
pub open spec fn all_applied(q: QueryV, cs: Seq<ClauseV>) -> QueryV
    decreases cs.len(),
{
    if cs.len() == 0 {
        q
    } else {
        all_applied(applied(q, cs[0]), cs.drop_first())
    }
}

/// Whether a word goes on with the clause before it.
spec fn goes_on(t: TokV) -> bool {
    t == TokV::Kw("AND"@) || t == TokV::Kw("DESC"@) || t == TokV::Kw("REVERSE"@)
}

proof fn lemma_keywords()
    ensures
        "AS"@[0] == 'A' && "AS"@.len() == 2,
        "VALID"@[0] == 'V',
        "WHERE"@[0] == 'W',
        "SEARCH"@[0] == 'S',
        "ORDER"@[0] == 'O',
        "LIMIT"@[0] == 'L',
        "GROUP"@[0] == 'G',
        "TRACE"@[0] == 'T',
        "AND"@[0] == 'A' && "AND"@.len() == 3,
        "DESC"@[0] == 'D',
        "REVERSE"@[0] == 'R',
{
    reveal_strlit("AS");
    reveal_strlit("VALID");
    reveal_strlit("WHERE");
    reveal_strlit("SEARCH");
    reveal_strlit("ORDER");
    reveal_strlit("LIMIT");
    reveal_strlit("GROUP");
    reveal_strlit("TRACE");
    reveal_strlit("AND");
    reveal_strlit("DESC");
    reveal_strlit("REVERSE");
}

proof fn lemma_starts(c: ClauseV)
    ensures
        !goes_on(TokV::Kw(keyword(c))),
{
    lemma_keywords();
}

proof fn lemma_tok_at(ts: Seq<TokV>, p: int, i: int)
    requires
        0 <= p <= ts.len(),
        0 <= i,
    ensures
        tok_at(ts, p + i) == tok_at(ts.skip(p), i),
{
}

proof fn lemma_conditions_read(ts: Seq<TokV>, p: int, acc: Seq<WhereV>, cs: Seq<ConditionV>, rest: Seq<TokV>)
    requires
        0 <= p <= ts.len(),
        ts.skip(p) == condition_words(cs) + rest,
        cs.len() > 0,
        forall|i: int| 0 <= i < cs.len() ==> name_of((#[trigger] cs[i]).0) is Some,
        !goes_on(tok_at(rest, 0)),
    ensures
        conditions(ts, p, acc) == Ok::<(Seq<WhereV>, int), Fault>(
            (acc + condition_values(cs), p + condition_words(cs).len()),
        ),
    decreases cs.len(),
{
    let all = condition_words(cs) + rest;
    lemma_tok_at(ts, p, 0);
    lemma_tok_at(ts, p, 1);
    lemma_tok_at(ts, p, 2);
    lemma_tok_at(ts, p, 3);
    let one = WhereV { field: name_of(cs[0].0)->0, op: cs[0].1, value: literal(cs[0].2) };
    assert(name_of(cs[0].0) is Some);
    assert(all[0] == cs[0].0 && all[1] == TokV::Op(cs[0].1) && all[2] == cs[0].2);
    if cs.len() == 1 {
        assert(tok_at(all, 3) == tok_at(rest, 0));
        assert(acc + condition_values(cs) =~= acc.push(one));
    } else {
        let more = cs.drop_first();
        assert(all[3] == TokV::Kw("AND"@));
        assert(ts.skip(p + 4) =~= condition_words(more) + rest) by {
            assert(ts.skip(p + 4) =~= ts.skip(p).skip(4));
        }
        assert forall|i: int| 0 <= i < more.len() implies name_of((#[trigger] more[i]).0) is Some by {
            assert(more[i] == cs[i + 1]);
        }
        lemma_conditions_read(ts, p + 4, acc.push(one), more, rest);
        assert(acc + condition_values(cs) =~= acc.push(one) + condition_values(more));
    }
}

/// A complete clause is read as it is spelled, whatever query it is added to
/// and whatever clause is behind it.
proof fn lemma_clause_read(ts: Seq<TokV>, p: int, q: QueryV, c: ClauseV, rest: Seq<TokV>)
    requires
        0 <= p <= ts.len(),
        ts.skip(p) == clause_words(c) + rest,
        complete(c),
        !goes_on(tok_at(rest, 0)),
    ensures
        clause(ts, p, q) == Ok::<(QueryV, int), Fault>(
            (applied(q, c), p + clause_words(c).len()),
        ),
{
    lemma_keywords();
    let tail = clause_tail(c);
    let all = clause_words(c) + rest;
    assert(all[0] == TokV::Kw(keyword(c)));
    lemma_tok_at(ts, p, 0);
    lemma_tok_at(ts, p, 1);
    lemma_tok_at(ts, p, 2);
    lemma_tok_at(ts, p, 3);
    assert(ts.skip(p + 1) =~= tail + rest) by {
        assert(ts.skip(p + 1) =~= ts.skip(p).skip(1));
    }
    assert(forall|i: int| 0 <= i < tail.len() ==> all[i + 1] == #[trigger] tail[i]);
    assert(tok_at(all, tail.len() as int + 1) == tok_at(rest, 0));
    match c {
        ClauseV::Where(cs) => {
            lemma_conditions_read(ts, p + 1, q.wheres, cs, rest);
        },
        ClauseV::AsOf(n) => {
            assert(tail[0] == TokV::Kw("OF"@) && tail[1] == TokV::Num(n));
            assert(as_of_clause(ts, p + 1, q) == Ok::<(QueryV, int), Fault>(
                (applied(q, c), p + 3),
            ));
        },
        ClauseV::Valid(date) => {
            assert(tail[0] == TokV::Kw("AS"@) && tail[1] == TokV::Kw("OF"@) && tail[2]
                == TokV::Str(date));
            assert(valid_clause(ts, p + 1, q) == Ok::<(QueryV, int), Fault>(
                (applied(q, c), p + 4),
            ));
        },
        ClauseV::Search(text) => {
            assert(tail[0] == TokV::Str(text));
        },
        ClauseV::Order(field, descending) => {
            assert(tail[0] == TokV::Kw("BY"@) && tail[1] == field);
            if descending {
                assert(tail[2] == TokV::Kw("DESC"@));
            }
            assert(order_clause(ts, p + 1, q) == Ok::<(QueryV, int), Fault>(
                (applied(q, c), p + 1 + tail.len()),
            ));
        },
        ClauseV::Limit(n) => {
            assert(tail[0] == TokV::Num(n));
        },
        ClauseV::Group(field, agg) => {
            assert(tail[0] == TokV::Kw("BY"@) && tail[1] == field && tail[2] == agg);
            assert(group_clause(ts, p + 1, q) == Ok::<(QueryV, int), Fault>(
                (applied(q, c), p + 4),
            ));
        },
        ClauseV::Trace(edge, reverse) => {
            assert(tail[0] == edge);
            if reverse {
                assert(tail[1] == TokV::Kw("REVERSE"@));
            }
            assert(trace_clause(ts, p + 1, q) == Ok::<(QueryV, int), Fault>(
                (applied(q, c), p + 1 + tail.len()),
            ));
        },
    }
}

proof fn lemma_clauses_from(ts: Seq<TokV>, p: int, q: QueryV, cs: Seq<ClauseV>)
    requires
        0 <= p <= ts.len(),
        ts.skip(p) == all_words(cs),
        forall|i: int| 0 <= i < cs.len() ==> complete(#[trigger] cs[i]),
    ensures
        clauses(ts, p, q) == Ok::<QueryV, Fault>(all_applied(q, cs)),
    decreases cs.len(),
{
    lemma_tok_at(ts, p, 0);
    if cs.len() > 0 {
        let c = cs[0];
        let more = cs.drop_first();
        let rest = all_words(more);
        let e = p + clause_words(c).len();
        assert(complete(cs[0]));
        if more.len() > 0 {
            lemma_starts(more[0]);
            assert(rest[0] == TokV::Kw(keyword(more[0])));
        }
        lemma_clause_read(ts, p, q, c, rest);
        assert(tok_at(ts, p) == TokV::Kw(keyword(c)));
        assert(ts.len() == p + clause_words(c).len() + rest.len());
        assert(ts.skip(e) =~= rest) by {
            assert(ts.skip(e) =~= ts.skip(p).skip(clause_words(c).len() as int));
        }
        assert forall|i: int| 0 <= i < more.len() implies complete(#[trigger] more[i]) by {
            assert(more[i] == cs[i + 1]);
        }
        lemma_clauses_from(ts, e, applied(q, c), more);
    }
}

/// A query of complete clauses is read, and asks for what each of them asks
/// for.
pub proof fn lemma_clauses_read(from: TokV, cs: Seq<ClauseV>)
    requires
        name_of(from) is Some,
        forall|i: int| 0 <= i < cs.len() ==> complete(#[trigger] cs[i]),
    ensures
        query_of(query_words(from, cs)) == Ok::<QueryV, Fault>(
            all_applied(all_of(name_of(from)->0), cs),
        ),
{
    let ts = query_words(from, cs);
    assert(ts[0] == TokV::Kw("FROM"@) && ts[1] == from);
    assert(ts.skip(2) =~= all_words(cs));
    lemma_clauses_from(ts, 2, all_of(name_of(from)->0), cs);
}

/// Whether clauses are of different kinds.
pub open spec fn kinds_differ(cs: Seq<ClauseV>) -> bool {
    forall|i: int, j: int|
        0 <= i < j < cs.len() ==> keyword(#[trigger] cs[i]) != keyword(#[trigger] cs[j])
}

/// The clause that starts with a word, if there is one.
#[verifier::opaque]
spec fn with_keyword(cs: Seq<ClauseV>, k: Seq<char>) -> Option<ClauseV> {
    if exists|c: ClauseV| cs.contains(c) && #[trigger] keyword(c) == k {
        Some(choose|c: ClauseV| cs.contains(c) && #[trigger] keyword(c) == k)
    } else {
        None
    }
}

proof fn lemma_with_keyword(cs: Seq<ClauseV>, c: ClauseV)
    requires
        kinds_differ(cs),
        cs.contains(c),
    ensures
        with_keyword(cs, keyword(c)) == Some(c),
{
    reveal(with_keyword);
    let k = keyword(c);
    let d = choose|c: ClauseV| cs.contains(c) && #[trigger] keyword(c) == k;
    assert(cs.contains(d) && keyword(d) == k);
    let i = choose|i: int| 0 <= i < cs.len() && cs[i] == c;
    let j = choose|j: int| 0 <= j < cs.len() && cs[j] == d;
    if i < j {
        assert(keyword(cs[i]) != keyword(cs[j]));
    } else if j < i {
        assert(keyword(cs[j]) != keyword(cs[i]));
    }
}

/// What a query asks for, told by the clause of each kind.
spec fn assembled(q: QueryV, cs: Seq<ClauseV>) -> QueryV {
    QueryV {
        coll: q.coll,
        as_of: match with_keyword(cs, "AS"@) {
            Some(ClauseV::AsOf(n)) => Some(number_cut(n) as u64),
            _ => q.as_of,
        },
        valid_as_of: match with_keyword(cs, "VALID"@) {
            Some(ClauseV::Valid(date)) => Some(date),
            _ => q.valid_as_of,
        },
        wheres: match with_keyword(cs, "WHERE"@) {
            Some(ClauseV::Where(ws)) => q.wheres + condition_values(ws),
            _ => q.wheres,
        },
        search: match with_keyword(cs, "SEARCH"@) {
            Some(ClauseV::Search(text)) => Some(text),
            _ => q.search,
        },
        order_by: match with_keyword(cs, "ORDER"@) {
            Some(ClauseV::Order(field, _)) => name_of(field),
            _ => q.order_by,
        },
        order_desc: match with_keyword(cs, "ORDER"@) {
            Some(ClauseV::Order(_, descending)) => descending || q.order_desc,
            _ => q.order_desc,
        },
        limit: match with_keyword(cs, "LIMIT"@) {
            Some(ClauseV::Limit(n)) => Some(limit_of(n)),
            _ => q.limit,
        },
        group_by: match with_keyword(cs, "GROUP"@) {
            Some(ClauseV::Group(field, agg)) => Some((name_of(field)->0, aggregation(agg)->0)),
            _ => q.group_by,
        },
        trace: match with_keyword(cs, "TRACE"@) {
            Some(ClauseV::Trace(edge, _)) => name_of(edge),
            _ => q.trace,
        },
        trace_rev: match with_keyword(cs, "TRACE"@) {
            Some(ClauseV::Trace(_, reverse)) => reverse || q.trace_rev,
            _ => q.trace_rev,
        },
    }
}

proof fn lemma_rest_keyword(cs: Seq<ClauseV>, k: Seq<char>)
    requires
        kinds_differ(cs),
        cs.len() > 0,
    ensures
        kinds_differ(cs.drop_first()),
        with_keyword(cs, k) == if keyword(cs[0]) == k {
            Some(cs[0])
        } else {
            with_keyword(cs.drop_first(), k)
        },
        keyword(cs[0]) == k ==> with_keyword(cs.drop_first(), k) is None,
        with_keyword(cs, k) matches Some(c) ==> keyword(c) == k,
{
    reveal(with_keyword);
    let rest = cs.drop_first();
    assert forall|i: int, j: int| 0 <= i < j < rest.len() implies keyword(#[trigger] rest[i])
        != keyword(#[trigger] rest[j]) by {
        assert(rest[i] == cs[i + 1] && rest[j] == cs[j + 1]);
    }
    assert(cs.contains(cs[0]));
    if keyword(cs[0]) == k {
        lemma_with_keyword(cs, cs[0]);
        if exists|c: ClauseV| rest.contains(c) && #[trigger] keyword(c) == k {
            let c = choose|c: ClauseV| rest.contains(c) && #[trigger] keyword(c) == k;
            let j = choose|j: int| 0 <= j < rest.len() && rest[j] == c;
            assert(cs[j + 1] == c);
            assert(keyword(cs[0]) != keyword(cs[j + 1]));
        }
    } else if exists|c: ClauseV| rest.contains(c) && #[trigger] keyword(c) == k {
        let c = choose|c: ClauseV| rest.contains(c) && #[trigger] keyword(c) == k;
        let j = choose|j: int| 0 <= j < rest.len() && rest[j] == c;
        assert(cs[j + 1] == c);
        assert(cs.contains(c));
        lemma_with_keyword(cs, c);
    } else if exists|c: ClauseV| cs.contains(c) && #[trigger] keyword(c) == k {
        let c = choose|c: ClauseV| cs.contains(c) && #[trigger] keyword(c) == k;
        let j = choose|j: int| 0 <= j < cs.len() && cs[j] == c;
        assert(rest[j - 1] == c);
        assert(rest.contains(c));
    }
}

proof fn lemma_assembled(q: QueryV, cs: Seq<ClauseV>)
    requires
        kinds_differ(cs),
    ensures
        all_applied(q, cs) == assembled(q, cs),
    decreases cs.len(),
{
    lemma_keywords();
    if cs.len() == 0 {
        reveal(with_keyword);
    } else {
        let rest = cs.drop_first();
        lemma_rest_keyword(cs, "AS"@);
        lemma_rest_keyword(cs, "VALID"@);
        lemma_rest_keyword(cs, "WHERE"@);
        lemma_rest_keyword(cs, "SEARCH"@);
        lemma_rest_keyword(cs, "ORDER"@);
        lemma_rest_keyword(cs, "LIMIT"@);
        lemma_rest_keyword(cs, "GROUP"@);
        lemma_rest_keyword(cs, "TRACE"@);
        lemma_assembled(applied(q, cs[0]), rest);
    }
}

/// Clauses may stand in any order: two queries of the same complete clauses,
/// each kind at most once, ask for the same.
pub proof fn lemma_clause_order(
    a: Seq<char>,
    b: Seq<char>,
    from: TokV,
    cs: Seq<ClauseV>,
    ds: Seq<ClauseV>,
)
    requires
        tokens(a) == query_words(from, cs),
        tokens(b) == query_words(from, ds),
        name_of(from) is Some,
        forall|i: int| 0 <= i < cs.len() ==> complete(#[trigger] cs[i]),
        kinds_differ(cs),
        kinds_differ(ds),
        forall|c: ClauseV| #[trigger] cs.contains(c) <==> ds.contains(c),
    ensures
        parsed(a) == parsed(b),
        parsed(a) is Ok,
{
    let q = all_of(name_of(from)->0);
    assert forall|i: int| 0 <= i < ds.len() implies complete(#[trigger] ds[i]) by {
        assert(ds.contains(ds[i]));
        assert(cs.contains(ds[i]));
        let j = choose|j: int| 0 <= j < cs.len() && cs[j] == ds[i];
        assert(complete(cs[j]));
    }
    lemma_clauses_read(from, cs);
    lemma_clauses_read(from, ds);
    lemma_assembled(q, cs);
    lemma_assembled(q, ds);
    assert forall|k: Seq<char>| #[trigger] with_keyword(cs, k) == with_keyword(ds, k) by {
        reveal(with_keyword);
        if exists|c: ClauseV| cs.contains(c) && #[trigger] keyword(c) == k {
            let c = choose|c: ClauseV| cs.contains(c) && #[trigger] keyword(c) == k;
            lemma_with_keyword(cs, c);
            lemma_with_keyword(ds, c);
        } else if exists|c: ClauseV| ds.contains(c) && #[trigger] keyword(c) == k {
            let c = choose|c: ClauseV| ds.contains(c) && #[trigger] keyword(c) == k;
            assert(cs.contains(c));
        }
    }
    assert(assembled(q, cs) == assembled(q, ds));
}

} // verus!
