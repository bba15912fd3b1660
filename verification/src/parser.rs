//! Queries: their grammar, and what they ask for.
//!
//! ```text
//! FROM coll
//!   [AS OF seq]
//!   [VALID AS OF "date"]
//!   [WHERE field op value [AND field op value]*]
//!   [SEARCH "text"]
//!   [ORDER BY field [DESC]]
//!   [LIMIT n]
//!   [GROUP BY field COUNT|SUM|AVG|MIN|MAX]
//!   [TRACE caused_by [REVERSE]]
//! ```

use vstd::prelude::*;
use crate::double::{truncated, Double};
use crate::index::opt_text;
use crate::json::{double_bits, float_bits, float_literal, float_text, Json, JsonValue, Num, Number};
use crate::lexer::{tokenize, tokens, toks_view, Tok, TokV};
use crate::text::{chars_of, same_text};

verus! {

/// A condition on a field.
#[derive(Debug)]
pub struct WhereClause {
    pub field: String,
    pub op: String,
    pub value: JsonValue,
}

/// What a condition is.
pub struct WhereV {
    pub field: Seq<char>,
    pub op: Seq<char>,
    pub value: Json,
}

impl View for WhereClause {
    type V = WhereV;

    open spec fn view(&self) -> WhereV {
        WhereV { field: self.field@, op: self.op@, value: self.value@ }
    }
}

/// What is made of the values of a group.
#[derive(Clone, Copy, Debug, PartialEq, Eq, Structural)]
pub enum GroupAgg {
    Count,
    Sum,
    Avg,
    Min,
    Max,
}

/// What a query asks for.
#[derive(Debug)]
pub struct Query {
    pub coll: String,
    pub as_of: Option<u64>,
    pub valid_as_of: Option<String>,
    pub wheres: Vec<WhereClause>,
    pub search: Option<String>,
    pub order_by: Option<String>,
    pub order_desc: bool,
    pub limit: Option<usize>,
    pub group_by: Option<(String, GroupAgg)>,
    /// The type of edge to follow.
    pub trace: Option<String>,
    pub trace_rev: bool,
}

/// What a query is.
pub struct QueryV {
    pub coll: Seq<char>,
    pub as_of: Option<u64>,
    pub valid_as_of: Option<Seq<char>>,
    pub wheres: Seq<WhereV>,
    pub search: Option<Seq<char>>,
    pub order_by: Option<Seq<char>>,
    pub order_desc: bool,
    pub limit: Option<usize>,
    pub group_by: Option<(Seq<char>, GroupAgg)>,
    pub trace: Option<Seq<char>>,
    pub trace_rev: bool,
}

pub open spec fn wheres_view(v: Seq<WhereClause>) -> Seq<WhereV> {
    v.map_values(|w: WhereClause| w@)
}

pub open spec fn group_view(g: Option<(String, GroupAgg)>) -> Option<(Seq<char>, GroupAgg)> {
    match g {
        Some((s, a)) => Some((s@, a)),
        None => None,
    }
}

impl View for Query {
    type V = QueryV;

    open spec fn view(&self) -> QueryV {
        QueryV {
            coll: self.coll@,
            as_of: self.as_of,
            valid_as_of: opt_text(self.valid_as_of),
            wheres: wheres_view(self.wheres@),
            search: opt_text(self.search),
            order_by: opt_text(self.order_by),
            order_desc: self.order_desc,
            limit: self.limit,
            group_by: group_view(self.group_by),
            trace: opt_text(self.trace),
            trace_rev: self.trace_rev,
        }
    }
}

impl Query {
    pub open spec fn wf(&self) -> bool {
        forall|i: int| 0 <= i < self.wheres@.len() ==> (#[trigger] self.wheres@[i]).value.wf()
    }
}

/// What was expected where a query could not be read.
#[derive(Clone, Copy, Debug, PartialEq, Eq, Structural)]
pub enum Expected {
    From,
    As,
    Of,
    By,
    Collection,
    SequenceNumber,
    Date,
    WhereField,
    Operator,
    SearchText,
    OrderField,
    LimitNumber,
    GroupField,
    Aggregation,
    EdgeType,
}

impl Expected {
    /// How to say what was expected.
    pub open spec fn text(self) -> Seq<char> {
        match self {
            Expected::From => "expected keyword FROM"@,
            Expected::As => "expected keyword AS"@,
            Expected::Of => "expected keyword OF"@,
            Expected::By => "expected keyword BY"@,
            Expected::Collection => "expected collection name"@,
            Expected::SequenceNumber => "AS OF expects sequence number"@,
            Expected::Date => "VALID AS OF expects date string"@,
            Expected::WhereField => "WHERE: expected field name"@,
            Expected::Operator => "WHERE: expected operator"@,
            Expected::SearchText => "SEARCH expects quoted string"@,
            Expected::OrderField => "ORDER BY: expected field"@,
            Expected::LimitNumber => "LIMIT expects number"@,
            Expected::GroupField => "GROUP BY: expected field"@,
            Expected::Aggregation => "GROUP BY: expected aggregation"@,
            Expected::EdgeType => "TRACE: expected edge type"@,
        }
    }

    /// How to say what was expected.
    pub fn phrase(&self) -> (r: String)
        ensures
            r@ == self.text(),
    {
        let s = match self {
            Expected::From => "expected keyword FROM",
            Expected::As => "expected keyword AS",
            Expected::Of => "expected keyword OF",
            Expected::By => "expected keyword BY",
            Expected::Collection => "expected collection name",
            Expected::SequenceNumber => "AS OF expects sequence number",
            Expected::Date => "VALID AS OF expects date string",
            Expected::WhereField => "WHERE: expected field name",
            Expected::Operator => "WHERE: expected operator",
            Expected::SearchText => "SEARCH expects quoted string",
            Expected::OrderField => "ORDER BY: expected field",
            Expected::LimitNumber => "LIMIT expects number",
            Expected::GroupField => "GROUP BY: expected field",
            Expected::Aggregation => "GROUP BY: expected aggregation",
            Expected::EdgeType => "TRACE: expected edge type",
        };
        s.to_owned()
    }
}

/// Why a query could not be read: what was expected, and what stood there.
#[derive(Debug)]
pub struct NqlError {
    pub expected: Expected,
    pub got: Tok,
}

/// What an error is.
pub type Fault = (Expected, TokV);

impl View for NqlError {
    type V = Fault;

    open spec fn view(&self) -> Fault {
        (self.expected, self.got@)
    }
}

/// The word at `p`.
pub open spec fn tok_at(ts: Seq<TokV>, p: int) -> TokV {
    if 0 <= p < ts.len() {
        ts[p]
    } else {
        TokV::Eof
    }
}

/// A name; a keyword may stand for one.
pub open spec fn name_of(t: TokV) -> Option<Seq<char>> {
    match t {
        TokV::Ident(s) => Some(s),
        TokV::Kw(s) => Some(s),
        _ => None,
    }
}

/// How many dots there are.
pub open spec fn dots(s: Seq<char>) -> int
    decreases s.len(),
{
    if s.len() == 0 {
        0
    } else {
        dots(s.drop_last()) + if s.last() == '.' {
            1int
        } else {
            0int
        }
    }
}

/// The value that a number stands for: a double; zero where it has more than
/// one dot, and null where it is too large for a double.
pub open spec fn number_json(lexeme: Seq<char>) -> Json {
    let text = if dots(lexeme) > 1 {
        "0"@
    } else {
        lexeme
    };
    match float_text(text) {
        Some(t) => Json::Number(Num::Float(t)),
        None => Json::Null,
    }
}

/// The integer that a number is cut to; zero where it has more than one dot or
/// is negative, and the largest there is where it is larger than that.
pub open spec fn number_cut(lexeme: Seq<char>) -> int {
    if dots(lexeme) > 1 {
        0
    } else {
        match float_bits(lexeme) {
            Some(b) => truncated(b),
            None => if lexeme.len() > 0 && lexeme[0] == '-' {
                0
            } else {
                u64::MAX as int
            },
        }
    }
}

/// The value that a word stands for.
pub open spec fn literal(t: TokV) -> Json {
    match t {
        TokV::Str(s) => Json::Text(s),
        TokV::Ident(s) => Json::Text(s),
        TokV::Num(l) => number_json(l),
        TokV::Kw(k) => if k == "TRUE"@ {
            Json::Bool(true)
        } else if k == "FALSE"@ {
            Json::Bool(false)
        } else {
            Json::Null
        },
        _ => Json::Null,
    }
}

/// Conditions joined by `AND`, from `p` on.
pub open spec fn conditions(ts: Seq<TokV>, p: int, acc: Seq<WhereV>) -> Result<
    (Seq<WhereV>, int),
    Fault,
>
    decreases ts.len() - p,
{
    match (name_of(tok_at(ts, p)), tok_at(ts, p + 1)) {
        (None, _) => Err((Expected::WhereField, tok_at(ts, p))),
        (Some(field), TokV::Op(op)) => {
            let all = acc.push(WhereV { field, op, value: literal(tok_at(ts, p + 2)) });
            if p >= 0 && tok_at(ts, p + 3) == TokV::Kw("AND"@) {
                conditions(ts, p + 4, all)
            } else {
                Ok((all, p + 3))
            }
        },
        (Some(_), t) => Err((Expected::Operator, t)),
    }
}

/// What one clause from `p` on makes of a query, and where it ends.
pub open spec fn clause(ts: Seq<TokV>, p: int, q: QueryV) -> Result<(QueryV, int), Fault> {
    match tok_at(ts, p) {
        TokV::Kw(k) => if k == "AS"@ {
            as_of_clause(ts, p + 1, q)
        } else if k == "VALID"@ {
            valid_clause(ts, p + 1, q)
        } else if k == "WHERE"@ {
            match conditions(ts, p + 1, q.wheres) {
                Err(e) => Err(e),
                Ok((wheres, e)) => Ok((QueryV { wheres, ..q }, e)),
            }
        } else if k == "SEARCH"@ {
            match tok_at(ts, p + 1) {
                TokV::Str(s) => Ok((QueryV { search: Some(s), ..q }, p + 2)),
                t => Err((Expected::SearchText, t)),
            }
        } else if k == "ORDER"@ {
            order_clause(ts, p + 1, q)
        } else if k == "LIMIT"@ {
            match tok_at(ts, p + 1) {
                TokV::Num(l) => Ok((QueryV { limit: Some(limit_of(l)), ..q }, p + 2)),
                t => Err((Expected::LimitNumber, t)),
            }
        } else if k == "GROUP"@ {
            group_clause(ts, p + 1, q)
        } else if k == "TRACE"@ {
            trace_clause(ts, p + 1, q)
        } else {
            Ok((q, p + 1))
        },
        _ => Ok((q, p + 1)),
    }
}

/// The number of rows that a number stands for.
pub open spec fn limit_of(lexeme: Seq<char>) -> usize {
    if number_cut(lexeme) > usize::MAX {
        usize::MAX
    } else {
        number_cut(lexeme) as usize
    }
}

pub open spec fn as_of_clause(ts: Seq<TokV>, p: int, q: QueryV) -> Result<(QueryV, int), Fault> {
    if tok_at(ts, p) != TokV::Kw("OF"@) {
        Err((Expected::Of, tok_at(ts, p)))
    } else {
        match tok_at(ts, p + 1) {
            TokV::Num(l) => Ok((QueryV { as_of: Some(number_cut(l) as u64), ..q }, p + 2)),
            t => Err((Expected::SequenceNumber, t)),
        }
    }
}

pub open spec fn valid_clause(ts: Seq<TokV>, p: int, q: QueryV) -> Result<(QueryV, int), Fault> {
    if tok_at(ts, p) != TokV::Kw("AS"@) {
        Err((Expected::As, tok_at(ts, p)))
    } else if tok_at(ts, p + 1) != TokV::Kw("OF"@) {
        Err((Expected::Of, tok_at(ts, p + 1)))
    } else {
        match tok_at(ts, p + 2) {
            TokV::Str(s) => Ok((QueryV { valid_as_of: Some(s), ..q }, p + 3)),
            t => Err((Expected::Date, t)),
        }
    }
}

pub open spec fn order_clause(ts: Seq<TokV>, p: int, q: QueryV) -> Result<(QueryV, int), Fault> {
    if tok_at(ts, p) != TokV::Kw("BY"@) {
        Err((Expected::By, tok_at(ts, p)))
    } else {
        match name_of(tok_at(ts, p + 1)) {
            None => Err((Expected::OrderField, tok_at(ts, p + 1))),
            Some(field) => if tok_at(ts, p + 2) == TokV::Kw("DESC"@) {
                Ok((QueryV { order_by: Some(field), order_desc: true, ..q }, p + 3))
            } else {
                Ok((QueryV { order_by: Some(field), ..q }, p + 2))
            },
        }
    }
}

/// What is to be made of the values of a group.
pub open spec fn aggregation(t: TokV) -> Option<GroupAgg> {
    match t {
        TokV::Kw(k) => if k == "COUNT"@ {
            Some(GroupAgg::Count)
        } else if k == "SUM"@ {
            Some(GroupAgg::Sum)
        } else if k == "AVG"@ {
            Some(GroupAgg::Avg)
        } else if k == "MIN"@ {
            Some(GroupAgg::Min)
        } else if k == "MAX"@ {
            Some(GroupAgg::Max)
        } else {
            None
        },
        _ => None,
    }
}

pub open spec fn group_clause(ts: Seq<TokV>, p: int, q: QueryV) -> Result<(QueryV, int), Fault> {
    if tok_at(ts, p) != TokV::Kw("BY"@) {
        Err((Expected::By, tok_at(ts, p)))
    } else {
        match name_of(tok_at(ts, p + 1)) {
            None => Err((Expected::GroupField, tok_at(ts, p + 1))),
            Some(field) => match aggregation(tok_at(ts, p + 2)) {
                None => Err((Expected::Aggregation, tok_at(ts, p + 2))),
                Some(agg) => Ok((QueryV { group_by: Some((field, agg)), ..q }, p + 3)),
            },
        }
    }
}

pub open spec fn trace_clause(ts: Seq<TokV>, p: int, q: QueryV) -> Result<(QueryV, int), Fault> {
    match name_of(tok_at(ts, p)) {
        None => Err((Expected::EdgeType, tok_at(ts, p))),
        Some(edge) => if tok_at(ts, p + 1) == TokV::Kw("REVERSE"@) {
            Ok((QueryV { trace: Some(edge), trace_rev: true, ..q }, p + 2))
        } else {
            Ok((QueryV { trace: Some(edge), ..q }, p + 1))
        },
    }
}

/// What the clauses from `p` on make of a query. A clause may stand more than
/// once; words that start none are passed over.
pub open spec fn clauses(ts: Seq<TokV>, p: int, q: QueryV) -> Result<QueryV, Fault>
    decreases ts.len() - p,
{
    if tok_at(ts, p) is Eof {
        Ok(q)
    } else {
        match clause(ts, p, q) {
            Err(e) => Err(e),
            Ok((r, e)) => if p < e <= ts.len() {
                clauses(ts, e, r)
            } else {
                Ok(r)
            },
        }
    }
}

/// A query for all documents of a collection.
pub open spec fn all_of(coll: Seq<char>) -> QueryV {
    QueryV {
        coll,
        as_of: None,
        valid_as_of: None,
        wheres: Seq::empty(),
        search: None,
        order_by: None,
        order_desc: false,
        limit: None,
        group_by: None,
        trace: None,
        trace_rev: false,
    }
}

/// The query that words are.
pub open spec fn query_of(ts: Seq<TokV>) -> Result<QueryV, Fault> {
    if tok_at(ts, 0) != TokV::Kw("FROM"@) {
        Err((Expected::From, tok_at(ts, 0)))
    } else {
        match name_of(tok_at(ts, 1)) {
            None => Err((Expected::Collection, tok_at(ts, 1))),
            Some(coll) => clauses(ts, 2, all_of(coll)),
        }
    }
}

/// The query that a text is.
pub open spec fn parsed(nql: Seq<char>) -> Result<QueryV, Fault> {
    query_of(tokens(nql))
}

fn count_dots(s: &str) -> (r: usize)
    ensures
        r == dots(s@),
{
    let c = chars_of(s);
    let mut n: usize = 0;
    let mut i: usize = 0;
    while i < c.len()
        invariant
            i <= c.len(),
            c@ == s@,
            n <= i,
            n == dots(c@.take(i as int)),
        decreases c.len() - i,
    {
        assert(c@.take(i + 1).drop_last() =~= c@.take(i as int));
        if c[i] == '.' {
            n = n + 1;
        }
        i = i + 1;
    }
    assert(c@.take(i as int) =~= c@);
    n
}

fn number_value(lexeme: &str) -> (r: JsonValue)
    ensures
        r.wf(),
        r@ == number_json(lexeme@),
{
    let found = if count_dots(lexeme) > 1 {
        float_literal("0")
    } else {
        float_literal(lexeme)
    };
    match found {
        Some(t) => JsonValue::Number(Number::Float(t)),
        None => JsonValue::Null,
    }
}

fn cut_number(lexeme: &str) -> (r: u64)
    ensures
        r == number_cut(lexeme@),
{
    if count_dots(lexeme) > 1 {
        return 0;
    }
    match double_bits(lexeme) {
        Some(bits) => {
            let d = Double { bits };
            d.to_u64()
        },
        None => {
            let c = chars_of(lexeme);
            if c.len() > 0 && c[0] == '-' {
                0
            } else {
                u64::MAX
            }
        },
    }
}

/// Words being read as a query.
struct Parser {
    toks: Vec<Tok>,
    pos: usize,
}

impl Parser {
    spec fn words(&self) -> Seq<TokV> {
        toks_view(self.toks@)
    }

    spec fn wf(&self) -> bool {
        self.pos <= self.toks@.len()
    }

    fn peek(&self) -> (r: Tok)
        requires
            self.wf(),
        ensures
            r@ == tok_at(self.words(), self.pos as int),
    {
        if self.pos < self.toks.len() {
            self.toks[self.pos].clone()
        } else {
            Tok::Eof
        }
    }

    fn advance(&mut self) -> (r: Tok)
        requires
            old(self).wf(),
        ensures
            final(self).wf(),
            final(self).toks@ == old(self).toks@,
            r@ == tok_at(old(self).words(), old(self).pos as int),
            final(self).pos == if old(self).pos < old(self).toks@.len() {
                old(self).pos + 1
            } else {
                old(self).pos as int
            },
    {
        let t = self.peek();
        if self.pos < self.toks.len() {
            self.pos = self.pos + 1;
        }
        t
    }

    fn at_kw(&self, kw: &str) -> (r: bool)
        requires
            self.wf(),
        ensures
            r == (tok_at(self.words(), self.pos as int) == TokV::Kw(kw@)),
    {
        match self.peek() {
            Tok::Kw(k) => same_text(k.as_str(), kw),
            _ => false,
        }
    }

    fn expect_kw(&mut self, kw: &str, expected: Expected) -> (r: Result<(), NqlError>)
        requires
            old(self).wf(),
        ensures
            final(self).wf(),
            final(self).toks@ == old(self).toks@,
            match r {
                Ok(_) => tok_at(old(self).words(), old(self).pos as int) == TokV::Kw(kw@)
                    && final(self).pos == old(self).pos + 1,
                Err(e) => tok_at(old(self).words(), old(self).pos as int) != TokV::Kw(kw@) && e@
                    == (expected, tok_at(old(self).words(), old(self).pos as int)),
            },
    {
        let is_it = self.at_kw(kw);
        let got = self.advance();
        if is_it {
            Ok(())
        } else {
            Err(NqlError { expected, got })
        }
    }

    fn expect_name(&mut self, expected: Expected) -> (r: Result<String, NqlError>)
        requires
            old(self).wf(),
        ensures
            final(self).wf(),
            final(self).toks@ == old(self).toks@,
            match r {
                Ok(s) => name_of(tok_at(old(self).words(), old(self).pos as int)) == Some(s@)
                    && final(self).pos == old(self).pos + 1,
                Err(e) => name_of(tok_at(old(self).words(), old(self).pos as int)) is None && e@
                    == (expected, tok_at(old(self).words(), old(self).pos as int)),
            },
    {
        match self.advance() {
            Tok::Ident(s) => Ok(s),
            Tok::Kw(s) => Ok(s),
            got => Err(NqlError { expected, got }),
        }
    }

    fn parse_value(&mut self) -> (r: JsonValue)
        requires
            old(self).wf(),
        ensures
            final(self).wf(),
            final(self).toks@ == old(self).toks@,
            r.wf(),
            r@ == literal(tok_at(old(self).words(), old(self).pos as int)),
            final(self).pos == if old(self).pos < old(self).toks@.len() {
                old(self).pos + 1
            } else {
                old(self).pos as int
            },
    {
        match self.advance() {
            Tok::Str(s) => JsonValue::Text(s),
            Tok::Ident(s) => JsonValue::Text(s),
            Tok::Num(l) => number_value(l.as_str()),
            Tok::Kw(k) => {
                if same_text(k.as_str(), "TRUE") {
                    JsonValue::Bool(true)
                } else if same_text(k.as_str(), "FALSE") {
                    JsonValue::Bool(false)
                } else {
                    JsonValue::Null
                }
            },
            _ => JsonValue::Null,
        }
    }

    fn parse_conditions(&mut self, wheres: &mut Vec<WhereClause>) -> (r: Result<(), NqlError>)
        requires
            old(self).wf(),
            forall|i: int|
                0 <= i < old(wheres)@.len() ==> (#[trigger] old(wheres)@[i]).value.wf(),
        ensures
            final(self).wf(),
            final(self).toks@ == old(self).toks@,
            match r {
                Ok(_) => cut_end(
                    conditions(
                        old(self).words(),
                        old(self).pos as int,
                        wheres_view(old(wheres)@),
                    ),
                    old(self).words(),
                ) == Ok::<(Seq<WhereV>, int), Fault>(
                    (wheres_view(final(wheres)@), final(self).pos as int),
                ) && forall|i: int|
                    0 <= i < final(wheres)@.len() ==> (#[trigger] final(wheres)@[i]).value.wf(),
                Err(e) => conditions(
                    old(self).words(),
                    old(self).pos as int,
                    wheres_view(old(wheres)@),
                ) == Err::<(Seq<WhereV>, int), Fault>(e@),
            },
    {
        let ghost ts = self.words();
        let ghost whole = conditions(ts, self.pos as int, wheres_view(wheres@));
        loop
            invariant
                self.wf(),
                self.toks@ == old(self).toks@,
                ts == self.words(),
                whole == conditions(
                    old(self).words(),
                    old(self).pos as int,
                    wheres_view(old(wheres)@),
                ),
                whole == conditions(ts, self.pos as int, wheres_view(wheres@)),
                forall|i: int| 0 <= i < wheres@.len() ==> (#[trigger] wheres@[i]).value.wf(),
            decreases ts.len() - self.pos,
        {
            let ghost p = self.pos as int;
            let ghost acc = wheres_view(wheres@);
            let field = self.expect_name(Expected::WhereField)?;
            let op = match self.advance() {
                Tok::Op(s) => s,
                got => {
                    return Err(NqlError { expected: Expected::Operator, got });
                },
            };
            let value = self.parse_value();
            let ghost all = acc.push(WhereV { field: field@, op: op@, value: value@ });
            wheres.push(WhereClause { field, op, value });
            assert(wheres_view(wheres@) =~= all);
            if !self.at_kw("AND") {
                return Ok(());
            }
            let _ = self.advance();
        }
    }
}

/// An end behind the last word counts as the end of the words.
spec fn cut_end(r: Result<(Seq<WhereV>, int), Fault>, ts: Seq<TokV>) -> Result<
    (Seq<WhereV>, int),
    Fault,
> {
    match r {
        Ok((w, e)) => Ok(
            (
                w,
                if e > ts.len() {
                    ts.len() as int
                } else {
                    e
                },
            ),
        ),
        Err(e) => Err(e),
    }
}

/// A clause that ends behind the last word leaves nothing to read.
spec fn clause_cut(r: Result<(QueryV, int), Fault>, ts: Seq<TokV>) -> Result<(QueryV, int), Fault> {
    match r {
        Ok((q, e)) => Ok(
            (
                q,
                if e > ts.len() {
                    ts.len() as int
                } else {
                    e
                },
            ),
        ),
        Err(e) => Err(e),
    }
}

impl Parser {
    /// Whether reading came to what a clause comes to.
    spec fn read_as(
        &self,
        q: Query,
        r: Result<(), NqlError>,
        was: Parser,
        spec_r: Result<(QueryV, int), Fault>,
    ) -> bool {
        &&& self.wf()
        &&& self.toks@ == was.toks@
        &&& match r {
            Ok(_) => q.wf() && clause_cut(spec_r, was.words()) == Ok::<(QueryV, int), Fault>(
                (q@, self.pos as int),
            ),
            Err(e) => spec_r == Err::<(QueryV, int), Fault>(e@),
        }
    }

    fn parse_as_of(&mut self, q: &mut Query) -> (r: Result<(), NqlError>)
        requires
            old(self).wf(),
            old(q).wf(),
        ensures
            final(self).read_as(
                *final(q),
                r,
                *old(self),
                as_of_clause(old(self).words(), old(self).pos as int, old(q)@),
            ),
    {
        self.expect_kw("OF", Expected::Of)?;
        match self.advance() {
            Tok::Num(l) => {
                q.as_of = Some(cut_number(l.as_str()));
                Ok(())
            },
            got => Err(NqlError { expected: Expected::SequenceNumber, got }),
        }
    }

    fn parse_valid(&mut self, q: &mut Query) -> (r: Result<(), NqlError>)
        requires
            old(self).wf(),
            old(q).wf(),
        ensures
            final(self).read_as(
                *final(q),
                r,
                *old(self),
                valid_clause(old(self).words(), old(self).pos as int, old(q)@),
            ),
    {
        self.expect_kw("AS", Expected::As)?;
        self.expect_kw("OF", Expected::Of)?;
        match self.advance() {
            Tok::Str(s) => {
                q.valid_as_of = Some(s);
                Ok(())
            },
            got => Err(NqlError { expected: Expected::Date, got }),
        }
    }

    fn parse_order(&mut self, q: &mut Query) -> (r: Result<(), NqlError>)
        requires
            old(self).wf(),
            old(q).wf(),
        ensures
            final(self).read_as(
                *final(q),
                r,
                *old(self),
                order_clause(old(self).words(), old(self).pos as int, old(q)@),
            ),
    {
        self.expect_kw("BY", Expected::By)?;
        let field = self.expect_name(Expected::OrderField)?;
        q.order_by = Some(field);
        if self.at_kw("DESC") {
            let _ = self.advance();
            q.order_desc = true;
        }
        Ok(())
    }

    fn parse_group(&mut self, q: &mut Query) -> (r: Result<(), NqlError>)
        requires
            old(self).wf(),
            old(q).wf(),
        ensures
            final(self).read_as(
                *final(q),
                r,
                *old(self),
                group_clause(old(self).words(), old(self).pos as int, old(q)@),
            ),
    {
        self.expect_kw("BY", Expected::By)?;
        let field = self.expect_name(Expected::GroupField)?;
        let got = self.advance();
        let agg = match &got {
            Tok::Kw(k) => {
                let k = k.as_str();
                if same_text(k, "COUNT") {
                    Some(GroupAgg::Count)
                } else if same_text(k, "SUM") {
                    Some(GroupAgg::Sum)
                } else if same_text(k, "AVG") {
                    Some(GroupAgg::Avg)
                } else if same_text(k, "MIN") {
                    Some(GroupAgg::Min)
                } else if same_text(k, "MAX") {
                    Some(GroupAgg::Max)
                } else {
                    None
                }
            },
            _ => None,
        };
        match agg {
            Some(a) => {
                q.group_by = Some((field, a));
                Ok(())
            },
            None => Err(NqlError { expected: Expected::Aggregation, got }),
        }
    }

    fn parse_trace(&mut self, q: &mut Query) -> (r: Result<(), NqlError>)
        requires
            old(self).wf(),
            old(q).wf(),
        ensures
            final(self).read_as(
                *final(q),
                r,
                *old(self),
                trace_clause(old(self).words(), old(self).pos as int, old(q)@),
            ),
    {
        let edge = self.expect_name(Expected::EdgeType)?;
        q.trace = Some(edge);
        if self.at_kw("REVERSE") {
            let _ = self.advance();
            q.trace_rev = true;
        }
        Ok(())
    }

    fn parse_where(&mut self, q: &mut Query) -> (r: Result<(), NqlError>)
        requires
            old(self).wf(),
            old(q).wf(),
        ensures
            final(self).wf(),
            final(self).toks@ == old(self).toks@,
            match r {
                Ok(_) => {
                    &&& final(q).wf()
                    &&& final(q)@ == (QueryV { wheres: final(q)@.wheres, ..old(q)@ })
                    &&& cut_end(
                        conditions(old(self).words(), old(self).pos as int, old(q)@.wheres),
                        old(self).words(),
                    ) == Ok::<(Seq<WhereV>, int), Fault>(
                        (final(q)@.wheres, final(self).pos as int),
                    )
                },
                Err(e) => conditions(old(self).words(), old(self).pos as int, old(q)@.wheres)
                    == Err::<(Seq<WhereV>, int), Fault>(e@),
            },
    {
        self.parse_conditions(&mut q.wheres)
    }

    /// Reads one clause.
    fn parse_clause(&mut self, q: &mut Query) -> (r: Result<(), NqlError>)
        requires
            old(self).wf(),
            old(q).wf(),
            old(self).pos < old(self).toks@.len(),
        ensures
            final(self).read_as(
                *final(q),
                r,
                *old(self),
                clause(old(self).words(), old(self).pos as int, old(q)@),
            ),
            r is Ok ==> final(self).pos > old(self).pos,
    {
        let ghost ts = self.words();
        let ghost p = self.pos as int;
        match self.advance() {
            Tok::Kw(k) => {
                let k = k.as_str();
                if same_text(k, "AS") {
                    self.parse_as_of(q)
                } else if same_text(k, "VALID") {
                    self.parse_valid(q)
                } else if same_text(k, "WHERE") {
                    proof {
                        lemma_conditions_end(ts, p + 1, q@.wheres);
                    }
                    self.parse_where(q)
                } else if same_text(k, "SEARCH") {
                    match self.advance() {
                        Tok::Str(s) => {
                            q.search = Some(s);
                            Ok(())
                        },
                        got => Err(NqlError { expected: Expected::SearchText, got }),
                    }
                } else if same_text(k, "ORDER") {
                    self.parse_order(q)
                } else if same_text(k, "LIMIT") {
                    match self.advance() {
                        Tok::Num(l) => {
                            let n: u64 = cut_number(l.as_str());
                            q.limit = Some(
                                if n > usize::MAX as u64 {
                                    usize::MAX
                                } else {
                                    n as usize
                                },
                            );
                            Ok(())
                        },
                        got => Err(NqlError { expected: Expected::LimitNumber, got }),
                    }
                } else if same_text(k, "GROUP") {
                    self.parse_group(q)
                } else if same_text(k, "TRACE") {
                    self.parse_trace(q)
                } else {
                    Ok(())
                }
            },
            _ => Ok(()),
        }
    }

    fn parse(&mut self) -> (r: Result<Query, NqlError>)
        requires
            old(self).wf(),
            old(self).pos == 0,
        ensures
            match r {
                Ok(q) => q.wf() && query_of(old(self).words()) == Ok::<QueryV, Fault>(q@),
                Err(e) => query_of(old(self).words()) == Err::<QueryV, Fault>(e@),
            },
    {
        let ghost ts = self.words();
        self.expect_kw("FROM", Expected::From)?;
        let coll = self.expect_name(Expected::Collection)?;
        let mut q = Query {
            coll,
            as_of: None,
            valid_as_of: None,
            wheres: Vec::new(),
            search: None,
            order_by: None,
            order_desc: false,
            limit: None,
            group_by: None,
            trace: None,
            trace_rev: false,
        };
        assert(q@.wheres =~= Seq::<WhereV>::empty());
        let ghost whole = query_of(ts);
        loop
            invariant
                self.wf(),
                q.wf(),
                ts == self.words(),
                ts == old(self).words(),
                whole == query_of(ts),
                whole == clauses(ts, self.pos as int, q@),
            decreases ts.len() - self.pos,
        {
            if let Tok::Eof = self.peek() {
                return Ok(q);
            }
            let ghost p = self.pos as int;
            let ghost before = q@;
            self.parse_clause(&mut q)?;
            proof {
                let (r, e) = clause(ts, p, before)->Ok_0;
                if e > ts.len() {
                    assert(tok_at(ts, self.pos as int) is Eof);
                }
            }
        }
    }
}

/// Conditions end behind where they start.
proof fn lemma_conditions_end(ts: Seq<TokV>, p: int, acc: Seq<WhereV>)
    requires
        0 <= p,
    ensures
        conditions(ts, p, acc) matches Ok((_, e)) ==> e > p,
    decreases ts.len() - p,
{
    if let (Some(field), TokV::Op(op)) = (name_of(tok_at(ts, p)), tok_at(ts, p + 1)) {
        let all = acc.push(WhereV { field, op, value: literal(tok_at(ts, p + 2)) });
        if tok_at(ts, p + 3) == TokV::Kw("AND"@) {
            lemma_conditions_end(ts, p + 4, all);
        }
    }
}

/// Reads a query.
pub fn parse(nql: &str) -> (r: Result<Query, NqlError>)
    ensures
        match r {
            Ok(q) => q.wf() && parsed(nql@) == Ok::<QueryV, Fault>(q@),
            Err(e) => parsed(nql@) == Err::<QueryV, Fault>(e@),
        },
{
    let mut parser = Parser { toks: tokenize(nql), pos: 0 };
    parser.parse()
}

} // verus!
