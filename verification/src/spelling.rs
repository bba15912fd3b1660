//! How a query is spelled: words with blanks between them are read as those
//! words, keywords in whatever case, and each word stands for one value.

use vstd::prelude::*;
use crate::clauses::{all_applied, complete, lemma_clauses_read, query_words, ClauseV};
use crate::json::{float_text, Json, Num};
use crate::lexer::{
    digits_end, keyword, long_op, name_char, name_end, next_token, number_start, quote_end,
    space_end, tokens, tokens_from, word_token, TokV,
};
use crate::links::lemma_number_named;
use crate::parser::{
    aggregation, all_of, dots, limit_of, literal, name_of, number_cut, number_json, parsed, Fault,
    GroupAgg, QueryV,
};
use crate::text::{all_ascii, ascii_upper, decimal, uppercase};

verus! {

/// The keywords, in upper case.
pub open spec fn keywords() -> Seq<Seq<char>> {
    seq![
        "FROM"@,
        "AS"@,
        "OF"@,
        "VALID"@,
        "WHERE"@,
        "AND"@,
        "ORDER"@,
        "BY"@,
        "DESC"@,
        "LIMIT"@,
        "GROUP"@,
        "COUNT"@,
        "SUM"@,
        "AVG"@,
        "MIN"@,
        "MAX"@,
        "TRACE"@,
        "REVERSE"@,
        "SEARCH"@,
        "NOT"@,
        "NULL"@,
        "TRUE"@,
        "FALSE"@,
    ]
}

/// Whether a word is another one but for the case of its ASCII letters, which
/// are in upper case in the other one.
pub open spec fn in_some_case(w: Seq<char>, upper: Seq<char>) -> bool {
    w.len() == upper.len() && forall|i: int|
        0 <= i < w.len() ==> {
            ||| #[trigger] w[i] == upper[i] && !('a' <= w[i] <= 'z')
            ||| 'a' <= w[i] <= 'z' && w[i] as int == upper[i] as int + 32
        }
}

/// Whether a character may start a name.
pub open spec fn starts_name(c: char) -> bool {
    'a' <= c <= 'z' || 'A' <= c <= 'Z' || c == '_'
}

/// Whether a character may stand in a name.
pub open spec fn in_name(c: char) -> bool {
    starts_name(c) || '0' <= c <= '9' || c == '.' || c == ':'
}

/// Whether a text is a name: it starts with a letter or an underscore, and it
/// goes on with letters, digits, underscores, dots and colons.
pub open spec fn is_name(w: Seq<char>) -> bool {
    w.len() > 0 && starts_name(w[0]) && forall|i: int|
        0 <= i < w.len() ==> in_name(#[trigger] w[i])
}

/// Whether a text is a number: a digit, with a minus sign before it or not, and
/// then digits and dots.
pub open spec fn is_number(w: Seq<char>) -> bool {
    let first = if w.len() > 0 && w[0] == '-' {
        1int
    } else {
        0int
    };
    first < w.len() && '0' <= w[first] <= '9' && forall|i: int|
        first <= i < w.len() ==> '0' <= #[trigger] w[i] <= '9' || w[i] == '.'
}

/// Whether a text is a comparison.
pub open spec fn is_comparison(w: Seq<char>) -> bool {
    w == seq!['='] || w == seq!['>'] || w == seq!['<'] || w == seq!['!', '='] || w == seq!['>', '=']
        || w == seq!['<', '=']
}

/// Whether a word of a query is spelled this way.
pub open spec fn spells(t: TokV, w: Seq<char>) -> bool {
    match t {
        TokV::Kw(k) => keywords().contains(k) && in_some_case(w, k),
        TokV::Ident(name) => w == name && is_name(w) && forall|i: int|
            0 <= i < keywords().len() ==> !in_some_case(w, #[trigger] keywords()[i]),
        TokV::Str(text) => w == seq!['"'] + text + seq!['"'] && !text.contains('"'),
        TokV::Num(n) => w == n && is_number(w),
        TokV::Op(op) => w == op && is_comparison(w),
        TokV::Eof => false,
    }
}

/// Words, each behind a blank.
pub open spec fn spaced(ws: Seq<Seq<char>>) -> Seq<char>
    decreases ws.len(),
{
    if ws.len() == 0 {
        Seq::empty()
    } else {
        seq![' '] + ws[0] + spaced(ws.drop_first())
    }
}

/// Words with a blank between each and the next.
pub open spec fn joined(ws: Seq<Seq<char>>) -> Seq<char> {
    if ws.len() == 0 {
        Seq::empty()
    } else {
        ws[0] + spaced(ws.drop_first())
    }
}

proof fn lemma_keyword_known(s: Seq<char>)
    ensures
        keyword(s) <==> keywords().contains(s),
{
    let ks = keywords();
    if keyword(s) {
        assert(ks[0] == "FROM"@ && ks[1] == "AS"@ && ks[2] == "OF"@ && ks[3] == "VALID"@ && ks[4]
            == "WHERE"@ && ks[5] == "AND"@ && ks[6] == "ORDER"@ && ks[7] == "BY"@ && ks[8]
            == "DESC"@ && ks[9] == "LIMIT"@ && ks[10] == "GROUP"@ && ks[11] == "COUNT"@ && ks[12]
            == "SUM"@ && ks[13] == "AVG"@ && ks[14] == "MIN"@ && ks[15] == "MAX"@ && ks[16]
            == "TRACE"@ && ks[17] == "REVERSE"@ && ks[18] == "SEARCH"@ && ks[19] == "NOT"@
            && ks[20] == "NULL"@ && ks[21] == "TRUE"@ && ks[22] == "FALSE"@);
    }
}

proof fn lemma_keyword_letters(k: Seq<char>)
    requires
        keyword(k),
    ensures
        k.len() > 0,
        forall|i: int| 0 <= i < k.len() ==> 'A' <= #[trigger] k[i] <= 'Z',
{
    reveal_strlit("FROM");
    reveal_strlit("AS");
    reveal_strlit("OF");
    reveal_strlit("VALID");
    reveal_strlit("WHERE");
    reveal_strlit("AND");
    reveal_strlit("ORDER");
    reveal_strlit("BY");
    reveal_strlit("DESC");
    reveal_strlit("LIMIT");
    reveal_strlit("GROUP");
    reveal_strlit("COUNT");
    reveal_strlit("SUM");
    reveal_strlit("AVG");
    reveal_strlit("MIN");
    reveal_strlit("MAX");
    reveal_strlit("TRACE");
    reveal_strlit("REVERSE");
    reveal_strlit("SEARCH");
    reveal_strlit("NOT");
    reveal_strlit("NULL");
    reveal_strlit("TRUE");
    reveal_strlit("FALSE");
}

/// A word that is a keyword in some case stands for the keyword, and any other
/// name for itself.
pub proof fn lemma_word_meaning(w: Seq<char>)
    requires
        is_name(w),
    ensures
        forall|k: Seq<char>| #![auto]
            keywords().contains(k) && in_some_case(w, k) ==> word_token(w) == TokV::Kw(k),
        (forall|i: int|
            0 <= i < keywords().len() ==> !in_some_case(w, #[trigger] keywords()[i]))
            ==> word_token(w) == TokV::Ident(w),
{
    assert(all_ascii(w)) by {
        assert forall|i: int| 0 <= i < w.len() implies (#[trigger] w[i] as int) < 128 by {
            assert(in_name(w[i]));
        }
    }
    let u = uppercase(w);
    lemma_keyword_known(u);
    assert forall|k: Seq<char>| #![auto]
        keywords().contains(k) && in_some_case(w, k) implies word_token(w) == TokV::Kw(k) by {
        assert forall|i: int| 0 <= i < w.len() implies #[trigger] u[i] == k[i] by {
            assert(w[i] == w[i]);
            assert(u[i] == ascii_upper(w[i]));
        }
        assert(u =~= k);
    }
    if keyword(u) {
        let i = choose|i: int| 0 <= i < keywords().len() && keywords()[i] == u;
        assert(in_some_case(w, u)) by {
            assert forall|j: int| 0 <= j < w.len() implies {
                ||| #[trigger] w[j] == u[j] && !('a' <= w[j] <= 'z')
                ||| 'a' <= w[j] <= 'z' && w[j] as int == u[j] as int + 32
            } by {
                assert(u[j] == ascii_upper(w[j]));
            }
        }
        assert(in_some_case(w, keywords()[i]));
    }
}

proof fn lemma_name_runs(s: Seq<char>, from: int, to: int)
    requires
        0 <= from <= to <= s.len(),
        forall|k: int| from <= k < to ==> in_name(#[trigger] s[k]),
        to < s.len() ==> s[to] == ' ',
    ensures
        name_end(s, from) == to,
    decreases to - from,
{
    if from < to {
        assert(in_name(s[from]));
        lemma_name_runs(s, from + 1, to);
    } else if to < s.len() {
        assert(!name_char(s[to]));
    }
}

proof fn lemma_number_runs(s: Seq<char>, from: int, to: int)
    requires
        0 <= from <= to <= s.len(),
        forall|k: int| from <= k < to ==> '0' <= #[trigger] s[k] <= '9' || s[k] == '.',
        to < s.len() ==> s[to] == ' ',
    ensures
        digits_end(s, from) == to,
    decreases to - from,
{
    if from < to {
        lemma_number_runs(s, from + 1, to);
    }
}

proof fn lemma_quote_runs(s: Seq<char>, from: int, to: int)
    requires
        0 <= from <= to < s.len(),
        forall|k: int| from <= k < to ==> #[trigger] s[k] != '"',
        s[to] == '"',
    ensures
        quote_end(s, from) == to,
    decreases to - from,
{
    if from < to {
        lemma_quote_runs(s, from + 1, to);
    }
}

/// Whether a word stands at a place, and behind it a blank or nothing.
spec fn alone(s: Seq<char>, p: int, w: Seq<char>) -> bool {
    &&& 0 <= p
    &&& p + w.len() <= s.len()
    &&& forall|k: int| 0 <= k < w.len() ==> s[p + k] == #[trigger] w[k]
    &&& p + w.len() < s.len() ==> s[p + w.len()] == ' '
}

proof fn lemma_first_char(t: TokV, w: Seq<char>)
    requires
        spells(t, w),
    ensures
        w.len() > 0,
        w[0] != ' ',
        (w[0] as int) < 128,
        !(9 <= w[0] as int <= 13),
        t is Kw ==> is_name(w),
{
    match t {
        TokV::Kw(k) => {
            lemma_keyword_known(k);
            lemma_keyword_letters(k);
            assert forall|i: int| 0 <= i < w.len() implies starts_name(#[trigger] w[i]) by {
                assert('A' <= k[i] <= 'Z');
            }
        },
        TokV::Ident(_) => {
            assert(starts_name(w[0]));
        },
        TokV::Str(_) => {
            assert(w[0] == '"');
        },
        _ => {},
    }
}

proof fn lemma_at(s: Seq<char>, p: int, t: TokV, w: Seq<char>)
    requires
        spells(t, w),
        alone(s, p, w),
    ensures
        next_token(s, p) == (t, p + w.len()),
{
    let e = p + w.len();
    lemma_first_char(t, w);
    assert(s[p + 0] == w[0]);
    assert(space_end(s, p) == p);
    assert forall|k: int| p <= k < e implies #[trigger] s[k] == w[k - p] by {
        assert(s[p + (k - p)] == w[k - p]);
    }
    assert(s.subrange(p, e) =~= w);
    match t {
        TokV::Str(text) => {
            assert(w[0] == '"' && w[w.len() - 1] == '"');
            assert forall|k: int| p + 1 <= k < e - 1 implies #[trigger] s[k] != '"' by {
                assert(w[k - p] == text[k - p - 1]);
            }
            lemma_quote_runs(s, p + 1, e - 1);
            assert(s.subrange(p + 1, e - 1) =~= text) by {
                assert forall|i: int| 0 <= i < text.len() implies #[trigger] s[p + 1 + i]
                    == text[i] by {
                    assert(w[i + 1] == text[i]);
                }
            }
        },
        TokV::Op(_) => {
            if w.len() == 2 {
                assert(s[p + 1] == w[1]);
                assert(long_op(s, p));
            } else {
                assert(!long_op(s, p));
                assert(w =~= seq![s[p]]);
            }
        },
        TokV::Num(_) => {
            if w[0] == '-' {
                assert(s[p + 1] == w[1]);
            }
            assert(number_start(s, p));
            assert forall|k: int| p + 1 <= k < e implies '0' <= #[trigger] s[k] <= '9' || s[k]
                == '.' by {
                assert('0' <= w[k - p] <= '9' || w[k - p] == '.');
            }
            lemma_number_runs(s, p + 1, e);
        },
        _ => {
            assert(is_name(w));
            assert(starts_name(w[0]));
            assert forall|k: int| p + 1 <= k < e implies in_name(#[trigger] s[k]) by {
                assert(in_name(w[k - p]));
            }
            lemma_name_runs(s, p + 1, e);
            lemma_word_meaning(w);
        },
    }
}

proof fn lemma_behind_blank(s: Seq<char>, pos: int, t: TokV, w: Seq<char>)
    requires
        0 <= pos < s.len(),
        s[pos] == ' ',
        spells(t, w),
        alone(s, pos + 1, w),
    ensures
        next_token(s, pos) == (t, pos + 1 + w.len()),
{
    lemma_first_char(t, w);
    assert(s[pos + 1 + 0] == w[0]);
    lemma_at(s, pos + 1, t, w);
    assert(space_end(s, pos + 1) == pos + 1);
    assert(space_end(s, pos) == pos + 1);
}

/// Whether the rest of a text from a place on is another text.
spec fn ends_with(s: Seq<char>, pos: int, rest: Seq<char>) -> bool {
    0 <= pos && s.len() == pos + rest.len() && s.skip(pos) == rest
}

proof fn lemma_spaced_read(s: Seq<char>, pos: int, ts: Seq<TokV>, ws: Seq<Seq<char>>)
    requires
        ts.len() == ws.len(),
        forall|i: int| 0 <= i < ts.len() ==> spells(#[trigger] ts[i], ws[i]),
        ends_with(s, pos, spaced(ws)),
    ensures
        tokens_from(s, pos) == ts,
    decreases ws.len(),
{
    if ws.len() > 0 {
        let more = ws.drop_first();
        let w = ws[0];
        let e = pos + 1 + w.len();
        assert(spells(ts[0], ws[0]));
        lemma_split(s, pos, w, more);
        lemma_behind_blank(s, pos, ts[0], w);
        assert forall|i: int| 0 <= i < more.len() implies spells(
            #[trigger] ts.drop_first()[i],
            more[i],
        ) by {
            assert(spells(ts[i + 1], ws[i + 1]));
        }
        lemma_spaced_read(s, e, ts.drop_first(), more);
        assert(ts =~= seq![ts[0]] + ts.drop_first());
        assert(!(ts[0] is Eof));
    } else {
        assert(space_end(s, pos) == pos);
        assert(next_token(s, pos).0 is Eof);
        assert(ts =~= Seq::empty());
    }
}

proof fn lemma_split(s: Seq<char>, pos: int, w: Seq<char>, more: Seq<Seq<char>>)
    requires
        ends_with(s, pos, seq![' '] + w + spaced(more)),
    ensures
        pos < s.len(),
        s[pos] == ' ',
        alone(s, pos + 1, w),
        ends_with(s, pos + 1 + w.len(), spaced(more)),
{
    let all = seq![' '] + w + spaced(more);
    let e = pos + 1 + w.len();
    assert forall|k: int| 0 <= k < all.len() implies s[pos + k] == #[trigger] all[k] by {
        assert(s.skip(pos)[k] == all[k]);
    }
    assert(all[0] == ' ');
    assert(s[pos + 0] == ' ');
    assert forall|k: int| 0 <= k < w.len() implies s[pos + 1 + k] == #[trigger] w[k] by {
        assert(all[k + 1] == w[k]);
        assert(s[pos + (k + 1)] == all[k + 1]);
    }
    assert(s.skip(e) =~= spaced(more)) by {
        assert forall|k: int| 0 <= k < spaced(more).len() implies #[trigger] s.skip(e)[k]
            == spaced(more)[k] by {
            assert(all[k + 1 + w.len()] == spaced(more)[k]);
            assert(s[pos + (k + 1 + w.len())] == all[k + 1 + w.len()]);
        }
    }
    if e < s.len() {
        assert(more.len() > 0);
        assert(spaced(more)[0] == ' ');
        assert(s.skip(e)[0] == ' ');
    }
}

/// Words with a blank between each and the next are read as those words, and as
/// no others.
pub proof fn lemma_words_read(ts: Seq<TokV>, ws: Seq<Seq<char>>)
    requires
        ts.len() == ws.len(),
        forall|i: int| 0 <= i < ts.len() ==> spells(#[trigger] ts[i], ws[i]),
    ensures
        tokens(joined(ws)) == ts,
        tokens(spaced(ws)) == ts,
{
    let lone = spaced(ws);
    assert(lone.skip(0) =~= lone);
    lemma_spaced_read(lone, 0, ts, ws);
    let s = joined(ws);
    if ws.len() == 0 {
        assert(s =~= lone);
    } else {
        let w = ws[0];
        let more = ws.drop_first();
        let e = w.len() as int;
        assert(spells(ts[0], ws[0]));
        lemma_first_char(ts[0], w);
        assert(s.skip(e) =~= spaced(more));
        assert(alone(s, 0, w)) by {
            if e < s.len() {
                assert(more.len() > 0);
                assert(spaced(more)[0] == ' ');
            }
        }
        lemma_at(s, 0, ts[0], w);
        assert forall|i: int| 0 <= i < more.len() implies spells(
            #[trigger] ts.drop_first()[i],
            more[i],
        ) by {
            assert(spells(ts[i + 1], ws[i + 1]));
        }
        lemma_spaced_read(s, e, ts.drop_first(), more);
        assert(ts =~= seq![ts[0]] + ts.drop_first());
        assert(!(ts[0] is Eof));
    }
}

/// A query spelled word by word, its keywords in whatever case, asks for what
/// each of its clauses asks for.
pub proof fn lemma_query_read(from: TokV, cs: Seq<ClauseV>, ws: Seq<Seq<char>>)
    requires
        name_of(from) is Some,
        forall|i: int| 0 <= i < cs.len() ==> complete(#[trigger] cs[i]),
        ws.len() == query_words(from, cs).len(),
        forall|i: int| 0 <= i < ws.len() ==> spells(#[trigger] query_words(from, cs)[i], ws[i]),
    ensures
        parsed(joined(ws)) == Ok::<QueryV, Fault>(all_applied(all_of(name_of(from)->0), cs)),
{
    lemma_words_read(query_words(from, cs), ws);
    lemma_clauses_read(from, cs);
}

/// Whether a text has two dots or more.
pub open spec fn two_dots(s: Seq<char>) -> bool {
    exists|i: int, j: int| 0 <= i < j < s.len() && #[trigger] s[i] == '.' && #[trigger] s[j] == '.'
}

proof fn lemma_dots(s: Seq<char>)
    ensures
        dots(s) >= 0,
        dots(s) == 0 <==> !s.contains('.'),
        dots(s) > 1 <==> two_dots(s),
    decreases s.len(),
{
    if s.len() > 0 {
        let d = s.drop_last();
        let n = s.len() - 1;
        lemma_dots(d);
        assert forall|i: int| 0 <= i < n implies d[i] == #[trigger] s[i] by {}
        if d.contains('.') {
            let i = choose|i: int| 0 <= i < d.len() && d[i] == '.';
            assert(s[i] == '.');
            if s.last() == '.' {
                assert(s[n] == '.');
                assert(two_dots(s));
            }
        }
        if two_dots(d) {
            let (i, j) = choose|i: int, j: int|
                0 <= i < j < d.len() && #[trigger] d[i] == '.' && #[trigger] d[j] == '.';
            assert(s[i] == '.' && s[j] == '.');
        }
        if two_dots(s) {
            let (i, j) = choose|i: int, j: int|
                0 <= i < j < s.len() && #[trigger] s[i] == '.' && #[trigger] s[j] == '.';
            assert(d[i] == '.');
            if j < n {
                assert(d[j] == '.');
            }
        }
        if s.contains('.') {
            let i = choose|i: int| 0 <= i < s.len() && s[i] == '.';
            if i < n {
                assert(d[i] == '.');
            }
        }
        if s.last() == '.' {
            assert(s[n] == '.');
        }
    }
}

/// The value of a quoted text or of a name is the text, and that of a keyword is
/// a truth value for the two that name one and nothing for the others.
pub proof fn lemma_literal_words(s: Seq<char>)
    ensures
        literal(TokV::Str(s)) == Json::Text(s),
        literal(TokV::Ident(s)) == Json::Text(s),
        literal(TokV::Kw("TRUE"@)) == Json::Bool(true),
        literal(TokV::Kw("FALSE"@)) == Json::Bool(false),
        s != "TRUE"@ && s != "FALSE"@ ==> literal(TokV::Kw(s)) == Json::Null,
{
    reveal_strlit("TRUE");
    reveal_strlit("FALSE");
    assert("TRUE"@.len() != "FALSE"@.len());
}

/// The value of a number is the double that it spells; with two dots or more
/// it is that of zero.
pub proof fn lemma_literal_number(n: Seq<char>, text: Seq<char>)
    ensures
        !two_dots(n) && float_text(n) == Some(text) ==> literal(TokV::Num(n)) == Json::Number(
            Num::Float(text),
        ),
        !two_dots(n) && float_text(n) is None ==> literal(TokV::Num(n)) == Json::Null,
        two_dots(n) && float_text(seq!['0']) == Some(text) ==> literal(TokV::Num(n))
            == Json::Number(Num::Float(text)),
{
    lemma_dots(n);
    reveal_strlit("0");
    assert("0"@ =~= seq!['0']);
    assert(literal(TokV::Num(n)) == number_json(n));
}

/// A limit or the number of a write is the integer that is spelled; one with
/// two dots or more is none.
pub proof fn lemma_counts_read(n: u64, l: Seq<char>)
    ensures
        n < 9_007_199_254_740_992 && n <= usize::MAX ==> limit_of(decimal(n as nat)) == n,
        n < 9_007_199_254_740_992 ==> number_cut(decimal(n as nat)) == n,
        two_dots(l) ==> number_cut(l) == 0 && limit_of(l) == 0,
{
    if n < 9_007_199_254_740_992 {
        lemma_number_named(n);
    }
    lemma_dots(l);
}

/// A group is counted, summed, averaged, or its least or greatest taken, as the
/// word says that asks for it, and nothing else can be asked of a group.
pub proof fn lemma_aggregations(t: TokV)
    ensures
        aggregation(TokV::Kw("COUNT"@)) == Some(GroupAgg::Count),
        aggregation(TokV::Kw("SUM"@)) == Some(GroupAgg::Sum),
        aggregation(TokV::Kw("AVG"@)) == Some(GroupAgg::Avg),
        aggregation(TokV::Kw("MIN"@)) == Some(GroupAgg::Min),
        aggregation(TokV::Kw("MAX"@)) == Some(GroupAgg::Max),
        aggregation(t) is Some ==> t == TokV::Kw("COUNT"@) || t == TokV::Kw("SUM"@) || t
            == TokV::Kw("AVG"@) || t == TokV::Kw("MIN"@) || t == TokV::Kw("MAX"@),
{
    reveal_strlit("COUNT");
    reveal_strlit("SUM");
    reveal_strlit("AVG");
    reveal_strlit("MIN");
    reveal_strlit("MAX");
    assert("SUM"@[0] == 'S' && "AVG"@[0] == 'A' && "MIN"@[1] == 'I' && "MAX"@[1] == 'A'
        && "MIN"@[0] == 'M' && "MAX"@[0] == 'M' && "COUNT"@.len() == 5);
}

/// What a name or a keyword names is the word itself; nothing else names
/// anything.
pub proof fn lemma_names_read(t: TokV, s: Seq<char>)
    ensures
        name_of(t) == Some(s) <==> t == TokV::Ident(s) || t == TokV::Kw(s),
{
}

} // verus!
