//! What holds of links: they are found from both ends, now and as of earlier
//! writes, through the query that looks for them.

use vstd::prelude::*;
use crate::bindings::{link_id, link_query, link_version, other_ends, texts_under};
use crate::db::{as_of, current, delete_outcome, doc_fields, put_done, DbV};
use crate::double::{lemma_truncated_integer, EXPONENT_UNIT};
use crate::guarantees::lemma_deleted;
use crate::history::{clash, lemma_put_then_get};
use crate::index::{id_wf, ids_in};
use crate::json::{field_of, field_set, float_bits, json_get, Json, Num};
use crate::lexer::{
    digits_end, keyword, name_char, name_end, next_token, quote_end, space_end, tokens,
    tokens_from, word_token, TokV,
};
use crate::node::{lemma_by_key, storable, texts_json, NodeV};
use crate::nql::{answer_of, candidates, node_row, result_nodes, selected, where_holds, AnswerV};
use crate::ordered::{key_equal, key_of, Key};
use crate::parser::{
    all_of, clause, clauses, conditions, dots, number_cut, parsed, tok_at, QueryV, WhereV,
};
use crate::query_laws::{lemma_lists_as_of, lemma_lists_current, lemma_query_finds, lists_all};
use crate::store::{undamaged, StoreError};
use crate::text::{
    all_ascii, all_digits, ascii_digit, decimal, lemma_decimal, lemma_decimal_len, uppercase,
};

verus! {

/// Whether a character can stand anywhere in a plain word.
spec fn plain(c: char) -> bool {
    'a' <= c <= 'z' || 'A' <= c <= 'Z' || c == '_'
}

/// Whether a text has no quote in it.
pub open spec fn unquotable(s: Seq<char>) -> bool {
    forall|i: int| 0 <= i < s.len() ==> #[trigger] s[i] != '"'
}

proof fn lemma_name_end(s: Seq<char>, from: int, to: int)
    requires
        0 <= from <= to <= s.len(),
        forall|k: int| from <= k < to ==> name_char(#[trigger] s[k]),
        to < s.len() ==> !name_char(s[to]),
    ensures
        name_end(s, from) == to,
    decreases to - from,
{
    if from < to {
        lemma_name_end(s, from + 1, to);
    }
}

proof fn lemma_quote_end(s: Seq<char>, from: int, to: int)
    requires
        0 <= from <= to < s.len(),
        forall|k: int| from <= k < to ==> #[trigger] s[k] != '"',
        s[to] == '"',
    ensures
        quote_end(s, from) == to,
    decreases to - from,
{
    if from < to {
        lemma_quote_end(s, from + 1, to);
    }
}

proof fn lemma_digits_end(s: Seq<char>, from: int, to: int)
    requires
        0 <= from <= to <= s.len(),
        forall|k: int| from <= k < to ==> ascii_digit(#[trigger] s[k]),
        to < s.len() ==> !ascii_digit(s[to]) && s[to] != '.',
    ensures
        digits_end(s, from) == to,
    decreases to - from,
{
    if from < to {
        lemma_digits_end(s, from + 1, to);
    }
}

/// A plain word behind at most one blank is read as a whole.
proof fn lemma_word(s: Seq<char>, pos: int, gap: int, word: Seq<char>)
    requires
        0 <= pos,
        0 <= gap <= 1,
        gap == 1 ==> s[pos] == ' ',
        word.len() > 0,
        pos + gap + word.len() <= s.len(),
        forall|i: int| 0 <= i < word.len() ==> plain(#[trigger] word[i]),
        s.subrange(pos + gap, pos + gap + word.len()) == word,
        pos + gap + word.len() < s.len() ==> !name_char(s[pos + gap + word.len()]),
    ensures
        tokens_from(s, pos) == seq![word_token(word)] + tokens_from(s, pos + gap + word.len()),
{
    let p = pos + gap;
    let e = p + word.len();
    assert forall|k: int| p <= k < e implies plain(#[trigger] s[k]) by {
        assert(s.subrange(p, e)[k - p] == s[k]);
        assert(plain(word[k - p]));
    }
    assert(plain(s[p]));
    assert(space_end(s, p) == p);
    assert(space_end(s, pos) == p);
    lemma_name_end(s, p + 1, e);
    assert(next_token(s, pos) == (word_token(word), e));
}

/// A sign of equality behind a blank is read as one.
proof fn lemma_equals(s: Seq<char>, pos: int)
    requires
        0 <= pos,
        pos + 2 <= s.len(),
        s[pos] == ' ',
        s[pos + 1] == '=',
    ensures
        tokens_from(s, pos) == seq![TokV::Op(seq!['='])] + tokens_from(s, pos + 2),
{
    assert(space_end(s, pos + 1) == pos + 1);
    assert(space_end(s, pos) == pos + 1);
    assert(next_token(s, pos) == (TokV::Op(seq!['=']), pos + 2));
}

/// A quoted text behind a blank is read as a whole.
proof fn lemma_quoted(s: Seq<char>, pos: int, text: Seq<char>)
    requires
        0 <= pos,
        pos + 3 + text.len() <= s.len(),
        s[pos] == ' ',
        s[pos + 1] == '"',
        s.subrange(pos + 2, pos + 2 + text.len()) == text,
        s[pos + 2 + text.len()] == '"',
        unquotable(text),
    ensures
        tokens_from(s, pos) == seq![TokV::Str(text)] + tokens_from(s, pos + 3 + text.len()),
{
    let e = pos + 2 + text.len();
    assert forall|k: int| pos + 2 <= k < e implies #[trigger] s[k] != '"' by {
        assert(s.subrange(pos + 2, e)[k - pos - 2] == s[k]);
        assert(text[k - pos - 2] != '"');
    }
    lemma_quote_end(s, pos + 2, e);
    assert(space_end(s, pos + 1) == pos + 1);
    assert(space_end(s, pos) == pos + 1);
    assert(next_token(s, pos) == (TokV::Str(text), e + 1));
}

/// A row of digits behind a blank is read as a whole.
proof fn lemma_digits(s: Seq<char>, pos: int, digits: Seq<char>)
    requires
        0 <= pos,
        s[pos] == ' ',
        digits.len() > 0,
        pos + 1 + digits.len() < s.len(),
        all_digits(digits),
        s.subrange(pos + 1, pos + 1 + digits.len()) == digits,
        s[pos + 1 + digits.len()] == ' ',
    ensures
        tokens_from(s, pos) == seq![TokV::Num(digits)] + tokens_from(s, pos + 1 + digits.len()),
{
    let e = pos + 1 + digits.len();
    assert forall|k: int| pos + 1 <= k < e implies ascii_digit(#[trigger] s[k]) by {
        assert(s.subrange(pos + 1, e)[k - pos - 1] == s[k]);
        assert(ascii_digit(digits[k - pos - 1]));
    }
    assert(ascii_digit(s[pos + 1]));
    lemma_digits_end(s, pos + 2, e);
    assert(space_end(s, pos + 1) == pos + 1);
    assert(space_end(s, pos) == pos + 1);
    assert(next_token(s, pos) == (TokV::Num(digits), e));
}

/// No keyword starts with an underscore.
proof fn lemma_keyword(s: Seq<char>)
    requires
        keyword(s),
    ensures
        s.len() > 0,
        s[0] != '_',
{
    reveal_strlit("FROM");
    reveal_strlit("AS");
    reveal_strlit("OF");
    reveal_strlit("VALID");
    reveal_strlit("WHERE");
    reveal_strlit("AND");
    reveal_strlit("ORDER");
    reveal_strlit("BY");
    reveal_strlit("DESC");
    reveal_strlit("LIMIT");
    reveal_strlit("GROUP");
    reveal_strlit("COUNT");
    reveal_strlit("SUM");
    reveal_strlit("AVG");
    reveal_strlit("MIN");
    reveal_strlit("MAX");
    reveal_strlit("TRACE");
    reveal_strlit("REVERSE");
    reveal_strlit("SEARCH");
    reveal_strlit("NOT");
    reveal_strlit("NULL");
    reveal_strlit("TRUE");
    reveal_strlit("FALSE");
}

/// A plain word that starts with an underscore is a name.
proof fn lemma_name(word: Seq<char>)
    requires
        word.len() > 0,
        word[0] == '_',
        forall|i: int| 0 <= i < word.len() ==> plain(#[trigger] word[i]),
    ensures
        word_token(word) == TokV::Ident(word),
{
    assert(all_ascii(word));
    assert(uppercase(word)[0] == '_');
    if keyword(uppercase(word)) {
        lemma_keyword(uppercase(word));
    }
}

/// A keyword in upper case is read as one.
proof fn lemma_upper(word: Seq<char>)
    requires
        keyword(word),
        forall|i: int| 0 <= i < word.len() ==> 'A' <= #[trigger] word[i] <= 'Z',
    ensures
        word_token(word) == TokV::Kw(word),
{
    assert(all_ascii(word));
    assert(uppercase(word) =~= word);
}

/// The end of the query for links.
spec fn link_conditions(end: Seq<char>, name: Seq<char>, rel: Seq<char>) -> Seq<char> {
    " WHERE "@ + end + " = \""@ + name + "\" AND _rel = \""@ + rel + "\""@
}

spec fn condition_tokens(end: Seq<char>, name: Seq<char>, rel: Seq<char>) -> Seq<TokV> {
    seq![
        TokV::Kw("WHERE"@),
        TokV::Ident(end),
        TokV::Op(seq!['=']),
        TokV::Str(name),
        TokV::Kw("AND"@),
        TokV::Ident("_rel"@),
        TokV::Op(seq!['=']),
        TokV::Str(rel),
    ]
}

/// Whether this is the field of an end of a link.
pub open spec fn is_end(end: Seq<char>) -> bool {
    end == "_from"@ || end == "_to"@
}

/// Whether a text stands at a place of another.
spec fn stands(s: Seq<char>, pos: int, w: Seq<char>) -> bool {
    0 <= pos && pos + w.len() <= s.len() && s.subrange(pos, pos + w.len()) == w
}

proof fn lemma_parts_stand(s: Seq<char>, pos: int, x: Seq<char>, y: Seq<char>)
    requires
        stands(s, pos, x + y),
    ensures
        stands(s, pos, x),
        stands(s, pos + x.len(), y),
{
    let t = x + y;
    assert forall|k: int| pos <= k < pos + t.len() implies #[trigger] s[k] == t[k - pos] by {
        assert(s.subrange(pos, pos + t.len())[k - pos] == s[k]);
    }
    assert(s.subrange(pos, pos + x.len()) =~= x);
    assert(s.subrange(pos + x.len(), pos + x.len() + y.len()) =~= y);
}

proof fn lemma_char_stands(s: Seq<char>, pos: int, w: Seq<char>, i: int)
    requires
        stands(s, pos, w),
        0 <= i < w.len(),
    ensures
        s[pos + i] == w[i],
{
    assert(s.subrange(pos, pos + w.len())[i] == s[pos + i]);
}

/// The words `WHERE` and the name of a field.
proof fn lemma_where(s: Seq<char>, pos: int, end: Seq<char>)
    requires
        stands(s, pos, " WHERE "@),
        stands(s, pos + 7, end),
        is_end(end),
        pos + 7 + end.len() < s.len(),
        s[pos + 7 + end.len()] == ' ',
    ensures
        tokens_from(s, pos) == seq![TokV::Kw("WHERE"@), TokV::Ident(end)] + tokens_from(
            s,
            pos + 7 + end.len(),
        ),
{
    reveal_strlit("_from");
    reveal_strlit("_to");
    reveal_strlit(" WHERE ");
    reveal_strlit("WHERE");
    assert(" WHERE "@ =~= seq![' '] + "WHERE"@ + seq![' ']);
    lemma_parts_stand(s, pos, seq![' '] + "WHERE"@, seq![' ']);
    lemma_parts_stand(s, pos, seq![' '], "WHERE"@);
    lemma_char_stands(s, pos, seq![' '], 0);
    lemma_char_stands(s, pos + 6, seq![' '], 0);
    lemma_word(s, pos, 1, "WHERE"@);
    lemma_upper("WHERE"@);
    lemma_word(s, pos + 6, 1, end);
    lemma_name(end);
    assert(tokens_from(s, pos) =~= seq![TokV::Kw("WHERE"@), TokV::Ident(end)] + tokens_from(
        s,
        pos + 7 + end.len(),
    ));
}

/// A sign of equality and a quoted text.
proof fn lemma_is(s: Seq<char>, pos: int, name: Seq<char>)
    requires
        stands(s, pos, " = \""@),
        stands(s, pos + 4, name),
        stands(s, pos + 4 + name.len(), seq!['"']),
        unquotable(name),
    ensures
        tokens_from(s, pos) == seq![TokV::Op(seq!['=']), TokV::Str(name)] + tokens_from(
            s,
            pos + 5 + name.len(),
        ),
{
    reveal_strlit(" = \"");
    lemma_char_stands(s, pos, " = \""@, 0);
    lemma_char_stands(s, pos, " = \""@, 1);
    lemma_char_stands(s, pos, " = \""@, 2);
    lemma_char_stands(s, pos, " = \""@, 3);
    lemma_char_stands(s, pos + 4 + name.len(), seq!['"'], 0);
    lemma_equals(s, pos);
    lemma_quoted(s, pos + 2, name);
    assert(tokens_from(s, pos) =~= seq![TokV::Op(seq!['=']), TokV::Str(name)] + tokens_from(
        s,
        pos + 5 + name.len(),
    ));
}

/// The words `AND` and `_rel`.
proof fn lemma_and_rel(s: Seq<char>, pos: int)
    requires
        stands(s, pos, " AND _rel"@),
        pos + 9 < s.len(),
        s[pos + 9] == ' ',
    ensures
        tokens_from(s, pos) == seq![TokV::Kw("AND"@), TokV::Ident("_rel"@)] + tokens_from(
            s,
            pos + 9,
        ),
{
    reveal_strlit(" AND _rel");
    reveal_strlit("AND");
    reveal_strlit("_rel");
    assert(" AND _rel"@ =~= seq![' '] + "AND"@ + (seq![' '] + "_rel"@));
    lemma_parts_stand(s, pos, seq![' '] + "AND"@, seq![' '] + "_rel"@);
    lemma_parts_stand(s, pos, seq![' '], "AND"@);
    lemma_parts_stand(s, pos + 4, seq![' '], "_rel"@);
    lemma_char_stands(s, pos, seq![' '], 0);
    lemma_char_stands(s, pos + 4, seq![' '], 0);
    lemma_word(s, pos, 1, "AND"@);
    lemma_upper("AND"@);
    lemma_word(s, pos + 4, 1, "_rel"@);
    lemma_name("_rel"@);
    assert(tokens_from(s, pos) =~= seq![TokV::Kw("AND"@), TokV::Ident("_rel"@)] + tokens_from(
        s,
        pos + 9,
    ));
}

proof fn lemma_condition_tokens(
    s: Seq<char>,
    pos: int,
    end: Seq<char>,
    name: Seq<char>,
    rel: Seq<char>,
)
    requires
        stands(s, pos, link_conditions(end, name, rel)),
        s.len() == pos + link_conditions(end, name, rel).len(),
        is_end(end),
        unquotable(name),
        unquotable(rel),
    ensures
        tokens_from(s, pos) == condition_tokens(end, name, rel),
{
    reveal_strlit(" WHERE ");
    reveal_strlit(" = \"");
    reveal_strlit("\" AND _rel = \"");
    reveal_strlit(" AND _rel");
    reveal_strlit("\"");
    let is = " = \""@;
    let quote = seq!['"'];
    let p5 = " WHERE "@ + end + is + name + "\" AND _rel = \""@;
    let p4 = " WHERE "@ + end + is + name;
    let p3 = " WHERE "@ + end + is;
    let p2 = " WHERE "@ + end;
    assert("\""@ =~= quote);
    assert("\" AND _rel = \""@ =~= quote + " AND _rel"@ + is);
    lemma_parts_stand(s, pos, p5 + rel, quote);
    lemma_parts_stand(s, pos, p5, rel);
    lemma_parts_stand(s, pos, p4, quote + " AND _rel"@ + is);
    lemma_parts_stand(s, pos + p4.len(), quote + " AND _rel"@, is);
    lemma_parts_stand(s, pos + p4.len(), quote, " AND _rel"@);
    lemma_parts_stand(s, pos, p3, name);
    lemma_parts_stand(s, pos, p2, is);
    lemma_parts_stand(s, pos, " WHERE "@, end);
    let b = pos + 7 + end.len();
    let d = b + 5 + name.len();
    lemma_char_stands(s, b, is, 0);
    lemma_char_stands(s, d + 9, is, 0);
    lemma_where(s, pos, end);
    lemma_is(s, b, name);
    lemma_and_rel(s, d);
    lemma_is(s, d + 9, rel);
    assert(d + 9 + 5 + rel.len() == s.len());
    assert(tokens_from(s, s.len() as int) =~= Seq::empty());
    assert(tokens_from(s, pos) =~= condition_tokens(end, name, rel));
}

/// The words of the query for links.
spec fn link_tokens(
    as_of: Option<u64>,
    end: Seq<char>,
    name: Seq<char>,
    rel: Seq<char>,
) -> Seq<TokV> {
    let head = seq![TokV::Kw("FROM"@), TokV::Ident("__links__"@)];
    let time = match as_of {
        Some(n) => seq![TokV::Kw("AS"@), TokV::Kw("OF"@), TokV::Num(decimal(n as nat))],
        None => Seq::empty(),
    };
    head + time + condition_tokens(end, name, rel)
}

proof fn lemma_from_links(s: Seq<char>)
    requires
        stands(s, 0, "FROM __links__"@),
        s.len() > 14,
        s[14] == ' ',
    ensures
        tokens_from(s, 0) == seq![TokV::Kw("FROM"@), TokV::Ident("__links__"@)] + tokens_from(
            s,
            14,
        ),
{
    reveal_strlit("FROM __links__");
    reveal_strlit("FROM");
    reveal_strlit("__links__");
    assert("FROM __links__"@ =~= "FROM"@ + (seq![' '] + "__links__"@));
    lemma_parts_stand(s, 0, "FROM"@, seq![' '] + "__links__"@);
    lemma_parts_stand(s, 4, seq![' '], "__links__"@);
    lemma_char_stands(s, 4, seq![' '], 0);
    lemma_word(s, 0, 0, "FROM"@);
    lemma_upper("FROM"@);
    lemma_word(s, 4, 1, "__links__"@);
    lemma_name("__links__"@);
    assert(tokens_from(s, 0) =~= seq![TokV::Kw("FROM"@), TokV::Ident("__links__"@)]
        + tokens_from(s, 14));
}

proof fn lemma_as_of_tokens(s: Seq<char>, digits: Seq<char>)
    requires
        stands(s, 14, " AS OF "@),
        stands(s, 21, digits),
        digits.len() > 0,
        all_digits(digits),
        21int + digits.len() < s.len(),
        s[21int + digits.len()] == ' ',
    ensures
        tokens_from(s, 14) == seq![TokV::Kw("AS"@), TokV::Kw("OF"@), TokV::Num(digits)]
            + tokens_from(s, 21int + digits.len()),
{
    reveal_strlit(" AS OF ");
    reveal_strlit("AS");
    reveal_strlit("OF");
    assert(" AS OF "@ =~= seq![' '] + "AS"@ + (seq![' '] + "OF"@ + seq![' ']));
    lemma_parts_stand(s, 14, seq![' '] + "AS"@, seq![' '] + "OF"@ + seq![' ']);
    lemma_parts_stand(s, 14, seq![' '], "AS"@);
    lemma_parts_stand(s, 17, seq![' '] + "OF"@, seq![' ']);
    lemma_parts_stand(s, 17, seq![' '], "OF"@);
    lemma_char_stands(s, 14, seq![' '], 0);
    lemma_char_stands(s, 17, seq![' '], 0);
    lemma_char_stands(s, 20, seq![' '], 0);
    lemma_word(s, 14, 1, "AS"@);
    lemma_upper("AS"@);
    lemma_word(s, 17, 1, "OF"@);
    lemma_upper("OF"@);
    lemma_digits(s, 20, digits);
    assert(tokens_from(s, 14) =~= seq![TokV::Kw("AS"@), TokV::Kw("OF"@), TokV::Num(digits)]
        + tokens_from(s, 21int + digits.len()));
}

proof fn lemma_regroup(x: Seq<char>, y: Seq<char>, z: Seq<char>)
    ensures
        (x + y) + z == x + (y + z),
{
    assert((x + y) + z =~= x + (y + z));
}

/// The query for links ends with its conditions.
proof fn lemma_query_end(
    as_of: Option<u64>,
    end: Seq<char>,
    name: Seq<char>,
    rel: Seq<char>,
    front: Seq<char>,
)
    requires
        front + " WHERE "@ == match as_of {
            Some(n) => "FROM __links__ AS OF "@ + decimal(n as nat) + " WHERE "@,
            None => "FROM __links__ WHERE "@,
        },
    ensures
        link_query(as_of, end, name, rel) == front + link_conditions(end, name, rel),
{
    let w = " WHERE "@;
    let is = " = \""@;
    let and = "\" AND _rel = \""@;
    lemma_regroup(front, w, end);
    lemma_regroup(front, w + end, is);
    lemma_regroup(front, w + end + is, name);
    lemma_regroup(front, w + end + is + name, and);
    lemma_regroup(front, w + end + is + name + and, rel);
    lemma_regroup(front, w + end + is + name + and + rel, "\""@);
}

proof fn lemma_conditions_start(end: Seq<char>, name: Seq<char>, rel: Seq<char>)
    ensures
        link_conditions(end, name, rel).len() > 0,
        link_conditions(end, name, rel)[0] == ' ',
{
    reveal_strlit(" WHERE ");
}

#[verifier::rlimit(40)]
proof fn lemma_link_tokens(as_of: Option<u64>, end: Seq<char>, name: Seq<char>, rel: Seq<char>)
    requires
        is_end(end),
        unquotable(name),
        unquotable(rel),
    ensures
        tokens(link_query(as_of, end, name, rel)) == link_tokens(as_of, end, name, rel),
{
    let s = link_query(as_of, end, name, rel);
    let tail = link_conditions(end, name, rel);
    let from = "FROM __links__"@;
    reveal_strlit("FROM __links__");
    lemma_conditions_start(end, name, rel);
    assert(s.subrange(0, s.len() as int) =~= s);
    match as_of {
        None => {
            assert(from + " WHERE "@ =~= "FROM __links__ WHERE "@) by {
                reveal_strlit("FROM __links__ WHERE ");
                reveal_strlit(" WHERE ");
            }
            lemma_query_end(as_of, end, name, rel, from);
            lemma_parts_stand(s, 0, from, tail);
            lemma_char_stands(s, 14, tail, 0);
            lemma_from_links(s);
            lemma_condition_tokens(s, 14, end, name, rel);
            assert(tokens(s) =~= link_tokens(as_of, end, name, rel));
        },
        Some(n) => {
            let digits = decimal(n as nat);
            let time = " AS OF "@;
            lemma_decimal(n as nat);
            assert(from + time =~= "FROM __links__ AS OF "@) by {
                reveal_strlit("FROM __links__ AS OF ");
                reveal_strlit(" AS OF ");
            }
            reveal_strlit(" AS OF ");
            lemma_query_end(as_of, end, name, rel, from + time + digits);
            lemma_parts_stand(s, 0, from + time + digits, tail);
            lemma_parts_stand(s, 0, from + time, digits);
            lemma_parts_stand(s, 0, from, time);
            lemma_char_stands(s, 14, time, 0);
            lemma_char_stands(s, 21int + digits.len(), tail, 0);
            lemma_from_links(s);
            lemma_as_of_tokens(s, digits);
            lemma_condition_tokens(s, 21int + digits.len(), end, name, rel);
            assert(tokens(s) =~= link_tokens(as_of, end, name, rel));
        },
    }
}

proof fn lemma_no_dots(s: Seq<char>)
    requires
        all_digits(s),
    ensures
        dots(s) == 0,
    decreases s.len(),
{
    if s.len() > 0 {
        assert(ascii_digit(s[s.len() - 1]));
        assert forall|i: int| 0 <= i < s.drop_last().len() implies ascii_digit(
            #[trigger] s.drop_last()[i],
        ) by {
            assert(ascii_digit(s[i]));
        }
        lemma_no_dots(s.drop_last());
    }
}

/// The number of a write that a query names in decimal is that number, as long
/// as it has at most 53 bits.
pub proof fn lemma_number_named(n: u64)
    requires
        n < 2 * EXPONENT_UNIT,
    ensures
        number_cut(decimal(n as nat)) == n,
{
    let digits = decimal(n as nat);
    lemma_decimal(n as nat);
    lemma_no_dots(digits);
    lemma_decimal_len(n);
    lemma_truncated_integer(n as nat);
    assert(float_bits(digits) == Some(crate::double::integer_bits(n as nat)));
}

/// The query for links, read.
pub open spec fn link_search(
    as_of: Option<u64>,
    end: Seq<char>,
    name: Seq<char>,
    rel: Seq<char>,
) -> QueryV {
    QueryV {
        as_of,
        wheres: seq![
            WhereV { field: end, op: seq!['='], value: Json::Text(name) },
            WhereV { field: "_rel"@, op: seq!['='], value: Json::Text(rel) },
        ],
        ..all_of("__links__"@)
    }
}

/// The query for links is read as it is meant, where the names have no quotes
/// in them.
pub proof fn lemma_link_query(as_of: Option<u64>, end: Seq<char>, name: Seq<char>, rel: Seq<char>)
    requires
        is_end(end),
        unquotable(name),
        unquotable(rel),
        as_of matches Some(n) ==> n < 2 * EXPONENT_UNIT,
    ensures
        parsed(link_query(as_of, end, name, rel)) == Ok::<QueryV, crate::parser::Fault>(
            link_search(as_of, end, name, rel),
        ),
{
    lemma_link_tokens(as_of, end, name, rel);
    let ts = tokens(link_query(as_of, end, name, rel));
    let q0 = all_of("__links__"@);
    let want = link_search(as_of, end, name, rel);
    let p: int = match as_of {
        Some(_) => 5,
        None => 2,
    };
    let q1 = QueryV { as_of, ..q0 };
    reveal_strlit("AS");
    reveal_strlit("OF");
    reveal_strlit("VALID");
    reveal_strlit("WHERE");
    if let Some(n) = as_of {
        lemma_number_named(n);
        assert(clause(ts, 2, q0) == Ok::<(QueryV, int), crate::parser::Fault>((q1, 5)));
        assert(clauses(ts, 2, q0) == clauses(ts, 5, q1));
    } else {
        assert(q1 == q0);
    }
    assert(ts.len() == p + 8);
    let w1 = seq![WhereV { field: end, op: seq!['='], value: Json::Text(name) }];
    assert(tok_at(ts, p) == TokV::Kw("WHERE"@));
    assert(tok_at(ts, p + 1) == TokV::Ident(end));
    assert(tok_at(ts, p + 2) == TokV::Op(seq!['=']));
    assert(tok_at(ts, p + 3) == TokV::Str(name));
    assert(tok_at(ts, p + 4) == TokV::Kw("AND"@));
    assert(tok_at(ts, p + 5) == TokV::Ident("_rel"@));
    assert(tok_at(ts, p + 6) == TokV::Op(seq!['=']));
    assert(tok_at(ts, p + 7) == TokV::Str(rel));
    assert(tok_at(ts, p + 8) == TokV::Eof);
    assert(q1.wheres.push(w1[0]) =~= w1);
    assert(w1.push(want.wheres[1]) =~= want.wheres);
    assert(conditions(ts, p + 5, w1) == Ok::<(Seq<WhereV>, int), crate::parser::Fault>(
        (want.wheres, p + 8),
    ));
    assert(conditions(ts, p + 1, q1.wheres) == conditions(ts, p + 5, w1));
    assert("WHERE"@[0] != "VALID"@[0]);
    assert((QueryV { wheres: want.wheres, ..q1 }) == want);
    assert(clause(ts, p, q1) == Ok::<(QueryV, int), crate::parser::Fault>((want, p + 8)));
    assert(clauses(ts, p + 8, want) == Ok::<QueryV, crate::parser::Fault>(want));
    assert(clauses(ts, p, q1) == clauses(ts, p + 8, want));
}

/// Whether a version is the document of a link.
pub open spec fn is_link(n: NodeV, from: Seq<char>, rel: Seq<char>, to: Seq<char>) -> bool {
    &&& json_get(n.data, "_from"@) == Some(Json::Text(from))
    &&& json_get(n.data, "_rel"@) == Some(Json::Text(rel))
    &&& json_get(n.data, "_to"@) == Some(Json::Text(to))
}

/// Whether a current version, under some id, is the document of a link.
pub open spec fn is_linked(v: DbV, from: Seq<char>, rel: Seq<char>, to: Seq<char>) -> bool {
    exists|id: Seq<char>|
        (#[trigger] current(v, "__links__"@, id)) matches Some(n) && is_link(n, from, rel, to)
}

/// Whether a version that was current at a write is the document of a link.
pub open spec fn was_linked(
    v: DbV,
    seq: u64,
    from: Seq<char>,
    rel: Seq<char>,
    to: Seq<char>,
) -> bool {
    exists|id: Seq<char>|
        (#[trigger] as_of(v, "__links__"@, id, seq)) matches Some(n) && is_link(n, from, rel, to)
}

proof fn lemma_texts_under(rows: Seq<Json>, key: Seq<char>, t: Seq<char>)
    ensures
        texts_under(rows, key).contains(t) <==> exists|i: int|
            0 <= i < rows.len() && json_get(#[trigger] rows[i], key) == Some(Json::Text(t)),
    decreases rows.len(),
{
    let all = texts_under(rows, key);
    if rows.len() > 0 {
        let head = rows.drop_last();
        let before = texts_under(head, key);
        let last = json_get(rows.last(), key);
        lemma_texts_under(head, key, t);
        assert(rows[rows.len() - 1] == rows.last());
        if before.contains(t) {
            let i = choose|i: int|
                0 <= i < head.len() && json_get(#[trigger] head[i], key) == Some(Json::Text(t));
            assert(rows[i] == head[i]);
            let k = choose|k: int| 0 <= k < before.len() && before[k] == t;
            assert(all[k] == t);
        }
        if last == Some(Json::Text(t)) {
            assert(all[all.len() - 1] == t);
        }
        if all.contains(t) && !before.contains(t) {
            let k = choose|k: int| 0 <= k < all.len() && all[k] == t;
            if k < before.len() {
                assert(before[k] == t);
            }
        }
        if exists|i: int|
            0 <= i < rows.len() && json_get(#[trigger] rows[i], key) == Some(Json::Text(t)) {
            let i = choose|i: int|
                0 <= i < rows.len() && json_get(#[trigger] rows[i], key) == Some(Json::Text(t));
            if i < head.len() {
                assert(head[i] == rows[i]);
            }
        }
    } else {
        assert(!all.contains(t));
    }
}

proof fn lemma_other_field(
    fields: Seq<(Seq<char>, Json)>,
    key: Seq<char>,
    value: Json,
    other: Seq<char>,
)
    requires
        other != key,
    ensures
        field_of(field_set(fields, key, value), other) == field_of(fields, other),
    decreases fields.len(),
{
    let set = field_set(fields, key, value);
    if fields.len() > 0 {
        crate::text::lemma_text_order(key, fields[0].0);
        match crate::text::text_order(key, fields[0].0) {
            crate::text::Order::Less => {
                assert(set.drop_first() =~= fields);
            },
            crate::text::Order::Equal => {
                assert(set.drop_first() =~= fields.drop_first());
            },
            crate::text::Order::Greater => {
                lemma_other_field(fields.drop_first(), key, value, other);
                assert(set.drop_first() =~= field_set(fields.drop_first(), key, value));
                assert(set[0] == fields[0]);
            },
        }
    } else {
        reveal_with_fuel(field_of, 2);
        assert(set.drop_first() =~= Seq::empty());
    }
}

/// The row of a version has the fields of a link as the document has them.
proof fn lemma_row_field(n: NodeV, key: Seq<char>)
    requires
        is_end(key),
    ensures
        json_get(node_row(n), key) == json_get(n.data, key),
{
    reveal_strlit("_from");
    reveal_strlit("_to");
    reveal_strlit("_id");
    reveal_strlit("_hash");
    reveal_strlit("_seq");
    reveal_strlit("_coll");
    reveal_strlit("_valid_from");
    reveal_strlit("_valid_to");
    reveal_strlit("_caused_by");
    assert("_from"@[1] == 'f' && "_to"@[1] == 't');
    assert("_id"@[1] == 'i' && "_hash"@[1] == 'h' && "_seq"@[1] == 's' && "_coll"@[1] == 'c');
    assert("_valid_from"@[1] == 'v' && "_valid_to"@[1] == 'v' && "_caused_by"@[1] == 'c');
    let fields = doc_fields(n.data);
    let a = field_set(fields, "_id"@, Json::Text(n.id));
    let b = field_set(a, "_hash"@, Json::Text(n.hash));
    let c = field_set(b, "_seq"@, Json::Number(Num::Int(n.seq as int)));
    let d = field_set(c, "_coll"@, Json::Text(n.coll));
    lemma_other_field(fields, "_id"@, Json::Text(n.id), key);
    lemma_other_field(a, "_hash"@, Json::Text(n.hash), key);
    lemma_other_field(b, "_seq"@, Json::Number(Num::Int(n.seq as int)), key);
    lemma_other_field(c, "_coll"@, Json::Text(n.coll), key);
    let e = match n.valid_from {
        Some(t) => field_set(d, "_valid_from"@, Json::Text(t)),
        None => d,
    };
    if let Some(t) = n.valid_from {
        lemma_other_field(d, "_valid_from"@, Json::Text(t), key);
    }
    let f = match n.valid_to {
        Some(t) => field_set(e, "_valid_to"@, Json::Text(t)),
        None => e,
    };
    if let Some(t) = n.valid_to {
        lemma_other_field(e, "_valid_to"@, Json::Text(t), key);
    }
    lemma_other_field(f, "_caused_by"@, texts_json(n.caused_by), key);
}

/// A condition that a field of a link has a text is met by just those versions
/// whose document has it.
proof fn lemma_condition(n: NodeV, field: Seq<char>, text: Seq<char>)
    requires
        is_end(field) || field == "_rel"@,
    ensures
        where_holds(n, (WhereV { field, op: seq!['='], value: Json::Text(text) })) <==> json_get(
            n.data,
            field,
        ) == Some(Json::Text(text)),
{
    reveal_strlit("=");
    reveal_strlit("_from");
    reveal_strlit("_to");
    reveal_strlit("_rel");
    reveal_strlit("_id");
    reveal_strlit("_coll");
    reveal_strlit("_hash");
    assert(seq!['='] =~= "="@);
    assert("_from"@[1] == 'f' && "_to"@[1] == 't' && "_rel"@[1] == 'r');
    assert("_id"@[1] == 'i' && "_hash"@[1] == 'h' && "_coll"@[1] == 'c');
    let j = match json_get(n.data, field) {
        Some(j) => j,
        None => Json::Null,
    };
    assert(key_of(Json::Text(text)) == Key::Str(text));
    assert(key_equal(key_of(j), Key::Str(text)) <==> j == Json::Text(text));
}

/// The other ends that are found are those of the links among the versions
/// that the query looks at.
proof fn lemma_ends_found(
    v: DbV,
    as_of: Option<u64>,
    end: Seq<char>,
    name: Seq<char>,
    rel: Seq<char>,
    other: Seq<char>,
    x: Seq<char>,
)
    requires
        is_end(end),
        is_end(other),
        unquotable(name),
        unquotable(rel),
        as_of matches Some(n) ==> n < 2 * EXPONENT_UNIT,
    ensures
        other_ends(v, link_query(as_of, end, name, rel), other).contains(x) <==> exists|n: NodeV|
            {
                &&& #[trigger] candidates(v, link_search(as_of, end, name, rel)).contains(n)
                &&& json_get(n.data, end) == Some(Json::Text(name))
                &&& json_get(n.data, "_rel"@) == Some(Json::Text(rel))
                &&& json_get(n.data, other) == Some(Json::Text(x))
            },
{
    let q = link_search(as_of, end, name, rel);
    lemma_link_query(as_of, end, name, rel);
    let ns = result_nodes(v, q);
    let rows = ns.map_values(|n: NodeV| node_row(n));
    assert(answer_of(v, q) == AnswerV::Rows(rows));
    lemma_texts_under(rows, other, x);
    assert forall|n: NodeV| #[trigger] selected(n, q) <==> json_get(n.data, end) == Some(
        Json::Text(name),
    ) && json_get(n.data, "_rel"@) == Some(Json::Text(rel)) by {
        lemma_condition(n, end, name);
        lemma_condition(n, "_rel"@, rel);
        assert(q.wheres[0] == (WhereV { field: end, op: seq!['='], value: Json::Text(name) }));
        assert(q.wheres[1] == (WhereV { field: "_rel"@, op: seq!['='], value: Json::Text(rel) }));
    }
    if texts_under(rows, other).contains(x) {
        let i = choose|i: int|
            0 <= i < rows.len() && json_get(#[trigger] rows[i], other) == Some(Json::Text(x));
        let n = ns[i];
        assert(rows[i] == node_row(n));
        lemma_row_field(n, other);
        assert(ns.contains(n));
        lemma_query_finds(v, q, n);
        assert(candidates(v, q).contains(n));
        assert(selected(n, q));
    }
    if exists|n: NodeV|
        {
            &&& #[trigger] candidates(v, q).contains(n)
            &&& json_get(n.data, end) == Some(Json::Text(name))
            &&& json_get(n.data, "_rel"@) == Some(Json::Text(rel))
            &&& json_get(n.data, other) == Some(Json::Text(x))
        } {
        let n = choose|n: NodeV|
            {
                &&& #[trigger] candidates(v, q).contains(n)
                &&& json_get(n.data, end) == Some(Json::Text(name))
                &&& json_get(n.data, "_rel"@) == Some(Json::Text(rel))
                &&& json_get(n.data, other) == Some(Json::Text(x))
            };
        assert(selected(n, q));
        lemma_query_finds(v, q, n);
        let i = choose|i: int| 0 <= i < ns.len() && ns[i] == n;
        assert(rows[i] == node_row(n));
        lemma_row_field(n, other);
    }
}

/// Links are found from both ends, and nothing else is: a name is among the
/// neighbors of another, or the other among those it is a neighbor of, just
/// where a document links them. Names with quotes in them cannot be asked for.
pub proof fn lemma_links_found(v: DbV, from: Seq<char>, rel: Seq<char>, to: Seq<char>)
    requires
        id_wf(v.ids),
        unquotable(rel),
    ensures
        unquotable(from) ==> (other_ends(
            v,
            link_query(None, "_from"@, from, rel),
            "_to"@,
        ).contains(to) <==> is_linked(v, from, rel, to)),
        unquotable(to) ==> (other_ends(
            v,
            link_query(None, "_to"@, to, rel),
            "_from"@,
        ).contains(from) <==> is_linked(v, from, rel, to)),
{
    let coll = "__links__"@;
    let ids = ids_in(v.ids, coll);
    assert forall|n: NodeV| #[trigger] listed_links(v).contains(n) <==> exists|i: Seq<char>|
        #[trigger] current(v, coll, i) == Some(n) by {
        lemma_lists_current(v, coll, ids, n);
        if exists|i: Seq<char>| #[trigger] current(v, coll, i) == Some(n) {
            let i = choose|i: Seq<char>| #[trigger] current(v, coll, i) == Some(n);
            assert(v.ids.docs.contains_key((coll, i)));
            assert(ids.contains(i));
        }
    }
    if unquotable(from) {
        lemma_ends_found(v, None, "_from"@, from, rel, "_to"@, to);
        assert(candidates(v, link_search(None, "_from"@, from, rel)) == listed_links(v));
        if is_linked(v, from, rel, to) {
            let id = choose|id: Seq<char>|
                (#[trigger] current(v, coll, id)) matches Some(n) && is_link(n, from, rel, to);
            assert(listed_links(v).contains(current(v, coll, id)->0));
        }
    }
    if unquotable(to) {
        lemma_ends_found(v, None, "_to"@, to, rel, "_from"@, from);
        assert(candidates(v, link_search(None, "_to"@, to, rel)) == listed_links(v));
        if is_linked(v, from, rel, to) {
            let id = choose|id: Seq<char>|
                (#[trigger] current(v, coll, id)) matches Some(n) && is_link(n, from, rel, to);
            assert(listed_links(v).contains(current(v, coll, id)->0));
        }
    }
}

spec fn listed_links(v: DbV) -> Seq<NodeV> {
    crate::db::listed(v, "__links__"@, ids_in(v.ids, "__links__"@))
}

spec fn links_as_of(v: DbV, seq: u64) -> Seq<NodeV> {
    crate::db::all_as_of(
        v,
        "__links__"@,
        crate::db::known_ids(v, "__links__"@, seq),
        seq,
    )
}

/// Links time-travel: as of a write, names are found just where a document
/// linked them then, whether or not it was deleted since. The number of the
/// write has at most 53 bits.
pub proof fn lemma_links_found_as_of(
    v: DbV,
    seq: u64,
    from: Seq<char>,
    rel: Seq<char>,
    to: Seq<char>,
)
    requires
        lists_all(v),
        unquotable(rel),
        seq < 2 * EXPONENT_UNIT,
    ensures
        unquotable(from) ==> (other_ends(
            v,
            link_query(Some(seq), "_from"@, from, rel),
            "_to"@,
        ).contains(to) <==> was_linked(v, seq, from, rel, to)),
        unquotable(to) ==> (other_ends(
            v,
            link_query(Some(seq), "_to"@, to, rel),
            "_from"@,
        ).contains(from) <==> was_linked(v, seq, from, rel, to)),
{
    let coll = "__links__"@;
    assert forall|n: NodeV| #[trigger] links_as_of(v, seq).contains(n) <==> exists|i: Seq<char>|
        #[trigger] as_of(v, coll, i, seq) == Some(n) by {
        lemma_lists_as_of(v, coll, seq, n);
    }
    if unquotable(from) {
        lemma_ends_found(v, Some(seq), "_from"@, from, rel, "_to"@, to);
        assert(candidates(v, link_search(Some(seq), "_from"@, from, rel)) == links_as_of(v, seq));
        if was_linked(v, seq, from, rel, to) {
            let id = choose|id: Seq<char>|
                (#[trigger] as_of(v, coll, id, seq)) matches Some(n) && is_link(n, from, rel, to);
            assert(links_as_of(v, seq).contains(as_of(v, coll, id, seq)->0));
        }
    }
    if unquotable(to) {
        lemma_ends_found(v, Some(seq), "_to"@, to, rel, "_from"@, from);
        assert(candidates(v, link_search(Some(seq), "_to"@, to, rel)) == links_as_of(v, seq));
        if was_linked(v, seq, from, rel, to) {
            let id = choose|id: Seq<char>|
                (#[trigger] as_of(v, coll, id, seq)) matches Some(n) && is_link(n, from, rel, to);
            assert(links_as_of(v, seq).contains(as_of(v, coll, id, seq)->0));
        }
    }
}

/// Two names that were linked are linked.
pub proof fn lemma_linked(
    v: DbV,
    from: Seq<char>,
    rel: Seq<char>,
    to: Seq<char>,
    ts: Num,
    hash: Seq<char>,
    w: DbV,
)
    requires
        put_done(v, link_version(v, from, rel, to, ts), hash, w),
        undamaged(v.objects, hash),
        storable(link_version(v, from, rel, to, ts)),
        !clash(v.objects, link_version(v, from, rel, to, ts), hash),
        v.seq < u64::MAX,
    ensures
        is_linked(w, from, rel, to),
{
    let n = link_version(v, from, rel, to, ts);
    lemma_put_then_get(v, n, hash, w);
    reveal_strlit("_from");
    reveal_strlit("_rel");
    reveal_strlit("_to");
    assert("_from"@[1] == 'f' && "_rel"@[1] == 'r' && "_to"@[1] == 't');
    let fields = seq![
        ("_from"@, Json::Text(from)),
        ("_rel"@, Json::Text(rel)),
        ("_to"@, Json::Text(to)),
    ];
    lemma_by_key(fields);
    assert(fields[0].0 == "_from"@ && fields[1].0 == "_rel"@ && fields[2].0 == "_to"@);
    let m = NodeV { hash, ..n };
    assert(is_link(m, from, rel, to));
    assert(current(w, "__links__"@, link_id(from, rel, to)) == Some(m));
}

/// Two names whose link was taken away are linked only where another document
/// links them too.
pub proof fn lemma_unlinked(
    v: DbV,
    from: Seq<char>,
    rel: Seq<char>,
    to: Seq<char>,
    ts: Num,
    w: DbV,
)
    requires
        delete_outcome(
            v,
            "__links__"@,
            link_id(from, rel, to),
            ts,
            Ok::<bool, StoreError>(true),
            w,
        ),
        id_wf(v.ids),
    ensures
        is_linked(w, from, rel, to) ==> exists|id: Seq<char>|
            id != link_id(from, rel, to) && ((#[trigger] current(w, "__links__"@, id)) matches Some(
                n,
            ) && is_link(n, from, rel, to)),
{
    lemma_deleted(v, "__links__"@, link_id(from, rel, to), ts, w);
}

} // verus!
