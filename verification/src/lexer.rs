//! The words of a query.

use vstd::prelude::*;
use crate::text::{
    alphabetic, alphanumeric, ascii_digit, chars_of, same_text, text_of, uppercase, whitespace,
};

verus! {

/// A word of a query.
#[derive(Debug)]
pub enum Tok {
    /// A keyword, in upper case.
    Kw(String),
    /// A name.
    Ident(String),
    /// A text between quotes.
    Str(String),
    /// A number, as it is written.
    Num(String),
    /// A comparison.
    Op(String),
    /// The end of the query.
    Eof,
}

/// What a word of a query is.
pub enum TokV {
    Kw(Seq<char>),
    Ident(Seq<char>),
    Str(Seq<char>),
    Num(Seq<char>),
    Op(Seq<char>),
    Eof,
}

impl View for Tok {
    type V = TokV;

    open spec fn view(&self) -> TokV {
        match self {
            Tok::Kw(s) => TokV::Kw(s@),
            Tok::Ident(s) => TokV::Ident(s@),
            Tok::Str(s) => TokV::Str(s@),
            Tok::Num(s) => TokV::Num(s@),
            Tok::Op(s) => TokV::Op(s@),
            Tok::Eof => TokV::Eof,
        }
    }
}

impl Clone for Tok {
    fn clone(&self) -> (r: Tok)
        ensures
            r@ == self@,
    {
        match self {
            Tok::Kw(s) => Tok::Kw(s.clone()),
            Tok::Ident(s) => Tok::Ident(s.clone()),
            Tok::Str(s) => Tok::Str(s.clone()),
            Tok::Num(s) => Tok::Num(s.clone()),
            Tok::Op(s) => Tok::Op(s.clone()),
            Tok::Eof => Tok::Eof,
        }
    }
}

pub open spec fn toks_view(v: Seq<Tok>) -> Seq<TokV> {
    v.map_values(|t: Tok| t@)
}

/// The words that are keywords.
pub open spec fn keyword(s: Seq<char>) -> bool {
    s == "FROM"@ || s == "AS"@ || s == "OF"@ || s == "VALID"@ || s == "WHERE"@ || s == "AND"@ || s
        == "ORDER"@ || s == "BY"@ || s == "DESC"@ || s == "LIMIT"@ || s == "GROUP"@ || s
        == "COUNT"@ || s == "SUM"@ || s == "AVG"@ || s == "MIN"@ || s == "MAX"@ || s == "TRACE"@
        || s == "REVERSE"@ || s == "SEARCH"@ || s == "NOT"@ || s == "NULL"@ || s == "TRUE"@ || s
        == "FALSE"@
}

fn is_keyword(s: &str) -> (r: bool)
    ensures
        r == keyword(s@),
{
    same_text(s, "FROM") || same_text(s, "AS") || same_text(s, "OF") || same_text(s, "VALID")
        || same_text(s, "WHERE") || same_text(s, "AND") || same_text(s, "ORDER") || same_text(
        s,
        "BY",
    ) || same_text(s, "DESC") || same_text(s, "LIMIT") || same_text(s, "GROUP") || same_text(
        s,
        "COUNT",
    ) || same_text(s, "SUM") || same_text(s, "AVG") || same_text(s, "MIN") || same_text(s, "MAX")
        || same_text(s, "TRACE") || same_text(s, "REVERSE") || same_text(s, "SEARCH") || same_text(
        s,
        "NOT",
    ) || same_text(s, "NULL") || same_text(s, "TRUE") || same_text(s, "FALSE")
}

/// Where the white space from `pos` on ends.
pub open spec fn space_end(s: Seq<char>, pos: int) -> int
    decreases s.len() - pos,
{
    if 0 <= pos < s.len() && whitespace(s[pos]) {
        space_end(s, pos + 1)
    } else {
        pos
    }
}

/// Where the quoted text from `pos` on ends: at the next quote, or at the end.
pub open spec fn quote_end(s: Seq<char>, pos: int) -> int
    decreases s.len() - pos,
{
    if 0 <= pos < s.len() && s[pos] != '"' {
        quote_end(s, pos + 1)
    } else {
        pos
    }
}

/// Where the digits and dots from `pos` on end.
pub open spec fn digits_end(s: Seq<char>, pos: int) -> int
    decreases s.len() - pos,
{
    if 0 <= pos < s.len() && (ascii_digit(s[pos]) || s[pos] == '.') {
        digits_end(s, pos + 1)
    } else {
        pos
    }
}

/// The characters of a name behind its first.
pub open spec fn name_char(c: char) -> bool {
    alphanumeric(c) || c == '_' || c == '.' || c == ':'
}

/// Where the name from `pos` on ends.
pub open spec fn name_end(s: Seq<char>, pos: int) -> int
    decreases s.len() - pos,
{
    if 0 <= pos < s.len() && name_char(s[pos]) {
        name_end(s, pos + 1)
    } else {
        pos
    }
}

/// Whether a comparison of two characters stands at `p`.
pub open spec fn long_op(s: Seq<char>, p: int) -> bool {
    p + 1 < s.len() && s[p + 1] == '=' && (s[p] == '!' || s[p] == '>' || s[p] == '<')
}

/// Whether a comparison of one character stands at `p`.
pub open spec fn short_op(c: char) -> bool {
    c == '=' || c == '>' || c == '<'
}

/// Whether a number starts at `p`.
pub open spec fn number_start(s: Seq<char>, p: int) -> bool {
    ascii_digit(s[p]) || (s[p] == '-' && p + 1 < s.len() && ascii_digit(s[p + 1]))
}

/// A word as a keyword, in whatever case it is written, or else as a name.
pub open spec fn word_token(word: Seq<char>) -> TokV {
    if keyword(uppercase(word)) {
        TokV::Kw(uppercase(word))
    } else {
        TokV::Ident(word)
    }
}

/// The next word from `pos` on, and where it ends. Characters that start no
/// word are passed over.
pub open spec fn next_token(s: Seq<char>, pos: int) -> (TokV, int)
    decreases s.len() - pos,
{
    let p = space_end(s, pos);
    if p < pos || p >= s.len() {
        (TokV::Eof, p)
    } else if s[p] == '"' {
        let e = quote_end(s, p + 1);
        (
            TokV::Str(s.subrange(p + 1, e)),
            if e < s.len() {
                e + 1
            } else {
                e
            },
        )
    } else if long_op(s, p) {
        (TokV::Op(s.subrange(p, p + 2)), p + 2)
    } else if short_op(s[p]) {
        (TokV::Op(seq![s[p]]), p + 1)
    } else if number_start(s, p) {
        let e = digits_end(s, p + 1);
        (TokV::Num(s.subrange(p, e)), e)
    } else if alphabetic(s[p]) || s[p] == '_' {
        let e = name_end(s, p + 1);
        (word_token(s.subrange(p, e)), e)
    } else {
        next_token(s, p + 1)
    }
}

/// The words from `pos` on.
pub open spec fn tokens_from(s: Seq<char>, pos: int) -> Seq<TokV>
    decreases s.len() - pos,
{
    let (t, p) = next_token(s, pos);
    if t is Eof || !(pos < p <= s.len()) {
        Seq::empty()
    } else {
        seq![t] + tokens_from(s, p)
    }
}

/// The words of a query.
pub open spec fn tokens(s: Seq<char>) -> Seq<TokV> {
    tokens_from(s, 0)
}

proof fn lemma_ends(s: Seq<char>, pos: int)
    requires
        0 <= pos <= s.len(),
    ensures
        pos <= space_end(s, pos) <= s.len(),
        pos <= quote_end(s, pos) <= s.len(),
        pos <= digits_end(s, pos) <= s.len(),
        pos <= name_end(s, pos) <= s.len(),
    decreases s.len() - pos,
{
    if pos < s.len() {
        lemma_ends(s, pos + 1);
    }
}

/// A query read word by word.
struct Lexer {
    src: Vec<char>,
    pos: usize,
}

impl Lexer {
    spec fn wf(&self) -> bool {
        self.pos <= self.src@.len()
    }

    fn new(src: &str) -> (r: Lexer)
        ensures
            r.wf(),
            r.src@ == src@,
            r.pos == 0,
    {
        Lexer { src: chars_of(src), pos: 0 }
    }

    fn peek_char(&self) -> (r: Option<char>)
        ensures
            r == if self.pos < self.src@.len() {
                Some(self.src@[self.pos as int])
            } else {
                None
            },
            r is Some ==> self.pos < usize::MAX,
    {
        if self.pos < self.src.len() {
            Some(self.src[self.pos])
        } else {
            None
        }
    }

    fn skip_ws(&mut self)
        requires
            old(self).wf(),
        ensures
            final(self).wf(),
            final(self).src@ == old(self).src@,
            final(self).pos == space_end(old(self).src@, old(self).pos as int),
    {
        let ghost s = self.src@;
        let ghost from = self.pos as int;
        while self.pos < self.src.len() && self.src[self.pos].is_whitespace()
            invariant
                self.src@ == s,
                self.pos <= s.len(),
                space_end(s, from) == space_end(s, self.pos as int),
            decreases s.len() - self.pos,
        {
            self.pos = self.pos + 1;
        }
    }

    fn skip_quoted(&mut self)
        requires
            old(self).wf(),
        ensures
            final(self).wf(),
            final(self).src@ == old(self).src@,
            final(self).pos == quote_end(old(self).src@, old(self).pos as int),
    {
        let ghost s = self.src@;
        let ghost from = self.pos as int;
        while self.pos < self.src.len() && self.src[self.pos] != '"'
            invariant
                self.src@ == s,
                self.pos <= s.len(),
                quote_end(s, from) == quote_end(s, self.pos as int),
            decreases s.len() - self.pos,
        {
            self.pos = self.pos + 1;
        }
    }

    fn skip_digits(&mut self)
        requires
            old(self).wf(),
        ensures
            final(self).wf(),
            final(self).src@ == old(self).src@,
            final(self).pos == digits_end(old(self).src@, old(self).pos as int),
    {
        let ghost s = self.src@;
        let ghost from = self.pos as int;
        while self.pos < self.src.len() && (is_digit(self.src[self.pos]) || self.src[self.pos]
            == '.')
            invariant
                self.src@ == s,
                self.pos <= s.len(),
                digits_end(s, from) == digits_end(s, self.pos as int),
            decreases s.len() - self.pos,
        {
            self.pos = self.pos + 1;
        }
    }

    fn skip_name(&mut self)
        requires
            old(self).wf(),
        ensures
            final(self).wf(),
            final(self).src@ == old(self).src@,
            final(self).pos == name_end(old(self).src@, old(self).pos as int),
    {
        let ghost s = self.src@;
        let ghost from = self.pos as int;
        while self.pos < self.src.len() && is_name_char(self.src[self.pos])
            invariant
                self.src@ == s,
                self.pos <= s.len(),
                name_end(s, from) == name_end(s, self.pos as int),
            decreases s.len() - self.pos,
        {
            self.pos = self.pos + 1;
        }
    }

    fn next_tok(&mut self) -> (r: Tok)
        requires
            old(self).wf(),
        ensures
            final(self).wf(),
            final(self).src@ == old(self).src@,
            next_token(old(self).src@, old(self).pos as int) == (r@, final(self).pos as int),
            final(self).pos >= old(self).pos,
            !(r@ is Eof) ==> final(self).pos > old(self).pos,
    {
        let ghost s = self.src@;
        let ghost from = self.pos as int;
        loop
            invariant
                self.wf(),
                self.src@ == s,
                s == old(self).src@,
                from == old(self).pos,
                from <= self.pos,
                next_token(s, from) == next_token(s, self.pos as int),
            decreases s.len() - self.pos,
        {
            proof {
                lemma_ends(s, self.pos as int);
            }
            self.skip_ws();
            let c = match self.peek_char() {
                Some(c) => c,
                None => {
                    return Tok::Eof;
                },
            };
            let start = self.pos;
            proof {
                lemma_ends(s, start + 1);
            }
            if c == '"' {
                self.pos = start + 1;
                self.skip_quoted();
                let end = self.pos;
                let text = text_of(&self.src, start + 1, end);
                if end < self.src.len() {
                    self.pos = end + 1;
                }
                return Tok::Str(text);
            }
            if start < self.src.len() - 1 && self.src[start + 1] == '=' && (c == '!' || c == '>'
                || c == '<') {
                self.pos = start + 2;
                return Tok::Op(text_of(&self.src, start, start + 2));
            }
            if c == '=' || c == '>' || c == '<' {
                self.pos = start + 1;
                let op = text_of(&self.src, start, start + 1);
                assert(op@ =~= seq![c]);
                return Tok::Op(op);
            }
            if is_digit(c) || (c == '-' && start < self.src.len() - 1 && is_digit(
                self.src[start + 1],
            )) {
                self.pos = start + 1;
                self.skip_digits();
                return Tok::Num(text_of(&self.src, start, self.pos));
            }
            if c.is_alphabetic() || c == '_' {
                self.pos = start + 1;
                self.skip_name();
                let word = text_of(&self.src, start, self.pos);
                let upper = word.as_str().to_uppercase();
                if is_keyword(upper.as_str()) {
                    return Tok::Kw(upper);
                }
                return Tok::Ident(word);
            }
            self.pos = start + 1;
        }
    }

    fn tokenize(&mut self) -> (r: Vec<Tok>)
        requires
            old(self).wf(),
            old(self).pos == 0,
        ensures
            toks_view(r@) == tokens(old(self).src@),
    {
        let ghost s = self.src@;
        let mut toks: Vec<Tok> = Vec::new();
        assert(toks_view(toks@) + tokens_from(s, 0) =~= tokens(s));
        loop
            invariant
                self.wf(),
                self.src@ == s,
                s == old(self).src@,
                tokens(s) == toks_view(toks@) + tokens_from(s, self.pos as int),
            decreases s.len() - self.pos,
        {
            let ghost at = self.pos as int;
            let ghost was = toks_view(toks@);
            let t = self.next_tok();
            if let Tok::Eof = t {
                assert(was + tokens_from(s, at) =~= was);
                return toks;
            }
            let ghost tv = t@;
            toks.push(t);
            proof {
                assert(toks_view(toks@) =~= was.push(tv));
                assert(was + (seq![tv] + tokens_from(s, self.pos as int)) =~= was.push(tv)
                    + tokens_from(s, self.pos as int));
            }
        }
    }
}

fn is_digit(c: char) -> (r: bool)
    ensures
        r == ascii_digit(c),
{
    '0' <= c && c <= '9'
}

fn is_name_char(c: char) -> (r: bool)
    ensures
        r == name_char(c),
{
    c.is_alphanumeric() || c == '_' || c == '.' || c == ':'
}

/// The words of a query.
pub fn tokenize(src: &str) -> (r: Vec<Tok>)
    ensures
        toks_view(r@) == tokens(src@),
{
    Lexer::new(src).tokenize()
}

} // verus!
