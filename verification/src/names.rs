//! The names of segment files.

use vstd::prelude::*;
#[allow(unused_imports)]
use vstd::string::StringExecFns;
use crate::text::{
    all_digits, ascii_digit, chars_of, decimal, decimal_text, digits_value, lemma_decimal,
    number_digits, number_value, parse_number, same_text, text_of,
};

verus! {

/// How many zeros go before a number, so that it has six digits.
pub open spec fn zeros(n: u32) -> nat {
    if decimal(n as nat).len() < 6 {
        (6 - decimal(n as nat).len()) as nat
    } else {
        0
    }
}

/// A number with at least six digits.
pub open spec fn six_digits(n: u32) -> Seq<char> {
    Seq::new(zeros(n), |i: int| '0') + decimal(n as nat)
}

/// The name of a segment.
pub open spec fn segment_file(id: u32) -> Seq<char> {
    "seg-"@ + six_digits(id) + ".dat"@
}

/// The name of the sidecar of a segment.
pub open spec fn sidecar_file(id: u32) -> Seq<char> {
    "seg-"@ + six_digits(id) + ".idx"@
}

/// The number of the segment that a file is, if it is one.
pub open spec fn segment_number(name: Seq<char>) -> Option<nat> {
    if name.len() >= 8 && name.take(4) == "seg-"@ && name.skip(name.len() - 4) == ".dat"@ {
        number_value(name.subrange(4, name.len() - 4), u32::MAX as nat)
    } else {
        None
    }
}

fn six_digit_text(n: u32) -> (r: String)
    ensures
        r@ == six_digits(n),
{
    let d = decimal_text(n as u64);
    let len: usize = chars_of(d.as_str()).len();
    let mut out = String::new();
    let mut i: usize = len;
    let ghost pad = Seq::new(zeros(n), |i: int| '0');
    while i < 6
        invariant
            len <= i,
            len < 6 ==> i <= 6,
            len >= 6 ==> i == len,
            len == decimal(n as nat).len(),
            pad == Seq::new(zeros(n), |i: int| '0'),
            out@ == pad.take(i - len),
        decreases 6 - i,
    {
        out.push('0');
        assert(out@ =~= pad.take(i + 1 - len));
        i = i + 1;
    }
    assert(out@ =~= pad);
    out.append(d.as_str());
    out
}

/// The name of a segment.
pub fn segment_name(id: u32) -> (r: String)
    ensures
        r@ == segment_file(id),
{
    let mut out = "seg-".to_owned();
    out.append(six_digit_text(id).as_str());
    out.append(".dat");
    out
}

/// The name of the sidecar of a segment.
pub fn sidecar_name(id: u32) -> (r: String)
    ensures
        r@ == sidecar_file(id),
{
    let mut out = "seg-".to_owned();
    out.append(six_digit_text(id).as_str());
    out.append(".idx");
    out
}

/// The number of the segment that a file is, if it is one.
pub fn segment_id(name: &str) -> (r: Option<u32>)
    ensures
        match r {
            Some(id) => segment_number(name@) == Some(id as nat),
            None => segment_number(name@) is None,
        },
{
    let c = chars_of(name);
    if c.len() < 8 {
        return None;
    }
    let front = text_of(&c, 0, 4);
    let back = text_of(&c, c.len() - 4, c.len());
    assert(front@ =~= name@.take(4));
    assert(back@ =~= name@.skip(name@.len() - 4));
    if !same_text(front.as_str(), "seg-") || !same_text(back.as_str(), ".dat") {
        return None;
    }
    match parse_number(text_of(&c, 4, c.len() - 4).as_str(), u32::MAX as u64) {
        Some(n) => Some(n as u32),
        None => None,
    }
}

proof fn lemma_leading_zeros(k: nat, s: Seq<char>)
    requires
        all_digits(s),
    ensures
        all_digits(Seq::new(k, |i: int| '0') + s),
        digits_value(Seq::new(k, |i: int| '0') + s) == digits_value(s),
    decreases k, s.len(),
{
    let pad = Seq::new(k, |i: int| '0');
    if s.len() == 0 {
        if k > 0 {
            lemma_leading_zeros((k - 1) as nat, s);
            assert((pad + s).drop_last() =~= Seq::new((k - 1) as nat, |i: int| '0') + s);
        } else {
            assert(pad + s =~= s);
        }
    } else {
        lemma_leading_zeros(k, s.drop_last());
        assert((pad + s).drop_last() =~= pad + s.drop_last());
    }
}

/// The number of a segment can be read back from its name. A sidecar is no
/// segment.
pub proof fn lemma_segment_name(id: u32)
    ensures
        segment_number(segment_file(id)) == Some(id as nat),
        segment_number(sidecar_file(id)) is None,
{
    reveal_strlit("seg-");
    reveal_strlit(".dat");
    reveal_strlit(".idx");
    lemma_decimal(id as nat);
    lemma_leading_zeros(zeros(id), decimal(id as nat));
    let digits = six_digits(id);
    let name = segment_file(id);
    assert(name.take(4) =~= "seg-"@);
    assert(name.skip(name.len() - 4) =~= ".dat"@);
    assert(name.subrange(4, name.len() - 4) =~= digits);
    assert(ascii_digit(digits[0]));
    assert(number_digits(digits) == digits);
    let other = sidecar_file(id);
    assert(other.skip(other.len() - 4) =~= ".idx"@);
    assert(".idx"@[1] != ".dat"@[1]);
}

} // verus!
