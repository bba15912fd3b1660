//! Document ids as file names.

use vstd::prelude::*;
use vstd::utf8::{
    decode_utf8, encode_utf8, is_ascii_chars, is_ascii_chars_encode_utf8, valid_utf8,
};
use crate::digest::{hex, hex_encode, hex_value};
use crate::text::{chars_of, text_from_utf8_lossy, utf8_lossy};

verus! {

/// The FNV-1a hash of a byte string, 32 bits wide.
pub open spec fn fnv1a(data: Seq<u8>) -> u32
    decreases data.len(),
{
    if data.len() == 0 {
        2166136261
    } else {
        (((fnv1a(data.drop_last()) ^ (data.last() as u32)) * 16777619) % 0x1_0000_0000) as u32
    }
}

/// The directory that the file of a document is in: the low byte of the hash
/// of its id, in hexadecimal.
pub open spec fn shard_of(id: Seq<char>) -> Seq<char> {
    hex(seq![(fnv1a(encode_utf8(id)) % 256) as u8])
}

/// The directory that the file of a document is in, one of 256.
pub fn id_shard(id: &str) -> (r: String)
    ensures
        r@ == shard_of(id@),
        r@.len() == 2,
{
    let bytes = id.as_bytes();
    let mut hash: u32 = 2166136261;
    let mut i: usize = 0;
    assert(bytes@.take(0) =~= Seq::<u8>::empty());
    while i < bytes.len()
        invariant
            i <= bytes.len(),
            hash == fnv1a(bytes@.take(i as int)),
        decreases bytes.len() - i,
    {
        assert(bytes@.take(i + 1).drop_last() =~= bytes@.take(i as int));
        let x: u32 = hash ^ (bytes[i] as u32);
        hash = ((x as u64 * 16777619) % 0x1_0000_0000) as u32;
        i = i + 1;
    }
    assert(bytes@.take(i as int) =~= bytes@);
    let low: Vec<u8> = vec![(hash % 256) as u8];
    assert(low@ =~= seq![(hash % 256) as u8]);
    hex_encode(low.as_slice())
}

/// The bytes that stand for themselves in a file name: ASCII letters and
/// digits, the hyphen, the underscore and the dot.
pub open spec fn unreserved(b: u8) -> bool {
    0x30 <= b <= 0x39 || 0x41 <= b <= 0x5a || 0x61 <= b <= 0x7a || b == 0x2d || b == 0x5f || b
        == 0x2e
}

/// The upper-case digit for a number below 16.
pub open spec fn upper_digit(d: int) -> char {
    if d < 10 {
        (('0' as int + d) as u32) as char
    } else {
        (('A' as int + d - 10) as u32) as char
    }
}

/// One byte in a file name.
pub open spec fn escaped(b: u8) -> Seq<char> {
    if unreserved(b) {
        seq![b as char]
    } else {
        seq!['%', upper_digit(b as int / 16), upper_digit(b as int % 16)]
    }
}

/// Bytes in a file name.
pub open spec fn escaped_all(b: Seq<u8>) -> Seq<char>
    decreases b.len(),
{
    if b.len() == 0 {
        Seq::empty()
    } else {
        escaped_all(b.drop_last()) + escaped(b.last())
    }
}

/// The file name of a document: the bytes of its id, those that may not stand
/// in a file name as a percent sign and two hexadecimal digits.
pub open spec fn id_name(id: Seq<char>) -> Seq<char> {
    escaped_all(encode_utf8(id))
}

fn is_unreserved(b: u8) -> (r: bool)
    ensures
        r == unreserved(b),
{
    (0x30 <= b && b <= 0x39) || (0x41 <= b && b <= 0x5a) || (0x61 <= b && b <= 0x7a) || b == 0x2d
        || b == 0x5f || b == 0x2e
}

fn upper_hex(d: u8) -> (r: char)
    requires
        d < 16,
    ensures
        r == upper_digit(d as int),
{
    if d < 10 {
        (48 + d) as char
    } else {
        (65 + (d - 10)) as char
    }
}

/// Characters that a file name of a document is made of.
pub open spec fn name_char(c: char) -> bool {
    c == '%' || ((c as int) < 128 && unreserved(c as u8))
}

proof fn lemma_escaped_all(b: Seq<u8>)
    ensures
        forall|i: int| 0 <= i < escaped_all(b).len() ==> name_char(#[trigger] escaped_all(b)[i]),
    decreases b.len(),
{
    if b.len() > 0 {
        lemma_escaped_all(b.drop_last());
        assert forall|i: int| 0 <= i < escaped_all(b).len() implies name_char(
            #[trigger] escaped_all(b)[i],
        ) by {
            let n = escaped_all(b.drop_last()).len();
            if i < n {
                assert(escaped_all(b)[i] == escaped_all(b.drop_last())[i]);
            } else {
                assert(escaped_all(b)[i] == escaped(b.last())[i - n]);
            }
        }
    }
}

/// The file name of a document.
pub fn encode_id(id: &str) -> (r: String)
    ensures
        r@ == id_name(id@),
        forall|i: int| 0 <= i < r@.len() ==> name_char(#[trigger] r@[i]),
{
    let bytes = id.as_bytes();
    let mut out = String::new();
    let mut i: usize = 0;
    while i < bytes.len()
        invariant
            i <= bytes.len(),
            out@ == escaped_all(bytes@.take(i as int)),
        decreases bytes.len() - i,
    {
        let b = bytes[i];
        assert(bytes@.take(i + 1).drop_last() =~= bytes@.take(i as int));
        let ghost was = out@;
        if is_unreserved(b) {
            out.push(b as char);
        } else {
            out.push('%');
            out.push(upper_hex(b / 16));
            out.push(upper_hex(b % 16));
        }
        assert(out@ =~= was + escaped(b));
        i = i + 1;
    }
    assert(bytes@.take(i as int) =~= bytes@);
    proof {
        lemma_escaped_all(bytes@);
    }
    out
}

/// The number that a pair of hexadecimal digits stands for.
pub open spec fn pair_value(hi: u8, lo: u8) -> Option<u8> {
    match (hex_value(hi as char), hex_value(lo as char)) {
        (Some(h), Some(l)) => Some((h * 16 + l) as u8),
        _ => None,
    }
}

/// The bytes that a file name stands for: a percent sign and two hexadecimal
/// digits are one byte, all others stand for themselves.
pub open spec fn unescaped(s: Seq<u8>) -> Seq<u8>
    decreases s.len(),
{
    if s.len() == 0 {
        Seq::empty()
    } else if s[0] == 0x25 && s.len() > 2 && pair_value(s[1], s[2]) is Some {
        seq![pair_value(s[1], s[2])->0] + unescaped(s.skip(3))
    } else {
        seq![s[0]] + unescaped(s.skip(1))
    }
}

/// The id that a file name stands for.
pub open spec fn name_id(name: Seq<char>) -> Seq<char> {
    if name.contains('%') {
        let b = unescaped(encode_utf8(name));
        if valid_utf8(b) {
            decode_utf8(b)
        } else {
            utf8_lossy(b)
        }
    } else {
        name
    }
}

/// ASCII text as bytes.
spec fn ascii_bytes(s: Seq<char>) -> Seq<u8> {
    s.map_values(|c: char| c as u8)
}

proof fn lemma_unescaped_step(b: u8, rest: Seq<char>)
    ensures
        unescaped(ascii_bytes(escaped(b) + rest)) == seq![b] + unescaped(ascii_bytes(rest)),
{
    let all = ascii_bytes(escaped(b) + rest);
    if unreserved(b) {
        assert(all[0] == b);
        assert(all.skip(1) =~= ascii_bytes(rest));
    } else {
        let hi = upper_digit(b as int / 16);
        let lo = upper_digit(b as int % 16);
        assert(all[0] == 0x25);
        assert(all[1] == hi as u8);
        assert(all[2] == lo as u8);
        assert(hex_value((hi as u8) as char) == Some(b as int / 16));
        assert(hex_value((lo as u8) as char) == Some(b as int % 16));
        assert(all.skip(3) =~= ascii_bytes(rest));
    }
}

proof fn lemma_unescaped_all(b: Seq<u8>, rest: Seq<char>)
    ensures
        unescaped(ascii_bytes(escaped_all(b) + rest)) == b + unescaped(ascii_bytes(rest)),
    decreases b.len(),
{
    if b.len() == 0 {
        assert(escaped_all(b) + rest =~= rest);
        assert(b + unescaped(ascii_bytes(rest)) =~= unescaped(ascii_bytes(rest)));
    } else {
        let head = b.drop_last();
        lemma_unescaped_all(head, escaped(b.last()) + rest);
        lemma_unescaped_step(b.last(), rest);
        assert(escaped_all(b) + rest =~= escaped_all(head) + (escaped(b.last()) + rest));
        assert(head + (seq![b.last()] + unescaped(ascii_bytes(rest))) =~= b + unescaped(
            ascii_bytes(rest),
        ));
    }
}

proof fn lemma_name_ascii(b: Seq<u8>)
    ensures
        is_ascii_chars(escaped_all(b)),
{
    lemma_escaped_all(b);
    let name = escaped_all(b);
    assert forall|i| 0 <= i < name.len() implies '\0' <= #[trigger] name[i] <= '\u{7f}' by {
        lemma_name_char(escaped_all(b)[i]);
    }
}

proof fn lemma_name_char(c: char)
    requires
        name_char(c),
    ensures
        '\0' <= c <= '\u{7f}',
{
}

/// The bytes that the file name of a document stands for are those of its id.
pub proof fn lemma_unescaped_name(id: Seq<char>)
    ensures
        unescaped(encode_utf8(id_name(id))) == encode_utf8(id),
{
    let b = encode_utf8(id);
    let name = id_name(id);
    lemma_name_ascii(b);
    is_ascii_chars_encode_utf8(name);
    assert(encode_utf8(name) =~= ascii_bytes(name));
    lemma_unescaped_all(b, Seq::empty());
    assert(escaped_all(b) + Seq::<char>::empty() =~= name);
    assert(b + unescaped(ascii_bytes(Seq::empty())) =~= b);
}

proof fn lemma_plain_name(b: Seq<u8>)
    requires
        !escaped_all(b).contains('%'),
    ensures
        ascii_bytes(escaped_all(b)) == b,
        escaped_all(b).len() == b.len(),
    decreases b.len(),
{
    if b.len() > 0 {
        let head = escaped_all(b.drop_last());
        let tail = escaped(b.last());
        assert(forall|i: int| 0 <= i < head.len() ==> escaped_all(b)[i] == head[i]);
        assert(escaped_all(b)[head.len() as int] == tail[0]);
        assert(tail[0] != '%') by {
            if tail[0] == '%' {
                assert(escaped_all(b).contains(escaped_all(b)[head.len() as int]));
            }
        }
        assert(unreserved(b.last()));
        lemma_plain_name(b.drop_last());
        assert(ascii_bytes(escaped_all(b)) =~= ascii_bytes(head).push(b.last()));
        assert(ascii_bytes(head).push(b.last()) =~= b);
    } else {
        assert(ascii_bytes(escaped_all(b)) =~= b);
    }
}

/// The file name of a document stands for the id of the document, so no two
/// documents of a collection have the same file.
pub proof fn lemma_name_round_trip(id: Seq<char>)
    ensures
        name_id(id_name(id)) == id,
{
    let name = id_name(id);
    if name.contains('%') {
        lemma_unescaped_name(id);
        vstd::utf8::encode_utf8_valid_utf8(id);
        vstd::utf8::encode_utf8_decode_utf8(id);
    } else {
        let b = encode_utf8(id);
        lemma_plain_name(b);
        lemma_name_ascii(b);
        is_ascii_chars_encode_utf8(name);
        assert(encode_utf8(name) =~= ascii_bytes(name));
        crate::text::lemma_same_bytes(name, id);
    }
}

proof fn lemma_unescaped_bytes(b: Seq<u8>)
    requires
        forall|i: int| 0 <= i < b.len() ==> unreserved(#[trigger] b[i]),
    ensures
        !escaped_all(b).contains('%'),
    decreases b.len(),
{
    if b.len() > 0 {
        let head = escaped_all(b.drop_last());
        assert forall|i: int| 0 <= i < b.drop_last().len() implies unreserved(
            #[trigger] b.drop_last()[i],
        ) by {
            assert(b.drop_last()[i] == b[i]);
        }
        lemma_unescaped_bytes(b.drop_last());
        assert(unreserved(b[b.len() - 1]));
        assert forall|i: int| 0 <= i < escaped_all(b).len() implies escaped_all(b)[i] != '%' by {
            if i < head.len() {
                assert(escaped_all(b)[i] == head[i]);
                assert(head.contains(head[i]));
            } else {
                assert(escaped_all(b)[i] == b.last() as char);
            }
        }
    }
}

/// An id that is made of nothing but what may stand in a file name is its own
/// file name.
pub proof fn lemma_safe_id(id: Seq<char>)
    requires
        forall|i: int| 0 <= i < encode_utf8(id).len() ==> unreserved(#[trigger] encode_utf8(id)[i]),
    ensures
        id_name(id) == id,
{
    let b = encode_utf8(id);
    let name = id_name(id);
    lemma_unescaped_bytes(b);
    lemma_plain_name(b);
    lemma_name_ascii(b);
    is_ascii_chars_encode_utf8(name);
    assert(encode_utf8(name) =~= ascii_bytes(name));
    crate::text::lemma_same_bytes(name, id);
}

fn hex_digit_value(b: u8) -> (r: Option<u8>)
    ensures
        match r {
            Some(v) => hex_value(b as char) == Some(v as int) && v < 16,
            None => hex_value(b as char) is None,
        },
{
    if 0x30 <= b && b <= 0x39 {
        Some(b - 0x30)
    } else if 0x41 <= b && b <= 0x46 {
        Some(b - 0x41 + 10)
    } else if 0x61 <= b && b <= 0x66 {
        Some(b - 0x61 + 10)
    } else {
        None
    }
}

fn has_percent(name: &str) -> (r: bool)
    ensures
        r == name@.contains('%'),
{
    let c = chars_of(name);
    let mut i: usize = 0;
    while i < c.len()
        invariant
            i <= c.len(),
            c@ == name@,
            forall|j: int| 0 <= j < i ==> c@[j] != '%',
        decreases c.len() - i,
    {
        if c[i] == '%' {
            return true;
        }
        i = i + 1;
    }
    false
}

/// The id that a file name stands for. A name without a percent sign is the
/// id itself, and the name that `encode_id` gives an id stands for that id.
pub fn decode_id(name: &str) -> (r: String)
    ensures
        r@ == name_id(name@),
        forall|id: Seq<char>| name@ == #[trigger] id_name(id) ==> r@ == id,
{
    proof {
        assert forall|id: Seq<char>| name@ == #[trigger] id_name(id) implies name_id(name@) == id by {
            lemma_name_round_trip(id);
        }
    }
    if !has_percent(name) {
        return name.to_owned();
    }
    let bytes = name.as_bytes();
    let mut out: Vec<u8> = Vec::new();
    let mut i: usize = 0;
    assert(bytes@.skip(0) =~= bytes@);
    assert(out@ + unescaped(bytes@) =~= unescaped(bytes@));
    while i < bytes.len()
        invariant
            i <= bytes.len(),
            unescaped(bytes@) == out@ + unescaped(bytes@.skip(i as int)),
        decreases bytes.len() - i,
    {
        let ghost rest = bytes@.skip(i as int);
        let ghost was = out@;
        assert(rest[0] == bytes@[i as int]);
        if bytes[i] == 0x25 && bytes.len() - i > 2 {
            assert(rest[1] == bytes@[i + 1]);
            assert(rest[2] == bytes@[i + 2]);
            if let Some(hi) = hex_digit_value(bytes[i + 1]) {
                if let Some(lo) = hex_digit_value(bytes[i + 2]) {
                    let b: u8 = hi * 16 + lo;
                    out.push(b);
                    assert(rest.skip(3) =~= bytes@.skip(i + 3));
                    assert(was + (seq![b] + unescaped(rest.skip(3))) =~= out@ + unescaped(
                        rest.skip(3),
                    ));
                    i = i + 3;
                    continue;
                }
            }
        }
        out.push(bytes[i]);
        assert(rest.skip(1) =~= bytes@.skip(i + 1));
        assert(was + (seq![rest[0]] + unescaped(rest.skip(1))) =~= out@ + unescaped(rest.skip(1)));
        i = i + 1;
    }
    assert(out@ =~= unescaped(bytes@)) by {
        assert(bytes@.skip(i as int) =~= Seq::<u8>::empty());
    }
    text_from_utf8_lossy(out.as_slice())
}

} // verus!
