//! Digests, and bytes in hexadecimal.

use blake2::Digest;
use vstd::prelude::*;
use vstd::utf8::{encode_utf8, is_ascii_chars_encode_utf8};

verus! {

/// The BLAKE2b-512 digest of a byte string.
pub uninterp spec fn blake2b_512(data: Seq<u8>) -> Seq<u8>;

/// The SHA-256 digest of a byte string.
pub uninterp spec fn sha_256(data: Seq<u8>) -> Seq<u8>;

/// `Blake2b512::digest`: a function of the data, 64 bytes long.
#[verifier::external_body]
fn blake2b_512_of(data: &[u8]) -> (r: Vec<u8>)
    ensures
        r@ == blake2b_512(data@),
        r@.len() == 64,
{
    blake2::Blake2b512::digest(data).to_vec()
}

/// `Sha256::digest`: a function of the data, 32 bytes long.
#[verifier::external_body]
fn sha_256_of(data: &[u8]) -> (r: Vec<u8>)
    ensures
        r@ == sha_256(data@),
        r@.len() == 32,
{
    sha2::Sha256::digest(data).to_vec()
}

/// The digest that objects are known by: the first 32 bytes of BLAKE2b-512.
pub open spec fn digest(data: Seq<u8>) -> Seq<u8> {
    Seq::new(32, |i: int| blake2b_512(data)[i])
}

/// The digit for a number below 16.
pub open spec fn hex_digit(d: int) -> char {
    if d < 10 {
        (('0' as int + d) as u32) as char
    } else {
        (('a' as int + d - 10) as u32) as char
    }
}

/// A byte string in hexadecimal: two digits for each byte, high digit first.
pub open spec fn hex(data: Seq<u8>) -> Seq<char> {
    Seq::new(
        2 * data.len(),
        |i: int|
            if i % 2 == 0 {
                hex_digit(data[i / 2] as int / 16)
            } else {
                hex_digit(data[i / 2] as int % 16)
            },
    )
}

/// What a hexadecimal digit of either case is worth.
pub open spec fn hex_value(c: char) -> Option<int> {
    if '0' <= c <= '9' {
        Some(c as int - '0' as int)
    } else if 'a' <= c <= 'f' {
        Some(c as int - 'a' as int + 10)
    } else if 'A' <= c <= 'F' {
        Some(c as int - 'A' as int + 10)
    } else {
        None
    }
}

/// Whether a text is made of pairs of hexadecimal digits.
pub open spec fn is_hex(s: Seq<char>) -> bool {
    s.len() % 2 == 0 && forall|i: int| 0 <= i < s.len() ==> hex_value(#[trigger] s[i]) is Some
}

/// The bytes that pairs of hexadecimal digits spell.
pub open spec fn unhex(s: Seq<char>) -> Seq<u8> {
    Seq::new(
        s.len() / 2,
        |i: int| (hex_value(s[2 * i])->0 * 16 + hex_value(s[2 * i + 1])->0) as u8,
    )
}

/// `hex::encode`: two lower-case digits for each byte.
#[verifier::external_body]
pub(crate) fn hex_encode(data: &[u8]) -> (r: String)
    ensures
        r@ == hex(data@),
{
    hex::encode(data)
}

/// `hex::decode`: the bytes that pairs of digits of either case spell, or
/// nothing where the text is not made of such pairs.
#[verifier::external_body]
pub(crate) fn hex_decode(s: &str) -> (r: Option<Vec<u8>>)
    ensures
        match r {
            Some(b) => is_hex(s@) && b@ == unhex(s@),
            None => !is_hex(s@),
        },
{
    hex::decode(s).ok()
}

/// Reading hexadecimal gives back the bytes that were written in it.
pub proof fn lemma_unhex_hex(data: Seq<u8>)
    ensures
        is_hex(hex(data)),
        unhex(hex(data)) == data,
{
    assert forall|i: int| 0 <= i < data.len() implies #[trigger] unhex(hex(data))[i] == data[i] by {
        let s = hex(data);
        assert(s[2 * i] == hex_digit(data[i] as int / 16));
        assert(s[2 * i + 1] == hex_digit(data[i] as int % 16));
    }
    assert(unhex(hex(data)) =~= data);
}

/// Hexadecimal digits are one byte each.
pub proof fn lemma_hex_bytes(data: Seq<u8>)
    ensures
        encode_utf8(hex(data)).len() == 2 * data.len(),
{
    let s = hex(data);
    assert forall|i| 0 <= i < s.len() implies '\0' <= #[trigger] s[i] <= '\u{7f}' by {
        lemma_hex_digit(data[i / 2] as int / 16);
        lemma_hex_digit(data[i / 2] as int % 16);
    }
    is_ascii_chars_encode_utf8(s);
}

proof fn lemma_hex_digit(d: int)
    requires
        0 <= d < 16,
    ensures
        '\0' <= hex_digit(d) <= '\u{7f}',
{
}

/// The digest of a byte string.
pub fn digest_of(data: &[u8]) -> (r: Vec<u8>)
    ensures
        r@ == digest(data@),
        r@.len() == 32,
{
    let mut d = blake2b_512_of(data);
    d.truncate(32);
    assert(d@ =~= digest(data@));
    d
}

/// The name of a content: its digest in hexadecimal.
pub open spec fn content_hash(data: Seq<u8>) -> Seq<char> {
    hex(digest(data))
}

/// The name of a content is 64 hexadecimal digits.
pub proof fn lemma_content_hash(data: Seq<u8>)
    ensures
        content_hash(data).len() == 64,
        is_hex(content_hash(data)),
        unhex(content_hash(data)) == digest(data),
        encode_utf8(content_hash(data)).len() == 64,
{
    lemma_unhex_hex(digest(data));
    lemma_hex_bytes(digest(data));
}

/// The name of a content: its digest in hexadecimal.
pub fn blake2b(data: &[u8]) -> (r: String)
    ensures
        r@ == content_hash(data@),
        r@.len() == 64,
        is_hex(r@),
        unhex(r@) == digest(data@),
        encode_utf8(r@).len() == 64,
{
    let d = digest_of(data);
    proof {
        lemma_content_hash(data@);
    }
    hex_encode(d.as_slice())
}

/// The SHA-256 digest of a byte string.
pub fn sha256(data: &[u8]) -> (r: Vec<u8>)
    ensures
        r@ == sha_256(data@),
        r@.len() == 32,
{
    sha_256_of(data)
}

} // verus!
