//! What is encoded is decoded again: base64, and contents that are encrypted.

use vstd::prelude::*;
use vstd::utf8::encode_utf8;
use crate::crypto::{aes_open, decrypted, CryptoError};
use crate::json::{json_get, json_parse, Json, Num};
use crate::migrate::{all_base64, base64_bytes, base64_value, line_value, unpadded};
use crate::text::trimmed;

verus! {

/// The base64 digit of a value: the capital letters, the small letters, the
/// decimal digits, a plus sign and a slash.
pub open spec fn base64_digit(n: int) -> u8 {
    if n < 26 {
        ('A' as int + n) as u8
    } else if n < 52 {
        ('a' as int + n - 26) as u8
    } else if n < 62 {
        ('0' as int + n - 52) as u8
    } else if n == 62 {
        '+' as u8
    } else {
        '/' as u8
    }
}

/// Bytes in base64: four digits of six bits each for three bytes. One or two
/// bytes that are left over are filled up with zero bits to two or three digits,
/// and those with signs of equality to four.
pub open spec fn in_base64(b: Seq<u8>) -> Seq<u8>
    decreases b.len(),
{
    if b.len() == 0 {
        Seq::empty()
    } else if b.len() == 1 {
        seq![
            base64_digit(b[0] as int / 4),
            base64_digit(b[0] as int % 4 * 16),
            '=' as u8,
            '=' as u8,
        ]
    } else if b.len() == 2 {
        seq![
            base64_digit(b[0] as int / 4),
            base64_digit(b[0] as int % 4 * 16 + b[1] as int / 16),
            base64_digit(b[1] as int % 16 * 4),
            '=' as u8,
        ]
    } else {
        seq![
            base64_digit(b[0] as int / 4),
            base64_digit(b[0] as int % 4 * 16 + b[1] as int / 16),
            base64_digit(b[1] as int % 16 * 4 + b[2] as int / 64),
            base64_digit(b[2] as int % 64),
        ] + in_base64(b.skip(3))
    }
}

proof fn lemma_digit(n: int)
    requires
        0 <= n < 64,
    ensures
        base64_value(base64_digit(n)) == Some(n),
        base64_digit(n) != '=' as u8,
{
}

proof fn lemma_unpadded_parts(a: Seq<u8>, b: Seq<u8>)
    ensures
        unpadded(a + b) == unpadded(a) + unpadded(b),
    decreases b.len(),
{
    if b.len() == 0 {
        assert(a + b =~= a);
        assert(unpadded(a) + unpadded(b) =~= unpadded(a));
    } else {
        lemma_unpadded_parts(a, b.drop_last());
        assert((a + b).drop_last() =~= a + b.drop_last());
        assert((a + b).last() == b.last());
        assert(unpadded(a + b) =~= unpadded(a) + unpadded(b));
    }
}

proof fn lemma_unpadded_row(s: Seq<u8>, n: int)
    requires
        0 <= n <= s.len(),
        forall|i: int| 0 <= i < n ==> #[trigger] s[i] != '=' as u8,
        forall|i: int| n <= i < s.len() ==> #[trigger] s[i] == '=' as u8,
    ensures
        unpadded(s) == s.take(n),
    decreases s.len(),
{
    if s.len() > 0 {
        let head = s.drop_last();
        let at = s.len() - 1;
        if n == s.len() {
            lemma_unpadded_row(head, at);
            assert(s[at] != '=' as u8);
            assert(head.take(at).push(s[at]) =~= s.take(n));
        } else {
            lemma_unpadded_row(head, n);
            assert(s[at] == '=' as u8);
            assert(head.take(n) =~= s.take(n));
        }
    } else {
        assert(s.take(n) =~= s);
    }
}

/// Bytes in base64 are digits and padding, and are read as the bytes again.
pub proof fn lemma_base64_round_trip(b: Seq<u8>)
    ensures
        all_base64(unpadded(in_base64(b))),
        base64_bytes(unpadded(in_base64(b))) == b,
    decreases b.len(),
{
    let s = in_base64(b);
    if b.len() == 0 {
        assert(unpadded(s) =~= Seq::empty());
        assert(base64_bytes(unpadded(s)) =~= b);
    } else {
        let x = b[0] as int;
        lemma_digit(x / 4);
        if b.len() == 1 {
            lemma_digit(x % 4 * 16);
            lemma_unpadded_row(s, 2);
            assert(base64_bytes(s.take(2)) =~= b);
        } else {
            let y = b[1] as int;
            lemma_digit(x % 4 * 16 + y / 16);
            if b.len() == 2 {
                lemma_digit(y % 16 * 4);
                lemma_unpadded_row(s, 3);
                assert(base64_bytes(s.take(3)) =~= b);
            } else {
                let z = b[2] as int;
                lemma_digit(y % 16 * 4 + z / 64);
                lemma_digit(z % 64);
                let front = s.take(4);
                let rest = in_base64(b.skip(3));
                assert(s =~= front + rest);
                lemma_unpadded_row(front, 4);
                assert(front.take(4) =~= front);
                lemma_unpadded_parts(front, rest);
                lemma_base64_round_trip(b.skip(3));
                let digits = unpadded(s);
                assert(digits =~= front + unpadded(rest));
                assert(digits.skip(4) =~= unpadded(rest));
                assert forall|i: int| 0 <= i < digits.len() implies base64_value(
                    #[trigger] digits[i],
                ) is Some by {
                    if i >= 4 {
                        assert(digits[i] == unpadded(rest)[i - 4]);
                    } else {
                        assert(digits[i] == front[i]);
                    }
                }
                assert(digits[0] == front[0] && digits[1] == front[1] && digits[2] == front[2]
                    && digits[3] == front[3]);
                assert(b =~= seq![b[0], b[1], b[2]] + b.skip(3));
            }
        }
    }
}

/// What was encrypted is a nonce of twelve bytes and the ciphertext behind it:
/// it is decrypted to what the ciphertext opens to with that nonce and the key,
/// and not at all where it does not open. Less than a nonce is no ciphertext.
pub proof fn lemma_nonce_in_front(
    nonce: Seq<u8>,
    sealed: Seq<u8>,
    key: Seq<u8>,
    plain: Seq<u8>,
    short: Seq<u8>,
)
    requires
        nonce.len() == 12,
        short.len() < 12,
    ensures
        aes_open(key, nonce, sealed) == Some(plain) ==> decrypted(nonce + sealed, key) == Ok::<
            Seq<u8>,
            CryptoError,
        >(plain),
        aes_open(key, nonce, sealed) is None ==> decrypted(nonce + sealed, key) == Err::<
            Seq<u8>,
            CryptoError,
        >(CryptoError::Failed),
        decrypted(short, key) == Err::<Seq<u8>, CryptoError>(CryptoError::TooShort),
{
    assert((nonce + sealed).take(12) =~= nonce);
    assert((nonce + sealed).skip(12) =~= sealed);
}

/// A line of a log holds the JSON that it spells, with whatever key, unless it
/// says that it is an envelope. What an envelope holds is the JSON that its data
/// is encrypted from: a nonce and the ciphertext, in base64. Without the key it
/// holds nothing, and no line does that spells no JSON.
pub proof fn lemma_line_opened(
    line: Seq<char>,
    dek: Option<Seq<u8>>,
    key: Seq<u8>,
    nonce: Seq<u8>,
    sealed: Seq<u8>,
    plain: Seq<u8>,
    data: Seq<char>,
)
    requires
        nonce.len() == 12,
        encode_utf8(trimmed(data)) == in_base64(nonce + sealed),
    ensures
        json_parse(encode_utf8(line)) is None ==> line_value(line, dek) is None,
        json_parse(encode_utf8(line)) matches Some(j) ==> {
            &&& json_get(j, "enc"@) != Some(Json::Number(Num::Int(1))) ==> line_value(line, dek)
                == Some(j)
            &&& json_get(j, "enc"@) == Some(Json::Number(Num::Int(1))) ==> line_value(line, None)
                is None
            &&& json_get(j, "enc"@) == Some(Json::Number(Num::Int(1))) && json_get(j, "data"@)
                == Some(Json::Text(data)) && aes_open(key, nonce, sealed) == Some(plain)
                ==> line_value(line, Some(key)) == json_parse(plain)
            &&& json_get(j, "enc"@) == Some(Json::Number(Num::Int(1))) && json_get(j, "data"@)
                == Some(Json::Text(data)) && aes_open(key, nonce, sealed) is None ==> line_value(
                line,
                Some(key),
            ) is None
        },
{
    lemma_base64_round_trip(nonce + sealed);
    lemma_nonce_in_front(nonce, sealed, key, plain, Seq::empty());
}

} // verus!
