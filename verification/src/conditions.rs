//! What the conditions of a query mean, in terms of the values themselves: how
//! values of every kind are ordered, which are equal, and how `=`, `!=`, `<`,
//! `>`, `<=` and `>=` hang together.

use vstd::prelude::*;
use vstd::utf8::{encode_utf8, is_ascii_chars, is_ascii_chars_encode_utf8};
use crate::double::{
    integer_bits, lemma_integer_bits_monotonic, lemma_integer_code, lemma_truncated_integer, nan,
    number_equal, total_order, zero, EXPONENT_UNIT, SIGN,
};
use crate::json::{field_of, json_chars, num_bits, Json, Num};
use crate::node::NodeV;
use crate::nql::{field_value, holds_text, selected, valid_at, where_holds};
use crate::ordered::{
    key_equal, key_of, key_order, keys_order, lemma_key_order, Key,
};
use crate::parser::{QueryV, WhereV};
use crate::text::{
    all_ascii, ascii_lower, bytes_order, lemma_text_order, lowercase, occurs_at, text_order, Order,
};

verus! {

/// Whether two byte strings agree up to a place, where the first ends or has
/// the lower byte.
pub open spec fn lower_at(a: Seq<u8>, b: Seq<u8>, k: int) -> bool {
    &&& 0 <= k <= a.len() && k < b.len()
    &&& a.take(k) == b.take(k)
    &&& k == a.len() || a[k] < b[k]
}

/// Whether a text comes before another.
pub open spec fn text_before(a: Seq<char>, b: Seq<char>) -> bool {
    exists|k: int| #[trigger] lower_at(encode_utf8(a), encode_utf8(b), k)
}

proof fn lemma_bytes_before(a: Seq<u8>, b: Seq<u8>)
    ensures
        bytes_order(a, b) == Order::Less <==> exists|k: int| #[trigger] lower_at(a, b, k),
    decreases a.len(),
{
    assert(a.take(0) =~= b.take(0));
    if b.len() == 0 {
    } else if a.len() == 0 {
        assert(lower_at(a, b, 0));
    } else if a[0] != b[0] {
        if a[0] < b[0] {
            assert(lower_at(a, b, 0));
        } else if exists|k: int| #[trigger] lower_at(a, b, k) {
            let k = choose|k: int| #[trigger] lower_at(a, b, k);
            if k > 0 {
                assert(a.take(k)[0] == b.take(k)[0]);
            }
        }
    } else {
        let x = a.drop_first();
        let y = b.drop_first();
        lemma_bytes_before(x, y);
        if exists|k: int| #[trigger] lower_at(x, y, k) {
            let k = choose|k: int| #[trigger] lower_at(x, y, k);
            assert(a.take(k + 1) =~= seq![a[0]] + x.take(k));
            assert(b.take(k + 1) =~= seq![b[0]] + y.take(k));
            assert(lower_at(a, b, k + 1));
        }
        if exists|k: int| #[trigger] lower_at(a, b, k) {
            let k = choose|k: int| #[trigger] lower_at(a, b, k);
            assert(k > 0);
            assert(x.take(k - 1) =~= a.take(k).drop_first());
            assert(y.take(k - 1) =~= b.take(k).drop_first());
            assert(lower_at(x, y, k - 1));
        }
    }
}

/// The order of texts is that of their UTF-8 bytes, by the first that differs; a
/// text comes before every longer one that starts with it.
pub proof fn lemma_text_before(a: Seq<char>, b: Seq<char>)
    ensures
        text_order(a, b) == Order::Less <==> text_before(a, b),
        text_order(a, b) == Order::Greater <==> text_before(b, a),
        text_order(a, b) == Order::Equal <==> a == b,
{
    lemma_bytes_before(encode_utf8(a), encode_utf8(b));
    lemma_bytes_before(encode_utf8(b), encode_utf8(a));
    lemma_text_order(a, b);
}

/// Texts of ASCII characters are in the order of their characters: where two
/// differ first, the one with the lower character comes first.
pub proof fn lemma_ascii_before(a: Seq<char>, b: Seq<char>, k: int)
    requires
        is_ascii_chars(a),
        is_ascii_chars(b),
        0 <= k <= a.len(),
        k < b.len(),
        a.take(k) == b.take(k),
        k == a.len() || (a[k] as int) < (b[k] as int),
    ensures
        text_before(a, b),
        !text_before(b, a),
{
    is_ascii_chars_encode_utf8(a);
    is_ascii_chars_encode_utf8(b);
    let x = encode_utf8(a);
    let y = encode_utf8(b);
    assert forall|i: int| 0 <= i < k implies x[i] == y[i] by {
        assert(a[i] == a.take(k)[i] && b[i] == b.take(k)[i]);
        assert(a[i] as u8 == x[i] && b[i] as u8 == y[i]);
    }
    assert(x.take(k) =~= y.take(k));
    assert(b[k] as u8 == y[k]);
    if k < a.len() {
        assert(a[k] as u8 == x[k]);
        vstd::utf8::is_ascii_chars_nat_bound(a);
        vstd::utf8::is_ascii_chars_nat_bound(b);
        assert((a[k] as nat) < 128 && (b[k] as nat) < 128);
    }
    assert(lower_at(x, y, k));
    lemma_text_before(a, b);
}

/// The bits of a double without its sign.
pub open spec fn magnitude(bits: u64) -> int {
    bits as int % SIGN as int
}

/// Whether a double comes before another: a negative one before one that is
/// not, else by magnitude.
pub open spec fn bits_before(a: u64, b: u64) -> bool {
    if a >= SIGN {
        b < SIGN || magnitude(b) < magnitude(a)
    } else {
        b < SIGN && magnitude(a) < magnitude(b)
    }
}

/// Whether a number comes before another: as the doubles that they are nearest
/// to.
pub open spec fn number_before(a: Num, b: Num) -> bool {
    bits_before(num_bits(a), num_bits(b))
}

proof fn lemma_bits_before(a: u64, b: u64)
    ensures
        total_order(a, b) == Order::Less <==> bits_before(a, b),
        total_order(a, b) == Order::Greater <==> bits_before(b, a),
        total_order(a, b) == Order::Equal <==> a == b,
{
}

/// Whether an integer has at most 53 bits.
pub open spec fn exact(n: int) -> bool {
    -2 * EXPONENT_UNIT < n < 2 * EXPONENT_UNIT
}

/// Integers are in their order. Those of at most 53 bits are told apart; of
/// larger ones the higher never comes first.
pub proof fn lemma_integers_ordered(a: int, b: int)
    requires
        i64::MIN <= a <= b <= u64::MAX,
    ensures
        !number_before(Num::Int(b), Num::Int(a)),
        exact(a) && exact(b) ==> (number_before(Num::Int(a), Num::Int(b)) <==> a < b),
        exact(a) && exact(b) ==> (number_equal(num_bits(Num::Int(a)), num_bits(Num::Int(b)))
            <==> a == b),
{
    let x: nat = if a >= 0 {
        a as nat
    } else {
        (-a) as nat
    };
    let y: nat = if b >= 0 {
        b as nat
    } else {
        (-b) as nat
    };
    lemma_integer_code(x);
    lemma_integer_code(y);
    if x <= y {
        lemma_integer_bits_monotonic(x, y);
    } else {
        lemma_integer_bits_monotonic(y, x);
    }
    if exact(a) && exact(b) {
        lemma_truncated_integer(x);
        lemma_truncated_integer(y);
        assert(integer_bits(x) == integer_bits(y) ==> x == y);
    }
    assert(integer_bits(0) == 0);
}

/// Where a kind of value stands among the kinds: null, booleans, numbers, texts,
/// arrays, objects.
pub open spec fn kind(j: Json) -> int {
    match j {
        Json::Null => 0,
        Json::Bool(_) => 1,
        Json::Number(_) => 2,
        Json::Text(_) => 3,
        Json::Array(_) => 4,
        Json::Object(_) => 5,
    }
}

/// Whether a value comes before another.
pub open spec fn precedes(a: Json, b: Json) -> bool {
    key_order(key_of(a), key_of(b)) == Order::Less
}

/// Whether neither of two values comes before the other.
pub open spec fn level(a: Json, b: Json) -> bool {
    !precedes(a, b) && !precedes(b, a)
}

/// Whether the items of two arrays are level up to a place, where the first
/// ends or has an item that comes before its counterpart.
pub open spec fn earlier_at(x: Seq<Json>, y: Seq<Json>, k: int) -> bool {
    &&& 0 <= k <= x.len() && k < y.len()
    &&& forall|i: int| 0 <= i < k ==> level(#[trigger] x[i], y[i])
    &&& k == x.len() || precedes(x[k], y[k])
}

proof fn lemma_keys_before(x: Seq<Json>, y: Seq<Json>, a: Seq<Key>, b: Seq<Key>)
    requires
        a.len() == x.len(),
        b.len() == y.len(),
        forall|i: int| 0 <= i < x.len() ==> #[trigger] a[i] == key_of(x[i]),
        forall|i: int| 0 <= i < y.len() ==> #[trigger] b[i] == key_of(y[i]),
    ensures
        keys_order(a, b) == Order::Less <==> exists|k: int| #[trigger] earlier_at(x, y, k),
    decreases x.len(),
{
    if y.len() == 0 {
    } else if x.len() == 0 {
        assert(earlier_at(x, y, 0));
    } else {
        assert(a[0] == key_of(x[0]) && b[0] == key_of(y[0]));
        lemma_key_order(a[0], b[0]);
        let x1 = x.subrange(1, x.len() as int);
        let y1 = y.subrange(1, y.len() as int);
        let a1 = a.subrange(1, a.len() as int);
        let b1 = b.subrange(1, b.len() as int);
        assert forall|i: int| 0 <= i < x1.len() implies #[trigger] a1[i] == key_of(x1[i]) by {
            assert(a[i + 1] == key_of(x[i + 1]));
        }
        assert forall|i: int| 0 <= i < y1.len() implies #[trigger] b1[i] == key_of(y1[i]) by {
            assert(b[i + 1] == key_of(y[i + 1]));
        }
        lemma_keys_before(x1, y1, a1, b1);
        if precedes(x[0], y[0]) {
            assert(earlier_at(x, y, 0));
        }
        if level(x[0], y[0]) && exists|k: int| #[trigger] earlier_at(x1, y1, k) {
            let k = choose|k: int| #[trigger] earlier_at(x1, y1, k);
            assert forall|i: int| 0 <= i < k + 1 implies level(#[trigger] x[i], y[i]) by {
                if i > 0 {
                    assert(x[i] == x1[i - 1] && y[i] == y1[i - 1]);
                }
            }
            assert(earlier_at(x, y, k + 1));
        }
        if exists|k: int| #[trigger] earlier_at(x, y, k) {
            let k = choose|k: int| #[trigger] earlier_at(x, y, k);
            if k > 0 {
                assert(level(x[0], y[0]));
                assert forall|i: int| 0 <= i < k - 1 implies level(#[trigger] x1[i], y1[i]) by {
                    assert(x1[i] == x[i + 1] && y1[i] == y[i + 1]);
                }
                assert(earlier_at(x1, y1, k - 1));
            }
        }
    }
}

/// The order of values: null first, then booleans, numbers, texts, arrays and
/// objects. Within a kind false comes before true, numbers are ordered by size,
/// texts by their bytes, and arrays by the first items that are not level, an
/// array before every longer one that starts like it. No object comes before
/// another.
pub proof fn lemma_values_ordered(a: Json, b: Json)
    ensures
        kind(a) < kind(b) ==> precedes(a, b) && !precedes(b, a),
        match (a, b) {
            (Json::Bool(x), Json::Bool(y)) => precedes(a, b) <==> !x && y,
            (Json::Number(x), Json::Number(y)) => precedes(a, b) <==> number_before(x, y),
            (Json::Text(x), Json::Text(y)) => precedes(a, b) <==> text_before(x, y),
            (Json::Array(x), Json::Array(y)) => precedes(a, b) <==> exists|k: int| #[trigger]
                earlier_at(x, y, k),
            (Json::Object(_), Json::Object(_)) => !precedes(a, b),
            (Json::Null, Json::Null) => !precedes(a, b),
            _ => kind(a) != kind(b),
        },
        !(precedes(a, b) && precedes(b, a)),
        !precedes(a, a),
{
    lemma_key_order(key_of(a), key_of(b));
    match (a, b) {
        (Json::Number(x), Json::Number(y)) => {
            lemma_bits_before(num_bits(x), num_bits(y));
        },
        (Json::Text(x), Json::Text(y)) => {
            lemma_text_before(x, y);
        },
        (Json::Array(x), Json::Array(y)) => {
            lemma_keys_before(x, y, key_of(a)->Array_0, key_of(b)->Array_0);
        },
        _ => {},
    }
}

/// Whether two values are equal: of one kind, and texts, booleans and nulls as
/// they are, numbers as the doubles nearest to them, arrays item by item.
/// Objects are not told apart.
pub open spec fn same_value(a: Json, b: Json) -> bool {
    key_equal(key_of(a), key_of(b))
}

/// What equality of values is.
pub proof fn lemma_values_equal(a: Json, b: Json)
    ensures
        same_value(a, b) == same_value(b, a),
        match (a, b) {
            (Json::Null, Json::Null) => same_value(a, b),
            (Json::Bool(x), Json::Bool(y)) => same_value(a, b) <==> x == y,
            (Json::Number(x), Json::Number(y)) => {
                let p = num_bits(x);
                let q = num_bits(y);
                same_value(a, b) <==> !nan(p) && !nan(q) && (p == q || zero(p) && zero(q))
            },
            (Json::Text(x), Json::Text(y)) => same_value(a, b) <==> x == y,
            (Json::Array(x), Json::Array(y)) => same_value(a, b) <==> x.len() == y.len() && forall|
                i: int,
            |
                0 <= i < x.len() ==> same_value(#[trigger] x[i], y[i]),
            (Json::Object(_), Json::Object(_)) => same_value(a, b),
            _ => !same_value(a, b),
        },
    decreases a,
{
    if let (Json::Array(x), Json::Array(y)) = (a, b) {
        let p = key_of(a)->Array_0;
        let q = key_of(b)->Array_0;
        assert forall|i: int| 0 <= i < x.len() && i < y.len() implies same_value(
            #[trigger] x[i],
            y[i],
        ) == same_value(y[i], x[i]) by {
            lemma_values_equal(x[i], y[i]);
        }
        assert(forall|i: int| 0 <= i < x.len() ==> #[trigger] p[i] == key_of(x[i]));
        assert(forall|i: int| 0 <= i < y.len() ==> #[trigger] q[i] == key_of(y[i]));
        if same_value(a, b) {
            assert forall|i: int| 0 <= i < x.len() implies same_value(#[trigger] x[i], y[i]) by {
                assert(key_equal(p[i], q[i]));
            }
        }
        if x.len() == y.len() && forall|i: int|
            0 <= i < x.len() ==> same_value(#[trigger] x[i], y[i]) {
            assert forall|i: int| 0 <= i < p.len() implies key_equal(#[trigger] p[i], q[i]) by {
                assert(same_value(x[i], y[i]));
            }
            assert forall|i: int| 0 <= i < q.len() implies key_equal(#[trigger] q[i], p[i]) by {
                assert(same_value(x[i], y[i]));
            }
        }
        if same_value(b, a) {
            assert forall|i: int| 0 <= i < x.len() implies same_value(#[trigger] x[i], y[i]) by {
                assert(key_equal(q[i], p[i]));
            }
        }
    }
}

/// Whether a value holds no number that is not a number and no negative zero.
pub open spec fn told_apart(j: Json) -> bool
    decreases j,
{
    match j {
        Json::Number(n) => !nan(num_bits(n)) && num_bits(n) != SIGN,
        Json::Array(a) => forall|i: int| 0 <= i < a.len() ==> told_apart(#[trigger] a[i]),
        _ => true,
    }
}

proof fn lemma_same_keys(x: Seq<Json>, y: Seq<Json>, a: Seq<Key>, b: Seq<Key>)
    requires
        a.len() == x.len(),
        b.len() == y.len(),
        forall|i: int| 0 <= i < x.len() ==> #[trigger] a[i] == key_of(x[i]),
        forall|i: int| 0 <= i < y.len() ==> #[trigger] b[i] == key_of(y[i]),
    ensures
        keys_order(a, b) == Order::Equal <==> x.len() == y.len() && forall|i: int|
            0 <= i < x.len() ==> level(#[trigger] x[i], y[i]),
    decreases x.len(),
{
    if x.len() > 0 && y.len() > 0 {
        assert(a[0] == key_of(x[0]) && b[0] == key_of(y[0]));
        lemma_key_order(a[0], b[0]);
        let x1 = x.subrange(1, x.len() as int);
        let y1 = y.subrange(1, y.len() as int);
        let a1 = a.subrange(1, a.len() as int);
        let b1 = b.subrange(1, b.len() as int);
        assert forall|i: int| 0 <= i < x1.len() implies #[trigger] a1[i] == key_of(x1[i]) by {
            assert(a[i + 1] == key_of(x[i + 1]));
        }
        assert forall|i: int| 0 <= i < y1.len() implies #[trigger] b1[i] == key_of(y1[i]) by {
            assert(b[i + 1] == key_of(y[i + 1]));
        }
        lemma_same_keys(x1, y1, a1, b1);
        if keys_order(a, b) == Order::Equal {
            assert forall|i: int| 0 <= i < x.len() implies level(#[trigger] x[i], y[i]) by {
                if i > 0 {
                    assert(x[i] == x1[i - 1] && y[i] == y1[i - 1]);
                    assert(level(x1[i - 1], y1[i - 1]));
                }
            }
        }
        if x.len() == y.len() && forall|i: int| 0 <= i < x.len() ==> level(#[trigger] x[i], y[i]) {
            assert(level(x[0], y[0]));
            assert forall|i: int| 0 <= i < x1.len() implies level(#[trigger] x1[i], y1[i]) by {
                assert(x1[i] == x[i + 1] && y1[i] == y[i + 1]);
            }
        }
    }
}

/// Of two values just one of three holds: they are equal, or the one comes
/// before the other, or the other before the one; numbers that are not numbers
/// and negative zeros left out.
pub proof fn lemma_equal_or_ordered(a: Json, b: Json)
    requires
        told_apart(a),
        told_apart(b),
    ensures
        same_value(a, b) <==> level(a, b),
    decreases a,
{
    lemma_values_ordered(a, b);
    lemma_values_ordered(b, a);
    lemma_values_equal(a, b);
    lemma_key_order(key_of(a), key_of(b));
    match (a, b) {
        (Json::Text(x), Json::Text(y)) => {
            lemma_text_before(x, y);
        },
        (Json::Array(x), Json::Array(y)) => {
            lemma_same_keys(x, y, key_of(a)->Array_0, key_of(b)->Array_0);
            assert forall|i: int| 0 <= i < x.len() && i < y.len() implies same_value(
                #[trigger] x[i],
                y[i],
            ) == level(x[i], y[i]) by {
                lemma_equal_or_ordered(x[i], y[i]);
            }
            if x.len() == y.len() {
                if same_value(a, b) {
                    assert forall|i: int| 0 <= i < x.len() implies level(
                        #[trigger] x[i],
                        y[i],
                    ) by {
                        assert(same_value(x[i], y[i]));
                    }
                }
                if level(a, b) {
                    assert forall|i: int| 0 <= i < x.len() implies same_value(
                        #[trigger] x[i],
                        y[i],
                    ) by {
                        assert(level(x[i], y[i]));
                    }
                }
            }
        },
        _ => {},
    }
}

/// A condition with an operator.
pub open spec fn meets(n: NodeV, field: Seq<char>, op: Seq<char>, value: Json) -> bool {
    where_holds(n, WhereV { field, op, value })
}

proof fn lemma_operators()
    ensures
        "="@.len() == 1 && "="@[0] == '=',
        ">"@.len() == 1 && ">"@[0] == '>',
        "<"@.len() == 1 && "<"@[0] == '<',
        "!="@.len() == 2 && "!="@[0] == '!',
        ">="@.len() == 2 && ">="@[0] == '>',
        "<="@.len() == 2 && "<="@[0] == '<',
{
    reveal_strlit("=");
    reveal_strlit(">");
    reveal_strlit("<");
    reveal_strlit("!=");
    reveal_strlit(">=");
    reveal_strlit("<=");
}

/// What conditions mean, for values of every kind: `>` that the value asked for
/// comes before that of the field, `<` that it comes after it, `>=` and `<=`
/// that the other does not hold, `=` that the two are equal, and `!=` that they
/// are not. Nothing meets a condition with another operator.
pub proof fn lemma_conditions(n: NodeV, field: Seq<char>, value: Json, other: Seq<char>)
    ensures
        ({
            let has = field_value(n, field);
            &&& meets(n, field, ">"@, value) <==> precedes(value, has)
            &&& meets(n, field, "<"@, value) <==> precedes(has, value)
            &&& meets(n, field, ">="@, value) <==> !meets(n, field, "<"@, value)
            &&& meets(n, field, "<="@, value) <==> !meets(n, field, ">"@, value)
            &&& meets(n, field, "="@, value) <==> same_value(has, value)
            &&& meets(n, field, "!="@, value) <==> !meets(n, field, "="@, value)
            &&& !(meets(n, field, "<"@, value) && meets(n, field, ">"@, value))
            &&& told_apart(has) && told_apart(value) ==> (meets(n, field, "="@, value) <==> meets(
                n,
                field,
                "<="@,
                value,
            ) && meets(n, field, ">="@, value))
        }),
        other != "="@ && other != "!="@ && other != "<"@ && other != ">"@ && other != "<="@ && other
            != ">="@ ==> !meets(n, field, other, value),
{
    lemma_operators();
    let has = field_value(n, field);
    lemma_key_order(key_of(has), key_of(value));
    if told_apart(has) && told_apart(value) {
        lemma_equal_or_ordered(has, value);
    }
}

/// Conditions, value by value: on a field that holds a text, a boolean or an
/// integer of at most 53 bits, a comparison with a value of the same kind is
/// that of the texts, booleans or integers.
pub proof fn lemma_conditions_by_kind(n: NodeV, field: Seq<char>, value: Json)
    ensures
        match (field_value(n, field), value) {
            (Json::Text(a), Json::Text(b)) => {
                &&& meets(n, field, ">"@, value) <==> text_before(b, a)
                &&& meets(n, field, "<"@, value) <==> text_before(a, b)
                &&& meets(n, field, "="@, value) <==> a == b
            },
            (Json::Bool(a), Json::Bool(b)) => {
                &&& meets(n, field, ">"@, value) <==> a && !b
                &&& meets(n, field, "<"@, value) <==> !a && b
                &&& meets(n, field, "="@, value) <==> a == b
            },
            (Json::Number(Num::Int(a)), Json::Number(Num::Int(b))) => exact(a) && exact(b) ==> {
                &&& meets(n, field, ">"@, value) <==> a > b
                &&& meets(n, field, "<"@, value) <==> a < b
                &&& meets(n, field, "="@, value) <==> a == b
            },
            (a, b) => kind(a) != kind(b) ==> {
                &&& meets(n, field, ">"@, value) <==> kind(a) > kind(b)
                &&& meets(n, field, "<"@, value) <==> kind(a) < kind(b)
                &&& !meets(n, field, "="@, value)
            },
        },
{
    let has = field_value(n, field);
    lemma_conditions(n, field, value, "="@);
    lemma_values_ordered(has, value);
    lemma_values_ordered(value, has);
    lemma_values_equal(has, value);
    if let (Json::Number(Num::Int(a)), Json::Number(Num::Int(b))) = (has, value) {
        if exact(a) && exact(b) {
            if a <= b {
                lemma_integers_ordered(a, b);
            } else {
                lemma_integers_ordered(b, a);
            }
        }
    }
}

/// Conditions, two versions: the one has more than the other's value just where
/// the other has less than the one's.
pub proof fn lemma_conditions_mirrored(a: NodeV, b: NodeV, field: Seq<char>)
    ensures
        meets(a, field, ">"@, field_value(b, field)) <==> meets(
            b,
            field,
            "<"@,
            field_value(a, field),
        ),
        meets(a, field, "="@, field_value(b, field)) <==> meets(
            b,
            field,
            "="@,
            field_value(a, field),
        ),
{
    lemma_conditions(a, field, field_value(b, field), "="@);
    lemma_conditions(b, field, field_value(a, field), "="@);
    lemma_values_equal(field_value(a, field), field_value(b, field));
}

/// The value that a condition looks at: the id, collection or hash of the
/// version for the names that stand for them; else the value that the document
/// has under the name, where it names it once, and null where it does not name
/// it.
pub proof fn lemma_field_value(n: NodeV, field: Seq<char>, at: int)
    ensures
        field_value(n, "_id"@) == Json::Text(n.id),
        field_value(n, "_coll"@) == Json::Text(n.coll),
        field_value(n, "_hash"@) == Json::Text(n.hash),
        field != "_id"@ && field != "_coll"@ && field != "_hash"@ ==> match n.data {
            Json::Object(fs) => {
                &&& 0 <= at < fs.len() && fs[at].0 == field && (forall|i: int|
                    0 <= i < at ==> (#[trigger] fs[i]).0 != field) ==> field_value(n, field)
                    == fs[at].1
                &&& (forall|i: int| 0 <= i < fs.len() ==> (#[trigger] fs[i]).0 != field)
                    ==> field_value(n, field) == Json::Null
            },
            _ => field_value(n, field) == Json::Null,
        },
{
    reveal_strlit("_id");
    reveal_strlit("_coll");
    reveal_strlit("_hash");
    assert("_id"@.len() == 3 && "_coll"@.len() == 5 && "_hash"@.len() == 5);
    assert("_coll"@[1] == 'c' && "_hash"@[1] == 'h');
    if let Json::Object(fs) = n.data {
        lemma_first_field(fs, field, at);
    }
}

proof fn lemma_first_field(fs: Seq<(Seq<char>, Json)>, field: Seq<char>, at: int)
    ensures
        0 <= at < fs.len() && fs[at].0 == field && (forall|i: int|
            0 <= i < at ==> (#[trigger] fs[i]).0 != field) ==> field_of(fs, field) == Some(fs[at].1),
        (forall|i: int| 0 <= i < fs.len() ==> (#[trigger] fs[i]).0 != field) ==> field_of(fs, field)
            is None,
    decreases fs.len(),
{
    if fs.len() > 0 {
        let rest = fs.drop_first();
        lemma_first_field(rest, field, at - 1);
        if 0 < at < fs.len() && fs[at].0 == field && (forall|i: int|
            0 <= i < at ==> (#[trigger] fs[i]).0 != field) {
            assert(fs[0].0 != field);
            assert(rest[at - 1] == fs[at]);
            assert forall|i: int| 0 <= i < at - 1 implies (#[trigger] rest[i]).0 != field by {
                assert(rest[i] == fs[i + 1]);
            }
        }
        if forall|i: int| 0 <= i < fs.len() ==> (#[trigger] fs[i]).0 != field {
            assert(fs[0].0 != field);
            assert forall|i: int| 0 <= i < rest.len() implies (#[trigger] rest[i]).0 != field by {
                assert(rest[i] == fs[i + 1]);
            }
        }
    }
}

/// Validity: a version is valid at a date from the date that it starts with on,
/// up to but not including the date that it ends with. Where it has no start or
/// no end it is valid however early or late.
pub proof fn lemma_valid_from_to(n: NodeV, date: Seq<char>)
    ensures
        n.valid_from is None && n.valid_to is None ==> valid_at(n, date),
        n.valid_from matches Some(f) && n.valid_to is None ==> (valid_at(n, date) <==> !text_before(
            date,
            n.valid_from->0,
        )),
        n.valid_to matches Some(t) && n.valid_from is None ==> (valid_at(n, date) <==> text_before(
            date,
            n.valid_to->0,
        )),
        n.valid_from is Some && n.valid_to is Some ==> (valid_at(n, date) <==> !text_before(
            date,
            n.valid_from->0,
        ) && text_before(date, n.valid_to->0)),
{
    if let Some(f) = n.valid_from {
        lemma_text_before(f, date);
    }
    if let Some(t) = n.valid_to {
        lemma_text_before(t, date);
    }
}

/// Whether two characters are the same but for case.
pub open spec fn alike(c: char, d: char) -> bool {
    ||| c == d
    ||| 'A' <= c <= 'Z' && d as int == c as int + 32
    ||| 'A' <= d <= 'Z' && c as int == d as int + 32
}

/// Whether a text stands in another at a place, but for case.
pub open spec fn alike_at(hay: Seq<char>, needle: Seq<char>, at: int) -> bool {
    &&& 0 <= at && at + needle.len() <= hay.len()
    &&& forall|i: int| 0 <= i < needle.len() ==> alike(#[trigger] needle[i], hay[at + i])
}

/// Searching: a document holds a text just where the text stands somewhere in
/// the JSON of the document, in whatever case. Texts of ASCII characters are
/// spoken of.
pub proof fn lemma_search(n: NodeV, text: Seq<char>)
    requires
        all_ascii(json_chars(n.data)),
        all_ascii(text),
    ensures
        holds_text(n, text) <==> exists|at: int| #[trigger] alike_at(json_chars(n.data), text, at),
{
    let hay = json_chars(n.data);
    let x = lowercase(hay);
    let y = lowercase(text);
    if holds_text(n, text) {
        let at = choose|at: int| occurs_at(x, y, at);
        assert forall|i: int| 0 <= i < text.len() implies alike(#[trigger] text[i], hay[at + i]) by {
            assert(x.subrange(at, at + y.len())[i] == y[i]);
            assert((text[i] as int) < 128 && (hay[at + i] as int) < 128);
            assert(ascii_lower(text[i]) == ascii_lower(hay[at + i]));
        }
        assert(alike_at(hay, text, at));
    }
    if exists|at: int| #[trigger] alike_at(hay, text, at) {
        let at = choose|at: int| #[trigger] alike_at(hay, text, at);
        assert forall|i: int| 0 <= i < y.len() implies x.subrange(at, at + y.len())[i] == y[i] by {
            assert(alike(text[i], hay[at + i]));
        }
        assert(x.subrange(at, at + y.len()) =~= y);
        assert(occurs_at(x, y, at));
    }
}

/// Whether a version meets all conditions of a query.
spec fn meets_all(n: NodeV, q: QueryV) -> bool {
    forall|i: int| 0 <= i < q.wheres.len() ==> where_holds(n, #[trigger] q.wheres[i])
}

proof fn lemma_same_conditions(n: NodeV, q: QueryV, r: QueryV)
    requires
        r.wheres == q.wheres,
    ensures
        meets_all(n, r) == meets_all(n, q),
{
}

/// A version meets a query just where it meets each of its conditions, is valid
/// at its date and holds its text: a query that asks for one thing more is met
/// by those that meet the query without it and the one thing.
pub proof fn lemma_all_asked(n: NodeV, q: QueryV, w: WhereV, date: Seq<char>, text: Seq<char>)
    ensures
        selected(n, QueryV { wheres: q.wheres.push(w), ..q }) <==> selected(n, q) && where_holds(n, w),
        q.valid_as_of is None ==> (selected(n, QueryV { valid_as_of: Some(date), ..q }) <==> selected(
            n,
            q,
        ) && valid_at(n, date)),
        q.search is None ==> (selected(n, QueryV { search: Some(text), ..q }) <==> selected(n, q)
            && holds_text(n, text)),
        q.wheres.len() == 0 && q.valid_as_of is None && q.search is None ==> selected(n, q),
{
    lemma_same_conditions(n, q, QueryV { valid_as_of: Some(date), ..q });
    lemma_same_conditions(n, q, QueryV { search: Some(text), ..q });
    let more = q.wheres.push(w);
    assert(more[q.wheres.len() as int] == w);
    assert forall|i: int| 0 <= i < q.wheres.len() implies #[trigger] q.wheres[i] == more[i] by {}
    let r = QueryV { wheres: more, ..q };
    if selected(n, r) {
        assert forall|i: int| 0 <= i < q.wheres.len() implies where_holds(
            n,
            #[trigger] q.wheres[i],
        ) by {
            assert(where_holds(n, r.wheres[i]));
        }
        assert(where_holds(n, r.wheres[q.wheres.len() as int]));
    }
    if selected(n, q) && where_holds(n, w) {
        assert forall|i: int| 0 <= i < more.len() implies where_holds(n, #[trigger] more[i]) by {
            if i < q.wheres.len() {
                assert(where_holds(n, q.wheres[i]));
            }
        }
    }
}

} // verus!
