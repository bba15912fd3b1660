//! JSON values in an order, and sorting by it.

use std::cmp::Ordering;
use vstd::prelude::*;
use vstd::std_specs::cmp::{PartialEqSpecImpl, PartialOrdSpecImpl};
use crate::double::{number_equal, total_order, Double};
use crate::json::{num_bits, Json, JsonValue};
use crate::text::{
    compare_text, int_order, lemma_bytes_order_transitive, lemma_text_order, same_text, text_order,
    Order,
};

verus! {

/// A JSON value as it is ordered: null, booleans, numbers, texts, arrays, and
/// last the objects, which are all alike.
#[derive(Debug)]
pub enum OrderedValue {
    Null,
    Bool(bool),
    Number(Double),
    Str(String),
    Array(Vec<OrderedValue>),
    Object,
}

/// What an ordered value is.
pub enum Key {
    Null,
    Bool(bool),
    Number(u64),
    Str(Seq<char>),
    Array(Seq<Key>),
    Object,
}

impl OrderedValue {
    pub open spec fn key(self) -> Key
        decreases self,
    {
        match self {
            OrderedValue::Null => Key::Null,
            OrderedValue::Bool(b) => Key::Bool(b),
            OrderedValue::Number(d) => Key::Number(d.bits),
            OrderedValue::Str(s) => Key::Str(s@),
            OrderedValue::Array(a) => Key::Array(
                Seq::new(
                    a@.len(),
                    |i: int|
                        if 0 <= i < a@.len() {
                            a@[i].key()
                        } else {
                            Key::Null
                        },
                ),
            ),
            OrderedValue::Object => Key::Object,
        }
    }
}

impl View for OrderedValue {
    type V = Key;

    open spec fn view(&self) -> Key {
        self.key()
    }
}

/// What a JSON value is ordered as.
pub open spec fn key_of(j: Json) -> Key
    decreases j,
{
    match j {
        Json::Null => Key::Null,
        Json::Bool(b) => Key::Bool(b),
        Json::Number(n) => Key::Number(num_bits(n)),
        Json::Text(s) => Key::Str(s),
        Json::Array(a) => Key::Array(
            Seq::new(
                a.len(),
                |i: int|
                    if 0 <= i < a.len() {
                        key_of(a[i])
                    } else {
                        Key::Null
                    },
            ),
        ),
        Json::Object(_) => Key::Object,
    }
}

/// Where a kind of value stands among the kinds.
pub open spec fn class(k: Key) -> int {
    match k {
        Key::Null => 0,
        Key::Bool(_) => 1,
        Key::Number(_) => 2,
        Key::Str(_) => 3,
        Key::Array(_) => 4,
        Key::Object => 5,
    }
}

/// The order of two values.
pub open spec fn key_order(a: Key, b: Key) -> Order
    decreases a,
{
    match (a, b) {
        (Key::Bool(x), Key::Bool(y)) => int_order(
            if x {
                1
            } else {
                0
            },
            if y {
                1
            } else {
                0
            },
        ),
        (Key::Number(x), Key::Number(y)) => total_order(x, y),
        (Key::Str(x), Key::Str(y)) => text_order(x, y),
        (Key::Array(x), Key::Array(y)) => keys_order(x, y),
        _ => int_order(class(a), class(b)),
    }
}

/// The lexicographic order of two rows of values.
pub open spec fn keys_order(a: Seq<Key>, b: Seq<Key>) -> Order
    decreases a,
{
    if a.len() == 0 {
        if b.len() == 0 {
            Order::Equal
        } else {
            Order::Less
        }
    } else if b.len() == 0 {
        Order::Greater
    } else {
        match key_order(a[0], b[0]) {
            Order::Equal => keys_order(a.subrange(1, a.len() as int), b.subrange(1, b.len() as int)),
            o => o,
        }
    }
}

/// Whether two values are equal: numbers as numbers, objects always.
pub open spec fn key_equal(a: Key, b: Key) -> bool
    decreases a,
{
    match (a, b) {
        (Key::Null, Key::Null) => true,
        (Key::Bool(x), Key::Bool(y)) => x == y,
        (Key::Number(x), Key::Number(y)) => number_equal(x, y),
        (Key::Str(x), Key::Str(y)) => x == y,
        (Key::Array(x), Key::Array(y)) => x.len() == y.len() && forall|i: int|
            0 <= i < x.len() ==> key_equal(#[trigger] x[i], y[i]),
        (Key::Object, Key::Object) => true,
        _ => false,
    }
}

/// A value is as high as itself, and comparing the other way round flips the
/// result.
pub proof fn lemma_key_order(a: Key, b: Key)
    ensures
        key_order(a, a) == Order::Equal,
        key_order(b, a) == key_order(a, b).flipped(),
    decreases a,
{
    match a {
        Key::Str(x) => {
            lemma_text_order(x, x);
            if let Key::Str(y) = b {
                lemma_text_order(x, y);
            }
        },
        Key::Array(x) => {
            lemma_keys_order(x, x);
            if let Key::Array(y) = b {
                lemma_keys_order(x, y);
            }
        },
        _ => {},
    }
}

proof fn lemma_keys_order(a: Seq<Key>, b: Seq<Key>)
    ensures
        keys_order(a, a) == Order::Equal,
        keys_order(b, a) == keys_order(a, b).flipped(),
    decreases a,
{
    if a.len() > 0 {
        let a1 = a.subrange(1, a.len() as int);
        lemma_key_order(a[0], a[0]);
        lemma_keys_order(a1, a1);
        if b.len() > 0 {
            lemma_key_order(a[0], b[0]);
            lemma_keys_order(a1, b.subrange(1, b.len() as int));
        }
    }
}

/// The order of values is transitive.
pub proof fn lemma_key_order_transitive(a: Key, b: Key, c: Key)
    requires
        key_order(a, b) != Order::Greater,
        key_order(b, c) != Order::Greater,
    ensures
        key_order(a, c) != Order::Greater,
        key_order(a, c) == Order::Equal <==> key_order(a, b) == Order::Equal && key_order(b, c)
            == Order::Equal,
    decreases a,
{
    match (a, b, c) {
        (Key::Str(x), Key::Str(y), Key::Str(z)) => {
            lemma_bytes_order_transitive(
                vstd::utf8::encode_utf8(x),
                vstd::utf8::encode_utf8(y),
                vstd::utf8::encode_utf8(z),
            );
            lemma_text_order(x, y);
            lemma_text_order(y, z);
            lemma_text_order(x, z);
        },
        (Key::Array(x), Key::Array(y), Key::Array(z)) => {
            lemma_keys_order_transitive(x, y, z);
        },
        _ => {},
    }
}

proof fn lemma_keys_order_transitive(a: Seq<Key>, b: Seq<Key>, c: Seq<Key>)
    requires
        keys_order(a, b) != Order::Greater,
        keys_order(b, c) != Order::Greater,
    ensures
        keys_order(a, c) != Order::Greater,
        keys_order(a, c) == Order::Equal <==> keys_order(a, b) == Order::Equal && keys_order(b, c)
            == Order::Equal,
    decreases a,
{
    if a.len() > 0 && b.len() > 0 && c.len() > 0 {
        lemma_key_order_transitive(a[0], b[0], c[0]);
        if key_order(a[0], b[0]) == Order::Equal && key_order(b[0], c[0]) == Order::Equal {
            lemma_keys_order_transitive(
                a.subrange(1, a.len() as int),
                b.subrange(1, b.len() as int),
                c.subrange(1, c.len() as int),
            );
        }
    }
}

impl OrderedValue {
    /// What a JSON value is ordered as.
    pub fn of(v: &JsonValue) -> (r: OrderedValue)
        ensures
            r@ == key_of(v@),
        decreases v,
    {
        match v {
            JsonValue::Null => OrderedValue::Null,
            JsonValue::Bool(b) => OrderedValue::Bool(*b),
            JsonValue::Number(n) => OrderedValue::Number(n.double()),
            JsonValue::Text(s) => OrderedValue::Str(s.clone()),
            JsonValue::Array(a) => {
                let mut out: Vec<OrderedValue> = Vec::new();
                let mut i: usize = 0;
                while i < a.len()
                    invariant
                        i <= a.len(),
                        out.len() == i,
                        *v == JsonValue::Array(*a),
                        forall|j: int| 0 <= j < i ==> (#[trigger] out@[j])@ == key_of(a@[j]@),
                    decreases a.len() - i,
                {
                    assert(decreases_to!(v->Array_0 => v->Array_0@[i as int]));
                    out.push(OrderedValue::of(&a[i]));
                    i = i + 1;
                }
                let r = OrderedValue::Array(out);
                assert(r@->Array_0 =~= key_of(v@)->Array_0);
                r
            },
            JsonValue::Object(_) => OrderedValue::Object,
        }
    }

    fn class_number(&self) -> (r: u8)
        ensures
            r == class(self@),
    {
        match self {
            OrderedValue::Null => 0,
            OrderedValue::Bool(_) => 1,
            OrderedValue::Number(_) => 2,
            OrderedValue::Str(_) => 3,
            OrderedValue::Array(_) => 4,
            OrderedValue::Object => 5,
        }
    }

    /// The order of two values.
    pub fn order(&self, other: &OrderedValue) -> (r: Order)
        ensures
            r == key_order(self@, other@),
        decreases self,
    {
        match (self, other) {
            (OrderedValue::Bool(x), OrderedValue::Bool(y)) => {
                if *x == *y {
                    Order::Equal
                } else if *y {
                    Order::Less
                } else {
                    Order::Greater
                }
            },
            (OrderedValue::Number(x), OrderedValue::Number(y)) => x.order(y),
            (OrderedValue::Str(x), OrderedValue::Str(y)) => compare_text(x.as_str(), y.as_str()),
            (OrderedValue::Array(x), OrderedValue::Array(y)) => {
                let ghost ks = self@->Array_0;
                let ghost os = other@->Array_0;
                let mut i: usize = 0;
                assert(ks.subrange(0, ks.len() as int) =~= ks);
                assert(os.subrange(0, os.len() as int) =~= os);
                while i < x.len() && i < y.len()
                    invariant
                        i <= x.len(),
                        i <= y.len(),
                        *self == OrderedValue::Array(*x),
                        *other == OrderedValue::Array(*y),
                        ks == self@->Array_0,
                        os == other@->Array_0,
                        keys_order(ks, os) == keys_order(
                            ks.subrange(i as int, ks.len() as int),
                            os.subrange(i as int, os.len() as int),
                        ),
                    decreases x.len() - i,
                {
                    assert(decreases_to!(self->Array_0 => self->Array_0@[i as int]));
                    let ghost kr = ks.subrange(i as int, ks.len() as int);
                    let ghost or = os.subrange(i as int, os.len() as int);
                    assert(kr[0] == x@[i as int]@);
                    assert(or[0] == y@[i as int]@);
                    assert(kr.subrange(1, kr.len() as int) =~= ks.subrange(i + 1, ks.len() as int));
                    assert(or.subrange(1, or.len() as int) =~= os.subrange(i + 1, os.len() as int));
                    let o = x[i].order(&y[i]);
                    if o != Order::Equal {
                        return o;
                    }
                    i = i + 1;
                }
                if i < y.len() {
                    Order::Less
                } else if i < x.len() {
                    Order::Greater
                } else {
                    Order::Equal
                }
            },
            _ => {
                let a = self.class_number();
                let b = other.class_number();
                if a < b {
                    Order::Less
                } else if a == b {
                    Order::Equal
                } else {
                    Order::Greater
                }
            },
        }
    }

    /// Whether two values are equal.
    pub fn equals(&self, other: &OrderedValue) -> (r: bool)
        ensures
            r == key_equal(self@, other@),
        decreases self,
    {
        match (self, other) {
            (OrderedValue::Null, OrderedValue::Null) => true,
            (OrderedValue::Bool(x), OrderedValue::Bool(y)) => *x == *y,
            (OrderedValue::Number(x), OrderedValue::Number(y)) => x.equals(y),
            (OrderedValue::Str(x), OrderedValue::Str(y)) => same_text(x.as_str(), y.as_str()),
            (OrderedValue::Array(x), OrderedValue::Array(y)) => {
                if x.len() != y.len() {
                    return false;
                }
                let mut i: usize = 0;
                while i < x.len()
                    invariant
                        i <= x.len(),
                        x.len() == y.len(),
                        *self == OrderedValue::Array(*x),
                        *other == OrderedValue::Array(*y),
                        forall|j: int|
                            0 <= j < i ==> key_equal(
                                #[trigger] self@->Array_0[j],
                                other@->Array_0[j],
                            ),
                    decreases x.len() - i,
                {
                    assert(decreases_to!(self->Array_0 => self->Array_0@[i as int]));
                    assert(self@->Array_0[i as int] == x@[i as int]@);
                    assert(other@->Array_0[i as int] == y@[i as int]@);
                    if !x[i].equals(&y[i]) {
                        return false;
                    }
                    i = i + 1;
                }
                true
            },
            (OrderedValue::Object, OrderedValue::Object) => true,
            _ => false,
        }
    }
}

impl PartialEqSpecImpl for OrderedValue {
    open spec fn obeys_eq_spec() -> bool {
        true
    }

    open spec fn eq_spec(&self, other: &OrderedValue) -> bool {
        key_equal(self@, other@)
    }
}

impl PartialEq for OrderedValue {
    fn eq(&self, other: &OrderedValue) -> (r: bool) {
        self.equals(other)
    }
}

/// An order in the form that the comparison operators use.
pub open spec fn std_order(o: Order) -> Ordering {
    match o {
        Order::Less => Ordering::Less,
        Order::Equal => Ordering::Equal,
        Order::Greater => Ordering::Greater,
    }
}

impl PartialOrdSpecImpl for OrderedValue {
    open spec fn obeys_partial_cmp_spec() -> bool {
        true
    }

    open spec fn partial_cmp_spec(&self, other: &OrderedValue) -> Option<Ordering> {
        Some(std_order(key_order(self@, other@)))
    }
}

impl PartialOrd for OrderedValue {
    fn partial_cmp(&self, other: &OrderedValue) -> (r: Option<Ordering>) {
        match self.order(other) {
            Order::Less => Some(Ordering::Less),
            Order::Equal => Some(Ordering::Equal),
            Order::Greater => Some(Ordering::Greater),
        }
    }
}

} // verus!
