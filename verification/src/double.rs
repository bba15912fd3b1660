//! Doubles by their bits: how they compare, what integers become, and the
//! integers that they truncate to.

use vstd::arithmetic::div_mod::{lemma_div_is_ordered, lemma_fundamental_div_mod};
use vstd::arithmetic::power2::{lemma2_to64, lemma2_to64_rest, lemma_pow2_adds, lemma_pow2_pos, lemma_pow2_unfold, pow2};
use vstd::prelude::*;
use crate::text::{int_order, Order};

verus! {

/// A double-precision number.
#[derive(Clone, Copy, Debug)]
pub struct Double {
    pub bits: u64,
}

/// Two to the power 52: the weight of the exponent field.
pub const EXPONENT_UNIT: u64 = 0x10_0000_0000_0000;

/// The weight of the sign bit.
pub const SIGN: u64 = 0x8000_0000_0000_0000;

/// The first bits, sign left out, that are not those of a finite double.
pub const INFINITE: u64 = 0x7ff0_0000_0000_0000;

/// Whether the bits are those of a finite double.
pub open spec fn finite(bits: u64) -> bool {
    bits as int % (SIGN as int) < INFINITE
}

/// Whether the bits are those of a NaN.
pub open spec fn nan(bits: u64) -> bool {
    bits as int % (SIGN as int) > INFINITE
}

/// Whether the bits are those of a zero of either sign.
pub open spec fn zero(bits: u64) -> bool {
    bits as int % SIGN as int == 0
}

/// The place of the bits in the total order of doubles.
pub open spec fn rank(bits: u64) -> int {
    if bits < SIGN {
        bits as int
    } else {
        SIGN - bits - 1
    }
}

/// Whether two doubles are equal as numbers: the two zeros are, a NaN is
/// equal to nothing.
pub open spec fn number_equal(a: u64, b: u64) -> bool {
    !nan(a) && !nan(b) && (a == b || (zero(a) && zero(b)))
}

/// The place of the highest bit that is set.
pub open spec fn top_bit(n: nat) -> nat
    decreases n,
{
    if n < 2 {
        0
    } else {
        top_bit(n / 2) + 1
    }
}

/// The quotient rounded to the nearest integer, a tie to the even one.
pub open spec fn rounded(n: nat, d: nat) -> nat {
    let q = n / d;
    let r = n % d;
    if 2 * r < d || (2 * r == d && q % 2 == 0) {
        q
    } else {
        q + 1
    }
}

/// The significand of the double nearest to an integer: 53 bits, or the power
/// of two above them.
pub open spec fn significand(n: nat) -> nat {
    let e = top_bit(n);
    if e <= 52 {
        n * pow2((52 - e) as nat)
    } else {
        rounded(n, pow2((e - 52) as nat))
    }
}

/// The bits of the double nearest to an integer, as a number.
pub open spec fn integer_code(n: nat) -> int {
    if n == 0 {
        0
    } else {
        (1022 + top_bit(n)) * EXPONENT_UNIT + significand(n)
    }
}

/// The bits of the double nearest to an integer.
pub open spec fn integer_bits(n: nat) -> u64 {
    integer_code(n) as u64
}

/// The integer that a double truncates to, kept within 64 bits; zero for a
/// negative number and for a NaN.
pub open spec fn truncated(bits: u64) -> int {
    if bits >= SIGN || nan(bits) {
        0
    } else {
        let x = bits as int / EXPONENT_UNIT as int;
        let m = EXPONENT_UNIT + bits as int % EXPONENT_UNIT as int;
        if x < 1023 {
            0
        } else if x >= 1087 {
            u64::MAX as int
        } else if x >= 1075 {
            m * pow2((x - 1075) as nat)
        } else {
            m / pow2((1075 - x) as nat) as int
        }
    }
}

proof fn powers()
    ensures
        pow2(0) == 1,
        pow2(1) == 2,
        pow2(10) == 0x400,
        pow2(11) == 0x800,
        pow2(52) == EXPONENT_UNIT,
        pow2(53) == 2 * EXPONENT_UNIT,
        pow2(64) == u64::MAX + 1,
{
    lemma2_to64();
    lemma2_to64_rest();
}

proof fn lemma_top_bit(n: nat)
    requires
        n > 0,
    ensures
        pow2(top_bit(n)) <= n < pow2(top_bit(n) + 1),
    decreases n,
{
    powers();
    if n >= 2 {
        lemma_top_bit(n / 2);
        lemma_pow2_unfold(top_bit(n));
        lemma_pow2_unfold(top_bit(n) + 1);
    }
}

proof fn lemma_significand(n: nat)
    requires
        n > 0,
    ensures
        EXPONENT_UNIT <= significand(n) <= 2 * EXPONENT_UNIT,
        top_bit(n) <= 52 ==> significand(n) < 2 * EXPONENT_UNIT,
{
    let e = top_bit(n);
    lemma_top_bit(n);
    powers();
    lemma_pow2_unfold(53);
    if e <= 52 {
        let p = pow2((52 - e) as nat);
        lemma_pow2_adds(e, (52 - e) as nat);
        lemma_pow2_adds(e + 1, (52 - e) as nat);
        lemma_pow2_pos((52 - e) as nat);
        assert(pow2(e) * p <= n * p < pow2(e + 1) * p) by (nonlinear_arith)
            requires
                pow2(e) <= n < pow2(e + 1),
                p > 0,
        ;
    } else {
        let d = pow2((e - 52) as nat);
        lemma_pow2_pos((e - 52) as nat);
        lemma_pow2_adds(52, (e - 52) as nat);
        lemma_pow2_adds(53, (e - 52) as nat);
        lemma_fundamental_div_mod(n as int, d as int);
        let q = n / d;
        assert(pow2(52) <= q < pow2(53)) by (nonlinear_arith)
            requires
                pow2(52) * d <= n < pow2(53) * d,
                n == d * q + n % d,
                0 <= n % d < d,
                d > 0,
        ;
    }
}

/// The bits of the double nearest to a 64-bit integer fit, and are those of a
/// finite double.
pub proof fn lemma_integer_code(n: nat)
    requires
        n <= u64::MAX,
    ensures
        0 <= integer_code(n) < INFINITE,
        integer_bits(n) == integer_code(n),
        n > 0 ==> integer_code(n) >= 1023 * EXPONENT_UNIT,
{
    if n > 0 {
        lemma_significand(n);
        lemma_top_bit(n);
        powers();
        lemma_pow2_unfold(64);
        if top_bit(n) >= 64 {
            if top_bit(n) > 64 {
                vstd::arithmetic::power2::lemma_pow2_strictly_increases(64, top_bit(n));
            }
        }
    }
}

/// A larger integer never becomes a smaller double.
pub proof fn lemma_integer_bits_monotonic(a: nat, b: nat)
    requires
        a <= b <= u64::MAX,
    ensures
        rank(integer_bits(a)) <= rank(integer_bits(b)),
{
    lemma_integer_code(a);
    lemma_integer_code(b);
    if a > 0 {
        lemma_significand(a);
        lemma_significand(b);
        lemma_top_bit(a);
        lemma_top_bit(b);
        let ea = top_bit(a);
        let eb = top_bit(b);
        if eb < ea {
            if eb + 1 < ea {
                vstd::arithmetic::power2::lemma_pow2_strictly_increases(eb + 1, ea);
            }
        }
        if ea == eb {
            if ea <= 52 {
                let p = pow2((52 - ea) as nat);
                assert(a * p <= b * p) by (nonlinear_arith)
                    requires
                        a <= b,
                        p >= 0,
                ;
            } else {
                let d = pow2((ea - 52) as nat);
                lemma_pow2_pos((ea - 52) as nat);
                lemma_div_is_ordered(a as int, b as int, d as int);
                lemma_fundamental_div_mod(a as int, d as int);
                lemma_fundamental_div_mod(b as int, d as int);
            }
        }
    }
}

/// An integer of at most 53 bits survives being made a double and truncated.
pub proof fn lemma_truncated_integer(n: nat)
    requires
        n < 2 * EXPONENT_UNIT,
    ensures
        truncated(integer_bits(n)) == n,
{
    lemma_integer_code(n);
    if n > 0 {
        lemma_significand(n);
        lemma_top_bit(n);
        powers();
        lemma_pow2_unfold(53);
        let e = top_bit(n);
        if e > 52 {
            if e > 53 {
                vstd::arithmetic::power2::lemma_pow2_strictly_increases(53, e);
            }
        }
        let bits = integer_code(n);
        let s = significand(n);
        assert(bits == (1023 + e) * EXPONENT_UNIT + (s - EXPONENT_UNIT));
        assert(bits / EXPONENT_UNIT as int == 1023 + e) by (nonlinear_arith)
            requires
                bits == (1023 + e) * EXPONENT_UNIT + (s - EXPONENT_UNIT),
                EXPONENT_UNIT <= s < 2 * EXPONENT_UNIT,
                EXPONENT_UNIT > 0,
        ;
        lemma_fundamental_div_mod(bits, EXPONENT_UNIT as int);
        assert(bits % EXPONENT_UNIT as int == s - EXPONENT_UNIT);
        let p = pow2((52 - e) as nat);
        lemma_pow2_pos((52 - e) as nat);
        assert((n * p) / p == n) by {
            vstd::arithmetic::div_mod::lemma_div_multiples_vanish(n as int, p as int);
            vstd::arithmetic::mul::lemma_mul_is_commutative(n as int, p as int);
        }
        let b = integer_bits(n);
        assert(b < SIGN && !nan(b));
        assert(b as int / EXPONENT_UNIT as int == 1023 + e);
        assert(EXPONENT_UNIT + b as int % EXPONENT_UNIT as int == n * p);
        if e == 52 {
            assert(n * 1 == n);
        } else {
            assert(1075 - (1023 + e) == 52 - e);
            assert(truncated(b) == (n * p) as int / p as int);
        }
    } else {
        assert(truncated(0) == 0);
    }
}

/// The order of two doubles as numbers agrees with their total order, except
/// that the two zeros are equal.
pub open spec fn total_order(a: u64, b: u64) -> Order {
    int_order(rank(a), rank(b))
}

impl Double {
    /// Whether the double is finite.
    pub fn is_finite(&self) -> (r: bool)
        ensures
            r == finite(self.bits),
    {
        self.bits % SIGN < INFINITE
    }

    /// The total order of doubles: the negative NaNs first, then the numbers,
    /// negative zero before zero, then the other NaNs.
    pub fn order(&self, other: &Double) -> (r: Order)
        ensures
            r == total_order(self.bits, other.bits),
    {
        let a: i128 = Self::place(self.bits);
        let b: i128 = Self::place(other.bits);
        if a < b {
            Order::Less
        } else if a == b {
            Order::Equal
        } else {
            Order::Greater
        }
    }

    fn place(bits: u64) -> (r: i128)
        ensures
            r == rank(bits),
    {
        if bits < SIGN {
            bits as i128
        } else {
            SIGN as i128 - bits as i128 - 1
        }
    }

    /// Whether the two are equal as numbers.
    pub fn equals(&self, other: &Double) -> (r: bool)
        ensures
            r == number_equal(self.bits, other.bits),
    {
        let a: u64 = self.bits % SIGN;
        let b: u64 = other.bits % SIGN;
        a <= INFINITE && b <= INFINITE && (self.bits == other.bits || (a == 0 && b == 0))
    }

    /// The double nearest to an integer.
    pub fn from_u64(n: u64) -> (r: Double)
        ensures
            r.bits == integer_bits(n as nat),
    {
        if n == 0 {
            return Double { bits: 0 };
        }
        proof {
            lemma_integer_code(n as nat);
            lemma_significand(n as nat);
            lemma_top_bit(n as nat);
            powers();
            lemma_pow2_unfold(64);
            assert(top_bit(n as nat) < 64) by {
                if top_bit(n as nat) > 64 {
                    vstd::arithmetic::power2::lemma_pow2_strictly_increases(64, top_bit(n as nat));
                }
            }
        }
        let mut e: u64 = 0;
        let mut m: u64 = n;
        while m >= 2
            invariant
                m > 0,
                top_bit(n as nat) == e + top_bit(m as nat),
                top_bit(n as nat) < 64,
            decreases m,
        {
            m = m / 2;
            e = e + 1;
        }
        let mut s: u64 = n;
        if e <= 52 {
            let mut k: u64 = e;
            assert(n * pow2(0) == n);
            while k < 52
                invariant
                    e <= k <= 52,
                    s == n * pow2((k - e) as nat),
                    n < pow2((e + 1) as nat),
                decreases 52 - k,
            {
                proof {
                    lemma_pow2_unfold((k - e + 1) as nat);
                    lemma_pow2_adds((e + 1) as nat, (k - e) as nat);
                    powers();
                    lemma_pow2_unfold(53);
                    if k + 1 < 53 {
                        vstd::arithmetic::power2::lemma_pow2_strictly_increases((k + 1) as nat, 53);
                    }
                    let p = pow2((k - e) as nat);
                    lemma_pow2_pos((k - e) as nat);
                    let b = pow2((e + 1) as nat);
                    assert(n * p <= b * p) by (nonlinear_arith)
                        requires
                            n < b,
                            p > 0,
                    ;
                    assert(n * (2 * p) == 2 * (n * p)) by (nonlinear_arith);
                }
                s = s * 2;
                k = k + 1;
            }
        } else {
            let mut d: u64 = 1;
            let mut k: u64 = 52;
            while k < e
                invariant
                    52 <= k <= e < 64,
                    d == pow2((k - 52) as nat),
                    d <= 0x800,
                    pow2(0) == 1,
                decreases e - k,
            {
                proof {
                    lemma_pow2_unfold((k - 52 + 1) as nat);
                    powers();
                    if k - 52 + 1 < 11 {
                        vstd::arithmetic::power2::lemma_pow2_strictly_increases(
                            (k - 52 + 1) as nat,
                            11,
                        );
                    }
                }
                d = d * 2;
                k = k + 1;
            }
            proof {
                lemma_pow2_pos((e - 52) as nat);
                lemma_fundamental_div_mod(n as int, d as int);
            }
            let q: u64 = n / d;
            let r: u64 = n % d;
            if 2 * r < d || (2 * r == d && q % 2 == 0) {
                s = q;
            } else {
                s = q + 1;
            }
        }
        Double { bits: (1022 + e) * EXPONENT_UNIT + s }
    }

    /// The double nearest to an integer that may be negative.
    pub fn from_i64(n: i64) -> (r: Double)
        ensures
            n >= 0 ==> r.bits == integer_bits(n as nat),
            n < 0 ==> r.bits == SIGN + integer_bits((-n) as nat),
    {
        if n >= 0 {
            Double::from_u64(n as u64)
        } else {
            let magnitude: u64 = (-(n as i128)) as u64;
            proof {
                lemma_integer_code((-n) as nat);
            }
            Double { bits: SIGN + Double::from_u64(magnitude).bits }
        }
    }

    /// The integer that the double truncates to, kept within 64 bits.
    pub fn to_u64(&self) -> (r: u64)
        ensures
            r == truncated(self.bits),
    {
        let bits = self.bits;
        if bits >= SIGN || bits > INFINITE {
            return 0;
        }
        let x: u64 = bits / EXPONENT_UNIT;
        let m: u64 = EXPONENT_UNIT + bits % EXPONENT_UNIT;
        if x < 1023 {
            0
        } else if x >= 1087 {
            u64::MAX
        } else if x >= 1075 {
            let mut v: u64 = m;
            let mut k: u64 = 1075;
            assert(m * pow2(0) == m) by {
                powers();
            }
            while k < x
                invariant
                    1075 <= k <= x < 1087,
                    m < 2 * EXPONENT_UNIT,
                    v == m * pow2((k - 1075) as nat),
                decreases x - k,
            {
                proof {
                    lemma_pow2_unfold((k - 1075 + 1) as nat);
                    powers();
                    if k - 1075 < 10 {
                        vstd::arithmetic::power2::lemma_pow2_strictly_increases(
                            (k - 1075) as nat,
                            10,
                        );
                    }
                    let p = pow2((k - 1075) as nat);
                    lemma_pow2_pos((k - 1075) as nat);
                    assert(m * p < 2 * EXPONENT_UNIT * 0x400) by (nonlinear_arith)
                        requires
                            m < 2 * EXPONENT_UNIT,
                            0 < p <= 0x400,
                    ;
                    assert(m * (2 * p) == 2 * (m * p)) by (nonlinear_arith);
                }
                v = v * 2;
                k = k + 1;
            }
            v
        } else {
            let mut d: u64 = 1;
            let mut k: u64 = x;
            assert(pow2(0) == 1) by {
                powers();
            }
            while k < 1075
                invariant
                    1023 <= x <= k <= 1075,
                    d == pow2((k - x) as nat),
                    d <= EXPONENT_UNIT,
                decreases 1075 - k,
            {
                proof {
                    lemma_pow2_unfold((k - x + 1) as nat);
                    powers();
                    if k - x + 1 < 52 {
                        vstd::arithmetic::power2::lemma_pow2_strictly_increases(
                            (k - x + 1) as nat,
                            52,
                        );
                    }
                }
                d = d * 2;
                k = k + 1;
            }
            proof {
                lemma_pow2_pos((1075 - x) as nat);
            }
            m / d
        }
    }
}

} // verus!
