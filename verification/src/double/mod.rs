//! Binary64 arithmetic on bit patterns.
//!
//! A [`Double`] is an IEEE 754 binary64 number held as its 64-bit pattern.
//! Every operation is stated against the exact result over the integers,
//! rounded to the nearest pattern with ties to even, and is computed with
//! integer arithmetic only. A caller moves native floating-point values in and
//! out through their bit patterns.

pub mod decimal;
pub mod growth;
pub mod model;
pub mod near;
pub mod roots;
pub mod rounding;

use vstd::arithmetic::mul::*;
use vstd::arithmetic::power2::*;
use vstd::prelude::*;

use model::{
    lemma_nearest_exists, lemma_nearest_root_unique, lemma_nearest_unique, lemma_size_monotone, lemma_size_of,
    lemma_size_step, nearest, nearest_root, size, BINADE, INFINITE, NOT_A_NUMBER, SIGN, UNIT_EXPONENT,
};
use rounding::{lemma_wide_quotient, lemma_wide_root, power, round_wide, BIAS};

verus! {

/// An IEEE 754 binary64 number, held as its bit pattern.
///
/// `==` compares patterns; [`Double::equals`] compares numbers.
#[derive(Clone, Copy, Debug, PartialEq, Eq, Structural)]
pub struct Double {
    pub bits: u64,
}

impl Double {
    /// The pattern without its sign bit.
    pub open spec fn unsigned(self) -> nat {
        (self.bits % SIGN) as nat
    }

    pub open spec fn negative(self) -> bool {
        self.bits >= SIGN
    }

    pub open spec fn nan(self) -> bool {
        self.unsigned() > INFINITE
    }

    pub open spec fn infinite(self) -> bool {
        self.unsigned() == INFINITE
    }

    pub open spec fn finite(self) -> bool {
        self.unsigned() < INFINITE
    }

    pub open spec fn zero(self) -> bool {
        self.unsigned() == 0
    }

    /// The value of a finite number, in units of `2^-1074`.
    pub open spec fn units(self) -> int {
        if self.negative() {
            -(size(self.unsigned()) as int)
        } else {
            size(self.unsigned()) as int
        }
    }

    /// Position among the numbers in numeric order; the two zeros share one.
    pub open spec fn rank(self) -> int {
        if self.negative() {
            -(self.unsigned() as int)
        } else {
            self.unsigned() as int
        }
    }
}

/// The number with the given sign and unsigned pattern.
pub open spec fn pattern(negative: bool, k: nat) -> Double {
    Double { bits: (k + if negative { SIGN as nat } else { 0 }) as u64 }
}

pub open spec fn not_a_number() -> Double {
    Double { bits: NOT_A_NUMBER }
}

/// `num / den` units, rounded to the nearest number.
pub open spec fn rounded(negative: bool, num: nat, den: nat) -> Double {
    pattern(negative, choose|k: nat| nearest(num, den, k))
}

/// The square root of `square`, in units, rounded to the nearest number.
pub open spec fn rounded_root(square: nat) -> Double {
    pattern(false, choose|k: nat| nearest_root(square, k))
}

pub open spec fn magnitude(i: int) -> nat {
    if i < 0 {
        (-i) as nat
    } else {
        i as nat
    }
}

/// The number nearest to an integer.
#[verifier::opaque]
pub open spec fn integer(i: int) -> Double {
    rounded(i < 0, magnitude(i) * pow2(UNIT_EXPONENT as nat), 1)
}

/// `a` with its sign reversed.
pub open spec fn opposite(a: Double) -> Double {
    pattern(!a.negative(), a.unsigned())
}

/// `a` without its sign.
pub open spec fn absolute(a: Double) -> Double {
    pattern(false, a.unsigned())
}

/// `a + b`, correctly rounded.
#[verifier::opaque]
pub open spec fn sum(a: Double, b: Double) -> Double {
    if a.nan() || b.nan() || (a.infinite() && b.infinite() && a.negative() != b.negative()) {
        not_a_number()
    } else if a.infinite() {
        a
    } else if b.infinite() {
        b
    } else {
        let exact = a.units() + b.units();
        if exact == 0 {
            pattern(a.negative() && b.negative(), 0)
        } else {
            rounded(exact < 0, magnitude(exact), 1)
        }
    }
}

/// `a - b`, correctly rounded.
pub open spec fn difference(a: Double, b: Double) -> Double {
    sum(a, opposite(b))
}

/// `a * b`, correctly rounded.
#[verifier::opaque]
pub open spec fn product(a: Double, b: Double) -> Double {
    let negative = a.negative() != b.negative();
    if a.nan() || b.nan() || (a.infinite() && b.zero()) || (a.zero() && b.infinite()) {
        not_a_number()
    } else if a.infinite() || b.infinite() {
        pattern(negative, INFINITE as nat)
    } else {
        rounded(negative, size(a.unsigned()) * size(b.unsigned()), pow2(UNIT_EXPONENT as nat))
    }
}

/// `a / b`, correctly rounded.
#[verifier::opaque]
pub open spec fn quotient(a: Double, b: Double) -> Double {
    let negative = a.negative() != b.negative();
    if a.nan() || b.nan() || (a.infinite() && b.infinite()) || (a.zero() && b.zero()) {
        not_a_number()
    } else if a.infinite() || b.zero() {
        pattern(negative, INFINITE as nat)
    } else if b.infinite() {
        pattern(negative, 0)
    } else {
        rounded(negative, size(a.unsigned()) * pow2(UNIT_EXPONENT as nat), size(b.unsigned()))
    }
}

/// The number nearest to the decimal fraction `num / den`.
pub open spec fn ratio(num: int, den: int) -> Double {
    quotient(integer(num), integer(den))
}

/// What is left of `a` after division by `b` without a fraction; it has the sign
/// of `a`, and rounding it changes nothing.
#[verifier::opaque]
pub open spec fn remainder(a: Double, b: Double) -> Double {
    if a.nan() || b.nan() || a.infinite() || b.zero() {
        not_a_number()
    } else if b.infinite() {
        a
    } else {
        rounded(a.negative(), size(a.unsigned()) % size(b.unsigned()), 1)
    }
}

/// The least remainder that is not negative.
pub open spec fn least_remainder(a: Double, b: Double) -> Double {
    let r = remainder(a, b);
    if less(r, integer(0)) {
        sum(r, absolute(b))
    } else {
        r
    }
}

/// The square root of `a`, correctly rounded.
#[verifier::opaque]
pub open spec fn root(a: Double) -> Double {
    if a.nan() || (a.negative() && !a.zero()) {
        not_a_number()
    } else if a.infinite() || a.zero() {
        a
    } else {
        rounded_root(size(a.unsigned()) * pow2(UNIT_EXPONENT as nat))
    }
}

/// `a < b` as numbers; false when either is not a number.
#[verifier::opaque]
pub open spec fn less(a: Double, b: Double) -> bool {
    !a.nan() && !b.nan() && a.rank() < b.rank()
}

/// `a <= b` as numbers; false when either is not a number.
#[verifier::opaque]
pub open spec fn at_most(a: Double, b: Double) -> bool {
    !a.nan() && !b.nan() && a.rank() <= b.rank()
}

/// The larger of two numbers; a number wins over what is not one.
pub open spec fn larger(a: Double, b: Double) -> Double {
    if a.nan() || less(a, b) {
        b
    } else {
        a
    }
}

/// The smaller of two numbers; a number wins over what is not one.
pub open spec fn smaller(a: Double, b: Double) -> Double {
    if a.nan() || less(b, a) {
        b
    } else {
        a
    }
}

/// `a` brought into `low..=high`; what is not a number stays so.
pub open spec fn clamped(a: Double, low: Double, high: Double) -> Double {
    if less(a, low) {
        low
    } else if less(high, a) {
        high
    } else {
        a
    }
}

/// The units in one.
pub open spec fn one() -> nat {
    pow2(UNIT_EXPONENT as nat)
}

/// The integer part of a finite number.
pub open spec fn whole(a: Double) -> int {
    let w = (size(a.unsigned()) / one()) as int;
    if a.negative() {
        -w
    } else {
        w
    }
}

/// The nearest integer, ties away from zero; the sign is kept.
#[verifier::opaque]
pub open spec fn nearest_whole(a: Double) -> Double {
    if a.finite() {
        let w = (2 * size(a.unsigned()) + one()) / (2 * one());
        pattern(a.negative(), integer(w as int).unsigned())
    } else {
        a
    }
}

/// `a` rounded to a multiple of `1 / parts`.
pub open spec fn to_parts(a: Double, parts: int) -> Double {
    quotient(nearest_whole(product(a, integer(parts))), integer(parts))
}

/// The largest integer not above `a`; the sign is kept.
#[verifier::opaque]
pub open spec fn floored(a: Double) -> Double {
    if a.finite() {
        let w = size(a.unsigned()) / one();
        if a.negative() && size(a.unsigned()) % one() != 0 {
            pattern(true, integer((w + 1) as int).unsigned())
        } else {
            pattern(a.negative(), integer(w as int).unsigned())
        }
    } else {
        a
    }
}

/// The integer part, saturating at the ends of the 64-bit range; zero for what
/// is not a number.
#[verifier::opaque]
pub open spec fn truncated(a: Double, low: int, high: int) -> int {
    if a.nan() {
        0
    } else if a.infinite() {
        if a.negative() { low } else { high }
    } else if whole(a) < low {
        low
    } else if whole(a) > high {
        high
    } else {
        whole(a)
    }
}

/// Sign and unsigned pattern put together.
fn assemble(negative: bool, k: u64) -> (r: Double)
    requires
        k < SIGN,
    ensures
        r == pattern(negative, k as nat),
        r.unsigned() == k,
        r.negative() == negative,
{
    if negative {
        Double { bits: SIGN + k }
    } else {
        Double { bits: k }
    }
}

/// Rounds a wide significand that encloses `num / den`.
fn round_quotient(negative: bool, sig: u128, u: u32, sticky: bool, num: Ghost<nat>, den: Ghost<nat>) -> (r: Double)
    requires
        sig < pow2(120),
        100 <= u <= 4400,
        sticky ==> sig >= pow2(55),
        den@ > 0,
        !sticky ==> sig * pow2(u as nat) * den@ == num@ * pow2(BIAS as nat),
        sticky ==> sig * pow2(u as nat) * den@ < num@ * pow2(BIAS as nat) < (sig + 1) * pow2(u as nat) * den@,
    ensures
        r == rounded(negative, num@, den@),
        nearest(num@, den@, r.unsigned()),
        r.negative() == negative,
{
    proof {
        lemma_small_wide(sig as nat, u as nat);
    }
    let k: u64 = round_wide(sig, u, sticky);
    proof {
        lemma_wide_quotient(sig as nat, u as nat, sticky, k as nat, num@, den@);
        let c = choose|c: nat| nearest(num@, den@, c);
        lemma_nearest_unique(num@, den@, k as nat, c);
    }
    assemble(negative, k)
}

proof fn lemma_small_wide(sig: nat, u: nat)
    requires
        sig < pow2(120),
        u <= 4400,
    ensures
        sig * pow2(u) < pow2((BIAS + 3500) as nat),
{
    lemma_pow2_adds(120, u);
    lemma_pow2_pos(u);
    lemma_mul_strict_inequality(sig as int, pow2(120) as int, pow2(u) as int);
    lemma_pow2_strictly_increases(120 + u, (BIAS + 3500) as nat);
}

/// Brings a significand with exponent `t` to the exponent `high - 64`.
fn align(m: u64, t: u32, high: u32) -> (r: (u128, bool))
    requires
        m < 2 * BINADE,
        t <= high <= 2046,
    ensures
        ({
            let w = pow2((high + BIAS - 64) as nat);
            let exact = m * pow2(t as nat) * pow2(BIAS as nat);
            &&& !r.1 ==> r.0 * w == exact
            &&& r.1 ==> r.0 * w < exact < (r.0 + 1) * w
        }),
        r.0 < pow2(117),
        t < high ==> r.0 < pow2(116),
        r.1 ==> t + 64 < high && r.0 < pow2(53),
        t == high ==> r.0 == m * 0x1_0000_0000_0000_0000,
{
    let d: u32 = high - t;
    let ghost w = pow2((high + BIAS - 64) as nat);
    let ghost v = pow2((t + BIAS) as nat);
    proof {
        lemma2_to64();
        lemma2_to64_rest();
        lemma_pow2_adds(t as nat, BIAS as nat);
        let (a, b) = (pow2(t as nat), pow2(BIAS as nat));
        assert(m * a * b == m * (a * b)) by (nonlinear_arith);
        lemma_pow2_pos((t + BIAS) as nat);
        lemma_pow2_adds(53, 64);
        lemma_pow2_adds(53, 63);
    }
    if d <= 64 {
        let p: u128 = power(64 - d);
        proof {
            lemma_pow2_adds((64 - d) as nat, (high + BIAS - 64) as nat);
            if d > 0 {
                if d > 1 {
                    lemma_pow2_strictly_increases((64 - d) as nat, 63);
                }
                assert(m * p < pow2(53) * pow2(63)) by (nonlinear_arith)
                    requires m < pow2(53), 0 < p <= pow2(63);
            }
            assert(m * p < pow2(53) * pow2(64)) by (nonlinear_arith)
                requires m < pow2(53), 0 < p <= pow2(64);
            assert((m * p) * w == m * (p * w)) by (nonlinear_arith);
            assert(0x20_0000_0000_0000 * 0x1_0000_0000_0000_0000 < u128::MAX);
        }
        ((m as u128) * p, false)
    } else {
        let s: u32 = d - 64;
        proof {
            lemma_pow2_adds(s as nat, (t + BIAS) as nat);
            assert(w == pow2(s as nat) * v);
            lemma_pow2_strictly_increases(53, 116);
        }
        if s >= 54 {
            proof {
                if s > 54 {
                    lemma_pow2_strictly_increases(54, s as nat);
                }
                lemma_pow2_unfold(54);
                let q = pow2(s as nat);
                assert(m * v < q * v) by (nonlinear_arith) requires m < q, v > 0;
                assert(m > 0 ==> m * v > 0) by (nonlinear_arith) requires v > 0;
                assert(0 * w == 0) by (nonlinear_arith);
                assert(m == 0 ==> m * v == 0) by (nonlinear_arith);
                assert(1 * w == w) by (nonlinear_arith);
            }
            (0, m != 0)
        } else {
            let p: u128 = power(s);
            let q: u128 = (m as u128) / p;
            let r: u128 = (m as u128) % p;
            proof {
                vstd::arithmetic::div_mod::lemma_fundamental_div_mod(m as int, p as int);
                assert(m * v == q * (p * v) + r * v) by (nonlinear_arith)
                    requires m == p * q + r;
                assert(r * v < p * v) by (nonlinear_arith) requires r < p, v > 0;
                assert(r > 0 ==> r * v > 0) by (nonlinear_arith) requires v > 0;
                assert((q + 1) * w == q * w + w) by (nonlinear_arith);
                assert(r == 0 ==> r * v == 0) by (nonlinear_arith);
                assert(q <= m) by (nonlinear_arith) requires m == p * q + r, p >= 1, q >= 0, r >= 0;
            }
            (q, r != 0)
        }
    }
}

/// The sum of two finite numbers, the one with the larger exponent first.
fn add_aligned(a: Double, b: Double, ma: u64, ta: u32, mb: u64, tb: u32) -> (r: Double)
    requires
        a.finite(),
        b.finite(),
        ma < 2 * BINADE,
        mb < 2 * BINADE,
        tb <= ta <= 2045,
        ta > 0 ==> ma >= BINADE,
        size(a.unsigned()) == ma * pow2(ta as nat),
        size(b.unsigned()) == mb * pow2(tb as nat),
    ensures
        r == sum(a, b),
{
    proof {
        reveal(sum);
    }
    let u: u32 = ta + BIAS - 64;
    let ghost w = pow2(u as nat);
    let ghost z = pow2(BIAS as nat);
    let ghost exact = a.units() + b.units();
    proof {
        lemma2_to64();
        lemma2_to64_rest();
        lemma_pow2_pos(u as nat);
        lemma_pow2_pos(BIAS as nat);
        lemma_pow2_adds(52, 64);
        lemma_pow2_unfold(117);
        lemma_pow2_unfold(118);
        lemma_pow2_strictly_increases(55, 115);
        lemma_pow2_unfold(116);
        lemma_pow2_strictly_increases(118, 120);
    }
    let (sa, _) = align(ma, ta, ta);
    let (sb, sticky) = align(mb, tb, ta);
    let na = a.is_negative();
    let nb = b.is_negative();
    let ghost xa = ma * pow2(ta as nat) * z;
    let ghost xb = mb * pow2(tb as nat) * z;
    if na == nb {
        let sig: u128 = sa + sb;
        proof {
            assert(sig * w == sa * w + sb * w) by (nonlinear_arith) requires sig == sa + sb;
            assert((sig + 1) * w == sa * w + (sb + 1) * w) by (nonlinear_arith) requires sig == sa + sb;
            let num = magnitude(exact);
            assert(num == size(a.unsigned()) + size(b.unsigned()));
            assert(num * z == xa + xb) by (nonlinear_arith)
                requires
                    num == size(a.unsigned()) + size(b.unsigned()),
                    xa == size(a.unsigned()) * z,
                    xb == size(b.unsigned()) * z;
            assert(sig * w * 1 == sig * w);
            assert((sig + 1) * w * 1 == (sig + 1) * w);
            if sig == 0 {
                assert(num * z == 0);
                assert(num == 0) by (nonlinear_arith) requires num * z == 0, z > 0, num >= 0;
            } else {
                assert(num > 0) by (nonlinear_arith)
                    requires num * z >= sig * w, sig > 0, w > 0, z > 0;
            }
        }
        if sig == 0 {
            return assemble(na, 0);
        }
        round_quotient(na, sig, u, sticky, Ghost(magnitude(exact)), Ghost(1))
    } else {
        proof {
            if tb < ta {
                assert(sa >= pow2(116));
            }
        }
        if sa > sb {
            let borrow: u128 = if sticky { 1 } else { 0 };
            let sig: u128 = sa - sb - borrow;
            proof {
                assert((sa - sb) * w == sa * w - sb * w) by (nonlinear_arith);
                assert((sa - sb - 1) * w == sa * w - (sb + 1) * w) by (nonlinear_arith);
                let num = size(a.unsigned()) - size(b.unsigned());
                assert(num * z == xa - xb) by (nonlinear_arith)
                    requires
                        num == size(a.unsigned()) - size(b.unsigned()),
                        xa == size(a.unsigned()) * z,
                        xb == size(b.unsigned()) * z;
                if sticky {
                    lemma_pow2_strictly_increases(53, 115);
                }
                assert((sa - sb) * w > 0) by (nonlinear_arith) requires sa > sb, w > 0;
                assert(sig >= 0 ==> sig * w >= 0) by (nonlinear_arith) requires w > 0;
                assert(num > 0) by (nonlinear_arith) requires num * z > 0, z > 0;
                assert(num == magnitude(exact));
                assert(sig * w * 1 == sig * w);
                assert((sig + 1) * w * 1 == (sig + 1) * w);
            }
            round_quotient(na, sig, u, sticky, Ghost(magnitude(exact)), Ghost(1))
        } else {
            let sig: u128 = sb - sa;
            proof {
                assert(!sticky);
                assert(sig * w == sb * w - sa * w) by (nonlinear_arith) requires sig == sb - sa;
                let num = size(b.unsigned()) - size(a.unsigned());
                assert(num * z == xb - xa) by (nonlinear_arith)
                    requires
                        num == size(b.unsigned()) - size(a.unsigned()),
                        xa == size(a.unsigned()) * z,
                        xb == size(b.unsigned()) * z;
                assert(sig * w * 1 == sig * w);
                if sig == 0 {
                    assert(num == 0) by (nonlinear_arith) requires num * z == 0, z > 0;
                } else {
                    assert(sig * w > 0) by (nonlinear_arith) requires sig > 0, w > 0;
                    assert(num > 0) by (nonlinear_arith) requires num * z > 0, z > 0;
                }
            }
            if sig == 0 {
                return assemble(false, 0);
            }
            round_quotient(nb, sig, u, false, Ghost(magnitude(exact)), Ghost(1))
        }
    }
}

impl Double {
    /// Reads a number from its bit pattern.
    pub fn from_bits(bits: u64) -> (r: Double)
        ensures
            r.bits == bits,
    {
        Double { bits }
    }

    /// The bit pattern of the number.
    pub fn to_bits(self) -> (r: u64)
        ensures
            r == self.bits,
    {
        self.bits
    }

    pub fn is_nan(self) -> (r: bool)
        ensures
            r == self.nan(),
    {
        self.bits % SIGN > INFINITE
    }

    pub fn is_finite(self) -> (r: bool)
        ensures
            r == self.finite(),
    {
        self.bits % SIGN < INFINITE
    }

    fn is_negative(self) -> (r: bool)
        ensures
            r == self.negative(),
    {
        self.bits >= SIGN
    }

    fn is_zero(self) -> (r: bool)
        ensures
            r == self.zero(),
    {
        self.bits % SIGN == 0
    }

    fn is_infinite(self) -> (r: bool)
        ensures
            r == self.infinite(),
    {
        self.bits % SIGN == INFINITE
    }

    /// Significand and exponent of a finite number.
    fn parts(self) -> (r: (u64, u32))
        requires
            self.finite(),
        ensures
            r.0 < 2 * BINADE,
            r.1 <= 2045,
            r.1 > 0 ==> r.0 >= BINADE,
            size(self.unsigned()) == r.0 * pow2(r.1 as nat),
            r.0 == 0 <==> self.zero(),
    {
        let k: u64 = self.bits % SIGN;
        let e: u64 = k / BINADE;
        let f: u64 = k % BINADE;
        proof {
            lemma2_to64();
            vstd::arithmetic::div_mod::lemma_fundamental_div_mod(k as int, BINADE as int);
            assert(f * pow2(0) == f);
        }
        if e == 0 {
            (f, 0)
        } else {
            (BINADE + f, (e - 1) as u32)
        }
    }

    pub fn negate(self) -> (r: Double)
        ensures
            r == opposite(self),
    {
        assemble(!self.is_negative(), self.bits % SIGN)
    }

    pub fn abs(self) -> (r: Double)
        ensures
            r == absolute(self),
    {
        assemble(false, self.bits % SIGN)
    }

    pub fn is_less(self, other: Double) -> (r: bool)
        ensures
            r == less(self, other),
    {
        proof {
            reveal(less);
        }
        !self.is_nan() && !other.is_nan() && self.order() < other.order()
    }

    pub fn is_at_most(self, other: Double) -> (r: bool)
        ensures
            r == at_most(self, other),
    {
        proof {
            reveal(at_most);
        }
        !self.is_nan() && !other.is_nan() && self.order() <= other.order()
    }

    /// Equality of numbers: the two zeros are equal, and nothing equals what is
    /// not a number.
    pub fn equals(self, other: Double) -> (r: bool)
        ensures
            r == (at_most(self, other) && at_most(other, self)),
    {
        self.is_at_most(other) && other.is_at_most(self)
    }

    fn order(self) -> (r: i64)
        ensures
            r == self.rank(),
    {
        let k: i64 = (self.bits % SIGN) as i64;
        if self.is_negative() {
            -k
        } else {
            k
        }
    }

    pub fn max(self, other: Double) -> (r: Double)
        ensures
            r == larger(self, other),
    {
        if self.is_nan() || self.is_less(other) {
            other
        } else {
            self
        }
    }

    pub fn min(self, other: Double) -> (r: Double)
        ensures
            r == smaller(self, other),
    {
        if self.is_nan() || other.is_less(self) {
            other
        } else {
            self
        }
    }

    pub fn clamp(self, low: Double, high: Double) -> (r: Double)
        ensures
            r == clamped(self, low, high),
    {
        if self.is_less(low) {
            low
        } else if high.is_less(self) {
            high
        } else {
            self
        }
    }

    /// The number nearest to an unsigned integer.
    pub fn from_u64(i: u64) -> (r: Double)
        ensures
            r == integer(i as int),
            nearest(i as nat * pow2(UNIT_EXPONENT as nat), 1, r.unsigned()),
            !r.negative(),
    {
        proof {
            reveal(integer);
        }
        let ghost num = i as nat * pow2(UNIT_EXPONENT as nat);
        proof {
            lemma_pow2_adds(UNIT_EXPONENT as nat, BIAS as nat);
            let (a, b) = (pow2(UNIT_EXPONENT as nat), pow2(BIAS as nat));
            assert(i * (a * b) == (i * a) * b) by (nonlinear_arith);
            let c = i * pow2((UNIT_EXPONENT + BIAS) as nat);
            assert(c * 1 == c);
            lemma2_to64();
            lemma_pow2_strictly_increases(64, 120);
        }
        round_quotient(false, i as u128, 1074 + BIAS, false, Ghost(num as nat), Ghost(1))
    }

    /// The number nearest to a signed integer.
    pub fn from_i64(i: i64) -> (r: Double)
        ensures
            r == integer(i as int),
    {
        proof {
            reveal(integer);
        }
        if i < 0 {
            let m: u64 = if i == i64::MIN { 0x8000_0000_0000_0000 } else { (-i) as u64 };
            let r: Double = Double::from_u64(m);
            proof {
                let num = m as nat * pow2(UNIT_EXPONENT as nat);
                let c = choose|c: nat| nearest(num as nat, 1, c);
                lemma_nearest_unique(num as nat, 1, r.unsigned(), c);
            }
            assemble(true, r.bits % SIGN)
        } else {
            Double::from_u64(i as u64)
        }
    }

    /// The number nearest to the decimal fraction `num / den`.
    pub fn decimal(num: i64, den: i64) -> (r: Double)
        ensures
            r == ratio(num as int, den as int),
    {
        Double::from_i64(num).over(Double::from_i64(den))
    }

    pub fn plus(self, other: Double) -> (r: Double)
        ensures
            r == sum(self, other),
    {
        proof {
            reveal(sum);
        }
        if self.is_nan() || other.is_nan() {
            return Double { bits: NOT_A_NUMBER };
        }
        if self.is_infinite() {
            if other.is_infinite() && self.is_negative() != other.is_negative() {
                return Double { bits: NOT_A_NUMBER };
            }
            return self;
        }
        if other.is_infinite() {
            return other;
        }
        let (ma, ta) = self.parts();
        let (mb, tb) = other.parts();
        if ta >= tb {
            add_aligned(self, other, ma, ta, mb, tb)
        } else {
            add_aligned(other, self, mb, tb, ma, ta)
        }
    }

    pub fn minus(self, other: Double) -> (r: Double)
        ensures
            r == difference(self, other),
    {
        self.plus(other.negate())
    }

    pub fn times(self, other: Double) -> (r: Double)
        ensures
            r == product(self, other),
    {
        proof {
            reveal(product);
        }
        let negative = self.is_negative() != other.is_negative();
        if self.is_nan() || other.is_nan() {
            return Double { bits: NOT_A_NUMBER };
        }
        if self.is_infinite() || other.is_infinite() {
            if self.is_zero() || other.is_zero() {
                return Double { bits: NOT_A_NUMBER };
            }
            return assemble(negative, INFINITE);
        }
        let (ma, ta) = self.parts();
        let (mb, tb) = other.parts();
        proof {
            lemma2_to64();
            lemma2_to64_rest();
            lemma_pow2_adds(53, 53);
            lemma_pow2_strictly_increases(106, 120);
            assert(0x20_0000_0000_0000 * 0x20_0000_0000_0000 < u128::MAX);
            assert(ma * mb < pow2(53) * pow2(53)) by (nonlinear_arith)
                requires ma < pow2(53), mb < pow2(53);
        }
        let sig: u128 = (ma as u128) * (mb as u128);
        let u: u32 = ta + tb + BIAS - 1074;
        let ghost num = size(self.unsigned()) * size(other.unsigned());
        let ghost den = pow2(UNIT_EXPONENT as nat);
        proof {
            lemma_pow2_pos(UNIT_EXPONENT as nat);
            let (a, b) = (pow2(ta as nat), pow2(tb as nat));
            lemma_pow2_adds(ta as nat, tb as nat);
            lemma_pow2_adds((ta + tb) as nat, BIAS as nat);
            lemma_pow2_adds(u as nat, UNIT_EXPONENT as nat);
            let w = pow2(u as nat);
            let z = pow2(BIAS as nat);
            assert((ta + tb) as nat + BIAS as nat == u as nat + UNIT_EXPONENT as nat);
            assert(num == sig * (a * b)) by (nonlinear_arith)
                requires num == (ma * a) * (mb * b), sig == ma * mb;
            assert(sig * w * den == sig * (w * den)) by (nonlinear_arith);
            assert((sig * (a * b)) * z == sig * ((a * b) * z)) by (nonlinear_arith);
        }
        round_quotient(negative, sig, u, false, Ghost(num), Ghost(den))
    }

    pub fn over(self, other: Double) -> (r: Double)
        ensures
            r == quotient(self, other),
    {
        proof {
            reveal(quotient);
        }
        let negative = self.is_negative() != other.is_negative();
        if self.is_nan() || other.is_nan() {
            return Double { bits: NOT_A_NUMBER };
        }
        if self.is_infinite() {
            if other.is_infinite() {
                return Double { bits: NOT_A_NUMBER };
            }
            return assemble(negative, INFINITE);
        }
        if other.is_zero() {
            if self.is_zero() {
                return Double { bits: NOT_A_NUMBER };
            }
            return assemble(negative, INFINITE);
        }
        if other.is_infinite() {
            return assemble(negative, 0);
        }
        let (ma, ta) = self.parts();
        let (mb, tb) = other.parts();
        let ghost num = size(self.unsigned()) * pow2(UNIT_EXPONENT as nat);
        let ghost den = size(other.unsigned());
        proof {
            lemma2_to64();
            lemma2_to64_rest();
            lemma_pow2_pos(tb as nat);
            assert(den > 0) by (nonlinear_arith)
                requires den == mb * pow2(tb as nat), mb > 0, pow2(tb as nat) > 0;
        }
        if ma == 0 {
            proof {
                let g = pow2(UNIT_EXPONENT as nat);
                let (w, b) = (pow2(2000), pow2(BIAS as nat));
                assert(0 * pow2(ta as nat) == 0);
                assert(0 * g == 0);
                assert(0 * b == 0);
                assert(0 * w * den == 0) by (nonlinear_arith);
                lemma_pow2_pos(120);
            }
            return round_quotient(negative, 0, 2000, false, Ghost(num), Ghost(den));
        }
        let (na, da) = widen(ma);
        let (nb, db) = widen(mb);
        let top: u128 = (na as u128) * 0x1_0000_0000_0000_0000;
        let sig: u128 = top / (nb as u128);
        let rest: u128 = top % (nb as u128);
        let u: u32 = (ta + db + 1074 + BIAS) - (da + tb + 64);
        proof {
            vstd::arithmetic::div_mod::lemma_fundamental_div_mod(top as int, nb as int);
            assert(sig * nb + rest == top) by (nonlinear_arith)
                requires top == nb * sig + rest;
            assert(sig >= pow2(55)) by {
                assert(pow2(55) == 0x80_0000_0000_0000);
                assert(sig >= 0x80_0000_0000_0000) by (nonlinear_arith)
                    requires
                        sig * nb + rest == top,
                        rest < nb,
                        nb < 2 * 0x10_0000_0000_0000,
                        top >= 0x10_0000_0000_0000 * 0x1_0000_0000_0000_0000;
            }
            assert(sig < pow2(120)) by {
                lemma_pow2_adds(64, 56);
                assert(pow2(120) == 0x1_0000_0000_0000_0000 * 0x100_0000_0000_0000);
                assert(sig <= top) by (nonlinear_arith)
                    requires sig * nb + rest == top, nb >= 1, sig >= 0, rest >= 0;
            }
            let e = (u + tb - db) as nat;
            let y = pow2(e);
            lemma_pow2_pos(e);
            // The divisor, spread over the same power.
            lemma_pow2_adds(u as nat, tb as nat);
            lemma_pow2_adds(db as nat, e);
            let (w, x, v) = (pow2(u as nat), pow2(tb as nat), pow2(db as nat));
            assert(w * x == v * y);
            assert(sig * w * den == (sig * nb) * y) by (nonlinear_arith)
                requires den == mb * x, nb == mb * v, w * x == v * y;
            assert((sig + 1) * w * den == ((sig + 1) * nb) * y) by (nonlinear_arith)
                requires den == mb * x, nb == mb * v, w * x == v * y;
            // The dividend.
            let (a, g, b, c) = (
                pow2(ta as nat), pow2(UNIT_EXPONENT as nat), pow2(BIAS as nat), pow2(da as nat));
            lemma_pow2_adds(ta as nat, UNIT_EXPONENT as nat);
            lemma_pow2_adds((ta + UNIT_EXPONENT) as nat, BIAS as nat);
            lemma_pow2_adds(da as nat, 64);
            lemma_pow2_adds((da + 64) as nat, e);
            assert((ta + UNIT_EXPONENT) as nat + BIAS as nat == (da + 64) as nat + e);
            assert(a * g * b == c * pow2(64) * y);
            assert(num * b == top * y) by (nonlinear_arith)
                requires
                    num == (ma * a) * g,
                    top == na * pow2(64),
                    na == ma * c,
                    a * g * b == c * pow2(64) * y;
            assert((sig + 1) * nb == sig * nb + nb) by (nonlinear_arith);
            assert((sig * nb) * y <= top * y) by (nonlinear_arith)
                requires sig * nb <= top;
            if rest > 0 {
                assert((sig * nb) * y < top * y) by (nonlinear_arith)
                    requires sig * nb < top, y > 0;
            }
            assert(top * y < ((sig + 1) * nb) * y) by (nonlinear_arith)
                requires top < (sig + 1) * nb, y > 0;
        }
        round_quotient(negative, sig, u, rest != 0, Ghost(num), Ghost(den))
    }

    /// What is left after division without a fraction.
    pub fn rem(self, other: Double) -> (r: Double)
        ensures
            r == remainder(self, other),
    {
        proof {
            reveal(remainder);
        }
        if self.is_nan() || other.is_nan() || self.is_infinite() || other.is_zero() {
            return Double { bits: NOT_A_NUMBER };
        }
        if other.is_infinite() {
            return self;
        }
        let (ma, ta) = self.parts();
        let (mb, tb) = other.parts();
        let ghost (sa, sb) = (size(self.unsigned()), size(other.unsigned()));
        if ta < tb {
            proof {
                lemma_smaller_binade(ma as nat, ta as nat, mb as nat, tb as nat);
                vstd::arithmetic::div_mod::lemma_small_mod(sa, sb);
                lemma_rounded_itself(self);
            }
            return self;
        }
        let rest: u64 = shifted_remainder(ma, mb, ta - tb);
        let ghost num = sa % sb;
        proof {
            lemma_remainder_parts(ma as nat, mb as nat, tb as nat, (ta - tb) as nat, rest as nat);
            lemma2_to64_rest();
            lemma_pow2_strictly_increases(53, 120);
        }
        round_quotient(self.is_negative(), rest as u128, tb + BIAS, false, Ghost(num), Ghost(1))
    }

    /// The least remainder that is not negative.
    pub fn rem_euclid(self, other: Double) -> (r: Double)
        ensures
            r == least_remainder(self, other),
    {
        let r = self.rem(other);
        if r.is_less(Double::from_i64(0)) {
            r.plus(other.abs())
        } else {
            r
        }
    }

    pub fn sqrt(self) -> (r: Double)
        ensures
            r == root(self),
    {
        proof {
            reveal(root);
        }
        if self.is_nan() || (self.is_negative() && !self.is_zero()) {
            return Double { bits: NOT_A_NUMBER };
        }
        if self.is_infinite() || self.is_zero() {
            return self;
        }
        let (m, t) = self.parts();
        let (n, d) = widen(m);
        let g: u32 = t + 1074 - d;
        let h: u32 = if g % 2 == 0 { 64 } else { 65 };
        let p: u128 = if h == 64 { 0x1_0000_0000_0000_0000 } else { 0x2_0000_0000_0000_0000 };
        let x: u128 = (n as u128) * p;
        let sig: u128 = integer_root(x);
        let u: u32 = (g + 2 * BIAS - h) / 2;
        let sticky = sig * sig != x;
        let ghost square = size(self.unsigned()) * pow2(UNIT_EXPONENT as nat);
        proof {
            lemma2_to64();
            lemma2_to64_rest();
            lemma_pow2_unfold(65);
            assert(p == pow2(h as nat));
            let b = pow2(BIAS as nat);
            let w = pow2(u as nat);
            let (a, c, gg) = (pow2(t as nat), pow2(d as nat), pow2(UNIT_EXPONENT as nat));
            lemma_pow2_adds(BIAS as nat, BIAS as nat);
            lemma_pow2_adds(u as nat, u as nat);
            lemma_pow2_adds(t as nat, UNIT_EXPONENT as nat);
            lemma_pow2_adds((t + UNIT_EXPONENT) as nat, (2 * BIAS) as nat);
            lemma_pow2_adds(d as nat, h as nat);
            lemma_pow2_adds((d + h) as nat, (2 * u) as nat);
            assert((t + UNIT_EXPONENT) as nat + (2 * BIAS) as nat == (d + h) as nat + (2 * u) as nat);
            assert(a * gg * (b * b) == c * p * (w * w));
            assert(square * (b * b) == x * (w * w)) by (nonlinear_arith)
                requires
                    square == (m * a) * gg,
                    x == n * p,
                    n == m * c,
                    a * gg * (b * b) == c * p * (w * w);
            lemma_pow2_pos(u as nat);
            let ww = w * w;
            lemma_mul_strictly_positive(w as int, w as int);
            assert((sig * w) * (sig * w) == (sig * sig) * ww) by (nonlinear_arith)
                requires ww == w * w;
            assert(((sig + 1) * w) * ((sig + 1) * w) == ((sig + 1) * (sig + 1)) * ww) by (nonlinear_arith)
                requires ww == w * w;
            if sticky {
                assert((sig * sig) * ww < x * ww) by (nonlinear_arith)
                    requires sig * sig < x, ww > 0;
                assert(x * ww < ((sig + 1) * (sig + 1)) * ww) by (nonlinear_arith)
                    requires x < (sig + 1) * (sig + 1), ww > 0;
            }
            assert(sig >= 0x80_0000_0000_0000) by (nonlinear_arith)
                requires
                    x < (sig + 1) * (sig + 1),
                    x >= 0x10_0000_0000_0000 * 0x1_0000_0000_0000_0000,
                    sig >= 0;
            lemma_pow2_strictly_increases(60, 120);
            lemma_small_wide(sig as nat, u as nat);
        }
        let k: u64 = round_wide(sig, u, sticky);
        proof {
            lemma_wide_root(sig as nat, u as nat, sticky, k as nat, square);
            let c = choose|c: nat| nearest_root(square, c);
            lemma_nearest_root_unique(square, k as nat, c);
        }
        assemble(false, k)
    }
}

/// Doubles a positive significand until it has all its digits.
fn widen(m: u64) -> (r: (u64, u32))
    requires
        0 < m < 2 * BINADE,
    ensures
        BINADE <= r.0 < 2 * BINADE,
        r.1 <= 52,
        r.0 == m * pow2(r.1 as nat),
{
    let mut n: u64 = m;
    let mut d: u32 = 0;
    proof {
        lemma2_to64();
        lemma2_to64_rest();
        assert(m * pow2(0) == m);
    }
    while n < BINADE
        invariant
            0 < m,
            0 < n < 2 * BINADE,
            d <= 52,
            n == m * pow2(d as nat),
        decreases 2 * BINADE - n,
    {
        proof {
            let p = pow2(d as nat);
            assert(p <= n) by (nonlinear_arith) requires n == m * p, m >= 1, p >= 0;
            if d == 52 {
                lemma2_to64_rest();
            }
            lemma_pow2_unfold((d + 1) as nat);
            assert(m * (2 * p) == 2 * (m * p)) by (nonlinear_arith);
        }
        n = 2 * n;
        d = d + 1;
    }
    (n, d)
}

/// The integer part of a square root.
fn integer_root(x: u128) -> (r: u128)
    requires
        x < 0x40_0000_0000_0000 * 0x1_0000_0000_0000_0000,
    ensures
        r * r <= x < (r + 1) * (r + 1),
        r < 0x800_0000_0000_0000,
{
    let mut r: u128 = 0;
    let mut step: u128 = 0x800_0000_0000_0000;
    assert(x < step * step);
    proof {
        lemma2_to64_rest();
        assert(step == pow2(59));
    }
    while step > 1
        invariant
            1 <= step <= 0x800_0000_0000_0000,
            r + step <= 0x800_0000_0000_0000,
            r * r <= x < (r + step) * (r + step),
            exists|j: nat| step == #[trigger] pow2(j),
        decreases step,
    {
        let ghost j = choose|j: nat| step == #[trigger] pow2(j);
        proof {
            lemma2_to64();
            if j == 0 {
                assert(step == 1);
            }
            lemma_pow2_unfold(j);
            assert(step == 2 * pow2((j - 1) as nat));
        }
        let half: u128 = step / 2;
        let c: u128 = r + half;
        assert(c * c <= 0x800_0000_0000_0000 * 0x800_0000_0000_0000) by (nonlinear_arith)
            requires c <= 0x800_0000_0000_0000, c >= 0;
        if c * c <= x {
            r = c;
        }
        step = half;
    }
    r
}

proof fn lemma_scaled_division(x: nat, t: nat, s: nat)
    ensures
        (x * pow2(t)) / pow2(t + s) == x / pow2(s),
        (x * pow2(t)) % pow2(t + s) == (x % pow2(s)) * pow2(t),
{
    let (p, q) = (pow2(t), pow2(s));
    lemma_pow2_pos(t);
    lemma_pow2_pos(s);
    lemma_pow2_adds(t, s);
    vstd::arithmetic::div_mod::lemma_fundamental_div_mod(x as int, q as int);
    let (d, r) = (x / q, x % q);
    assert(x * p == d * (p * q) + r * p) by (nonlinear_arith)
        requires x == q * d + r;
    assert(0 <= r * p < p * q) by (nonlinear_arith)
        requires 0 <= r < q, p > 0;
    vstd::arithmetic::div_mod::lemma_fundamental_div_mod_converse(
        (x * p) as int, (p * q) as int, d as int, (r * p) as int);
}

/// `m * 2^d`, modulo `n`.
fn shifted_remainder(m: u64, n: u64, d: u32) -> (r: u64)
    requires
        0 < n < 2 * BINADE,
    ensures
        r < n,
        r == (m as nat * pow2(d as nat)) % (n as nat),
{
    let mut rest: u64 = m % n;
    let mut done: u32 = 0;
    proof {
        lemma2_to64();
        assert(m * pow2(0) == m) by (nonlinear_arith) requires pow2(0) == 1;
    }
    while done < d
        invariant
            done <= d,
            0 < n < 2 * BINADE,
            rest < n,
            rest == (m as nat * pow2(done as nat)) % (n as nat),
        decreases d - done,
    {
        proof {
            let x = m as nat * pow2(done as nat);
            lemma_pow2_unfold((done + 1) as nat);
            let p = pow2(done as nat);
            assert(2 * (m * p) == m * (2 * p)) by (nonlinear_arith);
            vstd::arithmetic::div_mod::lemma_mul_mod_noop_right(2, x as int, n as int);
        }
        rest = (2 * rest) % n;
        done = done + 1;
    }
    rest
}

/// A number with the smaller exponent is the smaller one, if the other has all
/// its bits.
proof fn lemma_smaller_binade(ma: nat, ta: nat, mb: nat, tb: nat)
    requires
        ma < 2 * BINADE,
        mb >= BINADE,
        ta < tb,
    ensures
        ma * pow2(ta) < mb * pow2(tb),
{
    lemma_pow2_pos(ta);
    lemma_pow2_adds(ta, (tb - ta) as nat);
    lemma_pow2_unfold((tb - ta) as nat);
    lemma_pow2_pos((tb - ta - 1) as nat);
    let (p, q) = (pow2(ta), pow2((tb - ta) as nat));
    assert(ma * p < mb * (p * q)) by (nonlinear_arith)
        requires ma < 2 * BINADE, mb >= BINADE, q >= 2, p > 0;
}

/// A number is its own size, rounded.
proof fn lemma_rounded_itself(a: Double)
    requires
        a.finite(),
    ensures
        a == rounded(a.negative(), size(a.unsigned()), 1),
{
    let r = rounded(a.negative(), size(a.unsigned()), 1);
    lemma_nearest_itself(a.unsigned());
    rounding_gives_a_number(a.negative(), size(a.unsigned()), 1);
    lemma_nearest_unique(size(a.unsigned()), 1, a.unsigned(), r.unsigned());
}

proof fn lemma_remainder_parts(ma: nat, mb: nat, t: nat, d: nat, rest: nat)
    requires
        mb > 0,
        rest == (ma * pow2(d)) % mb,
    ensures
        (ma * pow2(t + d)) % (mb * pow2(t)) == rest * pow2(t),
        rest * pow2((t + BIAS) as nat) * 1 == (rest * pow2(t)) * pow2(BIAS as nat),
{
    let (p, q, b) = (pow2(t), pow2(d), pow2(BIAS as nat));
    lemma_pow2_adds(t, d);
    lemma_pow2_pos(t);
    assert(ma * (p * q) == (ma * q) * p) by (nonlinear_arith);
    lemma_scaled_remainder(ma * q, mb, p);
    lemma_pow2_adds(t, BIAS as nat);
    assert((rest * p) * b == rest * (p * b) * 1) by (nonlinear_arith);
}

/// A common factor goes through to the remainder.
proof fn lemma_scaled_remainder(x: nat, m: nat, p: nat)
    requires
        m > 0,
        p > 0,
    ensures
        (x * p) % (m * p) == (x % m) * p,
{
    vstd::arithmetic::div_mod::lemma_fundamental_div_mod(x as int, m as int);
    let (d, r) = (x / m, x % m);
    assert(x * p == d * (m * p) + r * p) by (nonlinear_arith)
        requires x == m * d + r;
    assert(0 <= r * p < m * p) by (nonlinear_arith)
        requires 0 <= r < m, p > 0;
    vstd::arithmetic::div_mod::lemma_fundamental_div_mod_converse(
        (x * p) as int, (m * p) as int, d as int, (r * p) as int);
}

/// A pattern is the nearest one to its own size.
pub proof fn lemma_nearest_itself(k: nat)
    requires
        k <= INFINITE,
    ensures
        nearest(size(k), 1, k),
{
    lemma_size_step(k);
    if k > 0 {
        lemma_size_step((k - 1) as nat);
    }
}

/// A number that is an integer is the number nearest to that integer.
proof fn lemma_integer_of(k: nat, w: nat)
    requires
        k <= INFINITE,
        size(k) == w * one(),
    ensures
        integer(w as int) == pattern(false, k),
        integer(w as int).unsigned() == k,
{
    reveal(integer);
    lemma_nearest_itself(k);
    let c = choose|c: nat| nearest(size(k), 1, c);
    lemma_nearest_unique(size(k), 1, k, c);
}

pub proof fn integer_is_a_number(i: int)
    ensures
        !integer(i).nan(),
{
    reveal(integer);
    rounding_gives_a_number(i < 0, magnitude(i) * pow2(UNIT_EXPONENT as nat), 1);
}

/// Dividing a number by a finite one other than zero gives a number.
pub proof fn division_gives_a_number(a: Double, b: Double)
    requires
        !a.nan(),
        b.finite(),
        !b.zero(),
    ensures
        !quotient(a, b).nan(),
{
    reveal(quotient);
    rounding_gives_a_number(
        a.negative() != b.negative(),
        size(a.unsigned()) * pow2(UNIT_EXPONENT as nat),
        size(b.unsigned()),
    );
}

/// Multiplying a number with a finite one other than zero gives a number.
pub proof fn product_gives_a_number(a: Double, b: Double)
    requires
        a.finite(),
        !a.zero(),
        !b.nan(),
    ensures
        !product(a, b).nan(),
{
    reveal(product);
    rounding_gives_a_number(
        a.negative() != b.negative(),
        size(a.unsigned()) * size(b.unsigned()),
        pow2(UNIT_EXPONENT as nat),
    );
}

/// Adding a number to a finite one gives a number.
pub proof fn sum_gives_a_number(a: Double, b: Double)
    requires
        a.finite(),
        !b.nan(),
    ensures
        !sum(a, b).nan(),
{
    reveal(sum);
    let exact = a.units() + b.units();
    rounding_gives_a_number(exact < 0, magnitude(exact), 1);
}

/// A positive integer with as many doublings as bring it to 53 bits.
proof fn lemma_normalized(i: nat) -> (s: nat)
    requires
        0 < i <= 2 * BINADE,
    ensures
        BINADE <= i * pow2(s) <= 2 * BINADE,
        s <= 52,
{
    lemma2_to64();
    if i >= BINADE {
        assert(i * pow2(0) == i) by (nonlinear_arith) requires pow2(0) == 1;
        0
    } else {
        lemma2_to64_rest();
        let p = pow2(52);
        assert(i * p >= p) by (nonlinear_arith) requires i >= 1, p > 0;
        lemma_normalized_steps(i, 52)
    }
}

proof fn lemma_normalized_steps(i: nat, left: nat) -> (s: nat)
    requires
        0 < i < BINADE,
        i * pow2(left) >= BINADE,
    ensures
        BINADE <= i * pow2(s) <= 2 * BINADE,
        s <= left,
    decreases left,
{
    lemma2_to64();
    if left == 0 {
        assert(i * pow2(0) == i) by (nonlinear_arith) requires pow2(0) == 1;
        0
    } else {
        lemma_pow2_unfold(left);
        let p = pow2((left - 1) as nat);
        assert(i * (2 * p) == 2 * (i * p)) by (nonlinear_arith);
        if i * p < BINADE {
            left
        } else {
            lemma_normalized_steps(i, (left - 1) as nat)
        }
    }
}

/// Integers of up to 53 bits are exact.
pub proof fn integers_are_exact(i: int)
    requires
        -(2 * BINADE) <= i <= 2 * BINADE,
    ensures
        integer(i).units() == i * one(),
        integer(i).finite(),
{
    integers_are_finite(i);
    integer_zero();
    let m = magnitude(i);
    if m > 0 {
        let s = lemma_normalized(m);
        let t = (UNIT_EXPONENT - s) as nat;
        let sig = m * pow2(s);
        let k = t * BINADE as nat + sig;
        lemma_size_of(t, sig);
        lemma_pow2_adds(s, t);
        let (a, b) = (pow2(s), pow2(t));
        assert((m * a) * b == m * (a * b)) by (nonlinear_arith);
        assert(size(k) == m * one());
        assert(k <= INFINITE) by (nonlinear_arith)
            requires k == t * BINADE as nat + sig, t <= 1074, sig <= 2 * BINADE, BINADE == 0x10_0000_0000_0000,
                INFINITE == 0x7ff0_0000_0000_0000;
        lemma_integer_of(k, m);
        reveal(integer);
        assert(integer(i).unsigned() == integer(m as int).unsigned()) by {
            rounding_gives_a_number(i < 0, m * one(), 1);
            rounding_gives_a_number(false, m * one(), 1);
            lemma_nearest_unique(m * one(), 1, integer(i).unsigned(), integer(m as int).unsigned());
        }
        let o = one() as int;
        assert((-m) * o == -(m * o)) by (nonlinear_arith);
    } else {
        assert(size(0) == 0);
        let o = one() as int;
        assert(0 * o == 0) by (nonlinear_arith);
    }
}

/// The sum of small integers is exact.
pub proof fn integers_add_up(a: int, b: int)
    requires
        -BINADE <= a <= BINADE,
        -BINADE <= b <= BINADE,
    ensures
        sum(integer(a), integer(b)) == integer(a + b),
{
    integers_are_exact(a);
    integers_are_exact(b);
    integers_are_finite(a);
    integers_are_finite(b);
    integer_zero();
    let o = one() as int;
    lemma_pow2_pos(UNIT_EXPONENT as nat);
    assert(a * o + b * o == (a + b) * o) by (nonlinear_arith);
    let exact = integer(a).units() + integer(b).units();
    assert(exact == (a + b) * o);
    assert(exact == 0 <==> a + b == 0) by (nonlinear_arith) requires exact == (a + b) * o, o > 0;
    assert(exact < 0 <==> a + b < 0) by (nonlinear_arith) requires exact == (a + b) * o, o > 0;
    assert(magnitude(exact) == magnitude(a + b) * o) by (nonlinear_arith)
        requires
            exact == (a + b) * o,
            o > 0,
            magnitude(exact) == (if exact < 0 { -exact } else { exact }),
            magnitude(a + b) == (if a + b < 0 { -(a + b) } else { a + b });
    reveal(sum);
    reveal(integer);
    if exact == 0 {
        assert(integer(a + b) == integer(0));
        assert(!integer(a).negative() || !integer(b).negative());
    }
}

/// A common factor does not change what is nearest.
pub proof fn lemma_nearest_scaled(num: nat, den: nat, c: nat, k: nat)
    requires
        c > 0,
        nearest(num, den, k),
    ensures
        nearest(num * c, den * c, k),
{
    if k > 0 {
        let s = size((k - 1) as nat) + size(k);
        assert(s * (den * c) == (s * den) * c) by (nonlinear_arith);
        assert(s * den < 2 * num ==> (s * den) * c < 2 * (num * c)) by (nonlinear_arith) requires c > 0;
        assert(s * den == 2 * num ==> (s * den) * c == 2 * (num * c)) by (nonlinear_arith);
    }
    if k < INFINITE {
        let s = size(k) + size(k + 1);
        assert(s * (den * c) == (s * den) * c) by (nonlinear_arith);
        assert(2 * num < s * den ==> 2 * (num * c) < (s * den) * c) by (nonlinear_arith) requires c > 0;
        assert(s * den == 2 * num ==> (s * den) * c == 2 * (num * c)) by (nonlinear_arith);
    }
}

/// Dividing by one changes nothing.
pub proof fn division_by_one(a: Double)
    requires
        a.finite(),
    ensures
        quotient(a, integer(1)) == a,
{
    let o = one();
    let s = size(a.unsigned());
    lemma_pow2_pos(UNIT_EXPONENT as nat);
    integers_are_exact(1);
    integers_are_finite(1);
    assert(1 * o == o) by (nonlinear_arith);
    lemma_nearest_itself(a.unsigned());
    lemma_nearest_scaled(s, 1, o, a.unsigned());
    rounding_gives_a_number(a.negative(), s * o, o);
    lemma_nearest_unique(s * o, o, a.unsigned(), rounded(a.negative(), s * o, o).unsigned());
    reveal(quotient);
}

/// Small integers compare as integers.
pub proof fn integers_compare(a: int, b: int)
    requires
        0 <= a <= 2 * BINADE,
        0 <= b <= 2 * BINADE,
    ensures
        less(integer(a), integer(b)) <==> a < b,
{
    integers_are_exact(a);
    integers_are_exact(b);
    integers_are_finite(a);
    integers_are_finite(b);
    integer_zero();
    reveal(less);
    let o = one() as int;
    lemma_pow2_pos(UNIT_EXPONENT as nat);
    assert(a < b <==> a * o < b * o) by (nonlinear_arith) requires o > 0;
    let (j, k) = (integer(a).unsigned(), integer(b).unsigned());
    if j < k {
        lemma_size_monotone(j, k);
    } else if k < j {
        lemma_size_monotone(k, j);
    }
}

/// The integer part of a small integer is that integer.
pub proof fn integers_truncate(i: int)
    requires
        0 <= i <= 2 * BINADE,
    ensures
        truncated(integer(i), 0, u64::MAX as int) == i,
{
    integers_are_exact(i);
    integers_are_finite(i);
    integer_zero();
    let o = one() as int;
    lemma_pow2_pos(UNIT_EXPONENT as nat);
    vstd::arithmetic::div_mod::lemma_fundamental_div_mod_converse(i * o, o, i, 0);
    reveal(truncated);
}

/// What is rounded is a number, with the sign it was given.
pub proof fn rounding_gives_a_number(negative: bool, num: nat, den: nat)
    ensures
        !rounded(negative, num, den).nan(),
        rounded(negative, num, den).negative() == negative,
        nearest(num, den, rounded(negative, num, den).unsigned()),
{
    lemma_nearest_exists(num, den);
    let k = choose|k: nat| nearest(num, den, k);
    assert(nearest(num, den, k));
}

/// An integer of 64 bits is finite as a number, and zero only if it is zero.
pub proof fn integers_are_finite(i: int)
    requires
        -0x1_0000_0000_0000_0000 <= i <= 0x1_0000_0000_0000_0000,
    ensures
        integer(i).finite(),
        integer(i).zero() == (i == 0),
        i != 0 ==> integer(i).negative() == (i < 0),
        !integer(0).negative(),
{
    reveal(integer);
    let m = magnitude(i);
    let num = m * one();
    rounding_gives_a_number(i < 0, num, 1);
    let k = integer(i).unsigned();
    lemma_pow2_pos(UNIT_EXPONENT as nat);
    if k == INFINITE {
        lemma2_to64();
        lemma2_to64_rest();
        lemma_pow2_adds(64, UNIT_EXPONENT as nat);
        let (a, b) = (m, one());
        assert(a * b <= pow2(64) * b) by (nonlinear_arith) requires 0 <= a <= pow2(64), b > 0;
        lemma_pow2_strictly_increases(64 + UNIT_EXPONENT as nat, 2046);
        assert(INFINITE as nat / BINADE as nat == 2047 && INFINITE as nat % BINADE as nat == 0);
        assert(size(INFINITE as nat) == BINADE as nat * pow2(2046));
        let p = pow2(2046);
        assert(BINADE * p >= 2 * p) by (nonlinear_arith) requires p > 0, BINADE >= 2;
    }
    if i != 0 {
        let (a, b) = (m, one());
        assert(a * b >= 1) by (nonlinear_arith) requires a >= 1, b >= 1;
        if k == 0 {
            assert(size(0) == 0);
            assert(size(1) == 1);
        }
    }
    integer_zero();
}

/// Zero is the pattern without a bit.
pub proof fn integer_zero()
    ensures
        integer(0) == pattern(false, 0),
        integer(0).rank() == 0,
        !integer(0).nan(),
{
    assert(size(0) == 0);
    assert(0 * one() == 0) by (nonlinear_arith);
    lemma_integer_of(0, 0);
}

impl Double {
    /// The integer part of the unsigned value, no larger than `2^64`.
    fn whole_part(self) -> (r: u128)
        requires
            self.finite(),
        ensures
            r == if size(self.unsigned()) / one() <= 0x1_0000_0000_0000_0000 {
                size(self.unsigned()) / one()
            } else {
                0x1_0000_0000_0000_0000
            },
    {
        let (m, t) = self.parts();
        proof {
            lemma2_to64();
            lemma2_to64_rest();
        }
        if t >= 1074 {
            let s: u32 = t - 1074;
            proof {
                lemma_pow2_adds(s as nat, UNIT_EXPONENT as nat);
                let (p, q) = (pow2(s as nat), one());
                lemma_pow2_pos(UNIT_EXPONENT as nat);
                assert(m * (p * q) == (m * p) * q) by (nonlinear_arith);
                vstd::arithmetic::div_mod::lemma_div_by_multiple((m * p) as int, q as int);
                if s >= 12 {
                    if s > 12 {
                        lemma_pow2_strictly_increases(12, s as nat);
                    }
                    assert(m * p >= 0x10_0000_0000_0000 * 0x1000) by (nonlinear_arith)
                        requires m >= 0x10_0000_0000_0000, p >= 0x1000;
                } else {
                    if s < 11 {
                        lemma_pow2_strictly_increases(s as nat, 11);
                    }
                    assert(m * p < 0x20_0000_0000_0000 * 0x800) by (nonlinear_arith)
                        requires m < 0x20_0000_0000_0000, 0 < p <= 0x800;
                }
            }
            if s >= 12 {
                0x1_0000_0000_0000_0000
            } else {
                (m as u128) * power(s)
            }
        } else {
            let s: u32 = 1074 - t;
            proof {
                lemma_scaled_division(m as nat, t as nat, s as nat);
                if s > 53 {
                    lemma_pow2_strictly_increases(53, s as nat);
                    vstd::arithmetic::div_mod::lemma_basic_div(m as int, pow2(s as nat) as int);
                }
            }
            if s > 53 {
                0
            } else {
                let p: u128 = power(s);
                proof {
                    vstd::arithmetic::div_mod::lemma_div_is_ordered_by_denominator(m as int, 1, p as int);
                }
                (m as u128) / p
            }
        }
    }

    /// The integer part as a signed 64-bit integer, saturating.
    pub fn to_i64(self) -> (r: i64)
        ensures
            r == truncated(self, i64::MIN as int, i64::MAX as int),
    {
        proof {
            reveal(truncated);
        }
        if self.is_nan() {
            return 0;
        }
        if self.is_infinite() {
            return if self.is_negative() { i64::MIN } else { i64::MAX };
        }
        let w: u128 = self.whole_part();
        if self.is_negative() {
            if w >= 0x8000_0000_0000_0000 {
                i64::MIN
            } else {
                -(w as i64)
            }
        } else if w > 0x7fff_ffff_ffff_ffff {
            i64::MAX
        } else {
            w as i64
        }
    }

    /// The integer part as an unsigned 64-bit integer, saturating.
    pub fn to_u64(self) -> (r: u64)
        ensures
            r == truncated(self, 0, u64::MAX as int),
    {
        proof {
            reveal(truncated);
        }
        if self.is_nan() {
            return 0;
        }
        if self.is_infinite() {
            return if self.is_negative() { 0 } else { u64::MAX };
        }
        let w: u128 = self.whole_part();
        if self.is_negative() {
            0
        } else if w > 0xffff_ffff_ffff_ffff {
            u64::MAX
        } else {
            w as u64
        }
    }

    /// The nearest integer, ties away from zero.
    pub fn round(self) -> (r: Double)
        ensures
            r == nearest_whole(self),
    {
        proof {
            reveal(nearest_whole);
        }
        if !self.is_finite() {
            return self;
        }
        let (m, t) = self.parts();
        let ghost z = size(self.unsigned());
        proof {
            lemma2_to64();
            lemma2_to64_rest();
            lemma_pow2_pos(UNIT_EXPONENT as nat);
        }
        if t >= 1074 {
            proof {
                let s = (t - 1074) as nat;
                lemma_pow2_adds(s, UNIT_EXPONENT as nat);
                let (p, q) = (pow2(s), one());
                let w = m * p;
                assert(z == w * q) by (nonlinear_arith) requires z == m * (p * q), w == m * p;
                assert((2 * z + q) == w * (2 * q) + q) by (nonlinear_arith) requires z == w * q;
                vstd::arithmetic::div_mod::lemma_fundamental_div_mod_converse(
                    (2 * z + q) as int, (2 * q) as int, w as int, q as int);
                lemma_integer_of(self.unsigned(), w as nat);
            }
            return self;
        }
        let s: u32 = 1074 - t;
        proof {
            // Twice the number plus one, over two.
            let (p, q) = (pow2(t as nat), pow2(s as nat));
            lemma_pow2_adds(t as nat, s as nat);
            lemma_pow2_unfold((s + 1) as nat);
            lemma_pow2_adds(t as nat, (s + 1) as nat);
            assert(one() == p * q);
            assert(2 * one() == pow2((t + s + 1) as nat)) by {
                lemma_pow2_unfold((t + s + 1) as nat);
            }
            assert(2 * z + one() == (2 * m + q) * p) by (nonlinear_arith)
                requires z == m * p, one() == p * q;
            lemma_scaled_division((2 * m + q) as nat, t as nat, (s + 1) as nat);
            if s > 53 {
                if s > 54 {
                    lemma_pow2_strictly_increases(54, s as nat);
                }
                vstd::arithmetic::div_mod::lemma_basic_div((2 * m + q) as int, (2 * q) as int);
            } else {
                if s < 53 {
                    lemma_pow2_strictly_increases(s as nat, 53);
                }
                lemma_pow2_pos(s as nat);
                vstd::arithmetic::div_mod::lemma_div_is_ordered_by_denominator(
                    (2 * m + q) as int, 1, (2 * q) as int);
            }
        }
        let w: u64 = if s > 53 {
            0
        } else {
            let p: u128 = power(s);
            ((2 * (m as u128) + p) / (2 * p)) as u64
        };
        let r: Double = Double::from_u64(w);
        assemble(self.is_negative(), r.bits % SIGN)
    }

    /// Rounds to a multiple of `1 / parts`.
    pub fn round_to(self, parts: i64) -> (r: Double)
        ensures
            r == to_parts(self, parts as int),
    {
        self.times(Double::from_i64(parts)).round().over(Double::from_i64(parts))
    }

    /// The largest integer not above the number.
    pub fn floor(self) -> (r: Double)
        ensures
            r == floored(self),
    {
        proof {
            reveal(floored);
        }
        if !self.is_finite() {
            return self;
        }
        let (m, t) = self.parts();
        let ghost z = size(self.unsigned());
        proof {
            lemma2_to64();
            lemma2_to64_rest();
            lemma_pow2_pos(UNIT_EXPONENT as nat);
        }
        if t >= 1074 {
            proof {
                let s = (t - 1074) as nat;
                lemma_pow2_adds(s, UNIT_EXPONENT as nat);
                let (p, q) = (pow2(s), one());
                let w = m * p;
                assert(z == w * q) by (nonlinear_arith) requires z == m * (p * q), w == m * p;
                vstd::arithmetic::div_mod::lemma_fundamental_div_mod_converse(
                    z as int, q as int, w as int, 0);
                lemma_integer_of(self.unsigned(), w as nat);
            }
            return self;
        }
        let s: u32 = 1074 - t;
        proof {
            lemma_scaled_division(m as nat, t as nat, s as nat);
            lemma_pow2_pos(t as nat);
            lemma_pow2_pos(s as nat);
            let (p, r) = (pow2(t as nat), m as nat % pow2(s as nat));
            assert(r > 0 ==> r * p > 0) by (nonlinear_arith) requires p > 0;
            assert(r == 0 ==> r * p == 0) by (nonlinear_arith);
            if s > 53 {
                lemma_pow2_strictly_increases(53, s as nat);
                vstd::arithmetic::div_mod::lemma_basic_div(m as int, pow2(s as nat) as int);
                vstd::arithmetic::div_mod::lemma_small_mod(m as nat, pow2(s as nat));
            } else {
                vstd::arithmetic::div_mod::lemma_div_is_ordered_by_denominator(m as int, 1, pow2(s as nat) as int);
            }
        }
        let (w, rest): (u64, bool) = if s > 53 {
            (0, m != 0)
        } else {
            let p: u128 = power(s);
            (((m as u128) / p) as u64, (m as u128) % p != 0)
        };
        let r: Double = if self.is_negative() && rest {
            Double::from_u64(w + 1)
        } else {
            Double::from_u64(w)
        };
        assemble(self.is_negative(), r.bits % SIGN)
    }
}

} // verus!
