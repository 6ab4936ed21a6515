//! Decimal text of binary64 numbers.

use vstd::arithmetic::power2::*;
use vstd::prelude::*;

use super::model::{size, BINADE};
use super::rounding::power;
use super::{lemma_scaled_division, one, Double};

verus! {

/// The character of a decimal digit.
pub open spec fn digit(d: nat) -> char {
    (48 + d) as char
}

/// A natural number in decimal, without leading zeros.
pub open spec fn natural_text(n: nat) -> Seq<char>
    decreases n,
{
    if n < 10 {
        seq![digit(n)]
    } else {
        natural_text(n / 10).push(digit(n % 10))
    }
}

/// The size of a number in tenths, rounded to the nearest, ties to even.
pub open spec fn tenths(x: Double) -> nat {
    let n = 10 * size(x.unsigned());
    let q = n / one();
    let r = n % one();
    if 2 * r < one() || (2 * r == one() && q % 2 == 0) {
        q
    } else {
        q + 1
    }
}

/// A number with one digit after the point.
pub open spec fn tenths_text(x: Double) -> Seq<char> {
    if x.nan() {
        "NaN"@
    } else {
        let unsigned = if x.infinite() {
            "inf"@
        } else {
            natural_text(tenths(x) / 10) + "."@ + natural_text(tenths(x) % 10)
        };
        if x.negative() {
            "-"@ + unsigned
        } else {
            unsigned
        }
    }
}

fn digit_text(d: u64) -> (r: &'static str)
    requires
        d < 10,
    ensures
        r@ == seq![digit(d as nat)],
{
    proof {
        reveal_strlit("0");
        reveal_strlit("1");
        reveal_strlit("2");
        reveal_strlit("3");
        reveal_strlit("4");
        reveal_strlit("5");
        reveal_strlit("6");
        reveal_strlit("7");
        reveal_strlit("8");
        reveal_strlit("9");
    }
    let r = match d {
        0 => "0",
        1 => "1",
        2 => "2",
        3 => "3",
        4 => "4",
        5 => "5",
        6 => "6",
        7 => "7",
        8 => "8",
        _ => "9",
    };
    assert(r@ =~= seq![digit(d as nat)]);
    r
}

/// Writes a natural number in decimal.
pub fn write_natural(n: u64) -> (r: String)
    ensures
        r@ == natural_text(n as nat),
    decreases n,
{
    if n < 10 {
        digit_text(n).to_owned()
    } else {
        let mut r = write_natural(n / 10);
        let ghost head = r@;
        r.append(digit_text(n % 10));
        assert(r@ =~= head.push(digit((n % 10) as nat)));
        r
    }
}

/// The number that decimal digits stand for, units first.
pub open spec fn digits_value(digits: Seq<u8>) -> nat
    decreases digits.len(),
{
    if digits.len() == 0 {
        0
    } else {
        digits[0] as nat + 10 * digits_value(digits.skip(1))
    }
}

/// `10^n`.
spec fn scale(n: nat) -> nat
    decreases n,
{
    if n == 0 {
        1
    } else {
        10 * scale((n - 1) as nat)
    }
}

proof fn lemma_digits_push(digits: Seq<u8>, d: u8)
    ensures
        digits_value(digits.push(d)) == digits_value(digits) + d * scale(digits.len()),
    decreases digits.len(),
{
    let longer = digits.push(d);
    if digits.len() == 0 {
        assert(longer.skip(1) =~= Seq::<u8>::empty());
        reveal_with_fuel(digits_value, 2);
        let s = scale(0);
        assert(d * s == d) by (nonlinear_arith) requires s == 1;
    } else {
        assert(longer.skip(1) =~= digits.skip(1).push(d));
        lemma_digits_push(digits.skip(1), d);
        let s = scale((digits.len() - 1) as nat);
        assert(10 * (d * s) == d * (10 * s)) by (nonlinear_arith);
    }
}

/// Digits, units first, with no zero at the end of a longer list.
spec fn digits_wf(digits: Seq<u8>) -> bool {
    &&& digits.len() > 0
    &&& forall|i: int| 0 <= i < digits.len() ==> #[trigger] digits[i] < 10
    &&& digits.len() > 1 ==> digits.last() > 0
}

proof fn lemma_digits_positive(digits: Seq<u8>)
    requires
        digits.len() > 0,
        digits.last() > 0,
    ensures
        digits_value(digits) > 0,
    decreases digits.len(),
{
    if digits.len() > 1 {
        assert(digits.skip(1).last() == digits.last());
        lemma_digits_positive(digits.skip(1));
    }
}

/// The digits of a natural number, units first.
fn spell(n: u64) -> (r: Vec<u8>)
    ensures
        digits_wf(r@),
        digits_value(r@) == n,
        n > 0 ==> r@.last() > 0,
{
    let mut digits: Vec<u8> = Vec::new();
    let mut rest: u64 = n / 10;
    digits.push((n % 10) as u8);
    proof {
        lemma_digits_push(Seq::empty(), (n % 10) as u8);
        assert(digits@ =~= Seq::<u8>::empty().push((n % 10) as u8));
        reveal_with_fuel(scale, 2);
        let (r, s) = ((n % 10) as nat, scale(0));
        assert(r * s == r) by (nonlinear_arith) requires s == 1;
        assert(digits_value(Seq::<u8>::empty()) == 0);
        let ten = scale(digits@.len());
        assert(ten == 10);
        assert(rest * ten == rest * 10);
        assert(n == rest * 10 + r);
    }
    while rest > 0
        invariant
            digits@.len() > 0,
            forall|i: int| 0 <= i < digits@.len() ==> #[trigger] digits@[i] < 10,
            digits_value(digits@) + rest * scale(digits@.len()) == n,
            rest == 0 && (digits@.len() > 1 || n > 0) ==> digits@.last() > 0,
        decreases rest,
    {
        let ghost before = digits@;
        let ghost s = scale(before.len());
        let d: u8 = (rest % 10) as u8;
        digits.push(d);
        proof {
            lemma_digits_push(before, d);
            assert(scale(digits@.len()) == 10 * s);
            let (q, r) = (rest / 10, rest % 10);
            assert(rest * s == q * (10 * s) + r * s) by (nonlinear_arith)
                requires rest == 10 * q + r;
        }
        rest = rest / 10;
    }
    digits
}

/// The digits of twice a number.
fn doubled(digits: &Vec<u8>) -> (r: Vec<u8>)
    requires
        digits_wf(digits@),
        digits@.last() > 0,
    ensures
        digits_wf(r@),
        r@.last() > 0,
        digits_value(r@) == 2 * digits_value(digits@),
{
    let mut out: Vec<u8> = Vec::new();
    let mut carry: u8 = 0;
    let mut i: usize = 0;
    let ghost all = digits@;
    assert(all.take(0) =~= Seq::<u8>::empty());
    while i < digits.len()
        invariant
            all == digits@,
            digits_wf(all),
            all.last() > 0,
            i <= all.len(),
            out@.len() == i,
            carry <= 1,
            forall|j: int| 0 <= j < out@.len() ==> #[trigger] out@[j] < 10,
            digits_value(out@) + carry * scale(i as nat) == 2 * digits_value(all.take(i as int)),
            i == all.len() && carry == 0 ==> out@.last() > 0,
        decreases all.len() - i,
    {
        let ghost before = out@;
        let ghost s = scale(i as nat);
        let ghost c = carry;
        let d: u8 = digits[i];
        assert(d < 10);
        let x: u8 = 2 * d + carry;
        out.push(x % 10);
        proof {
            lemma_digits_push(before, x % 10);
            lemma_digits_push(all.take(i as int), d);
            assert(all.take(i + 1) =~= all.take(i as int).push(d));
            assert(scale((i + 1) as nat) == 10 * s);
            let (q, r) = (x / 10, x % 10);
            assert(r * s + q * (10 * s) == 2 * (d * s) + c * s) by (nonlinear_arith)
                requires 2 * d + c == 10 * q + r;
        }
        carry = x / 10;
        i = i + 1;
    }
    assert(all.take(i as int) =~= all);
    if carry > 0 {
        let ghost before = out@;
        out.push(carry);
        proof {
            lemma_digits_push(before, carry);
        }
    }
    out
}

/// Writes digits, the units last.
fn write_digits(digits: &Vec<u8>) -> (r: String)
    requires
        digits_wf(digits@),
    ensures
        r@ == natural_text(digits_value(digits@)),
{
    let ghost all = digits@;
    let n: usize = digits.len();
    let mut i: usize = n - 1;
    let mut r = digit_text(digits[i] as u64).to_owned();
    proof {
        assert(all.skip(n - 1).skip(1) =~= Seq::<u8>::empty());
        reveal_with_fuel(digits_value, 2);
        assert(digits_value(all.skip(n - 1)) == all[n - 1]);
    }
    while i > 0
        invariant
            all == digits@,
            n == all.len(),
            digits_wf(all),
            i < n,
            r@ == natural_text(digits_value(all.skip(i as int))),
        decreases i,
    {
        i = i - 1;
        let ghost head = r@;
        r.append(digit_text(digits[i] as u64));
        proof {
            let high = digits_value(all.skip(i + 1));
            assert(all.skip(i as int).skip(1) =~= all.skip(i + 1));
            assert(all.skip(i + 1).last() == all.last());
            lemma_digits_positive(all.skip(i + 1));
            let v = digits_value(all.skip(i as int));
            assert(v == all[i as int] + 10 * high);
            assert(v / 10 == high && v % 10 == all[i as int]);
            assert(r@ =~= head.push(digit(all[i as int] as nat)));
        }
    }
    assert(all.skip(0) =~= all);
    r
}

/// The whole number `m * 2^e`, written in decimal.
fn write_scaled(m: u64, e: u32) -> (r: String)
    requires
        m > 0,
        e <= 1000,
    ensures
        r@ == natural_text(m as nat * pow2(e as nat)),
{
    let mut digits = spell(m);
    let mut i: u32 = 0;
    proof {
        lemma2_to64();
        assert(m * pow2(0) == m);
    }
    while i < e
        invariant
            i <= e <= 1000,
            digits_wf(digits@),
            digits@.last() > 0,
            digits_value(digits@) == m as nat * pow2(i as nat),
        decreases e - i,
    {
        digits = doubled(&digits);
        proof {
            lemma_pow2_unfold((i + 1) as nat);
            let p = pow2(i as nat);
            assert(2 * (m * p) == m * (2 * p)) by (nonlinear_arith);
        }
        i = i + 1;
    }
    write_digits(&digits)
}

impl Double {
    /// The size of a number below `2^53` in tenths.
    fn small_tenths(m: u64, t: u32) -> (r: u64)
        requires
            m < 2 * BINADE,
            t < 1074,
        ensures
            forall|x: Double| size(x.unsigned()) == m * pow2(t as nat) ==> r == #[trigger] tenths(x),
            r <= 10 * m + 1,
    {
        let s: u32 = 1074 - t;
        let n: u64 = 10 * m;
        proof {
            let p = pow2(t as nat);
            lemma_scaled_division(n as nat, t as nat, s as nat);
            lemma_pow2_pos(t as nat);
            lemma_pow2_pos(s as nat);
            lemma_pow2_adds(t as nat, s as nat);
            assert(10 * (m * p) == n * p) by (nonlinear_arith) requires n == 10 * m;
            assert(one() == pow2(t as nat + s as nat));
            let r = n as nat % pow2(s as nat);
            let w = pow2(s as nat);
            assert(2 * r < w <==> 2 * (r * p) < p * w) by (nonlinear_arith) requires p > 0;
            assert(2 * r == w <==> 2 * (r * p) == p * w) by (nonlinear_arith) requires p > 0;
        }
        if s >= 64 {
            proof {
                lemma2_to64();
                lemma2_to64_rest();
                if s > 64 {
                    lemma_pow2_strictly_increases(64, s as nat);
                }
                vstd::arithmetic::div_mod::lemma_small_mod(n as nat, pow2(s as nat));
                vstd::arithmetic::div_mod::lemma_basic_div(n as int, pow2(s as nat) as int);
            }
            0
        } else {
            let p: u128 = power(s);
            let q: u128 = (n as u128) / p;
            let r: u128 = (n as u128) % p;
            proof {
                lemma2_to64();
                lemma2_to64_rest();
                lemma_pow2_strictly_increases(s as nat, 64);
                assert(q <= n) by (nonlinear_arith) requires q == n as int / p as int, p >= 1, n >= 0;
            }
            if 2 * r < p || (2 * r == p && q % 2 == 0) {
                q as u64
            } else {
                q as u64 + 1
            }
        }
    }

    /// Writes the number with one digit after the point.
    pub fn to_tenths(self) -> (r: String)
        ensures
            r@ == tenths_text(self),
    {
        if self.is_nan() {
            return "NaN".to_owned();
        }
        let mut r = (if self.is_negative() { "-" } else { "" }).to_owned();
        let ghost sign = r@;
        proof {
            reveal_strlit("");
            assert(sign == if self.negative() { "-"@ } else { Seq::<char>::empty() });
            assert(forall|s: Seq<char>| #[trigger] (Seq::<char>::empty() + s) =~= s);
        }
        if !self.is_finite() {
            r.append("inf");
            return r;
        }
        let (m, t) = self.parts();
        if t >= 1074 {
            let whole = write_scaled(m, t - 1074);
            r.append(whole.as_str());
            r.append(".");
            r.append("0");
            proof {
                let e = (t - 1074) as nat;
                let w = m as nat * pow2(e);
                lemma_pow2_adds(e, 1074);
                lemma_pow2_pos(1074);
                let (a, b) = (pow2(e), pow2(1074));
                assert(10 * (m * (a * b)) == (10 * (m * a)) * b) by (nonlinear_arith);
                assert(10 * size(self.unsigned()) == (10 * w) * one());
                vstd::arithmetic::div_mod::lemma_fundamental_div_mod_converse(
                    ((10 * w) * one()) as int, one() as int, (10 * w) as int, 0);
                assert(tenths(self) == 10 * w);
                reveal_strlit("0");
                assert("0"@ =~= natural_text(0));
                assert(r@ =~= sign + (natural_text(w) + "."@ + natural_text(0)));
            }
            r
        } else {
            let n: u64 = Double::small_tenths(m, t);
            assert(n == tenths(self));
            r.append(write_natural(n / 10).as_str());
            r.append(".");
            r.append(write_natural(n % 10).as_str());
            proof {
                assert(r@ =~= sign + (natural_text((n / 10) as nat) + "."@ + natural_text((n % 10) as nat)));
            }
            r
        }
    }
}

} // verus!
