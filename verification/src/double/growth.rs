//! How arithmetic keeps the order of numbers.

use vstd::arithmetic::power2::*;
use vstd::prelude::*;

use super::model::{
    lemma_nearest_unique, lemma_size_monotone, lemma_size_of, size, BINADE, INFINITE, UNIT_EXPONENT,
};
use super::{
    at_most, integer, integer_zero, integers_are_exact, integers_are_finite, lemma_nearest_itself, lemma_nearest_scaled,
    magnitude, nearest_whole, one, opposite, product, quotient, ratio, rounded, rounding_gives_a_number, sum, Double,
};

verus! {

/// The pattern nearest to `num / den` units.
pub open spec fn nearest_to(num: nat, den: nat) -> nat {
    rounded(false, num, den).unsigned()
}

/// The position of the number nearest to `exact` units.
pub open spec fn rank_near(exact: int) -> int {
    if exact < 0 {
        -(nearest_to(magnitude(exact), 1) as int)
    } else {
        nearest_to(magnitude(exact), 1) as int
    }
}

/// Rounding keeps order: of two fractions the larger is not rounded to less.
pub proof fn rounding_keeps_order(num: nat, den: nat, other_num: nat, other_den: nat)
    requires
        den > 0,
        other_den > 0,
        num * other_den <= other_num * den,
    ensures
        nearest_to(num, den) <= nearest_to(other_num, other_den),
{
    rounding_gives_a_number(false, num, den);
    rounding_gives_a_number(false, other_num, other_den);
    let j = nearest_to(num, den);
    let k = nearest_to(other_num, other_den);
    if j > k {
        let upper = size(k) + size(k + 1);
        let lower = size((j - 1) as nat) + size(j);
        if j > k + 1 {
            lemma_size_monotone(k, (j - 1) as nat);
            lemma_size_monotone(k + 1, j);
        }
        assert(upper <= lower);
        // 2 * other_num <= upper * other_den and lower * den <= 2 * num
        assert((2 * other_num) * den <= (upper * other_den) * den) by (nonlinear_arith)
            requires
                2 * other_num <= upper * other_den,
                den > 0,
        ;
        assert((lower * den) * other_den <= (2 * num) * other_den) by (nonlinear_arith)
            requires
                lower * den <= 2 * num,
                other_den > 0,
        ;
        assert((2 * num) * other_den <= (2 * other_num) * den) by (nonlinear_arith)
            requires
                num * other_den <= other_num * den,
        ;
        assert((upper * other_den) * den == upper * (den * other_den)) by (nonlinear_arith);
        assert((lower * den) * other_den == lower * (den * other_den)) by (nonlinear_arith);
        assert(den * other_den > 0) by (nonlinear_arith)
            requires
                den > 0,
                other_den > 0,
        ;
        if upper < lower {
            assert(upper * (den * other_den) < lower * (den * other_den)) by (nonlinear_arith)
                requires
                    upper < lower,
                    den * other_den > 0,
            ;
            assert(false);
        }
        assert(j == k + 1);
        if upper * other_den > 2 * other_num {
            assert((2 * other_num) * den < (upper * other_den) * den) by (nonlinear_arith)
                requires
                    2 * other_num < upper * other_den,
                    den > 0,
            ;
            assert(false);
        }
        if lower * den < 2 * num {
            assert((lower * den) * other_den < (2 * num) * other_den) by (nonlinear_arith)
                requires
                    lower * den < 2 * num,
                    other_den > 0,
            ;
            assert(false);
        }
        assert(k % 2 == 0 && j % 2 == 0);
    }
}

/// A number is nearest to itself.
pub proof fn lemma_nearest_to_itself(k: nat)
    requires
        k <= INFINITE,
    ensures
        nearest_to(size(k), 1) == k,
{
    lemma_nearest_itself(k);
    rounding_gives_a_number(false, size(k), 1);
    lemma_nearest_unique(size(k), 1, k, nearest_to(size(k), 1));
}

pub proof fn lemma_rounded(negative: bool, num: nat, den: nat)
    requires
        den > 0,
    ensures
        !rounded(negative, num, den).nan(),
        rounded(negative, num, den).negative() == negative,
        rounded(negative, num, den).unsigned() == nearest_to(num, den),
        nearest_to(num, den) <= INFINITE,
{
    rounding_gives_a_number(negative, num, den);
    rounding_gives_a_number(false, num, den);
    lemma_nearest_unique(num, den, rounded(negative, num, den).unsigned(), nearest_to(num, den));
}

pub proof fn lemma_nearest_to_zero(den: nat)
    requires
        den > 0,
    ensures
        nearest_to(0, den) == 0,
{
    assert(size(0) == 0);
    assert(0 * den == 0);
    lemma_nearest_to_itself(0);
    rounding_keeps_order(0, den, 0, 1);
}

/// Numbers stand in the order of their values.
pub proof fn lemma_rank_of_units(a: Double, b: Double)
    ensures
        a.rank() <= b.rank() <==> a.units() <= b.units(),
        a.rank() >= 0 <==> a.units() >= 0,
        a.rank() == 0 <==> a.units() == 0,
{
    let (j, k) = (a.unsigned(), b.unsigned());
    assert(size(0) == 0);
    if j > 0 {
        lemma_size_monotone(0, j);
    }
    if k > 0 {
        lemma_size_monotone(0, k);
    }
    if j < k {
        lemma_size_monotone(j, k);
    } else if k < j {
        lemma_size_monotone(k, j);
    }
}

proof fn lemma_rank_near_grows(e: int, f: int)
    requires
        e <= f,
    ensures
        rank_near(e) <= rank_near(f),
{
    let (m, n) = (magnitude(e), magnitude(f));
    if f < 0 {
        rounding_keeps_order(n, 1, m, 1);
    } else if e >= 0 {
        rounding_keeps_order(m, 1, n, 1);
    }
}

/// Where a sum of finite numbers stands.
pub proof fn lemma_sum_rank(a: Double, b: Double)
    requires
        a.finite(),
        b.finite(),
    ensures
        !sum(a, b).nan(),
        sum(a, b).rank() == rank_near(a.units() + b.units()),
{
    reveal(sum);
    let exact = a.units() + b.units();
    lemma_rounded(exact < 0, magnitude(exact), 1);
    lemma_nearest_to_zero(1);
}

/// Where a product of finite numbers stands.
pub proof fn lemma_product_rank(a: Double, b: Double)
    requires
        a.finite(),
        b.finite(),
    ensures
        !product(a, b).nan(),
        product(a, b).unsigned() == nearest_to(size(a.unsigned()) * size(b.unsigned()), one()),
        product(a, b).negative() == (a.negative() != b.negative()),
{
    reveal(product);
    lemma_pow2_pos(UNIT_EXPONENT as nat);
    lemma_rounded(a.negative() != b.negative(), size(a.unsigned()) * size(b.unsigned()), one());
}

/// Where a quotient of finite numbers stands.
pub proof fn lemma_quotient_rank(a: Double, b: Double)
    requires
        a.finite(),
        b.finite(),
        !b.zero(),
    ensures
        size(b.unsigned()) > 0,
        !quotient(a, b).nan(),
        quotient(a, b).unsigned() == nearest_to(size(a.unsigned()) * one(), size(b.unsigned())),
        quotient(a, b).negative() == (a.negative() != b.negative()),
{
    reveal(quotient);
    assert(size(0) == 0);
    lemma_size_monotone(0, b.unsigned());
    lemma_rounded(a.negative() != b.negative(), size(a.unsigned()) * one(), size(b.unsigned()));
}

/// A larger number gives no smaller sum.
pub proof fn sums_grow(a: Double, b: Double, c: Double)
    requires
        a.finite(),
        b.finite(),
        c.finite(),
        at_most(a, b),
    ensures
        at_most(sum(a, c), sum(b, c)),
        at_most(sum(c, a), sum(c, b)),
{
    reveal(at_most);
    lemma_rank_of_units(a, b);
    lemma_sum_rank(a, c);
    lemma_sum_rank(b, c);
    lemma_sum_rank(c, a);
    lemma_sum_rank(c, b);
    lemma_rank_near_grows(a.units() + c.units(), b.units() + c.units());
}

/// Adding what is not negative takes nothing away, and adding what is not positive
/// adds nothing.
pub proof fn sums_move_with_the_sign(a: Double, c: Double)
    requires
        a.finite(),
        c.finite(),
    ensures
        c.rank() >= 0 ==> at_most(a, sum(a, c)),
        c.rank() <= 0 ==> at_most(sum(a, c), a),
{
    reveal(at_most);
    lemma_rank_of_units(c, integer(0));
    lemma_sum_rank(a, c);
    let exact = a.units() + c.units();
    assert(rank_near(a.units()) == a.rank()) by {
        lemma_nearest_to_itself(a.unsigned());
        lemma_rank_of_units(a, a);
    }
    if c.rank() >= 0 {
        lemma_rank_near_grows(a.units(), exact);
    }
    if c.rank() <= 0 {
        lemma_rank_near_grows(exact, a.units());
    }
}

/// Times what is not negative, a larger number gives no smaller product.
pub proof fn products_grow(a: Double, b: Double, c: Double)
    requires
        a.finite(),
        b.finite(),
        c.finite(),
        c.rank() >= 0,
        at_most(a, b),
    ensures
        at_most(product(a, c), product(b, c)),
        at_most(product(c, a), product(c, b)),
{
    reveal(at_most);
    let (x, y, z) = (size(a.unsigned()), size(b.unsigned()), size(c.unsigned()));
    lemma_rank_of_units(a, b);
    lemma_product_rank(a, c);
    lemma_product_rank(b, c);
    lemma_product_rank(c, a);
    lemma_product_rank(c, b);
    lemma_pow2_pos(UNIT_EXPONENT as nat);
    lemma_nearest_to_zero(one());
    assert(x * z == z * x && y * z == z * y) by (nonlinear_arith);
    assert(size(0) == 0);
    if c.zero() {
        assert(x * 0 == 0 && y * 0 == 0);
    } else {
        if x <= y {
            assert((x * z) * one() <= (y * z) * one()) by (nonlinear_arith)
                requires
                    x <= y,
            ;
            rounding_keeps_order(x * z, one(), y * z, one());
        }
        if y <= x {
            assert((y * z) * one() <= (x * z) * one()) by (nonlinear_arith)
                requires
                    y <= x,
            ;
            rounding_keeps_order(y * z, one(), x * z, one());
        }
        if a.zero() {
            assert(0 * z == 0);
        }
        if b.zero() {
            assert(0 * z == 0);
        }
        lemma_rank_of_units(b, a);
    }
}

/// Times a share, between zero and one, no number gets larger in size.
pub proof fn shares_are_no_larger(a: Double, c: Double)
    requires
        a.finite(),
        c.finite(),
        c.rank() >= 0,
        at_most(c, integer(1)),
    ensures
        product(a, c).unsigned() <= a.unsigned(),
        product(c, a).unsigned() <= a.unsigned(),
        product(a, c).finite(),
        product(c, a).finite(),
{
    reveal(at_most);
    let (x, z) = (size(a.unsigned()), size(c.unsigned()));
    integers_are_exact(1);
    integers_are_finite(1);
    assert(1 * one() == one()) by (nonlinear_arith);
    lemma_rank_of_units(c, integer(1));
    lemma_rank_of_units(c, c);
    lemma_pow2_pos(UNIT_EXPONENT as nat);
    assert(z <= one()) by {
        assert(size(0) == 0);
    }
    lemma_product_rank(a, c);
    lemma_product_rank(c, a);
    assert(x * z == z * x) by (nonlinear_arith);
    assert((x * z) * 1 <= x * one()) by (nonlinear_arith)
        requires
            z <= one(),
    ;
    rounding_keeps_order(x * z, one(), x, 1);
    lemma_nearest_to_itself(a.unsigned());
}

/// Times one, a number stays what it is.
pub proof fn product_with_one(a: Double)
    requires
        a.finite(),
    ensures
        product(a, integer(1)) == a,
{
    integers_are_exact(1);
    integers_are_finite(1);
    let (o, x) = (one(), size(a.unsigned()));
    assert(1 * o == o) by (nonlinear_arith);
    lemma_product_rank(a, integer(1));
    lemma_pow2_pos(UNIT_EXPONENT as nat);
    lemma_nearest_itself(a.unsigned());
    lemma_nearest_scaled(x, 1, o, a.unsigned());
    assert(1 * o == o) by (nonlinear_arith);
    rounding_gives_a_number(false, x * o, o);
    lemma_nearest_unique(x * o, o, a.unsigned(), nearest_to(x * o, o));
}

/// The product of small integers is exact.
pub proof fn integers_multiply(a: int, b: int)
    requires
        0 <= a,
        0 <= b,
        a <= 2 * BINADE,
        b <= 2 * BINADE,
        a * b <= 2 * BINADE,
    ensures
        product(integer(a), integer(b)) == integer(a * b),
{
    let o = one();
    let c = a * b;
    assert(0 <= c) by (nonlinear_arith)
        requires
            0 <= a,
            0 <= b,
            c == a * b,
    ;
    integers_are_exact(a);
    integers_are_exact(b);
    integers_are_exact(c);
    integers_are_finite(a);
    integers_are_finite(b);
    integers_are_finite(c);
    lemma_pow2_pos(UNIT_EXPONENT as nat);
    lemma_product_rank(integer(a), integer(b));
    let (x, y, z) = (size(integer(a).unsigned()), size(integer(b).unsigned()), size(integer(c).unsigned()));
    assert(a * o >= 0 && b * o >= 0 && c * o >= 0) by (nonlinear_arith)
        requires
            0 <= a,
            0 <= b,
            0 <= c,
            o > 0,
    ;
    assert(x * y == z * o) by (nonlinear_arith)
        requires
            x == a * o,
            y == b * o,
            z == c * o,
            c == a * b,
    ;
    let k = integer(c).unsigned();
    lemma_nearest_itself(k);
    lemma_nearest_scaled(z, 1, o, k);
    assert(1 * o == o) by (nonlinear_arith);
    rounding_gives_a_number(false, z * o, o);
    lemma_nearest_unique(z * o, o, k, nearest_to(z * o, o));
}

/// Divided by what is positive, a larger number gives no smaller quotient.
pub proof fn quotients_grow(a: Double, b: Double, c: Double)
    requires
        a.finite(),
        b.finite(),
        c.finite(),
        c.rank() > 0,
        at_most(a, b),
    ensures
        at_most(quotient(a, c), quotient(b, c)),
{
    reveal(at_most);
    let (x, y, z) = (size(a.unsigned()), size(b.unsigned()), size(c.unsigned()));
    lemma_rank_of_units(a, b);
    lemma_rank_of_units(b, a);
    lemma_quotient_rank(a, c);
    lemma_quotient_rank(b, c);
    lemma_nearest_to_zero(z);
    assert(size(0) == 0);
    let o = one();
    assert(0 * o == 0) by (nonlinear_arith);
    if x <= y {
        assert((x * o) * z <= (y * o) * z) by (nonlinear_arith)
            requires
                x <= y,
        ;
        rounding_keeps_order(x * o, z, y * o, z);
    }
    if y <= x {
        assert((y * o) * z <= (x * o) * z) by (nonlinear_arith)
            requires
                y <= x,
        ;
        rounding_keeps_order(y * o, z, x * o, z);
    }
}

/// Divided by at least one, no number gets larger in size.
pub proof fn quotients_are_no_larger(a: Double, c: Double)
    requires
        a.finite(),
        c.finite(),
        at_most(integer(1), c),
    ensures
        quotient(a, c).unsigned() <= a.unsigned(),
        quotient(a, c).finite(),
        !c.zero(),
        c.rank() > 0,
{
    reveal(at_most);
    let (x, z) = (size(a.unsigned()), size(c.unsigned()));
    integers_are_exact(1);
    integers_are_finite(1);
    assert(1 * one() == one()) by (nonlinear_arith);
    lemma_rank_of_units(integer(1), c);
    lemma_pow2_pos(UNIT_EXPONENT as nat);
    assert(z >= one());
    assert(size(0) == 0);
    lemma_quotient_rank(a, c);
    assert((x * one()) * 1 <= x * z) by (nonlinear_arith)
        requires
            one() <= z,
    ;
    rounding_keeps_order(x * one(), z, x, 1);
    lemma_nearest_to_itself(a.unsigned());
}

/// A fraction of positive integers, the upper no larger than the lower, lies
/// between zero and one.
pub proof fn fractions_are_shares(num: int, den: int)
    requires
        0 < num <= den,
        den <= 2 * BINADE,
    ensures
        ratio(num, den).finite(),
        ratio(num, den).rank() > 0,
        !ratio(num, den).negative(),
        at_most(ratio(num, den), integer(1)),
{
    reveal(at_most);
    let o = one();
    integers_are_exact(num);
    integers_are_exact(den);
    integers_are_exact(1);
    integers_are_finite(num);
    integers_are_finite(den);
    integers_are_finite(1);
    assert(1 * o == o) by (nonlinear_arith);
    lemma_pow2_pos(UNIT_EXPONENT as nat);
    lemma_quotient_rank(integer(num), integer(den));
    let (x, z) = (size(integer(num).unsigned()), size(integer(den).unsigned()));
    assert((x * o) * 1 <= o * z) by (nonlinear_arith)
        requires
            x == num * o,
            z == den * o,
            num <= den,
            o > 0,
    ;
    rounding_keeps_order(x * o, z, o, 1);
    lemma_nearest_to_itself(integer(1).unsigned());
    lemma2_to64();
    lemma2_to64_rest();
    lemma_pow2_strictly_increases(54, UNIT_EXPONENT as nat);
    assert(den <= o);
    assert(1 * z <= (x * o) * 1) by (nonlinear_arith)
        requires
            x == num * o,
            z == den * o,
            num >= 1,
            den <= o,
            o > 0,
    ;
    rounding_keeps_order(1, 1, x * o, z);
    assert(size(1) == 1);
    lemma_nearest_to_itself(1);
}

/// Neighbouring patterns differ in size by one part in `2^52`, or by one unit.
pub proof fn lemma_spacing(k: nat)
    ensures
        BINADE * (size(k + 1) - size(k)) <= size(k) + BINADE,
{
    let b = BINADE as nat;
    let (e, f) = (k / b, k % b);
    vstd::arithmetic::div_mod::lemma_fundamental_div_mod(k as int, b as int);
    lemma2_to64();
    if e == 0 {
        lemma_size_of(0, f + 1);
        assert(0 * b + (f + 1) == k + 1) by (nonlinear_arith)
            requires
                k == b * e + f,
                e == 0,
        ;
        assert((f + 1) * pow2(0) == f + 1) by (nonlinear_arith)
            requires
                pow2(0) == 1,
        ;
    } else {
        let t = (e - 1) as nat;
        let p = pow2(t);
        lemma_size_of(t, b + f + 1);
        assert(t * b + (b + f + 1) == k + 1) by (nonlinear_arith)
            requires
                k == b * e + f,
                t == e - 1,
        ;
        assert(size(k) == (b + f) * p);
        assert((b + f + 1) * p - (b + f) * p == p) by (nonlinear_arith);
        assert(b * p <= (b + f) * p) by (nonlinear_arith);
    }
}

/// Rounding changes a fraction by half of one part in `2^52`, or by half a unit.
pub proof fn rounding_stays_near(num: nat, den: nat)
    requires
        den > 0,
    ensures
        ({
            let x = size(nearest_to(num, den));
            &&& nearest_to(num, den) < INFINITE ==> (2 * BINADE) * num <= ((2 * BINADE) * x + x + BINADE) * den
            &&& ((2 * BINADE) * x) * den <= (2 * BINADE) * num + (x + BINADE) * den
        }),
{
    rounding_gives_a_number(false, num, den);
    let k = nearest_to(num, den);
    let x = size(k);
    let b = BINADE as int;
    if k < INFINITE {
        lemma_spacing(k);
        let y = size(k + 1);
        assert(2 * num <= (x + y) * den);
        assert((2 * b) * num <= ((2 * b) * x + x + b) * den) by (nonlinear_arith)
            requires
                2 * num <= (x + y) * den,
                b * (y - x) <= x + b,
                b > 0,
                den > 0,
        ;
    }
    if k > 0 {
        let j = (k - 1) as nat;
        lemma_spacing(j);
        lemma_size_monotone(j, k);
        let w = size(j);
        assert((w + x) * den <= 2 * num);
        assert(((2 * b) * x) * den <= (2 * b) * num + (x + b) * den) by (nonlinear_arith)
            requires
                (w + x) * den <= 2 * num,
                b * (x - w) <= w + b,
                w <= x,
                b > 0,
                den > 0,
        ;
    } else {
        assert(size(0) == 0);
        assert(((2 * b) * 0) * den == 0) by (nonlinear_arith);
        assert((0 + b) * den >= 0) by (nonlinear_arith)
            requires
                b > 0,
                den > 0,
        ;
    }
}

/// Of two integers the larger is not the smaller number.
pub proof fn integers_keep_order(a: int, b: int)
    requires
        a <= b,
    ensures
        at_most(integer(a), integer(b)),
{
    reveal(integer);
    reveal(at_most);
    let (m, n, o) = (magnitude(a), magnitude(b), one());
    lemma_rounded(a < 0, m * o, 1);
    lemma_rounded(b < 0, n * o, 1);
    if b < 0 {
        assert(n * o <= m * o) by (nonlinear_arith)
            requires
                n <= m,
        ;
        rounding_keeps_order(n * o, 1, m * o, 1);
    } else if a >= 0 {
        assert(m * o <= n * o) by (nonlinear_arith)
            requires
                m <= n,
        ;
        rounding_keeps_order(m * o, 1, n * o, 1);
    }
}

/// Adding a number of up to 53 bits before the point leaves a number finite.
pub proof fn small_steps_stay_finite(a: Double, b: Double)
    requires
        a.finite(),
        b.finite(),
        size(b.unsigned()) <= 2 * BINADE * one(),
    ensures
        sum(a, b).finite(),
{
    let exact = a.units() + b.units();
    lemma_sum_rank(a, b);
    let top = (INFINITE - 1) as nat;
    let m = magnitude(exact);
    if a.unsigned() < top {
        lemma_size_monotone(a.unsigned(), top);
    }
    let step = 2 * BINADE * one();
    assert(m <= size(top) + step);
    let p = pow2(2045);
    lemma_pow2_unfold(2046);
    assert(INFINITE as nat / BINADE as nat == 2047 && INFINITE as nat % BINADE as nat == 0);
    assert(top / BINADE as nat == 2046 && top % BINADE as nat == (BINADE - 1) as nat);
    assert(size(INFINITE as nat) == BINADE as nat * (2 * p));
    assert(size(top) == (2 * BINADE - 1) as nat * p);
    assert(BINADE as nat * (2 * p) == (2 * BINADE - 1) as nat * p + p) by (nonlinear_arith);
    lemma_pow2_adds(971, UNIT_EXPONENT as nat);
    lemma2_to64();
    lemma2_to64_rest();
    lemma_pow2_strictly_increases(60, 971);
    let (q, o) = (pow2(971), one());
    lemma_pow2_pos(UNIT_EXPONENT as nat);
    assert(q * o > 2 * (2 * BINADE * o)) by (nonlinear_arith)
        requires
            q > 4 * BINADE,
            o > 0,
    ;
    rounding_gives_a_number(false, m, 1);
}

/// A small whole number stays what it is when rounded to a whole one.
pub proof fn whole_numbers_stay(i: int)
    requires
        0 <= i <= 2 * BINADE,
    ensures
        nearest_whole(integer(i)) == integer(i),
{
    reveal(nearest_whole);
    integers_are_exact(i);
    integers_are_finite(i);
    let o = one() as int;
    lemma_pow2_pos(UNIT_EXPONENT as nat);
    assert(2 * (i * o) + o == (2 * o) * i + o) by (nonlinear_arith);
    vstd::arithmetic::div_mod::lemma_fundamental_div_mod_converse(2 * (i * o) + o, 2 * o, i, o);
}

/// Rounding to a whole number keeps order.
pub proof fn whole_numbers_keep_order(a: Double, b: Double)
    requires
        a.finite(),
        b.finite(),
        at_most(a, b),
    ensures
        at_most(nearest_whole(a), nearest_whole(b)),
{
    reveal(at_most);
    reveal(nearest_whole);
    let (x, y, o) = (size(a.unsigned()), size(b.unsigned()), one());
    lemma_pow2_pos(UNIT_EXPONENT as nat);
    let (v, w) = ((2 * x + o) / (2 * o), (2 * y + o) / (2 * o));
    lemma_rank_of_units(a, b);
    lemma_rank_of_units(b, a);
    lemma_whole_pattern(v);
    lemma_whole_pattern(w);
    integer_zero();
    if a.zero() {
        assert(size(0) == 0);
        vstd::arithmetic::div_mod::lemma_basic_div(o as int, (2 * o) as int);
    }
    if b.zero() {
        assert(size(0) == 0);
        vstd::arithmetic::div_mod::lemma_basic_div(o as int, (2 * o) as int);
    }
    if x <= y {
        vstd::arithmetic::div_mod::lemma_div_is_ordered((2 * x + o) as int, (2 * y + o) as int, (2 * o) as int);
        integers_keep_order(v as int, w as int);
    }
    if y <= x {
        vstd::arithmetic::div_mod::lemma_div_is_ordered((2 * y + o) as int, (2 * x + o) as int, (2 * o) as int);
        integers_keep_order(w as int, v as int);
    }
}

proof fn lemma_whole_pattern(w: nat)
    ensures
        !integer(w as int).negative(),
        integer(w as int).unsigned() <= INFINITE,
        integer(w as int).rank() == integer(w as int).unsigned(),
{
    reveal(integer);
    lemma_rounded(false, w * one(), 1);
    assert(magnitude(w as int) == w);
}

/// How near a sum is to the exact one.
pub proof fn sums_stay_near(a: Double, b: Double)
    requires
        a.finite(),
        b.finite(),
    ensures
        ({
            let (exact, x) = (magnitude(a.units() + b.units()) as int, size(sum(a, b).unsigned()) as int);
            &&& sum(a, b).finite() ==> 0x20_0000_0000_0000 * exact <= 0x20_0000_0000_0001 * x + 0x10_0000_0000_0000
            &&& 0x1f_ffff_ffff_ffff * x <= 0x20_0000_0000_0000 * exact + 0x10_0000_0000_0000
            &&& x == 0 || (sum(a, b).negative() == (a.units() + b.units() < 0))
        }),
{
    let exact = a.units() + b.units();
    let m = magnitude(exact);
    reveal(sum);
    lemma_rounded(exact < 0, m, 1);
    lemma_nearest_to_zero(1);
    assert(size(0) == 0);
    rounding_stays_near(m, 1);
    let (n, x, k) = (m as int, size(nearest_to(m, 1)) as int, BINADE as int);
    assert(0x1f_ffff_ffff_ffff * x <= 0x20_0000_0000_0000 * n + 0x10_0000_0000_0000) by (nonlinear_arith)
        requires
            ((2 * k) * x) * 1 <= (2 * k) * n + (x + k) * 1,
            k == 0x10_0000_0000_0000,
    ;
    if nearest_to(m, 1) < INFINITE {
        assert(0x20_0000_0000_0000 * n <= 0x20_0000_0000_0001 * x + 0x10_0000_0000_0000) by (nonlinear_arith)
            requires
                (2 * k) * n <= ((2 * k) * x + x + k) * 1,
                k == 0x10_0000_0000_0000,
        ;
    }
}

/// What is at most a small whole number is rounded to at most that.
pub proof fn rounding_is_bounded(num: nat, den: nat, c: nat)
    requires
        den > 0,
        c <= 2 * BINADE,
        num <= (c * one()) * den,
    ensures
        nearest_to(num, den) < INFINITE,
        size(nearest_to(num, den)) <= c * one(),
{
    integers_are_exact(c as int);
    integers_are_finite(c as int);
    let k = integer(c as int).unsigned();
    assert(c as int * one() >= 0) by (nonlinear_arith)
        requires
            c >= 0,
            one() >= 0,
    ;
    assert(size(k) == c * one());
    assert(num * 1 <= size(k) * den);
    rounding_keeps_order(num, den, size(k), 1);
    lemma_nearest_to_itself(k);
    if nearest_to(num, den) < k {
        lemma_size_monotone(nearest_to(num, den), k);
    }
}

/// What lies between two powers of two is rounded to what does.
pub proof fn rounding_between_powers(num: nat, den: nat, low: nat, high: nat)
    requires
        den > 0,
        52 <= low <= high <= 2000,
        pow2(low) * den <= num <= pow2(high) * den,
    ensures
        nearest_to(num, den) < INFINITE,
        pow2(low) <= size(nearest_to(num, den)) <= pow2(high),
{
    let b = BINADE as nat;
    lemma2_to64();
    lemma2_to64_rest();
    let (s, t) = ((low - 52) as nat, (high - 52) as nat);
    lemma_size_of(s, b);
    lemma_size_of(t, b);
    lemma_pow2_adds(52, s);
    lemma_pow2_adds(52, t);
    let (j, k, n) = (s * b + b, t * b + b, nearest_to(num, den));
    assert(j <= k < INFINITE) by (nonlinear_arith)
        requires
            j == s * b + b,
            k == t * b + b,
            s <= t <= 1948,
            b == 0x10_0000_0000_0000,
            INFINITE == 0x7ff0_0000_0000_0000,
    ;
    lemma_nearest_to_itself(j);
    lemma_nearest_to_itself(k);
    rounding_keeps_order(size(j), 1, num, den);
    rounding_keeps_order(num, den, size(k), 1);
    if j < n {
        lemma_size_monotone(j, n);
    }
    if n < k {
        lemma_size_monotone(n, k);
    }
}

/// A sum of at most `c` in size is finite, and no larger.
pub proof fn sums_are_bounded(a: Double, b: Double, c: nat)
    requires
        a.finite(),
        b.finite(),
        c <= 2 * BINADE,
        -(c * one()) <= a.units() + b.units() <= c * one(),
    ensures
        sum(a, b).finite(),
        size(sum(a, b).unsigned()) <= c * one(),
{
    let exact = a.units() + b.units();
    reveal(sum);
    lemma_rounded(exact < 0, magnitude(exact), 1);
    rounding_is_bounded(magnitude(exact), 1, c);
    assert(size(0) == 0);
}

/// A product of at most `c` in size is finite, and no larger.
pub proof fn products_are_bounded(a: Double, b: Double, c: nat)
    requires
        a.finite(),
        b.finite(),
        c <= 2 * BINADE,
        size(a.unsigned()) * size(b.unsigned()) <= (c * one()) * one(),
    ensures
        product(a, b).finite(),
        size(product(a, b).unsigned()) <= c * one(),
{
    lemma_pow2_pos(UNIT_EXPONENT as nat);
    lemma_product_rank(a, b);
    rounding_is_bounded(size(a.unsigned()) * size(b.unsigned()), one(), c);
}

/// A quotient of at most `c` in size is finite, and no larger.
pub proof fn quotients_are_bounded(a: Double, b: Double, c: nat)
    requires
        a.finite(),
        b.finite(),
        !b.zero(),
        c <= 2 * BINADE,
        size(a.unsigned()) <= c * size(b.unsigned()),
    ensures
        quotient(a, b).finite(),
        size(quotient(a, b).unsigned()) <= c * one(),
{
    lemma_quotient_rank(a, b);
    let (x, y, o) = (size(a.unsigned()), size(b.unsigned()), one());
    assert(x * o <= (c * o) * y) by (nonlinear_arith)
        requires
            x <= c * y,
    ;
    rounding_is_bounded(x * o, y, c);
}

/// How far a finite sum can be off: one part in `2^53` of it, and half a unit.
pub proof fn sum_error(a: Double, b: Double)
    requires
        a.finite(),
        b.finite(),
        sum(a, b).finite(),
    ensures
        ({
            let (s, x) = (sum(a, b).units(), size(sum(a, b).unsigned()) as int);
            -(x + 0x10_0000_0000_0000) <= 0x20_0000_0000_0000 * (s - (a.units() + b.units())) <= x
                + 0x10_0000_0000_0000
        }),
{
    sums_stay_near(a, b);
}

/// How far a finite product can be off: one part in `2^53` of it, and half a unit.
pub proof fn product_error(a: Double, b: Double)
    requires
        a.finite(),
        b.finite(),
        product(a, b).finite(),
    ensures
        ({
            let (p, x) = (product(a, b).units(), size(product(a, b).unsigned()) as int);
            let o = one() as int;
            -((x + 0x10_0000_0000_0000) * o) <= 0x20_0000_0000_0000 * (p * o - a.units() * b.units()) <= (x
                + 0x10_0000_0000_0000) * o
        }),
{
    let (x, y, o) = (size(a.unsigned()) as int, size(b.unsigned()) as int, one() as int);
    lemma_pow2_pos(UNIT_EXPONENT as nat);
    lemma_product_rank(a, b);
    let m = x * y;
    assert(m >= 0) by (nonlinear_arith)
        requires
            x >= 0,
            y >= 0,
            m == x * y,
    ;
    rounding_stays_near(m as nat, o as nat);
    let (z, k) = (size(product(a, b).unsigned()) as int, BINADE as int);
    assert(-((z + k) * o) <= (2 * k) * (z * o - m) <= (z + k) * o) by (nonlinear_arith)
        requires
            (2 * k) * m <= ((2 * k) * z + z + k) * o,
            ((2 * k) * z) * o <= (2 * k) * m + (z + k) * o,
    ;
    assert((-x) * y == -(x * y) && x * (-y) == -(x * y) && (-x) * (-y) == x * y) by (nonlinear_arith);
    assert((-z) * o == -(z * o)) by (nonlinear_arith);
    assert((2 * k) == 0x20_0000_0000_0000);
    let d = z * o - m;
    assert(0x20_0000_0000_0000 * d == (2 * k) * d);
    assert(0x20_0000_0000_0000 * (-d) == -((2 * k) * d)) by (nonlinear_arith)
        requires
            2 * k == 0x20_0000_0000_0000,
    ;
}

/// How far a finite quotient can be off: one part in `2^53` of it, and half a unit.
pub proof fn quotient_error(a: Double, b: Double)
    requires
        a.finite(),
        b.finite(),
        !b.zero(),
        quotient(a, b).finite(),
    ensures
        ({
            let (q, x) = (quotient(a, b).units(), size(quotient(a, b).unsigned()) as int);
            let y = size(b.unsigned()) as int;
            -((x + 0x10_0000_0000_0000) * y) <= 0x20_0000_0000_0000 * (q * b.units() - a.units() * one()) <= (x
                + 0x10_0000_0000_0000) * y
        }),
{
    let (x, y, o) = (size(a.unsigned()) as int, size(b.unsigned()) as int, one() as int);
    lemma_pow2_pos(UNIT_EXPONENT as nat);
    lemma_quotient_rank(a, b);
    let m = x * o;
    assert(m >= 0) by (nonlinear_arith)
        requires
            x >= 0,
            o >= 0,
            m == x * o,
    ;
    rounding_stays_near(m as nat, y as nat);
    let (z, k) = (size(quotient(a, b).unsigned()) as int, BINADE as int);
    assert(-((z + k) * y) <= (2 * k) * (z * y - m) <= (z + k) * y) by (nonlinear_arith)
        requires
            (2 * k) * m <= ((2 * k) * z + z + k) * y,
            ((2 * k) * z) * y <= (2 * k) * m + (z + k) * y,
    ;
    assert((-x) * o == -(x * o)) by (nonlinear_arith);
    assert((-z) * y == -(z * y) && z * (-y) == -(z * y) && (-z) * (-y) == z * y) by (nonlinear_arith);
    let d = z * y - m;
    assert(0x20_0000_0000_0000 * d == (2 * k) * d);
    assert(0x20_0000_0000_0000 * (-d) == -((2 * k) * d)) by (nonlinear_arith)
        requires
            2 * k == 0x20_0000_0000_0000,
    ;
}

/// A finite number is less than another exactly if its value is.
pub proof fn less_by_value(a: Double, b: Double)
    requires
        a.finite(),
        b.finite(),
    ensures
        super::less(a, b) <==> a.units() < b.units(),
        at_most(a, b) <==> a.units() <= b.units(),
{
    reveal(super::less);
    reveal(at_most);
    lemma_rank_of_units(a, b);
    lemma_rank_of_units(b, a);
}

/// Adding to a number what it lacks of a small one gives nearly that one: what the
/// result is off by is one part in `2^53` of what was added and of the result.
pub proof fn steps_land_near(a: Double, b: Double)
    requires
        a.finite(),
        b.finite(),
        size(b.unsigned()) <= 1000 * one(),
    ensures
        ({
            let way = sum(b, opposite(a));
            let end = sum(a, way);
            let slack = size(way.unsigned()) + size(end.unsigned()) + 0x20_0000_0000_0000;
            &&& way.finite()
            &&& end.finite()
            &&& -slack <= 0x20_0000_0000_0000 * (end.units() - b.units()) <= slack
        }),
{
    let back = opposite(a);
    lemma_opposite(a);
    let o = one();
    lemma_pow2_pos(UNIT_EXPONENT as nat);
    assert(1000 * o <= 2 * BINADE * o) by (nonlinear_arith)
        requires
            o > 0,
    ;
    small_steps_stay_finite(back, b);
    lemma_sum_rank(b, back);
    lemma_sum_rank(back, b);
    let way = sum(b, back);
    assert(way.finite());
    sums_stay_near(b, back);
    let end = sum(a, way);
    sums_stay_near(a, way);
    lemma_sum_rank(a, way);
    lemma_lands_finite(a, b, way);
}

proof fn lemma_lands_finite(a: Double, b: Double, way: Double)
    requires
        a.finite(),
        b.finite(),
        way.finite(),
        size(b.unsigned()) <= 1000 * one(),
        ({
            let (exact, x) = (magnitude(b.units() - a.units()) as int, size(way.unsigned()) as int);
            &&& 0x20_0000_0000_0000 * exact <= 0x20_0000_0000_0001 * x + 0x10_0000_0000_0000
            &&& 0x1f_ffff_ffff_ffff * x <= 0x20_0000_0000_0000 * exact + 0x10_0000_0000_0000
            &&& x == 0 || (way.negative() == (b.units() - a.units() < 0))
        }),
    ensures
        sum(a, way).finite(),
{
    let top = (INFINITE - 1) as nat;
    if way.unsigned() < top {
        lemma_size_monotone(way.unsigned(), top);
    }
    let p = pow2(2045);
    assert(top / BINADE as nat == 2046 && top % BINADE as nat == (BINADE - 1) as nat);
    assert(size(top) == (2 * BINADE - 1) as nat * p);
    assert(size(top) == 0x1f_ffff_ffff_ffff * p);
    lemma_pow2_adds(971, UNIT_EXPONENT as nat);
    lemma2_to64();
    lemma2_to64_rest();
    lemma_pow2_strictly_increases(60, 971);
    lemma_pow2_strictly_increases(60, UNIT_EXPONENT as nat);
    let (q, o) = (pow2(971), one());
    assert(p > 0x1000_0000_0000 * o) by (nonlinear_arith)
        requires
            p == q * o,
            q > 0x1000_0000_0000,
            o > 0,
    ;
    let m = magnitude(a.units() + way.units());
    assert(m <= size(top));
    rounding_keeps_order(m, 1, size(top), 1);
    lemma_nearest_to_itself(top);
    lemma_sum_rank(a, way);
}

/// An integer other than zero is no smaller in size than one.
pub proof fn integers_keep_from_zero(i: int)
    requires
        i != 0,
    ensures
        size(integer(i).unsigned()) >= one(),
{
    reveal(integer);
    let (m, o) = (magnitude(i), one());
    lemma_rounded(i < 0, m * o, 1);
    integers_are_exact(1);
    integers_are_finite(1);
    assert(1 * o == o) by (nonlinear_arith);
    assert(m * o >= o) by (nonlinear_arith)
        requires
            m >= 1,
    ;
    rounding_keeps_order(o, 1, m * o, 1);
    lemma_nearest_to_itself(integer(1).unsigned());
    if integer(1).unsigned() < integer(i).unsigned() {
        lemma_size_monotone(integer(1).unsigned(), integer(i).unsigned());
    }
}

/// The sign turned, the position is mirrored.
pub proof fn lemma_opposite(a: Double)
    ensures
        opposite(a).rank() == -a.rank(),
        opposite(a).units() == -a.units(),
        opposite(a).unsigned() == a.unsigned(),
        opposite(a).negative() == !a.negative(),
{
}

} // verus!
