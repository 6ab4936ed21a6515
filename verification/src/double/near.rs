//! Results that are right up to rounding, and how that adds up.

use vstd::arithmetic::power2::*;
use vstd::prelude::*;

use super::growth::{self, lemma_spacing, product_error, quotient_error, sum_error};
use super::model::{lemma_size_monotone, nearest_root, size, BINADE, INFINITE, UNIT_EXPONENT};
use super::roots::lemma_root;
use super::{
    integer, integers_are_exact, integers_are_finite, magnitude, one, product, quotient, ratio, root, sum, Double,
};

verus! {

/// `x` is `y`, up to `e` parts in `2^45`.
pub open spec fn near(x: int, y: int, e: int) -> bool {
    -(e * magnitude(y)) <= 0x2000_0000_0000 * (x - y) <= e * magnitude(y)
}

/// A factor changes nothing.
pub proof fn near_times(x: int, y: int, e: int, k: int)
    requires
        near(x, y, e),
        e >= 0,
    ensures
        near(x * k, y * k, e),
{
    let (m, d) = (magnitude(y) as int, x - y);
    assert(x * k - y * k == d * k) by (nonlinear_arith)
        requires
            d == x - y,
    ;
    assert(magnitude(y * k) == m * magnitude(k)) by (nonlinear_arith)
        requires
            m == magnitude(y),
            magnitude(y) == (if y < 0 { -y } else { y }),
            magnitude(k) == (if k < 0 { -k } else { k }),
            magnitude(y * k) == (if y * k < 0 { -(y * k) } else { y * k }),
    ;
    let n = magnitude(k) as int;
    let em = e * m;
    assert(e * (m * n) == em * n) by (nonlinear_arith)
        requires
            em == e * m,
    ;
    assert(-(em * n) <= 0x2000_0000_0000 * (d * k) <= em * n) by (nonlinear_arith)
        requires
            -em <= 0x2000_0000_0000 * d <= em,
            k == n || k == -n,
            n >= 0,
    ;
}

/// What is near to what is near is near.
pub proof fn near_chain(x: int, y: int, z: int, e: int, f: int)
    requires
        near(x, y, e),
        near(y, z, f),
        0 <= e <= 1000,
        0 <= f <= 1000,
    ensures
        near(x, z, e + f + 1),
{
    let (m, n) = (magnitude(y) as int, magnitude(z) as int);
    assert(f * n <= 1000 * n) by (nonlinear_arith)
        requires
            f <= 1000,
            n >= 0,
    ;
    assert(0x2000_0000_0000 * m <= 0x2000_0000_0000 * n + 1000 * n);
    assert(e * m * 0x2000_0000_0000 <= e * (0x2000_0000_0000 * n + 1000 * n)) by (nonlinear_arith)
        requires
            0x2000_0000_0000 * m <= 0x2000_0000_0000 * n + 1000 * n,
            e >= 0,
    ;
    let (en, em, fn_) = (e * n, e * m, f * n);
    assert(e * (0x2000_0000_0000 * n + 1000 * n) == 0x2000_0000_0000 * en + 1000 * en) by (nonlinear_arith)
        requires
            en == e * n,
    ;
    assert(e * m * 0x2000_0000_0000 == 0x2000_0000_0000 * em) by (nonlinear_arith)
        requires
            em == e * m,
    ;
    assert(en <= 1000 * n) by (nonlinear_arith)
        requires
            en == e * n,
            e <= 1000,
            n >= 0,
    ;
    assert(em <= en + n);
    assert((e + f + 1) * n == en + fn_ + n) by (nonlinear_arith)
        requires
            en == e * n,
            fn_ == f * n,
    ;
}

/// Factors that are near give a product that is.
pub proof fn near_products(x: int, y: int, e: int, u: int, v: int, f: int)
    requires
        near(x, y, e),
        near(u, v, f),
        0 <= e <= 1000,
        0 <= f <= 1000,
    ensures
        near(x * u, y * v, e + f + 1),
{
    near_times(x, y, e, u);
    near_times(u, v, f, y);
    assert(u * y == y * u && v * y == y * v) by (nonlinear_arith);
    near_chain(x * u, y * u, y * v, e, f);
}

/// The other way round it is near as well.
pub proof fn near_back(x: int, y: int, e: int)
    requires
        near(x, y, e),
        0 <= e <= 1000,
    ensures
        near(y, x, e + 1),
{
    let (m, n) = (magnitude(y) as int, magnitude(x) as int);
    assert(e * m <= 1000 * m) by (nonlinear_arith)
        requires
            e <= 1000,
            m >= 0,
    ;
    assert(0x2000_0000_0000 * m <= 0x2000_0000_0000 * n + 1000 * m);
    let (em, en) = (e * m, e * n);
    assert(0x1fff_ffff_fc18 * m <= 0x2000_0000_0000 * n);
    assert(0x1fff_ffff_fc18 * em <= 0x2000_0000_0000 * en) by (nonlinear_arith)
        requires
            0x1fff_ffff_fc18 * m <= 0x2000_0000_0000 * n,
            em == e * m,
            en == e * n,
            e >= 0,
    ;
    assert(em <= 1000 * m);
    assert((e + 1) * n == en + n) by (nonlinear_arith)
        requires
            en == e * n,
    ;
    assert(em <= en + n);
}

/// A factor other than zero on both sides can be dropped.
pub proof fn near_over(x: int, y: int, e: int, k: int)
    requires
        near(x * k, y * k, e),
        k > 0,
        e >= 0,
    ensures
        near(x, y, e),
{
    let (m, d) = (magnitude(y) as int, x - y);
    assert(x * k - y * k == d * k) by (nonlinear_arith)
        requires
            d == x - y,
    ;
    assert(magnitude(y * k) == m * k) by (nonlinear_arith)
        requires
            m == magnitude(y),
            magnitude(y) == (if y < 0 { -y } else { y }),
            magnitude(y * k) == (if y * k < 0 { -(y * k) } else { y * k }),
            k > 0,
    ;
    let em = e * m;
    assert(e * (m * k) == em * k) by (nonlinear_arith)
        requires
            em == e * m,
    ;
    assert(-em <= 0x2000_0000_0000 * d <= em) by (nonlinear_arith)
        requires
            -(em * k) <= 0x2000_0000_0000 * (d * k) <= em * k,
            k > 0,
    ;
}

/// An exact value and one that is off by a part in `2^52` of either.
proof fn lemma_close(x: int, y: int, n: int)
    requires
        n == magnitude(x),
        -(2 * n) <= 0x20_0000_0000_0000 * (x - y) <= 2 * n,
    ensures
        near(x, y, 1),
{
}

/// A sum that is not tiny is near to the exact one.
pub proof fn sum_is_near(a: Double, b: Double)
    requires
        a.finite(),
        b.finite(),
        sum(a, b).finite(),
        size(sum(a, b).unsigned()) >= 0x1000_0000_0000_0000,
    ensures
        near(sum(a, b).units(), a.units() + b.units(), 1),
{
    sum_error(a, b);
    lemma_close(sum(a, b).units(), a.units() + b.units(), size(sum(a, b).unsigned()) as int);
}

/// A product that is not tiny is near to the exact one.
pub proof fn product_is_near(a: Double, b: Double)
    requires
        a.finite(),
        b.finite(),
        product(a, b).finite(),
        size(product(a, b).unsigned()) >= 0x1000_0000_0000_0000,
    ensures
        near(product(a, b).units() * one(), a.units() * b.units(), 1),
{
    product_error(a, b);
    let (p, x, o) = (product(a, b).units(), size(product(a, b).unsigned()) as int, one() as int);
    lemma_pow2_pos(UNIT_EXPONENT as nat);
    let n = x * o;
    assert(magnitude(p * o) == n) by (nonlinear_arith)
        requires
            p == x || p == -x,
            n == x * o,
            x >= 0,
            o > 0,
            magnitude(p * o) == (if p * o < 0 { -(p * o) } else { p * o }),
    ;
    assert((x + 0x10_0000_0000_0000) * o <= 2 * n) by (nonlinear_arith)
        requires
            n == x * o,
            x >= 0x10_0000_0000_0000,
            o > 0,
    ;
    lemma_close(p * o, a.units() * b.units(), n);
}

/// A quotient that is not tiny is near to the exact one.
pub proof fn quotient_is_near(a: Double, b: Double)
    requires
        a.finite(),
        b.finite(),
        !b.zero(),
        quotient(a, b).finite(),
        size(quotient(a, b).unsigned()) >= 0x1000_0000_0000_0000,
    ensures
        near(quotient(a, b).units() * b.units(), a.units() * one(), 1),
{
    quotient_error(a, b);
    let (q, x, y) = (quotient(a, b).units(), size(quotient(a, b).unsigned()) as int, size(b.unsigned()) as int);
    let n = x * y;
    assert(magnitude(q * b.units()) == n) by (nonlinear_arith)
        requires
            q == x || q == -x,
            b.units() == y || b.units() == -y,
            n == x * y,
            x >= 0,
            y >= 0,
            magnitude(q * b.units()) == (if q * b.units() < 0 { -(q * b.units()) } else { q * b.units() }),
    ;
    assert((x + 0x10_0000_0000_0000) * y <= 2 * n) by (nonlinear_arith)
        requires
            n == x * y,
            x >= 0x10_0000_0000_0000,
            y >= 0,
    ;
    lemma_close(q * b.units(), a.units() * one(), n);
}

/// The square of a root that is not tiny is near to the number.
pub proof fn root_is_near(a: Double)
    requires
        a.finite(),
        !a.negative(),
        !a.zero(),
        root(a).finite(),
        size(root(a).unsigned()) >= 0x1000_0000_0000_0000,
    ensures
        !root(a).negative(),
        near(root(a).units() * root(a).units(), a.units() * one(), 1),
{
    lemma_root(a);
    let k = root(a).unsigned();
    let x = size(k) as int;
    let d = (size(a.unsigned()) * one()) as int;
    assert(size(0) == 0);
    lemma_spacing(k);
    lemma_spacing((k - 1) as nat);
    lemma_size_monotone((k - 1) as nat, k);
    let (lo, hi, b) = (size((k - 1) as nat) as int, size(k + 1) as int, BINADE as int);
    assert(0x10_0000_0000_0000 * (hi - x) <= x + 0x10_0000_0000_0000) by (nonlinear_arith)
        requires
            b * (hi - x) <= x + b,
            b == 0x10_0000_0000_0000,
    ;
    assert(0x10_0000_0000_0000 * (x - lo) <= lo + 0x10_0000_0000_0000) by (nonlinear_arith)
        requires
            b * (x - lo) <= lo + b,
            b == 0x10_0000_0000_0000,
    ;
    // Twice the root, a part in 2^51 on either side
    assert(0x8_0000_0000_0000 * (x + hi) <= 0x10_0000_0000_0001 * x);
    assert(0x8_0000_0000_0000 * (lo + x) >= 0xf_ffff_ffff_ffff * x);
    let (s, t) = (x + hi, lo + x);
    assert((0x8_0000_0000_0000 * s) * (0x8_0000_0000_0000 * s) <= (0x10_0000_0000_0001 * x) * (0x10_0000_0000_0001 * x))
        by (nonlinear_arith)
        requires
            0 <= 0x8_0000_0000_0000 * s <= 0x10_0000_0000_0001 * x,
    ;
    assert((0x8_0000_0000_0000 * t) * (0x8_0000_0000_0000 * t) >= (0xf_ffff_ffff_ffff * x) * (0xf_ffff_ffff_ffff * x))
        by (nonlinear_arith)
        requires
            0 <= 0xf_ffff_ffff_ffff * x <= 0x8_0000_0000_0000 * t,
    ;
    let (ss, tt, xx) = (s * s, t * t, x * x);
    assert((0x8_0000_0000_0000 * s) * (0x8_0000_0000_0000 * s) == 5070602400912917605986812821504 * ss)
        by (nonlinear_arith)
        requires
            ss == s * s,
    ;
    assert((0x8_0000_0000_0000 * t) * (0x8_0000_0000_0000 * t) == 5070602400912917605986812821504 * tt)
        by (nonlinear_arith)
        requires
            tt == t * t,
    ;
    assert((0x10_0000_0000_0001 * x) * (0x10_0000_0000_0001 * x) == 20282409603651679431146506027009 * xx)
        by (nonlinear_arith)
        requires
            xx == x * x,
    ;
    assert((0xf_ffff_ffff_ffff * x) * (0xf_ffff_ffff_ffff * x) == 20282409603651661416747996545025 * xx)
        by (nonlinear_arith)
        requires
            xx == x * x,
    ;
    assert(tt <= 4 * d);
    assert(4 * d <= ss) by {
        assert(k < INFINITE);
    }
    assert(xx >= 0) by (nonlinear_arith)
        requires
            xx == x * x,
    ;
    assert(magnitude(xx) == xx);
    assert(near(xx, d, 1));
}

/// A product of numbers between powers of two.
pub proof fn product_between(a: Double, b: Double, la: nat, ha: nat, lb: nat, hb: nat)
    requires
        a.finite(),
        b.finite(),
        pow2(la) <= size(a.unsigned()) <= pow2(ha),
        pow2(lb) <= size(b.unsigned()) <= pow2(hb),
        1074 + 60 <= la + lb,
        la <= ha,
        lb <= hb,
        ha + hb <= 3000,
    ensures
        product(a, b).finite(),
        pow2((la + lb - 1074) as nat) <= size(product(a, b).unsigned()) <= pow2((ha + hb - 1074) as nat),
        size(product(a, b).unsigned()) >= 0x1000_0000_0000_0000,
        near(product(a, b).units() * one(), a.units() * b.units(), 1),
{
    growth::lemma_product_rank(a, b);
    let (x, y, o) = (size(a.unsigned()), size(b.unsigned()), one());
    lemma_pow2_pos(UNIT_EXPONENT as nat);
    let (low, high) = ((la + lb - 1074) as nat, (ha + hb - 1074) as nat);
    lemma_pow2_adds(la, lb);
    lemma_pow2_adds(ha, hb);
    lemma_pow2_adds(low, UNIT_EXPONENT as nat);
    lemma_pow2_adds(high, UNIT_EXPONENT as nat);
    let (p, q, r, s) = (pow2(la), pow2(lb), pow2(ha), pow2(hb));
    assert(p * q <= x * y <= r * s) by (nonlinear_arith)
        requires
            p <= x <= r,
            q <= y <= s,
            p >= 0,
            q >= 0,
    ;
    growth::rounding_between_powers(x * y, o, low, high);
    lemma_at_least_60(low);
    product_is_near(a, b);
}

proof fn lemma_at_least_60(low: nat)
    requires
        60 <= low,
    ensures
        pow2(low) >= 0x1000_0000_0000_0000,
{
    lemma2_to64();
    lemma2_to64_rest();
    if 60 < low {
        lemma_pow2_strictly_increases(60, low);
    }
}

/// A quotient of numbers between powers of two.
pub proof fn quotient_between(a: Double, b: Double, la: nat, ha: nat, lb: nat, hb: nat)
    requires
        a.finite(),
        b.finite(),
        pow2(la) <= size(a.unsigned()) <= pow2(ha),
        pow2(lb) <= size(b.unsigned()) <= pow2(hb),
        la <= ha,
        lb <= hb,
        hb + 60 <= la + 1074,
        ha + 1074 <= lb + 2000,
        lb <= la + 1074,
    ensures
        quotient(a, b).finite(),
        !b.zero(),
        pow2((la + 1074 - hb) as nat) <= size(quotient(a, b).unsigned()) <= pow2((ha + 1074 - lb) as nat),
        size(quotient(a, b).unsigned()) >= 0x1000_0000_0000_0000,
        near(quotient(a, b).units() * b.units(), a.units() * one(), 1),
{
    assert(size(0) == 0);
    lemma_pow2_pos(lb);
    growth::lemma_quotient_rank(a, b);
    let (x, y, o) = (size(a.unsigned()), size(b.unsigned()), one());
    lemma_pow2_pos(UNIT_EXPONENT as nat);
    let (low, high) = ((la + 1074 - hb) as nat, (ha + 1074 - lb) as nat);
    lemma_pow2_adds(low, hb);
    lemma_pow2_adds(la, UNIT_EXPONENT as nat);
    lemma_pow2_adds(high, lb);
    lemma_pow2_adds(ha, UNIT_EXPONENT as nat);
    let (pl, ph, ql, qh, rl, rh) = (pow2(la), pow2(ha), pow2(lb), pow2(hb), pow2(low), pow2(high));
    assert(rl * y <= x * o) by (nonlinear_arith)
        requires
            rl * qh == pl * o,
            y <= qh,
            pl <= x,
            o > 0,
            rl >= 0,
    ;
    assert(x * o <= rh * y) by (nonlinear_arith)
        requires
            rh * ql == ph * o,
            ql <= y,
            x <= ph,
            o > 0,
            rh >= 0,
    ;
    growth::rounding_between_powers(x * o, y, low, high);
    lemma_at_least_60(low);
    quotient_is_near(a, b);
}

/// The root of a number between powers of two.
pub proof fn root_between(a: Double, la: nat, ha: nat)
    requires
        a.finite(),
        !a.negative(),
        pow2(la) <= size(a.unsigned()) <= pow2(ha),
        la <= ha <= 2000,
    ensures
        root(a).finite(),
        !root(a).negative(),
        size(root(a).unsigned()) >= 0x1000_0000_0000_0000,
        near(root(a).units() * root(a).units(), a.units() * one(), 1),
        forall|l: nat| 2 * l + 4 <= la + 1074 ==> #[trigger] pow2(l) <= size(root(a).unsigned()),
        forall|h: nat| ha + 1074 + 4 <= 2 * h ==> size(root(a).unsigned()) <= #[trigger] pow2(h),
{
    lemma_pow2_pos(la);
    assert(size(0) == 0);
    lemma_root(a);
    let (k, o) = (root(a).unsigned(), one());
    let x = size(k) as int;
    let d = (size(a.unsigned()) * o) as int;
    lemma_pow2_adds(la, UNIT_EXPONENT as nat);
    lemma_pow2_adds(ha, UNIT_EXPONENT as nat);
    let (p, q, y) = (pow2(la), pow2(ha), size(a.unsigned()));
    lemma_pow2_pos(UNIT_EXPONENT as nat);
    assert(p * o <= y * o <= q * o) by (nonlinear_arith)
        requires
            p <= y <= q,
    ;
    assert(k < INFINITE) by {
        if k == INFINITE {
            let s = (size((k - 1) as nat) + size(k)) as int;
            assert(INFINITE as nat / BINADE as nat == 2047 && INFINITE as nat % BINADE as nat == 0);
            assert(size(k) == BINADE as nat * pow2(2046));
            let w = pow2(2046) as int;
            assert(BINADE as nat * pow2(2046) >= w) by (nonlinear_arith)
                requires
                    w == pow2(2046),
                    BINADE >= 1,
                    w >= 0,
            ;
            assert(s * s >= w * w) by (nonlinear_arith)
                requires
                    s >= w,
                    w >= 0,
            ;
            lemma_pow2_adds(2046, 2046);
            lemma_pow2_strictly_increases(ha + 1074 + 2, 4092);
            lemma_pow2_adds(2, ha + 1074);
            lemma2_to64();
            assert(false);
        }
    }
    assert forall|l: nat| 2 * l + 4 <= la + 1074 implies #[trigger] pow2(l) <= size(root(a).unsigned()) by {
        let w = pow2(l) as int;
        lemma_pow2_pos(l);
        if x < w {
            let s = (size(k) + size(k + 1)) as int;
            lemma_spacing(k);
            let (y2, b) = (size(k + 1) as int, BINADE as int);
            assert(0x10_0000_0000_0000 * (y2 - x) <= x + 0x10_0000_0000_0000) by (nonlinear_arith)
                requires
                    b * (y2 - x) <= x + b,
                    b == 0x10_0000_0000_0000,
            ;
            assert(s < 4 * w);
            assert(s * s < (4 * w) * (4 * w)) by (nonlinear_arith)
                requires
                    0 <= s < 4 * w,
            ;
            assert((4 * w) * (4 * w) == 16 * (w * w)) by (nonlinear_arith);
            lemma_pow2_adds(l, l);
            lemma_pow2_adds(4, 2 * l);
            lemma2_to64();
            if 2 * l + 4 < la + 1074 {
                lemma_pow2_strictly_increases(2 * l + 4, la + 1074);
            }
            assert(false);
        }
    }
    assert forall|h: nat| ha + 1074 + 4 <= 2 * h implies size(root(a).unsigned()) <= #[trigger] pow2(h) by {
        let w = pow2(h) as int;
        if x > w {
            let s = (size((k - 1) as nat) + size(k)) as int;
            assert(s * s >= w * w) by (nonlinear_arith)
                requires
                    s >= w,
                    w >= 0,
            ;
            lemma_pow2_adds(h, h);
            lemma_pow2_adds(2, ha + 1074);
            lemma2_to64();
            if ha + 1074 + 2 < 2 * h {
                lemma_pow2_strictly_increases(ha + 1074 + 2, 2 * h);
            }
            assert(false);
        }
    }
    assert(pow2(500) <= size(root(a).unsigned()));
    lemma_at_least_60(500);
    root_is_near(a);
}

/// A small whole number between powers of two.
pub proof fn integer_between(i: int, low: nat, high: nat)
    requires
        0 < i <= 2 * BINADE,
        pow2(low) <= i <= pow2(high),
    ensures
        integer(i).finite(),
        !integer(i).negative(),
        integer(i).units() == i * one(),
        pow2(low + 1074) <= size(integer(i).unsigned()) <= pow2(high + 1074),
{
    integers_are_exact(i);
    integers_are_finite(i);
    lemma_pow2_adds(low, UNIT_EXPONENT as nat);
    lemma_pow2_adds(high, UNIT_EXPONENT as nat);
    let (p, q, o) = (pow2(low), pow2(high), one());
    assert(p * o <= i * o <= q * o) by (nonlinear_arith)
        requires
            p <= i <= q,
            o >= 0,
    ;
}

/// A fraction of small whole numbers is near to what it says.
pub proof fn ratio_between(num: int, den: int, ln: nat, hn: nat, ld: nat, hd: nat)
    requires
        0 < num <= 2 * BINADE,
        0 < den <= 2 * BINADE,
        pow2(ln) <= num <= pow2(hn),
        pow2(ld) <= den <= pow2(hd),
        ln <= hn <= 60,
        ld <= hd <= 60,
    ensures
        ratio(num, den).finite(),
        !ratio(num, den).negative(),
        near(ratio(num, den).units() * den, num * one(), 1),
        pow2((ln + 1074 - hd) as nat) <= size(ratio(num, den).unsigned()) <= pow2((hn + 1074 - ld) as nat),
{
    integer_between(num, ln, hn);
    integer_between(den, ld, hd);
    let (a, b, o) = (integer(num), integer(den), one() as int);
    quotient_between(a, b, ln + 1074, hn + 1074, ld + 1074, hd + 1074);
    growth::lemma_quotient_rank(a, b);
    lemma_pow2_pos(UNIT_EXPONENT as nat);
    let q = ratio(num, den).units();
    assert(q * (den * o) == (q * den) * o) by (nonlinear_arith);
    near_over(q * den, num * o, 1, o);
}

} // verus!
