//! Square roots and squares.

use vstd::arithmetic::power2::*;
use vstd::prelude::*;

use super::growth::{
    self, lemma_nearest_to_itself, lemma_product_rank, nearest_to, rounding_keeps_order, rounding_stays_near,
};
use super::model::{
    lemma_nearest_root_unique, lemma_nearest_unique, lemma_size_monotone, lemma_size_of, nearest_root, size, BINADE,
    INFINITE, UNIT_EXPONENT,
};
use super::{
    absolute, lemma_nearest_itself, lemma_nearest_scaled, one, pattern, product, root, rounded_root,
    rounding_gives_a_number, Double,
};

verus! {

/// A number from one on, as a significand of 53 bits and a power of two.
proof fn lemma_parts(k: nat) -> (r: (nat, nat))
    requires
        k < INFINITE,
        size(k) >= one(),
    ensures
        BINADE <= r.0 < 2 * BINADE,
        size(k) == r.0 * pow2(r.1),
        k == r.1 * BINADE + r.0,
        1022 <= r.1,
{
    let b = BINADE as nat;
    let (e, f) = (k / b, k % b);
    vstd::arithmetic::div_mod::lemma_fundamental_div_mod(k as int, b as int);
    lemma2_to64();
    lemma2_to64_rest();
    if e == 0 {
        lemma_pow2_strictly_increases(60, UNIT_EXPONENT as nat);
        assert(false);
    }
    let t = (e - 1) as nat;
    let m = b + f;
    assert(k == t * b + m) by (nonlinear_arith)
        requires
            k == b * e + f,
            t == e - 1,
            m == b + f,
    ;
    if t < 1022 {
        // Then it is less than one.
        let p = pow2(t);
        if t < 1021 {
            lemma_pow2_strictly_increases(t, 1021);
        }
        lemma_pow2_adds(53, 1021);
        assert(pow2(53) == 2 * BINADE);
        lemma_pow2_pos(t);
        lemma_pow2_pos(1021);
        let q = pow2(1021);
        assert(m * p < (2 * b) * q) by (nonlinear_arith)
            requires
                m < 2 * b,
                0 < p <= q,
        ;
        assert(false);
    }
    (m, t)
}

/// Between the sizes below and above a square lies its root.
proof fn lemma_root_fits(m: int, g: int, q: int)
    requires
        BINADE <= m < 2 * BINADE,
        g >= 0x1000_0000_0000_0000_0000_0000_0000,
        ({
            let v = (m * m) * g;
            &&& 0x20_0000_0000_0000 * v <= 0x20_0000_0000_0001 * q + 0x10_0000_0000_0000
            &&& 0x1f_ffff_ffff_ffff * q <= 0x20_0000_0000_0000 * v + 0x10_0000_0000_0000
        }),
        m == 2 * BINADE - 1 ==> q >= ((2 * BINADE - 2) * (2 * BINADE)) * g,
        m == BINADE ==> q == (m * m) * g,
    ensures
        m > BINADE ==> (4 * (m * m) - 4 * m + 1) * g < 4 * q,
        m == BINADE ==> (16 * (m * m) - 8 * m + 1) * g < 16 * q,
        4 * q < (4 * (m * m) + 4 * m + 1) * g,
{
    let b = 0x10_0000_0000_0000int;
    let v = (m * m) * g;
    let mg = m * g;
    assert((4 * (m * m) + 4 * m + 1) * g == 4 * v + 4 * mg + g) by (nonlinear_arith)
        requires
            v == (m * m) * g,
            mg == m * g,
    ;
    assert((4 * (m * m) - 4 * m + 1) * g == 4 * v - 4 * mg + g) by (nonlinear_arith)
        requires
            v == (m * m) * g,
            mg == m * g,
    ;
    assert((16 * (m * m) - 8 * m + 1) * g == 16 * v - 8 * mg + g) by (nonlinear_arith)
        requires
            v == (m * m) * g,
            mg == m * g,
    ;
    assert(v <= (2 * b - 1) * mg) by (nonlinear_arith)
        requires
            v == (m * m) * g,
            mg == m * g,
            0 <= m <= 2 * b - 1,
            g >= 0,
    ;
    assert(b * g <= mg) by (nonlinear_arith)
        requires
            mg == m * g,
            b <= m,
            g >= 0,
    ;
    if m == 2 * BINADE - 1 {
        assert(((2 * b - 2) * (2 * b)) * g == v - g) by (nonlinear_arith)
            requires
                v == (m * m) * g,
                m == 2 * b - 1,
        ;
    } else if m > BINADE {
        assert(v <= (2 * b - 2) * mg) by (nonlinear_arith)
            requires
                v == (m * m) * g,
                mg == m * g,
                0 <= m <= 2 * b - 2,
                g >= 0,
        ;
    }
}

/// The root of a square is the number whose square it is.
pub proof fn squares_root_back(a: Double)
    requires
        a.finite(),
        one() <= size(a.unsigned()),
        size(a.unsigned()) <= pow2(400) * one(),
    ensures
        product(a, a).finite(),
        !product(a, a).negative(),
        root(product(a, a)) == absolute(a),
{
    let k = a.unsigned();
    let x = size(k);
    let (m, t) = lemma_parts(k);
    let o = one();
    lemma_pow2_pos(UNIT_EXPONENT as nat);
    lemma2_to64();
    lemma2_to64_rest();
    lemma_product_rank(a, a);
    let sp = pow2(t);
    lemma_pow2_pos(t);
    let e = (2 * t - UNIT_EXPONENT) as nat;
    let g = pow2(e);
    lemma_pow2_adds(t, t);
    lemma_pow2_adds(e, UNIT_EXPONENT as nat);
    assert(sp * sp == g * o);
    if 900 < e {
        lemma_pow2_strictly_increases(900, e);
    }
    lemma_pow2_strictly_increases(120, 900);
    lemma_pow2_adds(60, 60);
    assert(pow2(60) * pow2(60) >= 0x1000_0000_0000_0000_0000_0000_0000) by (nonlinear_arith)
        requires
            pow2(60) >= 0x1000_0000_0000_0000,
    ;
    let v = (m * m) * g;
    assert(x * x == v * o) by (nonlinear_arith)
        requires
            x == m * sp,
            sp * sp == g * o,
            v == (m * m) * g,
    ;
    // The square, rounded
    let q = nearest_to(x * x, o);
    assert(q == nearest_to(v, 1)) by {
        rounding_gives_a_number(false, v, 1);
        lemma_nearest_scaled(v, 1, o, nearest_to(v, 1));
        rounding_gives_a_number(false, v * o, o);
        assert(1 * o == o) by (nonlinear_arith);
        lemma_nearest_unique(v * o, o, q, nearest_to(v, 1));
    }
    let y = size(q) as int;
    // It is finite.
    assert(q < INFINITE) by {
        lemma_square_is_finite(x, o);
    }
    rounding_stays_near(v, 1);
    let b = BINADE as int;
    let vi = v as int;
    assert(0x20_0000_0000_0000 * vi <= 0x20_0000_0000_0001 * y + 0x10_0000_0000_0000) by (nonlinear_arith)
        requires
            (2 * b) * vi <= ((2 * b) * y + y + b) * 1,
            b == 0x10_0000_0000_0000,
    ;
    assert(0x1f_ffff_ffff_ffff * y <= 0x20_0000_0000_0000 * vi + 0x10_0000_0000_0000) by (nonlinear_arith)
        requires
            ((2 * b) * y) * 1 <= (2 * b) * vi + (y + b) * 1,
            b == 0x10_0000_0000_0000,
    ;
    if m == 2 * BINADE - 1 {
        lemma_representable((2 * BINADE - 2) as nat, e, 53);
        let low = ((2 * BINADE - 2) as nat * pow2(53)) * g;
        assert(pow2(53) == 2 * BINADE);
        assert(low <= v) by (nonlinear_arith)
            requires
                low == ((2 * b - 2) * (2 * b)) * g,
                v == (m * m) * g,
                m == 2 * b - 1,
                g >= 0,
        ;
        let j = lemma_representable((2 * BINADE - 2) as nat, e, 53);
        lemma_at_least(j, v, q);
    }
    if m == BINADE {
        assert(pow2(52) == BINADE);
        let j = lemma_representable(BINADE as nat, e, 52);
        lemma_at_least(j, v, q);
        rounding_keeps_order(v, 1, size(j), 1);
        lemma_nearest_to_itself_or_infinite(j, q);
    }
    lemma_root_fits(m as int, g as int, y);
    lemma_neighbours(k, m, t);
    let (below, above) = (size((k - 1) as nat) as int, size(k + 1) as int);
    let (xi, oi, gi, si, mi) = (x as int, o as int, g as int, sp as int, m as int);
    let square = size(q) * o;
    assert(4 * square == (4 * y) * oi) by (nonlinear_arith)
        requires
            square == y * oi,
    ;
    if m > BINADE {
        assert((below + xi) * (below + xi) == ((4 * (mi * mi) - 4 * mi + 1) * gi) * oi) by (nonlinear_arith)
            requires
                below == xi - si,
                xi == mi * si,
                si * si == gi * oi,
        ;
        assert(((4 * (mi * mi) - 4 * mi + 1) * gi) * oi < (4 * y) * oi) by (nonlinear_arith)
            requires
                (4 * (mi * mi) - 4 * mi + 1) * gi < 4 * y,
                oi > 0,
        ;
    } else {
        assert(4 * ((below + xi) * (below + xi)) == ((16 * (mi * mi) - 8 * mi + 1) * gi) * oi) by (nonlinear_arith)
            requires
                2 * below == 2 * xi - si,
                xi == mi * si,
                si * si == gi * oi,
        ;
        assert(((16 * (mi * mi) - 8 * mi + 1) * gi) * oi < (16 * y) * oi) by (nonlinear_arith)
            requires
                (16 * (mi * mi) - 8 * mi + 1) * gi < 16 * y,
                oi > 0,
        ;
        assert((16 * y) * oi == 4 * ((4 * y) * oi)) by (nonlinear_arith);
    }
    assert((xi + above) * (xi + above) == ((4 * (mi * mi) + 4 * mi + 1) * gi) * oi) by (nonlinear_arith)
        requires
            above == xi + si,
            xi == mi * si,
            si * si == gi * oi,
    ;
    assert(((4 * (mi * mi) + 4 * mi + 1) * gi) * oi > (4 * y) * oi) by (nonlinear_arith)
        requires
            (4 * (mi * mi) + 4 * mi + 1) * gi > 4 * y,
            oi > 0,
    ;
    assert(nearest_root(square as nat, k));
    let c = choose|c: nat| nearest_root(square as nat, c);
    assert(nearest_root(square as nat, c));
    lemma_nearest_root_unique(square as nat, k, c);
    reveal(root);
    assert(!product(a, a).zero()) by {
        assert(size(0) == 0);
        assert(v >= 1) by (nonlinear_arith)
            requires
                v == (m * m) * g,
                m >= 1,
                g >= 1,
        ;
    }
}

pub proof fn lemma_square_is_finite(x: nat, o: nat)
    requires
        o == one(),
        x <= pow2(400) * o,
    ensures
        nearest_to(x * x, o) < INFINITE,
{
    lemma_pow2_pos(UNIT_EXPONENT as nat);
    lemma_pow2_adds(400, 400);
    lemma_pow2_adds(800, UNIT_EXPONENT as nat);
    lemma_pow2_adds(52, 1822);
    lemma2_to64();
    lemma2_to64_rest();
    let p = pow2(400);
    assert(x * x <= ((p * p) * o) * o) by (nonlinear_arith)
        requires
            x <= p * o,
    ;
    let j = 1822 * BINADE as nat + BINADE as nat;
    lemma_size_of(1822, BINADE as nat);
    assert(size(j) == pow2(1874));
    assert((p * p) * o == pow2(1874));
    assert((x * x) * 1 <= size(j) * o);
    rounding_keeps_order(x * x, o, size(j), 1);
    lemma_nearest_to_itself(j);
}

/// The pattern of a significand times a power of two.
proof fn lemma_representable(m: nat, e: nat, s: nat) -> (j: nat)
    requires
        BINADE <= m < 2 * BINADE,
        s <= 53,
    ensures
        size(j) == (m * pow2(s)) * pow2(e),
        j == (e + s) * BINADE + m,
{
    lemma_pow2_adds(s, e);
    lemma_size_of(e + s, m);
    let (a, b) = (pow2(s), pow2(e));
    assert(m * (a * b) == (m * a) * b) by (nonlinear_arith);
    (e + s) * BINADE as nat + m
}

/// What is no smaller than a number is rounded to no less.
proof fn lemma_at_least(j: nat, v: nat, q: nat)
    requires
        size(j) <= v,
        q == nearest_to(v, 1),
        q < INFINITE,
    ensures
        size(j) <= size(q),
{
    if j <= INFINITE {
        rounding_keeps_order(size(j), 1, v, 1);
        lemma_nearest_to_itself(j);
        if j < q {
            lemma_size_monotone(j, q);
        }
    } else {
        lemma_size_monotone(INFINITE as nat, j);
        rounding_keeps_order(size(INFINITE as nat), 1, v, 1);
        lemma_nearest_to_itself(INFINITE as nat);
        assert(false);
    }
}

proof fn lemma_nearest_to_itself_or_infinite(j: nat, q: nat)
    requires
        q <= nearest_to(size(j), 1),
        size(j) <= size(q),
        q < INFINITE,
    ensures
        size(q) == size(j),
{
    if q < j {
        lemma_size_monotone(q, j);
    }
    if j < q {
        lemma_nearest_to_itself(j);
    }
}

/// The sizes next to that of a number from one on.
proof fn lemma_neighbours(k: nat, m: nat, t: nat)
    requires
        BINADE <= m < 2 * BINADE,
        k == t * BINADE + m,
        t >= 1,
    ensures
        size(k + 1) == m * pow2(t) + pow2(t),
        m > BINADE ==> size((k - 1) as nat) == m * pow2(t) - pow2(t),
        m == BINADE ==> 2 * size((k - 1) as nat) == 2 * (m * pow2(t)) - pow2(t),
{
    let p = pow2(t);
    lemma_size_of(t, m + 1);
    assert((m + 1) * p == m * p + p) by (nonlinear_arith);
    if m > BINADE {
        lemma_size_of(t, (m - 1) as nat);
        assert((m - 1) * p == m * p - p) by (nonlinear_arith);
    } else {
        let b = BINADE as nat;
        lemma_size_of((t - 1) as nat, (2 * b - 1) as nat);
        lemma_pow2_unfold(t);
        let h = pow2((t - 1) as nat);
        assert((t - 1) * b + (2 * b - 1) == k - 1) by (nonlinear_arith)
            requires
                k == t * b + m,
                m == b,
        ;
        assert(2 * ((2 * b - 1) * h) == 2 * (b * (2 * h)) - 2 * h) by (nonlinear_arith);
    }
}

/// The root of `square` lies at or past the midpoint below the pattern `k`.
spec fn reaches(square: nat, k: nat) -> bool {
    k > 0 ==> {
        let below = (size((k - 1) as nat) + size(k)) * (size((k - 1) as nat) + size(k));
        below < 4 * square || (below == 4 * square && k % 2 == 0)
    }
}

proof fn lemma_root_below(square: nat, k: nat) -> (r: nat)
    requires
        k <= INFINITE,
        k == INFINITE || !reaches(square, k + 1),
    ensures
        nearest_root(square, r),
    decreases k,
{
    if reaches(square, k) {
        k
    } else {
        lemma_root_below(square, (k - 1) as nat)
    }
}

/// The root of a finite number that is not negative is the nearest one.
pub proof fn lemma_root(a: Double)
    requires
        a.finite(),
        !a.negative() || a.zero(),
    ensures
        !root(a).nan(),
        a.zero() ==> root(a).zero(),
        !a.zero() ==> !root(a).negative() && nearest_root(size(a.unsigned()) * one(), root(a).unsigned()),
{
    reveal(root);
    let square = size(a.unsigned()) * one();
    let k = lemma_root_below(square, INFINITE as nat);
    assert(nearest_root(square, k));
    let c = choose|c: nat| nearest_root(square, c);
    assert(nearest_root(square, c));
}

proof fn lemma_square_bound(ss: int, xx: int, d: int)
    requires
        (0x8_0000_0000_0000 * 0x8_0000_0000_0000) * ss >= (0xf_ffff_ffff_fffe * 0xf_ffff_ffff_fffe) * xx,
        ss <= 4 * d,
        xx >= 0,
    ensures
        0x4_0000_0000_0000 * d >= 0x3_ffff_ffff_ffff * xx,
{
    assert(5070602400912917605986812821504 * ss >= 20282409603651652409548741804036 * xx);
    assert(20282409603651670423947251286016 * d >= 20282409603651652409548741804036 * xx);
}

/// Roots compare as the numbers compare with the square, but for one part in
/// `2^50`.
pub proof fn roots_compare(a: Double, r: Double)
    requires
        a.finite(),
        !a.negative() || a.zero(),
        r.finite(),
        !r.negative(),
        size(r.unsigned()) >= one(),
    ensures
        ({
            let (d, x) = (size(a.unsigned()) * one(), size(r.unsigned()) * size(r.unsigned()));
            &&& super::less(root(a), r) ==> d <= x
            &&& !super::less(root(a), r) ==> 0x4_0000_0000_0000 * d >= 0x3_ffff_ffff_ffff * x
        }),
{
    reveal(super::less);
    lemma_root(a);
    lemma_pow2_pos(UNIT_EXPONENT as nat);
    lemma2_to64();
    lemma2_to64_rest();
    lemma_pow2_strictly_increases(60, UNIT_EXPONENT as nat);
    let (j, k) = (r.unsigned(), root(a).unsigned());
    let rs = size(j) as int;
    let d = (size(a.unsigned()) * one()) as int;
    assert(size(0) == 0);
    if a.zero() {
        assert(root(a).rank() == 0);
        assert(j > 0);
        assert(0 * one() == 0) by (nonlinear_arith);
        assert(rs * rs >= 0) by (nonlinear_arith);
    } else if k < j {
        let s = (size(k) + size(k + 1)) as int;
        lemma_size_monotone(k, j);
        if k + 1 < j {
            lemma_size_monotone(k + 1, j);
        }
        assert(s * s <= (2 * rs) * (2 * rs)) by (nonlinear_arith)
            requires
                0 <= s <= 2 * rs,
        ;
        assert((2 * rs) * (2 * rs) == 4 * (rs * rs)) by (nonlinear_arith);
    } else {
        let s = (size((k - 1) as nat) + size(k)) as int;
        let low = size((j - 1) as nat) as int;
        growth::lemma_spacing((j - 1) as nat);
        lemma_size_monotone((j - 1) as nat, j);
        if j < k {
            lemma_size_monotone(j, k);
            lemma_size_monotone((j - 1) as nat, (k - 1) as nat);
        }
        assert(low + rs <= s);
        let b = BINADE as int;
        assert(0x10_0000_0000_0000 * (rs - low) <= low + 0x10_0000_0000_0000) by (nonlinear_arith)
            requires
                b * (rs - low) <= low + b,
                b == 0x10_0000_0000_0000,
        ;
        assert(0x8_0000_0000_0000 * (low + rs) >= 0xf_ffff_ffff_fffe * rs);
        assert(0x8_0000_0000_0000 * s >= 0xf_ffff_ffff_fffe * rs);
        assert((0x8_0000_0000_0000 * s) * (0x8_0000_0000_0000 * s) >= (0xf_ffff_ffff_fffe * rs) * (
        0xf_ffff_ffff_fffe * rs)) by (nonlinear_arith)
            requires
                0x8_0000_0000_0000 * s >= 0xf_ffff_ffff_fffe * rs,
                rs >= 0,
        ;
        let (ss, xx) = (s * s, rs * rs);
        assert((0x8_0000_0000_0000 * s) * (0x8_0000_0000_0000 * s) == (0x8_0000_0000_0000 * 0x8_0000_0000_0000) * ss)
            by (nonlinear_arith)
            requires
                ss == s * s,
        ;
        assert((0xf_ffff_ffff_fffe * rs) * (0xf_ffff_ffff_fffe * rs) == (0xf_ffff_ffff_fffe * 0xf_ffff_ffff_fffe) * xx)
            by (nonlinear_arith)
            requires
                xx == rs * rs,
        ;
        assert(ss <= 4 * d);
        assert(xx >= 0) by (nonlinear_arith)
            requires
                xx == rs * rs,
        ;
        lemma_square_bound(ss, xx, d);
    }
}

} // verus!
