//! Rounding a wide significand to the nearest binary64 pattern.

use vstd::arithmetic::mul::*;
use vstd::arithmetic::power2::*;
use vstd::prelude::*;

use super::model::{lemma_size_monotone, lemma_size_of, lemma_size_step, nearest, nearest_root, size, BINADE, INFINITE};

verus! {

/// Exponents of wide significands are counted from here, so that none is
/// negative.
pub const BIAS: u32 = 1200;

/// `k` is the nearest pattern to every real that is `sig * 2^(u - BIAS)` units,
/// or, when `sticky`, that lies strictly between it and
/// `(sig + 1) * 2^(u - BIAS)`.
pub open spec fn nearest_wide(sig: nat, u: nat, sticky: bool, k: nat) -> bool {
    let b = pow2(BIAS as nat);
    &&& k <= INFINITE
    &&& k > 0 ==> {
        let below = (size((k - 1) as nat) + size(k)) * b;
        below < 2 * sig * pow2(u) || (below == 2 * sig * pow2(u) && (sticky || k % 2 == 0))
    }
    &&& k < INFINITE ==> {
        let above = (size(k) + size(k + 1)) * b;
        if sticky {
            2 * (sig + 1) * pow2(u) <= above
        } else {
            2 * sig * pow2(u) < above || (above == 2 * sig * pow2(u) && k % 2 == 0)
        }
    }
}

/// What `nearest_wide` says of a quotient that the wide significand encloses.
pub proof fn lemma_wide_quotient(sig: nat, u: nat, sticky: bool, k: nat, num: nat, den: nat)
    requires
        den > 0,
        nearest_wide(sig, u, sticky, k),
        !sticky ==> sig * pow2(u) * den == num * pow2(BIAS as nat),
        sticky ==> sig * pow2(u) * den < num * pow2(BIAS as nat) < (sig + 1) * pow2(u) * den,
    ensures
        nearest(num, den, k),
{
    let b = pow2(BIAS as nat);
    let p = pow2(u);
    lemma_pow2_pos(BIAS as nat);
    if k > 0 {
        let x = size((k - 1) as nat) + size(k);
        assert(x * b <= 2 * sig * p);
        assert((x * b) * den <= (2 * sig * p) * den) by (nonlinear_arith)
            requires x * b <= 2 * sig * p;
        assert((x * b) * den == (x * den) * b) by (nonlinear_arith);
        assert((2 * sig * p) * den == 2 * (sig * p * den)) by (nonlinear_arith);
        assert(2 * (num * b) == (2 * num) * b) by (nonlinear_arith);
        if x * den > 2 * num {
            assert((x * den) * b > (2 * num) * b) by (nonlinear_arith)
                requires x * den > 2 * num, b > 0;
        }
        if x * den == 2 * num {
            assert((x * den) * b == (2 * num) * b);
            assert(!sticky);
            if x * b < 2 * sig * p {
                assert((x * b) * den < (2 * sig * p) * den) by (nonlinear_arith)
                    requires x * b < 2 * sig * p, den > 0;
            }
        }
    }
    if k < INFINITE {
        let x = size(k) + size(k + 1);
        assert((x * b) * den == (x * den) * b) by (nonlinear_arith);
        assert(2 * (num * b) == (2 * num) * b) by (nonlinear_arith);
        if sticky {
            assert((2 * (sig + 1) * p) * den <= (x * b) * den) by (nonlinear_arith)
                requires 2 * (sig + 1) * p <= x * b;
            assert((2 * (sig + 1) * p) * den == 2 * ((sig + 1) * p * den)) by (nonlinear_arith);
            assert((2 * num) * b < (x * den) * b);
            if 2 * num >= x * den {
                assert((2 * num) * b >= (x * den) * b) by (nonlinear_arith)
                    requires 2 * num >= x * den;
            }
        } else {
            assert((2 * sig * p) * den == 2 * (sig * p * den)) by (nonlinear_arith);
            assert((2 * sig * p) * den <= (x * b) * den) by (nonlinear_arith)
                requires 2 * sig * p <= x * b;
            if 2 * num > x * den {
                assert((2 * num) * b > (x * den) * b) by (nonlinear_arith)
                    requires 2 * num > x * den, b > 0;
            }
            if x * den == 2 * num {
                assert((x * den) * b == (2 * num) * b);
                if x * b > 2 * sig * p {
                    assert((x * b) * den > (2 * sig * p) * den) by (nonlinear_arith)
                        requires x * b > 2 * sig * p, den > 0;
                }
            }
        }
    }
}

/// What `nearest_wide` says of a square root that the wide significand encloses.
pub proof fn lemma_wide_root(sig: nat, u: nat, sticky: bool, k: nat, square: nat)
    requires
        nearest_wide(sig, u, sticky, k),
        !sticky ==> (sig * pow2(u)) * (sig * pow2(u)) == square * (pow2(BIAS as nat) * pow2(BIAS as nat)),
        sticky ==> (sig * pow2(u)) * (sig * pow2(u)) < square * (pow2(BIAS as nat) * pow2(BIAS as nat))
            < ((sig + 1) * pow2(u)) * ((sig + 1) * pow2(u)),
    ensures
        nearest_root(square, k),
{
    let b = pow2(BIAS as nat);
    let p = pow2(u);
    let bb = b * b;
    lemma_pow2_pos(BIAS as nat);
    lemma_mul_strictly_positive(b as int, b as int);
    let v = sig * p;
    let w = (sig + 1) * p;
    assert(2 * sig * p == 2 * v) by (nonlinear_arith) requires v == sig * p;
    assert(2 * (sig + 1) * p == 2 * w) by (nonlinear_arith) requires w == (sig + 1) * p;
    if k > 0 {
        let x = size((k - 1) as nat) + size(k);
        assert((x * b) * (x * b) == (x * x) * bb) by (nonlinear_arith) requires bb == b * b;
        assert((x * b) * (x * b) <= (2 * v) * (2 * v)) by (nonlinear_arith)
            requires x * b <= 2 * v;
        assert((2 * v) * (2 * v) == 4 * (v * v)) by (nonlinear_arith);
        assert(4 * (square * bb) == (4 * square) * bb) by (nonlinear_arith);
        if x * x > 4 * square {
            assert((x * x) * bb > (4 * square) * bb) by (nonlinear_arith)
                requires x * x > 4 * square, bb > 0;
        }
        if x * x == 4 * square {
            assert(!sticky);
            if x * b < 2 * v {
                assert((x * b) * (x * b) < (2 * v) * (2 * v)) by (nonlinear_arith)
                    requires x * b < 2 * v;
            }
        }
    }
    if k < INFINITE {
        let x = size(k) + size(k + 1);
        assert((x * b) * (x * b) == (x * x) * bb) by (nonlinear_arith) requires bb == b * b;
        assert(4 * (square * bb) == (4 * square) * bb) by (nonlinear_arith);
        if sticky {
            assert((2 * w) * (2 * w) <= (x * b) * (x * b)) by (nonlinear_arith)
                requires 2 * w <= x * b;
            assert((2 * w) * (2 * w) == 4 * (w * w)) by (nonlinear_arith);
            if 4 * square >= x * x {
                assert((4 * square) * bb >= (x * x) * bb) by (nonlinear_arith)
                    requires 4 * square >= x * x;
            }
        } else {
            assert((2 * v) * (2 * v) <= (x * b) * (x * b)) by (nonlinear_arith)
                requires 2 * v <= x * b;
            assert((2 * v) * (2 * v) == 4 * (v * v)) by (nonlinear_arith);
            if 4 * square > x * x {
                assert((4 * square) * bb > (x * x) * bb) by (nonlinear_arith)
                    requires 4 * square > x * x, bb > 0;
            }
            if x * x == 4 * square {
                if x * b > 2 * v {
                    assert((x * b) * (x * b) > (2 * v) * (2 * v)) by (nonlinear_arith)
                        requires x * b > 2 * v;
                }
            }
        }
    }
}

/// A power of two that fits a wide significand.
pub fn power(s: u32) -> (p: u128)
    requires
        s < 128,
    ensures
        p == pow2(s as nat),
        p > 0,
{
    let mut p: u128 = 1;
    let mut i: u32 = 0;
    proof {
        lemma2_to64();
        lemma2_to64_rest();
    }
    while i < s
        invariant
            i <= s < 128,
            p == pow2(i as nat),
            p > 0,
        decreases s - i,
    {
        proof {
            lemma_pow2_unfold((i + 1) as nat);
            lemma_pow2_below_128(i as nat);
        }
        p = 2 * p;
        i = i + 1;
    }
    p
}

proof fn lemma_pow2_below_128(i: nat)
    requires
        i < 127,
    ensures
        2 * pow2(i) <= u128::MAX,
{
    lemma2_to64();
    lemma2_to64_rest();
    lemma_pow2_unfold(i + 1);
    if i + 1 < 127 {
        lemma_pow2_strictly_increases(i + 1, 127);
    }
    lemma_pow2_adds(64, 63);
    assert(0x1_0000_0000_0000_0000 * 0x8000_0000_0000_0000 <= u128::MAX);
}

/// Number of binary digits of a positive significand.
pub fn digits(sig: u128) -> (n: u32)
    requires
        sig > 0,
    ensures
        0 < n <= 128,
        pow2((n - 1) as nat) <= sig < pow2(n as nat),
{
    let mut n: u32 = 1;
    let mut rest: u128 = sig / 2;
    proof {
        lemma2_to64();
    }
    assert(sig < pow2(1) * (rest + 1));
    assert(pow2(0) * (2 * rest + sig % 2) <= sig);
    while rest > 0
        invariant
            0 < n <= 128,
            rest > 0 ==> pow2(n as nat) * rest <= sig,
            rest == 0 ==> pow2((n - 1) as nat) <= sig,
            sig < pow2(n as nat) * (rest + 1),
        decreases rest,
    {
        let ghost p = pow2(n as nat);
        let ghost r = rest;
        proof {
            lemma_pow2_unfold((n + 1) as nat);
            assert(p <= sig) by (nonlinear_arith) requires p * r <= sig, r >= 1;
            if n >= 128 {
                lemma_pow2_adds(64, 64);
                lemma2_to64();
                assert(0x1_0000_0000_0000_0000 * 0x1_0000_0000_0000_0000 > u128::MAX);
                if n > 128 {
                    lemma_pow2_strictly_increases(128, n as nat);
                }
            }
            let h = (r / 2) as nat;
            assert((2 * p) * h <= sig) by (nonlinear_arith)
                requires p * r <= sig, 2 * h <= r;
            assert(sig < (2 * p) * (h + 1)) by (nonlinear_arith)
                requires sig < p * (r + 1), r + 1 <= 2 * h + 2;
        }
        rest = rest / 2;
        n = n + 1;
    }
    proof {
        let p = pow2(n as nat);
        assert(p * (rest + 1) == p) by (nonlinear_arith) requires rest == 0;
    }
    n
}

/// `k` is nearest on the ladder of sizes that goes on past infinity.
spec fn on_ladder(sig: nat, u: nat, sticky: bool, k: nat) -> bool {
    let b = pow2(BIAS as nat);
    &&& k > 0 ==> {
        let below = (size((k - 1) as nat) + size(k)) * b;
        below < 2 * sig * pow2(u) || (below == 2 * sig * pow2(u) && (sticky || k % 2 == 0))
    }
    &&& {
        let above = (size(k) + size(k + 1)) * b;
        if sticky {
            2 * (sig + 1) * pow2(u) <= above
        } else {
            2 * sig * pow2(u) < above || (above == 2 * sig * pow2(u) && k % 2 == 0)
        }
    }
}

proof fn lemma_exact(sig: nat, u: nat, t: nat, m: nat)
    requires
        sig * pow2(u) == m * pow2(t + BIAS as nat),
        m <= 2 * BINADE,
        t > 0 ==> m >= BINADE,
    ensures
        on_ladder(sig, u, false, t * BINADE as nat + m),
{
    let k = t * BINADE as nat + m;
    let b = pow2(BIAS as nat);
    let v = sig * pow2(u);
    lemma_size_of(t, m);
    lemma_pow2_adds(t, BIAS as nat);
    lemma_pow2_pos(BIAS as nat);
    assert(size(k) * b == v) by (nonlinear_arith)
        requires size(k) == m * pow2(t), v == m * (pow2(t) * b);
    assert(2 * sig * pow2(u) == 2 * v) by (nonlinear_arith) requires v == sig * pow2(u);
    lemma_size_step(k);
    let z = size(k);
    let y = size(k + 1);
    assert((z + y) * b > 2 * (z * b)) by (nonlinear_arith) requires y > z, b > 0;
    if k > 0 {
        lemma_size_step((k - 1) as nat);
        let x = size((k - 1) as nat);
        assert((x + z) * b < 2 * (z * b)) by (nonlinear_arith) requires x < z, b > 0;
    }
}

proof fn lemma_inexact(sig: nat, u: nat, sticky: bool, t: nat, m: nat, r: nat, s: nat, up: bool)
    requires
        sig == m * pow2(s) + r,
        r < pow2(s),
        s > 0,
        u + s == t + BIAS,
        m < 2 * BINADE,
        t > 0 ==> m >= BINADE,
        up <==> (2 * r > pow2(s) || (2 * r == pow2(s) && (sticky || m % 2 == 1))),
    ensures
        on_ladder(sig, u, sticky, t * BINADE as nat + m + (if up { 1nat } else { 0nat })),
{
    let k = t * BINADE as nat + m;
    let b = pow2(BIAS as nat);
    let p = pow2(u);
    let q = pow2(s);
    let w = pow2(t);
    lemma_size_of(t, m);
    lemma_size_of(t, m + 1);
    lemma_pow2_adds(t, BIAS as nat);
    lemma_pow2_adds(u, s);
    lemma_pow2_pos(BIAS as nat);
    lemma_pow2_pos(u);
    lemma_pow2_unfold(s);
    assert(p * q == w * b);
    // Everything in units of p.
    assert(size(k) * b == (m * q) * p) by (nonlinear_arith)
        requires size(k) == m * w, p * q == w * b;
    assert(size(k + 1) * b == ((m + 1) * q) * p) by (nonlinear_arith)
        requires size(k + 1) == (m + 1) * w, p * q == w * b;
    let mid = (size(k) + size(k + 1)) * b;
    let half = m * q + (m + 1) * q;
    assert(mid == half * p) by (nonlinear_arith)
        requires
            mid == (size(k) + size(k + 1)) * b,
            size(k) * b == (m * q) * p,
            size(k + 1) * b == ((m + 1) * q) * p,
            half == m * q + (m + 1) * q;
    assert(half == 2 * (m * q) + q) by (nonlinear_arith)
        requires half == m * q + (m + 1) * q;
    assert(2 * sig * p == (2 * sig) * p);
    assert(2 * (sig + 1) * p == (2 * (sig + 1)) * p);
    assert((t * BINADE as nat) % 2 == 0) by {
        let h = t * (BINADE as nat / 2);
        assert(t * BINADE as nat == 2 * h) by (nonlinear_arith)
            requires h == t * (BINADE as nat / 2), BINADE as nat == 2 * (BINADE as nat / 2);
    }
    assert(k % 2 == m % 2);
    if !up {
        if k > 0 {
            lemma_size_step((k - 1) as nat);
            let x = size((k - 1) as nat);
            let z = size(k);
            assert((x + z) * b < 2 * (z * b)) by (nonlinear_arith) requires x < z, b > 0;
            assert(2 * ((m * q) * p) <= (2 * sig) * p) by (nonlinear_arith)
                requires m * q <= sig;
        }
        if sticky {
            assert(2 * r + 2 <= q);
            assert((2 * (sig + 1)) * p <= half * p) by (nonlinear_arith)
                requires 2 * (sig + 1) <= half;
        } else if 2 * r < q {
            assert((2 * sig) * p < half * p) by (nonlinear_arith)
                requires 2 * sig < half, p > 0;
        } else {
            assert(2 * sig == half);
        }
    } else {
        if 2 * r > q {
            assert(half * p < (2 * sig) * p) by (nonlinear_arith)
                requires 2 * sig > half, p > 0;
        } else {
            assert(2 * sig == half);
        }
        assert((k + 1 - 1) as nat == k);
        lemma_size_step(k + 1);
        let y = size(k + 1);
        let z = size(k + 2);
        assert((y + z) * b > 2 * (y * b)) by (nonlinear_arith) requires y < z, b > 0;
        assert((m + 1) * q == m * q + q) by (nonlinear_arith);
        assert((2 * (sig + 1)) * p <= 2 * (((m + 1) * q) * p)) by (nonlinear_arith)
            requires sig + 1 <= (m + 1) * q;
        assert((2 * sig) * p <= (2 * (sig + 1)) * p) by (nonlinear_arith);
    }
}

proof fn lemma_capped(sig: nat, u: nat, sticky: bool, k: nat)
    requires
        on_ladder(sig, u, sticky, k),
        k > INFINITE,
    ensures
        nearest_wide(sig, u, sticky, INFINITE as nat),
{
    let i = INFINITE as nat;
    let b = pow2(BIAS as nat);
    lemma_pow2_pos(BIAS as nat);
    lemma_size_monotone((i - 1) as nat, (k - 1) as nat);
    lemma_size_monotone(i, k);
    let lo = size((i - 1) as nat) + size(i);
    let hi = size((k - 1) as nat) + size(k);
    assert(lo * b < hi * b) by (nonlinear_arith) requires lo < hi, b > 0;
}

proof fn lemma_quotient_bounds(sig: nat, n: nat, s: nat, q: nat, r: nat, long: bool)
    requires
        n > 0,
        pow2((n - 1) as nat) <= sig < pow2(n),
        sig == q * pow2(s) + r,
        r < pow2(s),
        n <= s + 53,
        long ==> n == s + 53,
    ensures
        q < 2 * BINADE,
        long ==> q >= BINADE,
{
    lemma2_to64();
    lemma2_to64_rest();
    let p = pow2(s);
    lemma_pow2_adds(53, s);
    if n < s + 53 {
        lemma_pow2_strictly_increases(n, s + 53);
    }
    if q >= pow2(53) {
        assert(q * p >= pow2(53) * p) by (nonlinear_arith) requires q >= pow2(53);
    }
    if long {
        lemma_pow2_adds(52, s);
        if q < pow2(52) {
            assert(q * p + p <= pow2(52) * p) by (nonlinear_arith) requires q + 1 <= pow2(52);
        }
    }
}

/// The nearest pattern to a wide significand.
///
/// A significand with more digits to its right must already be long enough for
/// those digits not to matter one by one.
pub fn round_wide(sig: u128, u: u32, sticky: bool) -> (k: u64)
    requires
        sig < pow2(120),
        100 <= u <= 6000,
        sticky ==> sig >= pow2(55),
        sig > 0 ==> sig * pow2(u as nat) < pow2((BIAS + 3500) as nat),
    ensures
        nearest_wide(sig as nat, u as nat, sticky, k as nat),
{
    proof {
        lemma2_to64();
        lemma2_to64_rest();
        lemma_pow2_pos(u as nat);
        lemma_pow2_pos(BIAS as nat);
    }
    if sig == 0 {
        proof {
            lemma_size_step(0);
            assert(0 * pow2(u as nat) == 0);
            let above = (size(0) + size(1)) * pow2(BIAS as nat);
            assert(above > 0) by (nonlinear_arith)
                requires above == (size(0) + size(1)) * pow2(BIAS as nat), size(1) > 0, pow2(BIAS as nat) > 0;
        }
        return 0;
    }
    let n: u32 = digits(sig);
    proof {
        if n > 120 {
            if n > 121 {
                lemma_pow2_strictly_increases(120, (n - 1) as nat);
            }
        }
        assert(n <= 120);
        if sticky && n < 55 {
            lemma_pow2_strictly_increases(n as nat, 55);
        }
        lemma_mul_inequality(pow2((n - 1) as nat) as int, sig as int, pow2(u as nat) as int);
        lemma_pow2_adds((n - 1) as nat, u as nat);
        if n - 1 + u >= BIAS + 3500 {
            if n - 1 + u > BIAS + 3500 {
                lemma_pow2_strictly_increases((BIAS + 3500) as nat, (n - 1 + u) as nat);
            }
        }
    }
    let top: u32 = u + n - 53;
    let target: u32 = if top > BIAS { top } else { BIAS };
    let t: u32 = target - BIAS;
    let m: u64;
    let up: bool;
    if target <= u {
        proof {
            let d = (u - target) as nat;
            lemma_pow2_adds(d, n as nat);
            lemma_mul_strict_inequality(sig as int, pow2(n as nat) as int, pow2(d) as int);
            if d + n < 53 {
                lemma_pow2_strictly_increases((d + n) as nat, 53);
            }
            lemma_mul_is_commutative(pow2(d) as int, pow2(n as nat) as int);
            assert(sig * pow2(d) < pow2(53));
            if t > 0 {
                assert(d + n == 53);
                lemma_pow2_adds(d, (n - 1) as nat);
                lemma_mul_inequality(pow2((n - 1) as nat) as int, sig as int, pow2(d) as int);
                lemma_mul_is_commutative(pow2(d) as int, pow2((n - 1) as nat) as int);
            }
        }
        let p: u128 = power(u - target);
        m = (sig * p) as u64;
        up = false;
        proof {
            let d = (u - target) as nat;
            lemma_pow2_adds(target as nat, d);
            let a = pow2(target as nat);
            let c = pow2(d);
            assert(sig * (a * c) == (sig * c) * a) by (nonlinear_arith);
            assert(t as nat + BIAS as nat == target as nat);
            lemma_exact(sig as nat, u as nat, t as nat, m as nat);
        }
    } else {
        let s: u32 = target - u;
        if s > 121 {
            m = 0;
            up = false;
            proof {
                assert(t == 0);
                lemma_pow2_adds(u as nat, s as nat);
                lemma_pow2_unfold(s as nat);
                if s > 122 {
                    lemma_pow2_strictly_increases(121, (s - 1) as nat);
                }
                lemma_pow2_unfold(121);
                lemma_inexact(sig as nat, u as nat, sticky, t as nat, 0, sig as nat, s as nat, false);
            }
        } else {
            let p: u128 = power(s);
            let quotient: u128 = sig / p;
            let r: u128 = sig % p;
            proof {
                vstd::arithmetic::div_mod::lemma_fundamental_div_mod(sig as int, p as int);
                lemma_pow2_adds(u as nat, s as nat);
                assert(quotient * p + r == sig) by (nonlinear_arith)
                    requires sig == p * quotient + r;
                lemma_quotient_bounds(sig as nat, n as nat, s as nat, quotient as nat, r as nat, t > 0);
                lemma_pow2_below_128(120);
                if s < 120 {
                    lemma_pow2_strictly_increases(s as nat, 120);
                } else if s == 121 {
                    lemma_pow2_unfold(121);
                }
            }
            m = quotient as u64;
            up = if 2 * r > p {
                true
            } else if 2 * r == p {
                sticky || m % 2 == 1
            } else {
                false
            };
            proof {
                lemma_inexact(sig as nat, u as nat, sticky, t as nat, m as nat, r as nat, s as nat, up);
            }
        }
    }
    proof {
        assert(t * BINADE <= 3600 * BINADE) by (nonlinear_arith)
            requires t <= 3600;
    }
    let base: u64 = (t as u64) * BINADE + m;
    let k: u64 = if up { base + 1 } else { base };
    if k > INFINITE {
        proof {
            lemma_capped(sig as nat, u as nat, sticky, k as nat);
        }
        INFINITE
    } else {
        k
    }
}

} // verus!
