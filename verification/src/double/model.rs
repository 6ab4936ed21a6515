//! What a binary64 bit pattern stands for, and what it means to round to one.

use vstd::prelude::*;
use vstd::arithmetic::power2::pow2;

verus! {

/// Weight of the exponent field: patterns advance by this much per binade.
pub const BINADE: u64 = 0x10_0000_0000_0000;

/// Weight of the sign bit.
pub const SIGN: u64 = 0x8000_0000_0000_0000;

/// Pattern of positive infinity. Larger patterns below the sign bit are not
/// numbers.
pub const INFINITE: u64 = 0x7ff0_0000_0000_0000;

/// The pattern every operation here uses for "not a number".
pub const NOT_A_NUMBER: u64 = 0x7ff8_0000_0000_0000;

/// Exponent of the unit: sizes count multiples of `2^-1074`, the smallest
/// positive binary64 number.
pub const UNIT_EXPONENT: u64 = 1074;

/// The size of the unsigned pattern `k`, in units of `2^-1074`.
///
/// Patterns past the largest finite one continue the same ladder, so that the
/// pattern of infinity has the size that its finite neighbour rounds up to.
pub open spec fn size(k: nat) -> nat {
    let binade = k / BINADE as nat;
    let fraction = k % BINADE as nat;
    if binade == 0 {
        fraction
    } else {
        (BINADE as nat + fraction) * pow2((binade - 1) as nat)
    }
}

/// `k` is the pattern nearest to `num / den` units, an even pattern winning a
/// tie; whatever lies at or past the last midpoint is infinite.
pub open spec fn nearest(num: nat, den: nat, k: nat) -> bool {
    &&& k <= INFINITE
    &&& k > 0 ==> {
        let below = (size((k - 1) as nat) + size(k)) * den;
        below < 2 * num || (below == 2 * num && k % 2 == 0)
    }
    &&& k < INFINITE ==> {
        let above = (size(k) + size(k + 1)) * den;
        2 * num < above || (above == 2 * num && k % 2 == 0)
    }
}

/// `k` is the pattern nearest to the square root of `square` (in units), an
/// even pattern winning a tie.
pub open spec fn nearest_root(square: nat, k: nat) -> bool {
    &&& k <= INFINITE
    &&& k > 0 ==> {
        let below = (size((k - 1) as nat) + size(k)) * (size((k - 1) as nat) + size(k));
        below < 4 * square || (below == 4 * square && k % 2 == 0)
    }
    &&& k < INFINITE ==> {
        let above = (size(k) + size(k + 1)) * (size(k) + size(k + 1));
        4 * square < above || (above == 4 * square && k % 2 == 0)
    }
}

/// Sizes grow with the pattern.
pub proof fn lemma_size_step(k: nat)
    ensures
        size(k) < size(k + 1),
{
    let b = BINADE as nat;
    let e = k / b;
    let f = k % b;
    vstd::arithmetic::div_mod::lemma_fundamental_div_mod(k as int, b as int);
    vstd::arithmetic::power2::lemma_pow2_pos(e);
    if e > 0 {
        vstd::arithmetic::power2::lemma_pow2_pos((e - 1) as nat);
        vstd::arithmetic::power2::lemma_pow2_unfold(e);
    } else {
        vstd::arithmetic::power2::lemma2_to64();
    }
    if f + 1 < b {
        vstd::arithmetic::div_mod::lemma_fundamental_div_mod_converse(
            (k + 1) as int, b as int, e as int, (f + 1) as int);
        if e > 0 {
            let p = pow2((e - 1) as nat);
            assert((b + f) * p < (b + f + 1) * p) by (nonlinear_arith)
                requires p > 0;
        }
    } else {
        vstd::arithmetic::div_mod::lemma_fundamental_div_mod_converse(
            (k + 1) as int, b as int, (e + 1) as int, 0);
        if e > 0 {
            let p = pow2((e - 1) as nat);
            assert((b + f) * p < b * (2 * p)) by (nonlinear_arith)
                requires p > 0, f < b;
        } else {
            assert(b * pow2(0) == b);
        }
    }
}

pub proof fn lemma_size_monotone(j: nat, k: nat)
    requires
        j < k,
    ensures
        size(j) < size(k),
    decreases k - j,
{
    lemma_size_step(j);
    if j + 1 < k {
        lemma_size_monotone(j + 1, k);
    }
}

/// At most one pattern is nearest.
pub proof fn lemma_nearest_unique(num: nat, den: nat, j: nat, k: nat)
    requires
        den > 0,
        nearest(num, den, j),
        nearest(num, den, k),
    ensures
        j == k,
{
    lemma_nearest_ordered(num, den, j, k);
    lemma_nearest_ordered(num, den, k, j);
}

proof fn lemma_nearest_ordered(num: nat, den: nat, j: nat, k: nat)
    requires
        den > 0,
        nearest(num, den, j),
        nearest(num, den, k),
    ensures
        j >= k,
{
    lemma_size_step(j);
    if j + 1 < k {
        lemma_size_monotone(j, (k - 1) as nat);
        lemma_size_monotone(j + 1, k);
        let lo = size(j) + size(j + 1);
        let hi = size((k - 1) as nat) + size(k);
        assert(lo * den < hi * den) by (nonlinear_arith)
            requires lo < hi, den > 0;
    } else if k == j + 1 {
        assert(j % 2 == 0 && k % 2 == 0);
    }
}

/// At most one pattern is nearest to a root.
pub proof fn lemma_nearest_root_unique(square: nat, j: nat, k: nat)
    requires
        nearest_root(square, j),
        nearest_root(square, k),
    ensures
        j == k,
{
    lemma_nearest_root_ordered(square, j, k);
    lemma_nearest_root_ordered(square, k, j);
}

proof fn lemma_nearest_root_ordered(square: nat, j: nat, k: nat)
    requires
        nearest_root(square, j),
        nearest_root(square, k),
    ensures
        j >= k,
{
    lemma_size_step(j);
    if j + 1 < k {
        lemma_size_monotone(j, (k - 1) as nat);
        lemma_size_monotone(j + 1, k);
        let lo = size(j) + size(j + 1);
        let hi = size((k - 1) as nat) + size(k);
        assert(lo * lo < hi * hi) by (nonlinear_arith)
            requires lo < hi;
    } else if k == j + 1 {
        assert(j % 2 == 0 && k % 2 == 0);
    }
}

/// The pattern with binade offset `t` and significand `m`.
pub proof fn lemma_size_of(t: nat, m: nat)
    requires
        m <= 2 * BINADE,
        t > 0 ==> m >= BINADE,
    ensures
        size(t * BINADE as nat + m) == m * pow2(t),
{
    let b = BINADE as nat;
    let k = t * b + m;
    vstd::arithmetic::power2::lemma_pow2_unfold(t + 1);
    vstd::arithmetic::power2::lemma2_to64();
    let p = pow2(t);
    if m < b {
        assert(t == 0);
        assert(k == m);
        vstd::arithmetic::div_mod::lemma_fundamental_div_mod_converse(k as int, b as int, 0, m as int);
        assert(m * pow2(0) == m);
    } else if m < 2 * b {
        assert(k == (t + 1) * b + (m - b)) by (nonlinear_arith)
            requires k == t * b + m, m >= b;
        vstd::arithmetic::div_mod::lemma_fundamental_div_mod_converse(
            k as int, b as int, (t + 1) as int, (m - b) as int);
        assert(size(k) == (b + (m - b) as nat) * pow2(t));
    } else {
        assert(k == (t + 2) * b) by (nonlinear_arith)
            requires k == t * b + m, m == 2 * b;
        vstd::arithmetic::div_mod::lemma_fundamental_div_mod_converse(
            k as int, b as int, (t + 2) as int, 0);
        assert(size(k) == b * pow2(t + 1));
        assert(b * (2 * p) == (2 * b) * p) by (nonlinear_arith);
    }
}

/// `num / den` lies at or past the midpoint below the pattern `k`.
spec fn reaches(num: nat, den: nat, k: nat) -> bool {
    k > 0 ==> {
        let below = (size((k - 1) as nat) + size(k)) * den;
        below < 2 * num || (below == 2 * num && k % 2 == 0)
    }
}

proof fn lemma_nearest_below(num: nat, den: nat, k: nat) -> (r: nat)
    requires
        k <= INFINITE,
        k == INFINITE || !reaches(num, den, k + 1),
    ensures
        nearest(num, den, r),
    decreases k,
{
    if reaches(num, den, k) {
        k
    } else {
        lemma_nearest_below(num, den, (k - 1) as nat)
    }
}

/// Some pattern is nearest.
pub proof fn lemma_nearest_exists(num: nat, den: nat)
    ensures
        exists|k: nat| nearest(num, den, k),
{
    let k = lemma_nearest_below(num, den, INFINITE as nat);
    assert(nearest(num, den, k));
}

} // verus!
