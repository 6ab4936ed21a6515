//! The times of a prediction, in seconds and milliseconds.

use vstd::arithmetic::power2::{lemma2_to64, lemma2_to64_rest, lemma_pow2_pos, lemma_pow2_strictly_increases};
use vstd::prelude::*;

use super::predict::{horizon_end, serialize_s, validate_s};
use super::schedule::{as_millis, lead_millis, safety_margin_s};
use super::stretches::plain;
use crate::double::growth;
use crate::double::model::{size, BINADE, UNIT_EXPONENT};
use crate::double::near::{self, near};
use crate::double::{self, Double};
use crate::orbit::grid;
use crate::time::{self, UtcTime};

verus! {

/// `whole` is `exact` units in whole numbers, to within two.
pub open spec fn in_whole(whole: int, exact: int) -> bool {
    let o = double::one() as int;
    -(2 * o) < exact - whole * o < 2 * o
}

proof fn lemma_one()
    ensures
        double::one() >= 0x1000_0000_0000_0000,
{
    lemma2_to64();
    lemma2_to64_rest();
    lemma_pow2_strictly_increases(60, UNIT_EXPONENT as nat);
}

/// The integer part of a product with a whole number.
proof fn lemma_whole_product(x: Double, factor: int)
    requires
        x.finite(),
        0 < factor <= 3600,
        -(1_000_000_000_000 * double::one()) <= x.units() <= 1_000_000_000_000 * double::one(),
    ensures
        ({
            let p = double::product(x, double::integer(factor));
            let w = double::truncated(p, i64::MIN as int, i64::MAX as int);
            p.finite() && in_whole(w, factor * x.units())
        }),
{
    lemma_one();
    let o = double::one() as int;
    double::integers_are_exact(factor);
    double::integers_are_finite(factor);
    let f = double::integer(factor);
    let (a, b) = (size(x.unsigned()) as int, size(f.unsigned()) as int);
    assert(0 <= factor * o) by (nonlinear_arith)
        requires
            factor > 0,
            o > 0,
    ;
    assert(a * b <= (3_600_000_000_000_000 * o) * o) by (nonlinear_arith)
        requires
            0 <= a <= 1_000_000_000_000 * o,
            b == factor * o,
            0 < factor <= 3600,
            o > 0,
    ;
    growth::products_are_bounded(x, f, 3_600_000_000_000_000);
    growth::product_error(x, f);
    let p = double::product(x, f);
    let (y, z) = (p.units(), size(p.unsigned()) as int);
    let exact = factor * x.units();
    assert(y * o - x.units() * (factor * o) == (y - exact) * o) by (nonlinear_arith)
        requires
            exact == factor * x.units(),
    ;
    let g = y - exact;
    assert(-(z + 0x10_0000_0000_0000) <= 0x20_0000_0000_0000 * g <= z + 0x10_0000_0000_0000) by (nonlinear_arith)
        requires
            -((z + 0x10_0000_0000_0000) * o) <= 0x20_0000_0000_0000 * (g * o) <= (z + 0x10_0000_0000_0000) * o,
            o > 0,
    ;
    assert(-o < g < o);
    reveal(double::truncated);
    let w = z / o;
    assert(w * o <= z < w * o + o) by (nonlinear_arith)
        requires
            w == z / o,
            o > 0,
    ;
    assert((-w) * o == -(w * o)) by (nonlinear_arith);
    assert(w <= 3_600_000_000_000_000) by (nonlinear_arith)
        requires
            w * o <= z,
            z <= 3_600_000_000_000_000 * o,
            o > 0,
    ;
}

/// Seconds turn into the milliseconds that they are.
pub proof fn seconds_are_a_thousand_milliseconds(x: Double)
    requires
        x.finite(),
        -(1_000_000_000_000 * double::one()) <= x.units() <= 1_000_000_000_000 * double::one(),
    ensures
        in_whole(as_millis(x), 1000 * x.units()),
{
    lemma_whole_product(x, 1000);
}

/// The state is saved four and a half seconds earlier than it takes to write it.
pub proof fn saves_lead_by_the_writing_and_a_margin(t_serialize: Double)
    requires
        t_serialize.finite(),
        0 <= t_serialize.units() <= 100_000_000_000 * double::one(),
    ensures
        ({
            let o = double::one() as int;
            -(3 * o) < (1000 * t_serialize.units() + 4500 * o) - lead_millis(t_serialize) * o < 3 * o
        }),
{
    lemma_one();
    let o = double::one() as int;
    let margin = safety_margin_s();
    lemma2_to64();
    near::ratio_between(45, 10, 5, 6, 3, 4);
    let m = margin.units();
    assert(near(m * 10, 45 * o, 1));
    growth::sums_are_bounded(t_serialize, margin, 200_000_000_000);
    growth::sum_error(t_serialize, margin);
    let s = double::sum(t_serialize, margin);
    lemma_whole_product(s, 1000);
}

/// Writing the state takes its bytes over the bandwidth; a second where the
/// bandwidth is not known.
pub proof fn writing_takes_bytes_over_bandwidth(state_size_bytes: u64, flash_bandwidth_bps: u64)
    requires
        state_size_bytes <= 2 * BINADE,
        flash_bandwidth_bps <= 2 * BINADE,
    ensures
        ({
            let t = serialize_s(state_size_bytes, flash_bandwidth_bps);
            let o = double::one() as int;
            &&& t.finite()
            &&& flash_bandwidth_bps == 0 ==> t.units() == o
            &&& flash_bandwidth_bps > 0 ==> near(t.units() * flash_bandwidth_bps, state_size_bytes * o, 1)
        }),
{
    lemma_one();
    let o = double::one() as int;
    double::integers_are_exact(1);
    if flash_bandwidth_bps > 0 {
        let (n, d) = (state_size_bytes as int, flash_bandwidth_bps as int);
        let (a, b) = (double::integer(n), double::integer(d));
        double::integers_are_exact(n);
        double::integers_are_exact(d);
        double::integers_are_finite(n);
        double::integers_are_finite(d);
        let (x, y) = (size(a.unsigned()), size(b.unsigned()));
        assert(0 <= n * o && o <= d * o) by (nonlinear_arith)
            requires
                n >= 0,
                d >= 1,
                o > 0,
        ;
        assert(x <= (2 * BINADE) as nat * y) by (nonlinear_arith)
            requires
                x == n * o,
                y == d * o,
                n <= 2 * BINADE,
                d >= 1,
                o > 0,
        ;
        growth::quotients_are_bounded(a, b, (2 * BINADE) as nat);
        growth::quotient_error(a, b);
        let t = double::quotient(a, b);
        let (q, z) = (t.units(), size(t.unsigned()) as int);
        growth::lemma_quotient_rank(a, b);
        assert(q == z);
        let e = q * d - n * o;
        assert(q * (d * o) - (n * o) * o == e * o) by (nonlinear_arith)
            requires
                e == q * d - n * o,
        ;
        let slack = (z + 0x10_0000_0000_0000) * d;
        assert((z + 0x10_0000_0000_0000) * (d * o) == slack * o) by (nonlinear_arith)
            requires
                slack == (z + 0x10_0000_0000_0000) * d,
        ;
        assert(-slack <= 0x20_0000_0000_0000 * e <= slack) by (nonlinear_arith)
            requires
                -(slack * o) <= 0x20_0000_0000_0000 * (e * o) <= slack * o,
                o > 0,
        ;
        if n == 0 {
            assert(size(0) == 0);
            assert(x == 0);
            assert(0 * double::one() == 0) by (nonlinear_arith);
            growth::lemma_nearest_to_zero(y);
            assert(q * d == 0) by (nonlinear_arith)
                requires
                    q == 0,
            ;
        } else {
            let qd = q * d;
            assert(slack == qd + 0x10_0000_0000_0000 * d) by (nonlinear_arith)
                requires
                    slack == (z + 0x10_0000_0000_0000) * d,
                    qd == q * d,
                    q == z,
            ;
            assert(n * o >= o) by (nonlinear_arith)
                requires
                    n >= 1,
                    o > 0,
            ;
            lemma_pow_large(o, d);
            assert(double::magnitude(n * o) == n * o);
        }
    }
}

proof fn lemma_pow_large(o: int, d: int)
    requires
        o == double::one(),
        d <= 2 * BINADE,
    ensures
        0x10_0000_0000_0000 * d <= o,
{
    lemma2_to64();
    lemma2_to64_rest();
    vstd::arithmetic::power2::lemma_pow2_adds(60, 60);
    lemma_pow2_strictly_increases(120, UNIT_EXPONENT as nat);
    let p = vstd::arithmetic::power2::pow2(60) as int;
    assert(p * p >= 0x1000_0000_0000_0000 * 0x1000_0000_0000_0000) by (nonlinear_arith)
        requires
            p >= 0x1000_0000_0000_0000,
    ;
}

/// Validating the state takes a tenth of what it takes to write it.
pub proof fn validating_takes_a_tenth(state_size_bytes: u64, flash_bandwidth_bps: u64)
    requires
        0 < state_size_bytes <= 2 * BINADE,
        flash_bandwidth_bps <= 2 * BINADE,
    ensures
        ({
            let (t, v) = (
                serialize_s(state_size_bytes, flash_bandwidth_bps),
                validate_s(state_size_bytes, flash_bandwidth_bps),
            );
            v.finite() && near(10 * v.units(), t.units(), 1)
        }),
{
    lemma_one();
    let o = double::one() as int;
    writing_takes_bytes_over_bandwidth(state_size_bytes, flash_bandwidth_bps);
    let t = serialize_s(state_size_bytes, flash_bandwidth_bps);
    let ten = double::integer(10);
    double::integers_are_exact(10);
    double::integers_are_finite(10);
    double::integers_are_finite(1);
    double::integers_compare(1, 10);
    reveal(double::less);
    reveal(double::at_most);
    growth::quotients_are_no_larger(t, ten);
    growth::quotient_error(t, ten);
    let v = double::quotient(t, ten);
    let (q, z, x) = (v.units(), size(v.unsigned()) as int, t.units());
    let e = 10 * q - x;
    assert(q * (10 * o) - x * o == e * o) by (nonlinear_arith)
        requires
            e == 10 * q - x,
    ;
    let slack = 10 * (z + 0x10_0000_0000_0000);
    assert((z + 0x10_0000_0000_0000) * (10 * o) == slack * o) by (nonlinear_arith)
        requires
            slack == 10 * (z + 0x10_0000_0000_0000),
    ;
    assert(-slack <= 0x20_0000_0000_0000 * e <= slack) by (nonlinear_arith)
        requires
            -(slack * o) <= 0x20_0000_0000_0000 * (e * o) <= slack * o,
            o > 0,
    ;
    // The time to write is not tiny.
    lemma_write_time(state_size_bytes, flash_bandwidth_bps);
}

proof fn lemma_write_time(state_size_bytes: u64, flash_bandwidth_bps: u64)
    requires
        0 < state_size_bytes <= 2 * BINADE,
        flash_bandwidth_bps <= 2 * BINADE,
    ensures
        serialize_s(state_size_bytes, flash_bandwidth_bps).units() >= 0x1000_0000_0000_0000,
{
    lemma_one();
    let o = double::one() as int;
    writing_takes_bytes_over_bandwidth(state_size_bytes, flash_bandwidth_bps);
    let t = serialize_s(state_size_bytes, flash_bandwidth_bps).units();
    if flash_bandwidth_bps > 0 {
        let (n, d) = (state_size_bytes as int, flash_bandwidth_bps as int);
        assert(n * o >= o) by (nonlinear_arith)
            requires
                n >= 1,
                o > 0,
        ;
        assert(double::magnitude(n * o) == n * o);
        lemma2_to64();
        lemma2_to64_rest();
        vstd::arithmetic::power2::lemma_pow2_adds(60, 60);
        lemma_pow2_strictly_increases(120, UNIT_EXPONENT as nat);
        let p = vstd::arithmetic::power2::pow2(60) as int;
        assert(p * p >= 0x1000_0000_0000_0000 * 0x1000_0000_0000_0000) by (nonlinear_arith)
            requires
                p >= 0x1000_0000_0000_0000,
        ;
        assert(2 * (t * d) >= o);
        if t < 0x1000_0000_0000_0000 {
            assert(t * d <= 0x1000_0000_0000_0000 * 0x20_0000_0000_0000) by (nonlinear_arith)
                requires
                    t < 0x1000_0000_0000_0000,
                    0 < d <= 0x20_0000_0000_0000,
            ;
            assert(false);
        }
    }
}

/// The horizon lies the given hours ahead, to the second.
pub proof fn horizons_lie_hours_ahead(now: UtcTime, horizon_hours: Double)
    requires
        plain(now),
        horizon_hours.finite(),
        -(1_000_000_000_000 * double::one()) <= horizon_hours.units() <= 1_000_000_000_000 * double::one(),
        horizon_end(now, horizon_hours) is Some,
    ensures
        exists|seconds: int| #[trigger]
            in_whole(seconds, 3600 * horizon_hours.units()) && horizon_end(now, horizon_hours)->0.total_nanos()
                == now.total_nanos() + seconds * 1_000_000_000,
{
    lemma_whole_product(horizon_hours, 3600);
    let s = double::truncated(
        double::product(horizon_hours, double::integer(3600)),
        i64::MIN as int,
        i64::MAX as int,
    );
    assert(in_whole(s, 3600 * horizon_hours.units()));
}

/// The samples of a trajectory are half a minute apart, from the start on.
pub proof fn samples_come_every_half_minute(start: UtcTime, k: nat)
    requires
        plain(start),
        grid(start, k) is Some,
    ensures
        grid(start, k)->0.total_nanos() == start.total_nanos() + k * 30_000_000_000,
        plain(grid(start, k)->0),
    decreases k,
{
    if k > 0 {
        let before = grid(start, (k - 1) as nat);
        assert(before is Some);
        samples_come_every_half_minute(start, (k - 1) as nat);
    }
}

} // verus!
