//! How charge and temperature change with time, in plain figures.

use vstd::arithmetic::power2::{lemma2_to64, lemma2_to64_rest, lemma_pow2_pos, lemma_pow2_strictly_increases};
use vstd::prelude::*;

use crate::double::growth;
use crate::double::model::{size, UNIT_EXPONENT};
use crate::double::{self, Double};
use crate::sim_client::{elapsed_s, net_power_w, state_at, target_c, thermal_share, SatelliteState};
use crate::time::{self, UtcTime};

verus! {

/// `x` cut to between `low` and `high`.
pub open spec fn cut(x: int, low: int, high: int) -> int {
    if x < low {
        low
    } else if x > high {
        high
    } else {
        x
    }
}

/// Watts that the battery gains or loses: 750 from the panels in sunlight, 250 for the
/// bus in eclipse, and 200 for computing.
pub open spec fn watts(in_eclipse: bool, is_computing: bool) -> int {
    (if in_eclipse { -250int } else { 750int }) - (if is_computing { 200int } else { 0int })
}

proof fn lemma_one()
    ensures
        double::one() >= 0x1000_0000_0000_0000,
{
    lemma2_to64();
    lemma2_to64_rest();
    lemma_pow2_strictly_increases(60, UNIT_EXPONENT as nat);
    lemma_pow2_pos(UNIT_EXPONENT as nat);
}

/// A quotient by a small whole number.
proof fn lemma_over(x: Double, n: int, c: nat)
    requires
        x.finite(),
        0 < n <= 3600,
        c <= 0x10_0000_0000_0000,
        0 <= x.units() <= (c * n) * double::one(),
    ensures
        ({
            let q = double::quotient(x, double::integer(n));
            &&& q.finite()
            &&& 0 <= q.units() <= c * double::one()
            &&& -(n * (q.units() + 0x10_0000_0000_0000)) <= 0x20_0000_0000_0000 * (n * q.units() - x.units()) <= n * (
            q.units() + 0x10_0000_0000_0000)
        }),
{
    lemma_one();
    let o = double::one() as int;
    let d = double::integer(n);
    double::integers_are_exact(n);
    double::integers_are_finite(n);
    let k = c as int;
    assert(size(d.unsigned()) == n * o) by (nonlinear_arith)
        requires
            d.units() == n * o,
            d.units() == size(d.unsigned()) || d.units() == -size(d.unsigned()),
            size(d.unsigned()) >= 0,
            n > 0,
            o > 0,
    ;
    assert(size(0) == 0);
    growth::lemma_rank_of_units(x, x);
    assert(size(x.unsigned()) <= c * size(d.unsigned())) by (nonlinear_arith)
        requires
            size(x.unsigned()) <= (k * n) * o,
            size(d.unsigned()) == n * o,
            k == c,
    ;
    growth::quotients_are_bounded(x, d, c);
    growth::quotient_error(x, d);
    growth::lemma_quotient_rank(x, d);
    let q = double::quotient(x, d);
    let z = size(q.unsigned()) as int;
    assert(q.units() == z) by {
        if x.negative() {
            assert(x.zero());
            assert(0 * double::one() == 0) by (nonlinear_arith);
            growth::lemma_nearest_to_zero(size(d.unsigned()));
        }
    }
    let y = n * (z + 0x10_0000_0000_0000);
    assert((z + 0x10_0000_0000_0000) * (n * o) == y * o) by (nonlinear_arith)
        requires
            y == n * (z + 0x10_0000_0000_0000),
    ;
    let g = n * z - x.units();
    assert(z * (n * o) - x.units() * o == g * o) by (nonlinear_arith)
        requires
            g == n * z - x.units(),
    ;
    assert(-y <= 0x20_0000_0000_0000 * g <= y) by (nonlinear_arith)
        requires
            -(y * o) <= 0x20_0000_0000_0000 * (g * o) <= y * o,
            o > 0,
    ;
}

/// The seconds that have passed.
proof fn lemma_seconds(state: SatelliteState, now: UtcTime)
    requires
        0 < time::millis_between(now, state.last_update) <= 1_000_000_000_000,
    ensures
        ({
            let (q, m, o) = (
                elapsed_s(state, now).units(),
                time::millis_between(now, state.last_update),
                double::one() as int,
            );
            &&& elapsed_s(state, now).finite()
            &&& 0 < q <= 1_000_000_000 * o
            &&& -o <= 0x1000 * (1000 * q - m * o) <= o
        }),
{
    lemma_one();
    let (m, o) = (time::millis_between(now, state.last_update), double::one() as int);
    double::integers_are_exact(m);
    assert(0 <= m * o <= (1_000_000_000 * 1000) * o) by (nonlinear_arith)
        requires
            0 < m <= 1_000_000_000_000,
            o > 0,
    ;
    lemma_over(double::integer(m), 1000, 1_000_000_000);
    assert(m * o >= o) by (nonlinear_arith)
        requires
            m >= 1,
            o > 0,
    ;
}

/// A product with a small whole number.
proof fn lemma_whole_times(n: int, x: Double)
    requires
        -1000 <= n <= 1000,
        x.finite(),
        0 <= x.units() <= 300_000 * double::one(),
    ensures
        ({
            let p = double::product(double::integer(n), x);
            let o = double::one() as int;
            &&& p.finite()
            &&& -o <= 0x100_0000 * (p.units() - n * x.units()) <= o
        }),
{
    lemma_one();
    let o = double::one() as int;
    let d = double::integer(n);
    double::integers_are_exact(n);
    let (a, b) = (size(d.unsigned()) as int, size(x.unsigned()) as int);
    assert(-(1000 * o) <= n * o <= 1000 * o) by (nonlinear_arith)
        requires
            -1000 <= n <= 1000,
            o > 0,
    ;
    assert(a * b <= (300_000_000 * o) * o) by (nonlinear_arith)
        requires
            0 <= a <= 1000 * o,
            0 <= b <= 300_000 * o,
    ;
    growth::products_are_bounded(d, x, 300_000_000);
    growth::product_error(d, x);
    let p = double::product(d, x);
    let z = size(p.unsigned()) as int;
    let g = p.units() - n * x.units();
    assert(p.units() * o - (n * o) * x.units() == g * o) by (nonlinear_arith)
        requires
            g == p.units() - n * x.units(),
    ;
    assert(-(z + 0x10_0000_0000_0000) <= 0x20_0000_0000_0000 * g <= z + 0x10_0000_0000_0000) by (nonlinear_arith)
        requires
            -((z + 0x10_0000_0000_0000) * o) <= 0x20_0000_0000_0000 * (g * o) <= (z + 0x10_0000_0000_0000) * o,
            o > 0,
    ;
}

/// The charge changes by the power times the hours that have passed, between empty and
/// 100 Wh; a thousandth of a watt hour is left open.
pub proof fn charge_changes_by_power_and_time(
    state: SatelliteState,
    now: UtcTime,
    in_eclipse: bool,
    is_computing: bool,
)
    requires
        0 < time::millis_between(now, state.last_update) <= 1_000_000_000_000,
        state.battery_wh.finite(),
        0 <= state.battery_wh.units() <= 100 * double::one(),
    ensures
        ({
            let o = double::one() as int;
            let millis = time::millis_between(now, state.last_update);
            let new = state_at(state, now, in_eclipse, is_computing).battery_wh;
            let exact = cut(
                3_600_000 * state.battery_wh.units() + (watts(in_eclipse, is_computing) * millis) * o,
                0,
                360_000_000 * o,
            );
            &&& new.finite()
            &&& -(3600 * o) <= 3_600_000 * new.units() - exact <= 3600 * o
        }),
{
    lemma_one();
    let (o, m) = (double::one() as int, time::millis_between(now, state.last_update));
    lemma_seconds(state, now);
    let dt_s = elapsed_s(state, now);
    double::integers_are_exact(0);
    double::integers_are_exact(100);
    assert(0 * o == 0) by (nonlinear_arith);
    growth::less_by_value(dt_s, double::integer(0));
    lemma_over(dt_s, 3600, 277_778);
    let dt_h = double::quotient(dt_s, double::integer(3600));
    let n = watts(in_eclipse, is_computing);
    double::integers_add_up(if in_eclipse { -250 } else { 750 }, if is_computing { -200 } else { 0 });
    assert(net_power_w(in_eclipse, is_computing) == double::integer(n));
    lemma_whole_times(n, dt_h);
    let g = double::product(double::integer(n), dt_h);
    let old = state.battery_wh;
    let (q1, q2) = (dt_s.units(), dt_h.units());
    // What is gained, in milliseconds times watts
    let (nq2, nq1, nmo) = (n * q2, n * q1, n * (m * o));
    assert((n * m) * o == nmo) by (nonlinear_arith)
        requires
            nmo == n * (m * o),
    ;
    let e2 = 3600 * q2 - q1;
    assert(-o <= 0x1000 * e2 <= o);
    let ne2 = n * e2;
    assert(-(1000 * o) <= 0x1000 * ne2 <= 1000 * o) by (nonlinear_arith)
        requires
            -o <= 0x1000 * e2 <= o,
            -1000 <= n <= 1000,
            ne2 == n * e2,
            o > 0,
    ;
    assert(ne2 == 3600 * nq2 - nq1) by (nonlinear_arith)
        requires
            ne2 == n * e2,
            e2 == 3600 * q2 - q1,
            nq2 == n * q2,
            nq1 == n * q1,
    ;
    let e1 = 1000 * q1 - m * o;
    let ne1 = n * e1;
    assert(-(1000 * o) <= 0x1000 * ne1 <= 1000 * o) by (nonlinear_arith)
        requires
            -o <= 0x1000 * e1 <= o,
            -1000 <= n <= 1000,
            ne1 == n * e1,
            o > 0,
    ;
    assert(ne1 == 1000 * nq1 - nmo) by (nonlinear_arith)
        requires
            ne1 == n * e1,
            e1 == 1000 * q1 - m * o,
            nq1 == n * q1,
            nmo == n * (m * o),
    ;
    assert(-(300_000_000 * o) <= nq2 <= 300_000_000 * o) by (nonlinear_arith)
        requires
            nq2 == n * q2,
            -1000 <= n <= 1000,
            0 <= q2 <= 277_778 * o,
            o > 0,
    ;
    growth::sums_are_bounded(old, g, 400_000_000);
    growth::sum_error(old, g);
    let s = double::sum(old, g);
    growth::less_by_value(s, double::integer(0));
    growth::less_by_value(double::integer(100), s);
}

/// The temperature goes the part of the way to its target that the time is of two hours,
/// and all of it after that; a thousandth of a degree is left open.
pub proof fn temperature_goes_all_the_way_in_two_hours(
    state: SatelliteState,
    now: UtcTime,
    in_eclipse: bool,
    is_computing: bool,
)
    requires
        0 < time::millis_between(now, state.last_update) <= 1_000_000_000_000,
        state.temperature_c.finite(),
        -(1000 * double::one()) <= state.temperature_c.units() <= 1000 * double::one(),
    ensures
        ({
            let o = double::one() as int;
            let millis = time::millis_between(now, state.last_update);
            let target = (if in_eclipse { -20int } else { 40int }) + (if is_computing { 5int } else { 0int });
            let (old, new) = (
                state.temperature_c.units(),
                state_at(state, now, in_eclipse, is_computing).temperature_c,
            );
            let gone = cut(millis, 0, 7_200_000);
            &&& new.finite()
            &&& -(7200 * o) <= 7_200_000 * (new.units() - old) - (target * o - old) * gone <= 7200 * o
        }),
{
    lemma_one();
    let (o, m) = (double::one() as int, time::millis_between(now, state.last_update));
    lemma_seconds(state, now);
    let dt_s = elapsed_s(state, now);
    double::integers_are_exact(0);
    assert(0 * o == 0) by (nonlinear_arith);
    growth::less_by_value(dt_s, double::integer(0));
    let t = (if in_eclipse { -20int } else { 40int }) + (if is_computing { 5int } else { 0int });
    double::integers_add_up(if in_eclipse { -20 } else { 40 }, if is_computing { 5 } else { 0 });
    double::integers_are_exact(t);
    let target = target_c(in_eclipse, is_computing);
    assert(target == double::integer(t));
    let old = state.temperature_c;
    growth::lemma_opposite(old);
    assert(-(45 * o) <= t * o <= 45 * o) by (nonlinear_arith)
        requires
            -45 <= t <= 45,
            o > 0,
    ;
    growth::sums_are_bounded(target, double::opposite(old), 1045);
    growth::sum_error(target, double::opposite(old));
    let way = double::difference(target, old);
    lemma_share(dt_s, m);
    let share = thermal_share(dt_s);
    let (a, b) = (size(way.unsigned()) as int, size(share.unsigned()) as int);
    assert(a * b <= (1045 * o) * o) by (nonlinear_arith)
        requires
            0 <= a <= 1045 * o,
            0 <= b <= o,
    ;
    growth::products_are_bounded(way, share, 1045);
    growth::product_error(way, share);
    let gone = double::product(way, share);
    growth::sums_are_bounded(old, gone, 3000);
    growth::sum_error(old, gone);
    let new = double::sum(old, gone);
    let (w, h, g, z) = (way.units(), share.units(), gone.units(), size(gone.unsigned()) as int);
    let part = cut(m, 0, 7_200_000);
    let wh = w * h;
    // The product, over one
    let gap = g * o - wh;
    let oo = o * o;
    assert((z + 0x10_0000_0000_0000) * o <= 1046 * oo) by (nonlinear_arith)
        requires
            z <= 1045 * o,
            o >= 0x10_0000_0000_0000,
            oo == o * o,
    ;
    // The share, in parts of two hours
    let e = 7_200_000 * h - part * o;
    let we = w * e;
    assert(-(1045 * oo) <= we <= 1045 * oo) by (nonlinear_arith)
        requires
            -(1045 * o) <= w <= 1045 * o,
            -o <= e <= o,
            we == w * e,
            oo == o * o,
    ;
    assert(we == 7_200_000 * wh - (w * part) * o) by (nonlinear_arith)
        requires
            we == w * e,
            e == 7_200_000 * h - part * o,
            wh == w * h,
    ;
    let wp = w * part;
    let top = 7_200_000 * g - wp;
    assert(top * o == 7_200_000 * (g * o) - wp * o) by (nonlinear_arith)
        requires
            top == 7_200_000 * g - wp,
    ;
    assert(-(2000 * oo) <= top * o <= 2000 * oo);
    assert(-(2000 * o) <= top <= 2000 * o) by (nonlinear_arith)
        requires
            -(2000 * oo) <= top * o <= 2000 * oo,
            oo == o * o,
            o > 0,
    ;
    // The way itself is off by less than a billionth.
    let off = w - (t * o - old.units());
    assert(-o <= 0x100_0000_0000 * off <= o);
    let op = off * part;
    assert(-o <= op <= o) by (nonlinear_arith)
        requires
            -o <= 0x100_0000_0000 * off <= o,
            0 <= part <= 7_200_000,
            op == off * part,
            o > 0,
    ;
    assert(wp == (t * o - old.units()) * part + op) by (nonlinear_arith)
        requires
            wp == w * part,
            off == w - (t * o - old.units()),
            op == off * part,
    ;
}

/// The share of the way, in parts of two hours.
proof fn lemma_share(dt_s: Double, m: int)
    requires
        dt_s.finite(),
        0 < m <= 1_000_000_000_000,
        0 < dt_s.units() <= 1_000_000_000 * double::one(),
        -double::one() <= 0x1000 * (1000 * dt_s.units() - m * double::one()) <= double::one(),
    ensures
        ({
            let (h, o) = (thermal_share(dt_s).units(), double::one() as int);
            &&& thermal_share(dt_s).finite()
            &&& 0 <= h <= o
            &&& -o <= 7_200_000 * h - cut(m, 0, 7_200_000) * o <= o
        }),
{
    lemma_one();
    let o = double::one() as int;
    lemma_over(dt_s, 60, 16_666_667);
    let dt_min = double::quotient(dt_s, double::integer(60));
    crate::rules::lemma_half();
    let half = double::ratio(1, 2);
    let (x, y) = (size(dt_min.unsigned()) as int, size(half.unsigned()) as int);
    assert(y * x <= (16_666_667 * o) * o) by (nonlinear_arith)
        requires
            0 <= x <= 16_666_667 * o,
            2 * y == o,
            o > 0,
    ;
    growth::products_are_bounded(half, dt_min, 16_666_667);
    growth::product_error(half, dt_min);
    growth::lemma_product_rank(half, dt_min);
    let p = double::product(half, dt_min);
    let (pu, du) = (p.units(), dt_min.units());
    assert(size(0) == 0);
    let z = size(p.unsigned()) as int;
    assert(pu == z) by {
        if dt_min.negative() {
            growth::lemma_rank_of_units(dt_min, dt_min);
            crate::hazard::shadow::lemma_times_zero(half, dt_min);
        }
    }
    let g = 2 * pu - du;
    assert(2 * (pu * o - half.units() * du) == g * o) by (nonlinear_arith)
        requires
            g == 2 * pu - du,
            2 * half.units() == o,
    ;
    assert(-(2 * (z + 0x10_0000_0000_0000)) <= 0x20_0000_0000_0000 * g <= 2 * (z + 0x10_0000_0000_0000))
        by (nonlinear_arith)
        requires
            -(2 * ((z + 0x10_0000_0000_0000) * o)) <= 0x20_0000_0000_0000 * (g * o) <= 2 * ((z
                + 0x10_0000_0000_0000) * o),
            o > 0,
    ;
    lemma_over(p, 60, 300_000);
    let q = double::quotient(p, double::integer(60));
    double::integers_are_exact(1);
    assert(1 * o == o) by (nonlinear_arith);
    growth::less_by_value(double::integer(1), q);
    let h = thermal_share(dt_s).units();
    let mo = m * o;
    assert(m <= 7_200_000 ==> mo <= 7_200_000 * o) by (nonlinear_arith)
        requires
            mo == m * o,
            o > 0,
    ;
    assert(m > 7_200_000 ==> mo >= 7_200_001 * o) by (nonlinear_arith)
        requires
            mo == m * o,
            o > 0,
    ;
    assert(-o <= 2 * (7_200_000 * q.units() - mo) <= o || mo > 16_000_000 * o);
}

} // verus!
