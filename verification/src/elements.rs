//! What an orbit and its trajectory have of the orbital elements.

use vstd::arithmetic::power2::{
    lemma2_to64, lemma2_to64_rest, lemma_pow2_adds, lemma_pow2_pos, lemma_pow2_strictly_increases, pow2,
};
use vstd::prelude::*;

use crate::double::growth;
use crate::double::near::{self, near};
use crate::double::model::{lemma_size_of, size, BINADE, UNIT_EXPONENT};
use crate::double::{self, Double};
use crate::hazard::geometry::earth_radius_km;
use crate::hazard::shadow;
use crate::orbit::{
    eccentric_anomaly, grid, in_degrees, in_radians, in_turn, orbit_of, path, pi, point_at, refined, sample_count,
    search, semi_major_axis, wrapped, Kepler, Orbit, Transcendental,
};
use crate::sim_client::OrbitalElements;
use crate::time::{self, UtcTime};

verus! {

/// `rad` radians are `deg` degrees, up to one part in `2^48`: 7074237752028440 over
/// `2^51` is pi, as near as numbers come.
pub open spec fn is_radians_of(rad: Double, deg: Double) -> bool {
    let off = 180 * (0x8_0000_0000_0000 * rad.units()) - 7_074_237_752_028_440 * deg.units();
    let slack = 7_074_237_752_028_440 * size(deg.unsigned()) + 0x1000_0000_0000_0000_0000_0000_0000_0000;
    &&& rad.finite()
    &&& -slack <= 0x1_0000_0000_0000 * off <= slack
}

/// The value of pi.
proof fn lemma_pi()
    ensures
        pi().finite(),
        !pi().negative(),
        !pi().zero(),
        0x8_0000_0000_0000 * pi().units() == 7_074_237_752_028_440 * double::one(),
{
    let m = 7_074_237_752_028_440nat;
    let k = pi().unsigned();
    assert(k == 0x4009_21fb_5444_2d18);
    assert(k == 1023 * BINADE as nat + m);
    lemma_size_of(1023, m);
    lemma_pow2_adds(51, 1023);
    lemma2_to64();
    lemma2_to64_rest();
    assert(pow2(51) == 0x8_0000_0000_0000);
    let p = pow2(1023);
    assert(0x8_0000_0000_0000 * (m * p) == m * (0x8_0000_0000_0000 * p)) by (nonlinear_arith);
}

/// Degrees turn into the radians that they are.
pub proof fn radians_are_degrees(deg: Double)
    requires
        deg.finite(),
    ensures
        is_radians_of(in_radians(deg), deg),
{
    let o = double::one() as int;
    lemma_pow2_pos(UNIT_EXPONENT as nat);
    lemma2_to64();
    lemma2_to64_rest();
    lemma_pow2_strictly_increases(60, UNIT_EXPONENT as nat);
    lemma_pi();
    double::integers_are_exact(180);
    double::integers_are_exact(1);
    double::integers_are_finite(180);
    double::integers_are_finite(1);
    let q = double::quotient(pi(), double::integer(180));
    growth::lemma_quotient_rank(pi(), double::integer(180));
    growth::quotients_are_bounded(pi(), double::integer(180), 1);
    growth::quotient_error(pi(), double::integer(180));
    assert(size(0) == 0);
    let (p, x, d) = (pi().units(), q.units(), deg.units());
    assert(x == size(q.unsigned()));
    // x is pi over 180
    assert(x * (180 * o) - p * o == (180 * x - p) * o) by (nonlinear_arith);
    let y = 180 * (x + 0x10_0000_0000_0000);
    assert((x + 0x10_0000_0000_0000) * (180 * o) == y * o) by (nonlinear_arith)
        requires
            y == 180 * (x + 0x10_0000_0000_0000),
    ;
    let g = 180 * x - p;
    assert(-y <= 0x20_0000_0000_0000 * g <= y) by (nonlinear_arith)
        requires
            -(y * o) <= 0x20_0000_0000_0000 * (g * o) <= y * o,
            o > 0,
    ;
    assert(1 * o == o) by (nonlinear_arith);
    growth::less_by_value(q, double::integer(1));
    growth::lemma_rank_of_units(q, q);
    growth::shares_are_no_larger(deg, q);
    growth::product_error(deg, q);
    let r = in_radians(deg);
    let (rad, z, w) = (r.units(), size(r.unsigned()) as int, size(deg.unsigned()) as int);
    // o * rad is d * x
    let dx = d * x;
    let h = rad * o - dx;
    assert(-((z + 0x10_0000_0000_0000) * o) <= 0x20_0000_0000_0000 * h <= (z + 0x10_0000_0000_0000) * o);
    assert(z <= w) by {
        if r.unsigned() < deg.unsigned() {
            crate::double::model::lemma_size_monotone(r.unsigned(), deg.unsigned());
        }
    }
    // The share is about a fifty-seventh, so the product is no more than that.
    assert(32 * x <= o);
    lemma_radian_bound(rad, z, w, d, x, o, h, dx);
    lemma_radians(rad, d, x, o, w, z, h, dx, g);
}

/// The product in size.
proof fn lemma_radian_bound(rad: int, z: int, w: int, d: int, x: int, o: int, h: int, dx: int)
    requires
        o >= 0x1000_0000_0000_0000,
        d == w || d == -w,
        rad == z || rad == -z,
        0 <= w,
        0 <= z,
        0 <= x,
        dx == d * x,
        h == rad * o - dx,
        -((z + 0x10_0000_0000_0000) * o) <= 0x20_0000_0000_0000 * h <= (z + 0x10_0000_0000_0000) * o,
        32 * x <= o,
    ensures
        16 * z <= w + 16,
{
    let (zo, wx) = (z * o, w * x);
    assert(rad * o == zo || rad * o == -zo) by (nonlinear_arith)
        requires
            rad == z || rad == -z,
            zo == z * o,
    ;
    assert(dx == wx || dx == -wx) by (nonlinear_arith)
        requires
            dx == d * x,
            d == w || d == -w,
            wx == w * x,
    ;
    assert((z + 0x10_0000_0000_0000) * o == zo + 0x10_0000_0000_0000 * o) by (nonlinear_arith)
        requires
            zo == z * o,
    ;
    assert(32 * wx <= w * o) by (nonlinear_arith)
        requires
            wx == w * x,
            32 * x <= o,
            w >= 0,
    ;
    assert(zo >= 0 && wx >= 0) by (nonlinear_arith)
        requires
            zo == z * o,
            wx == w * x,
            z >= 0,
            w >= 0,
            x >= 0,
            o >= 0,
    ;
    let wo = w * o;
    assert(0x1f_ffff_ffff_ffff * zo <= 0x20_0000_0000_0000 * wx + 0x10_0000_0000_0000 * o);
    assert(16 * zo <= wo + 16 * o);
    assert(16 * z <= w + 16) by (nonlinear_arith)
        requires
            16 * (z * o) <= w * o + 16 * o,
            o > 0,
    ;
}

proof fn lemma_radians(rad: int, d: int, x: int, o: int, w: int, z: int, h: int, dx: int, g: int)
    requires
        o >= 0x1000_0000_0000_0000,
        d == w || d == -w,
        0 <= w,
        0 <= z,
        0 <= x,
        16 * z <= w + 16,
        dx == d * x,
        h == rad * o - dx,
        -((z + 0x10_0000_0000_0000) * o) <= 0x20_0000_0000_0000 * h <= (z + 0x10_0000_0000_0000) * o,
        32 * x <= o,
        0x8_0000_0000_0000 * (180 * x - g) == 7_074_237_752_028_440 * o,
        -(180 * (x + 0x10_0000_0000_0000)) <= 0x20_0000_0000_0000 * g <= 180 * (x + 0x10_0000_0000_0000),
    ensures
        ({
            let off = 180 * (0x8_0000_0000_0000 * rad) - 7_074_237_752_028_440 * d;
            let slack = 7_074_237_752_028_440 * w + 0x1000_0000_0000_0000_0000_0000_0000_0000;
            -slack <= 0x1_0000_0000_0000 * off <= slack
        }),
{
    let m = 7_074_237_752_028_440int;
    let off = 180 * (0x8_0000_0000_0000 * rad) - m * d;
    // off * o == 180 * 2^51 * (h + d x) - m o d == 180 * 2^51 * h + 2^51 * g * d
    let gd = g * d;
    assert(off * o == 180 * (0x8_0000_0000_0000 * (rad * o)) - (m * o) * d) by (nonlinear_arith)
        requires
            off == 180 * (0x8_0000_0000_0000 * rad) - m * d,
    ;
    assert((0x8_0000_0000_0000 * (180 * x - g)) * d == 180 * (0x8_0000_0000_0000 * dx) - 0x8_0000_0000_0000 * gd)
        by (nonlinear_arith)
        requires
            dx == d * x,
            gd == g * d,
    ;
    assert(off * o == 180 * (0x8_0000_0000_0000 * h) + 0x8_0000_0000_0000 * gd);
    // |g| is at most o / 2^50
    assert(-o <= 0x1_0000_0000_0000 * g <= o);
    let (wo, zo) = (w * o, z * o);
    assert(-(7 * wo) <= 0x20_0000_0000_0000 * gd <= 7 * wo) by (nonlinear_arith)
        requires
            gd == g * d,
            d == w || d == -w,
            w >= 0,
            wo == w * o,
            -(7 * o) <= 0x20_0000_0000_0000 * g <= 7 * o,
    ;
    assert((z + 0x10_0000_0000_0000) * o == zo + 0x10_0000_0000_0000 * o) by (nonlinear_arith)
        requires
            zo == z * o,
    ;
    assert(16 * zo <= wo + 16 * o) by (nonlinear_arith)
        requires
            zo == z * o,
            wo == w * o,
            16 * z <= w + 16,
            o > 0,
    ;
    let slack = m * w + 0x1000_0000_0000_0000_0000_0000_0000_0000;
    assert(slack * o == m * wo + 0x1000_0000_0000_0000_0000_0000_0000_0000 * o) by (nonlinear_arith)
        requires
            slack == m * w + 0x1000_0000_0000_0000_0000_0000_0000_0000,
            wo == w * o,
    ;
    let oo = off * o;
    assert(wo >= 0) by (nonlinear_arith)
        requires
            wo == w * o,
            w >= 0,
            o > 0,
    ;
    assert(-(slack * o) <= 0x1_0000_0000_0000 * oo <= slack * o);
    assert(-slack <= 0x1_0000_0000_0000 * off <= slack) by (nonlinear_arith)
        requires
            -(slack * o) <= 0x1_0000_0000_0000 * (off * o) <= slack * o,
            o > 0,
    ;
}

/// The altitude is one of an orbit: from -6000 km on, and below a billion.
pub open spec fn altitude_makes_sense(e: OrbitalElements) -> bool {
    &&& e.altitude_km.finite()
    &&& -6000 * double::one() <= e.altitude_km.units() <= 1_000_000_000 * double::one()
}

proof fn lemma_powers()
    ensures
        pow2(0) == 1,
        pow2(8) == 256,
        pow2(9) == 512,
        pow2(10) == 1024,
        pow2(13) == 8192,
        pow2(14) == 16384,
        pow2(16) == 65_536,
        pow2(17) == 131_072,
        pow2(22) == 4_194_304,
        pow2(23) == 8_388_608,
        pow2(26) == 67_108_864,
        pow2(27) == 134_217_728,
        pow2(30) == 1_073_741_824,
        pow2(31) == 2_147_483_648,
        pow2(32) == 4_294_967_296,
        pow2(39) == 549_755_813_888,
        pow2(40) == 1_099_511_627_776,
        double::one() >= 0x1000_0000_0000_0000,
{
    lemma2_to64();
    lemma2_to64_rest();
    lemma_pow2_strictly_increases(60, UNIT_EXPONENT as nat);
}

/// An orbit is as large as the Earth, with a radius of 6378.137 km, and its
/// altitude.
pub proof fn orbits_are_as_high_as_given(e: OrbitalElements)
    requires
        altitude_makes_sense(e),
    ensures
        semi_major_axis(e).finite(),
        !semi_major_axis(e).negative(),
        near(1000 * semi_major_axis(e).units(), 6_378_137 * double::one() + 1000 * e.altitude_km.units(), 20),
        pow2(1074 + 8) <= size(semi_major_axis(e).unsigned()) <= pow2(1074 + 30),
{
    let o = double::one() as int;
    lemma_powers();
    let (r, alt) = (earth_radius_km(), e.altitude_km);
    near::ratio_between(6_378_137, 1000, 22, 23, 9, 10);
    let x = r.units();
    assert(near(x * 1000, 6_378_137 * o, 1));
    assert(-(6_378_137 * o) <= 0x2000_0000_0000 * (x * 1000 - 6_378_137 * o) <= 6_378_137 * o);
    let exact = x + alt.units();
    growth::sums_are_bounded(r, alt, 1_000_006_379);
    let a = semi_major_axis(e);
    growth::sum_error(r, alt);
    growth::sums_stay_near(r, alt);
    assert(a.units() == size(a.unsigned()));
    assert(256 * o <= a.units() <= 1_073_741_824 * o);
    lemma_pow2_adds(8, UNIT_EXPONENT as nat);
    lemma_pow2_adds(30, UNIT_EXPONENT as nat);
    let whole = 6_378_137 * o + 1000 * alt.units();
    assert(double::magnitude(whole) == whole);
}

/// The mean motion is Kepler's third law: its square times the cube of the orbit's
/// size is the Earth's gravitational parameter, 398600.4418.
pub proof fn orbits_keep_keplers_third_law(e: OrbitalElements, cos_inc: Double, sin_inc: Double, start: UtcTime)
    requires
        altitude_makes_sense(e),
    ensures
        ({
            let orbit = orbit_of(e, cos_inc, sin_inc, start);
            let (n, a, o) = (orbit.n.units(), orbit.a_km.units(), double::one() as int);
            &&& orbit.n.finite()
            &&& !orbit.n.negative()
            &&& pow2(1010) <= size(orbit.n.unsigned()) <= pow2(1080)
            &&& near(10_000 * ((n * n) * ((a * a) * a)), 3_986_004_418 * ((o * o) * ((o * o) * o)), 20)
        }),
{
    let o = double::one() as int;
    lemma_powers();
    orbits_are_as_high_as_given(e);
    let a = semi_major_axis(e);
    let a2 = double::product(a, a);
    let a3 = double::product(a2, a);
    growth::lemma_product_rank(a, a);
    near::product_between(a, a, 1082, 1104, 1082, 1104);
    growth::lemma_product_rank(a2, a);
    near::product_between(a2, a, 1090, 1134, 1082, 1104);
    let mu = crate::orbit::mu();
    near::ratio_between(3_986_004_418, 10_000, 31, 32, 13, 14);
    let q = double::quotient(mu, a3);
    near::quotient_between(mu, a3, 1091, 1093, 1098, 1164);
    growth::lemma_quotient_rank(mu, a3);
    let n = crate::orbit::mean_motion(a);
    near::root_between(q, 1001, 1069);
    assert(pow2(1010) <= size(n.unsigned()) <= pow2(1080));
    lemma_third_law(n.units(), q.units(), a.units(), a2.units(), a3.units(), mu.units(), o);
}

proof fn lemma_third_law(n: int, q: int, a: int, a2: int, a3: int, mu: int, o: int)
    requires
        near(a2 * o, a * a, 1),
        near(a3 * o, a2 * a, 1),
        near(q * a3, mu * o, 1),
        near(n * n, q * o, 1),
        near(mu * 10_000, 3_986_004_418 * o, 1),
    ensures
        near(10_000 * ((n * n) * ((a * a) * a)), 3_986_004_418 * ((o * o) * ((o * o) * o)), 20),
{
    let (nn, aa, oo) = (n * n, a * a, o * o);
    let aaa = aa * a;
    // The cube
    near::near_times(a2 * o, aa, 1, a);
    near::near_times(a3 * o, a2 * a, 1, o);
    assert((a2 * a) * o == (a2 * o) * a) by (nonlinear_arith);
    let cube = (a3 * o) * o;
    near::near_chain(cube, (a2 * o) * a, aaa, 1, 1);
    near::near_back(cube, aaa, 3);
    // The square of the motion, times the cube
    near::near_products(nn, q * o, 1, aaa, cube, 4);
    let ooo = oo * o;
    near::near_times(q * a3, mu * o, 1, ooo);
    assert((q * o) * cube == (q * a3) * ooo) by (nonlinear_arith)
        requires
            cube == (a3 * o) * o,
            ooo == (o * o) * o,
    ;
    let all = nn * aaa;
    near::near_chain(all, (q * a3) * ooo, (mu * o) * ooo, 6, 1);
    near::near_times(all, (mu * o) * ooo, 8, 10_000);
    let fourth = o * ooo;
    near::near_times(mu * 10_000, 3_986_004_418 * o, 1, fourth);
    assert(((mu * o) * ooo) * 10_000 == (mu * 10_000) * fourth) by (nonlinear_arith)
        requires
            fourth == o * ooo,
    ;
    near::near_chain(all * 10_000, (mu * 10_000) * fourth, (3_986_004_418 * o) * fourth, 8, 1);
    assert((3_986_004_418 * o) * fourth == 3_986_004_418 * (oo * ooo)) by (nonlinear_arith)
        requires
            fourth == o * ooo,
            oo == o * o,
    ;
    assert(all * 10_000 == 10_000 * all) by (nonlinear_arith);
    lemma_wider(10_000 * all, 3_986_004_418 * (oo * ooo), 10, 20);
}

/// What is near is near within more.
proof fn lemma_wider(x: int, y: int, e: int, f: int)
    requires
        near(x, y, e),
        e <= f,
    ensures
        near(x, y, f),
{
    let m = double::magnitude(y) as int;
    assert(e * m <= f * m) by (nonlinear_arith)
        requires
            e <= f,
            m >= 0,
    ;
}

/// An orbit has the angles, the shape and the epoch of its elements.
pub proof fn orbits_have_the_given_angles(e: OrbitalElements, cos_inc: Double, sin_inc: Double, start: UtcTime)
    requires
        e.raan_deg.finite(),
        e.arg_perigee_deg.finite(),
        e.mean_anomaly_deg.finite(),
    ensures
        ({
            let orbit = orbit_of(e, cos_inc, sin_inc, start);
            &&& is_radians_of(orbit.raan0, e.raan_deg)
            &&& is_radians_of(orbit.argp0, e.arg_perigee_deg)
            &&& is_radians_of(orbit.m0, e.mean_anomaly_deg)
            &&& orbit.ecc == e.eccentricity
            &&& orbit.cos_inc == cos_inc
            &&& orbit.sin_inc == sin_inc
            &&& time::reading(e.epoch@) is Some ==> Some(orbit.epoch) == time::reading(e.epoch@)
            &&& time::reading(e.epoch@) is None ==> orbit.epoch == start
        }),
{
    radians_are_degrees(e.raan_deg);
    radians_are_degrees(e.arg_perigee_deg);
    radians_are_degrees(e.mean_anomaly_deg);
}

/// `x` is `first` plus `rate` times the seconds since the epoch, up to rounding.
pub open spec fn moved_evenly(x: Double, first: Double, rate: Double, millis: int) -> bool {
    exists|age: Double, way: Double| #[trigger] advanced(x, first, rate, millis, age, way)
}

/// The age is so many milliseconds, the way is the rate times the age, and `x` is
/// `first` and the way, each up to rounding.
pub open spec fn advanced(x: Double, first: Double, rate: Double, millis: int, age: Double, way: Double) -> bool {
    let o = double::one() as int;
    &&& age.finite()
    &&& way.finite()
    &&& up_to_rounding(age, 1000 * age.units(), millis * o, 1000)
    &&& up_to_rounding(way, way.units() * o, rate.units() * age.units(), o)
    &&& up_to_rounding(x, x.units(), first.units() + way.units(), 1)
}

/// `rounded` over `scale` is `exact` over `scale`, up to a part in `2^53` of the
/// number that it was rounded to, or half a unit.
pub open spec fn up_to_rounding(x: Double, rounded: int, exact: int, scale: int) -> bool {
    let slack = (size(x.unsigned()) + 0x10_0000_0000_0000) * scale;
    -slack <= 0x20_0000_0000_0000 * (rounded - exact) <= slack
}

proof fn lemma_age(orbit: Orbit, t: UtcTime)
    requires
        orbit.epoch.valid(),
        t.valid(),
    ensures
        ({
            let (age, millis, o) = (orbit.age_s(t), time::millis_between(t, orbit.epoch), double::one() as int);
            &&& age.finite()
            &&& millis == 0 ==> age.zero()
            &&& -0x20_0000_0000_0000 <= millis <= 0x20_0000_0000_0000 ==> up_to_rounding(
                age,
                1000 * age.units(),
                millis * o,
                1000,
            )
        }),
{
    let millis = time::millis_between(t, orbit.epoch);
    let (m, k, o) = (double::integer(millis), double::integer(1000), double::one() as int);
    lemma_powers();
    double::integers_are_finite(millis);
    double::integers_are_finite(1000);
    double::integers_are_exact(1000);
    double::integers_are_finite(1);
    double::integers_compare(1, 1000);
    reveal(double::less);
    reveal(double::at_most);
    growth::quotients_are_no_larger(m, k);
    if millis == 0 {
        growth::lemma_quotient_rank(m, k);
        assert(size(0) == 0);
        assert(0 * double::one() == 0) by (nonlinear_arith);
        growth::lemma_nearest_to_zero(size(k.unsigned()));
    }
    if -0x20_0000_0000_0000 <= millis <= 0x20_0000_0000_0000 {
        double::integers_are_exact(millis);
        growth::quotient_error(m, k);
        let (x, z) = (orbit.age_s(t).units(), size(orbit.age_s(t).unsigned()) as int);
        let slack = (z + 0x10_0000_0000_0000) * 1000;
        assert(x * (1000 * o) - (millis * o) * o == (1000 * x - millis * o) * o) by (nonlinear_arith);
        assert((z + 0x10_0000_0000_0000) * (1000 * o) == slack * o) by (nonlinear_arith)
            requires
                slack == (z + 0x10_0000_0000_0000) * 1000,
        ;
        let g = 1000 * x - millis * o;
        assert(-slack <= 0x20_0000_0000_0000 * g <= slack) by (nonlinear_arith)
            requires
                -(slack * o) <= 0x20_0000_0000_0000 * (g * o) <= slack * o,
                o > 0,
        ;
    }
}

proof fn lemma_advance(orbit: Orbit, t: UtcTime, first: Double, rate: Double)
    requires
        orbit.epoch.valid(),
        t.valid(),
        -0x20_0000_0000_0000 <= time::millis_between(t, orbit.epoch) <= 0x20_0000_0000_0000,
        first.finite(),
        rate.finite(),
        double::product(rate, orbit.age_s(t)).finite(),
        double::sum(first, double::product(rate, orbit.age_s(t))).finite(),
    ensures
        moved_evenly(
            double::sum(first, double::product(rate, orbit.age_s(t))),
            first,
            rate,
            time::millis_between(t, orbit.epoch),
        ),
{
    let (age, o) = (orbit.age_s(t), double::one() as int);
    let way = double::product(rate, age);
    lemma_age(orbit, t);
    growth::product_error(rate, age);
    growth::sum_error(first, way);
    assert(advanced(double::sum(first, way), first, rate, time::millis_between(t, orbit.epoch), age, way));
}

/// Mean anomaly, node and perigee move evenly from where they stood at the epoch,
/// and the satellite stands as far from the node as its anomaly from the perigee.
pub proof fn orbits_move_evenly(orbit: Orbit, t: UtcTime, true_anomaly: Double)
    requires
        orbit.epoch.valid(),
        t.valid(),
        -0x20_0000_0000_0000 <= time::millis_between(t, orbit.epoch) <= 0x20_0000_0000_0000,
        orbit.m0.finite(),
        orbit.raan0.finite(),
        orbit.argp0.finite(),
        orbit.n.finite(),
        orbit.raan_rate.finite(),
        orbit.argp_rate.finite(),
        true_anomaly.finite(),
    ensures
        ({
            let millis = time::millis_between(t, orbit.epoch);
            let u = orbit.latitude_argument(t, true_anomaly);
            &&& orbit.mean_anomaly_at(t).finite() ==> moved_evenly(orbit.mean_anomaly_at(t), orbit.m0, orbit.n, millis)
            &&& orbit.node_at(t).finite() ==> moved_evenly(orbit.node_at(t), orbit.raan0, orbit.raan_rate, millis)
            &&& u.finite() ==> exists|perigee: Double| #[trigger]
                moved_evenly(perigee, orbit.argp0, orbit.argp_rate, millis) && up_to_rounding(
                    u,
                    u.units(),
                    perigee.units() + true_anomaly.units(),
                    1,
                )
        }),
{
    lemma_age(orbit, t);
    let age = orbit.age_s(t);
    lemma_finite_parts(orbit.m0, double::product(orbit.n, age));
    lemma_finite_parts(orbit.raan0, double::product(orbit.raan_rate, age));
    lemma_finite_parts(orbit.argp0, double::product(orbit.argp_rate, age));
    growth::lemma_product_rank(orbit.n, age);
    growth::lemma_product_rank(orbit.raan_rate, age);
    growth::lemma_product_rank(orbit.argp_rate, age);
    if orbit.mean_anomaly_at(t).finite() {
        lemma_advance(orbit, t, orbit.m0, orbit.n);
    }
    if orbit.node_at(t).finite() {
        lemma_advance(orbit, t, orbit.raan0, orbit.raan_rate);
    }
    let perigee = double::sum(orbit.argp0, double::product(orbit.argp_rate, age));
    lemma_finite_parts(true_anomaly, perigee);
    let u = orbit.latitude_argument(t, true_anomaly);
    if u.finite() {
        assert(perigee.finite()) by {
            reveal(double::sum);
        }
        lemma_advance(orbit, t, orbit.argp0, orbit.argp_rate);
        growth::sum_error(perigee, true_anomaly);
        assert(moved_evenly(perigee, orbit.argp0, orbit.argp_rate, time::millis_between(t, orbit.epoch)));
    }
}

/// Only what is finite adds to what is.
proof fn lemma_finite_parts(a: Double, b: Double)
    requires
        a.finite(),
    ensures
        double::sum(a, b).finite() ==> b.finite(),
{
    reveal(double::sum);
}

/// At its epoch an orbit stands where its elements say: the node, the perigee and
/// the mean anomaly are the given ones, and the satellite is as far from the node
/// as the perigee and its anomaly together.
pub proof fn orbits_start_from_their_elements(
    e: OrbitalElements,
    cos_inc: Double,
    sin_inc: Double,
    start: UtcTime,
    true_anomaly: Double,
)
    requires
        e.raan_deg.finite(),
        e.arg_perigee_deg.finite(),
        e.mean_anomaly_deg.finite(),
        true_anomaly.finite(),
        ({
            let orbit = orbit_of(e, cos_inc, sin_inc, start);
            orbit.epoch.valid() && orbit.n.finite() && orbit.raan_rate.finite() && orbit.argp_rate.finite()
        }),
    ensures
        ({
            let orbit = orbit_of(e, cos_inc, sin_inc, start);
            let u = orbit.latitude_argument(orbit.epoch, true_anomaly);
            &&& is_radians_of(orbit.node_at(orbit.epoch), e.raan_deg)
            &&& is_radians_of(orbit.mean_anomaly_at(orbit.epoch), e.mean_anomaly_deg)
            &&& true_anomaly.zero() ==> is_radians_of(u, e.arg_perigee_deg)
            &&& exists|perigee: Double| #[trigger]
                is_radians_of(perigee, e.arg_perigee_deg) && u.rank() == double::sum(perigee, true_anomaly).rank()
        }),
{
    let orbit = orbit_of(e, cos_inc, sin_inc, start);
    orbits_have_the_given_angles(e, cos_inc, sin_inc, start);
    lemma_age(orbit, orbit.epoch);
    assert(time::millis_between(orbit.epoch, orbit.epoch) == 0);
    let age = orbit.age_s(orbit.epoch);
    shadow::lemma_times_zero(orbit.n, age);
    shadow::lemma_times_zero(orbit.raan_rate, age);
    shadow::lemma_times_zero(orbit.argp_rate, age);
    shadow::lemma_add_zero(orbit.m0, double::product(orbit.n, age));
    shadow::lemma_add_zero(orbit.raan0, double::product(orbit.raan_rate, age));
    shadow::lemma_add_zero(orbit.argp0, double::product(orbit.argp_rate, age));
    let perigee = double::sum(orbit.argp0, double::product(orbit.argp_rate, age));
    assert(is_radians_of(perigee, e.arg_perigee_deg));
    if true_anomaly.zero() {
        shadow::lemma_add_zero(perigee, true_anomaly);
    }
}

/// From the node on the x axis, the satellite's place is its distance times the
/// cosine of the angle along x, and times the sine along the direction that the
/// inclination gives; from the node on the y axis, a quarter of a turn on.
pub proof fn places_are_turned_by_the_node(orbit: Orbit, r: Double, u: (Double, Double))
    requires
        r.finite(),
        u.0.finite(),
        u.1.finite(),
        orbit.cos_inc.finite(),
        orbit.sin_inc.finite(),
        double::product(u.1, orbit.cos_inc).finite(),
    ensures
        ({
            let (one, none) = (double::integer(1), double::integer(0));
            let p = orbit.place(r, (one, none), u);
            let q = orbit.place(r, (none, one), u);
            let up = double::product(double::product(r, u.1), orbit.sin_inc);
            &&& p.x.rank() == double::product(r, u.0).rank()
            &&& p.y.rank() == double::product(r, double::product(u.1, orbit.cos_inc)).rank()
            &&& p.z == up
            &&& q.x.rank() == -double::product(r, double::product(u.1, orbit.cos_inc)).rank()
            &&& q.y.rank() == double::product(r, u.0).rank()
            &&& q.z == up
        }),
{
    let (one, none) = (double::integer(1), double::integer(0));
    double::integers_are_finite(1);
    double::integers_are_finite(0);
    double::integer_zero();
    let side = double::product(u.1, orbit.cos_inc);
    lemma_one_times(u.0);
    lemma_one_times(u.1);
    shadow::lemma_times_zero(u.1, none);
    shadow::lemma_times_zero(u.0, none);
    shadow::lemma_times_zero(orbit.cos_inc, double::product(none, u.1));
    let z1 = double::product(double::product(none, u.1), orbit.cos_inc);
    growth::lemma_opposite(z1);
    shadow::lemma_add_zero(u.0, double::opposite(z1));
    shadow::lemma_add_zero(u.0, z1);
    let z2 = double::product(none, u.0);
    growth::lemma_opposite(side);
    shadow::lemma_add_zero(side, z2);
    shadow::lemma_add_zero(double::opposite(side), z2);
    lemma_same_product(r, double::difference(double::product(one, u.0), z1), u.0);
    lemma_same_product(r, double::sum(z2, side), side);
    lemma_same_product(r, double::difference(z2, side), double::opposite(side));
    lemma_same_product(r, double::sum(double::product(one, u.0), z1), u.0);
    growth::lemma_product_rank(r, side);
    growth::lemma_product_rank(r, double::opposite(side));
}

pub proof fn lemma_one_times(a: Double)
    requires
        a.finite(),
    ensures
        double::product(double::integer(1), a) == a,
{
    double::integers_are_finite(1);
    growth::product_with_one(a);
    growth::lemma_product_rank(a, double::integer(1));
    growth::lemma_product_rank(double::integer(1), a);
    let (x, y) = (size(a.unsigned()), size(double::integer(1).unsigned()));
    assert(x * y == y * x) by (nonlinear_arith);
}

/// Numbers of the same value give products of the same value.
proof fn lemma_same_product(r: Double, a: Double, b: Double)
    requires
        r.finite(),
        a.finite(),
        b.finite(),
        a.units() == b.units(),
        a.unsigned() == b.unsigned(),
    ensures
        double::product(r, a).rank() == double::product(r, b).rank(),
{
    growth::lemma_product_rank(r, a);
    growth::lemma_product_rank(r, b);
    growth::lemma_rank_of_units(a, b);
    if a.zero() {
        assert(size(0) == 0);
        assert(size(r.unsigned()) * 0 == 0) by (nonlinear_arith);
        lemma_pow2_pos(UNIT_EXPONENT as nat);
        growth::lemma_nearest_to_zero(double::one());
    }
}

/// Every answer is a finite number.
pub open spec fn answers_are_finite(m: spec_fn(Transcendental) -> Double) -> bool {
    forall|q: Transcendental| (#[trigger] m(q)).finite()
}

/// On a circular orbit every sample is as high as the orbit, to a metre.
pub proof fn circular_orbits_keep_their_altitude(
    e: OrbitalElements,
    start: UtcTime,
    end: UtcTime,
    m: spec_fn(Transcendental) -> Double,
    k: int,
)
    requires
        altitude_makes_sense(e),
        e.eccentricity.zero(),
        answers_are_finite(m),
        0 <= k < path(e, start, end, m).len(),
    ensures
        ({
            let p = path(e, start, end, m)[k];
            &&& p.alt_km.finite()
            &&& -double::one() <= 1000 * (p.alt_km.units() - e.altitude_km.units()) <= double::one()
        }),
{
    reveal(point_at);
    lemma_powers();
    let o = double::one() as int;
    let inc = in_radians(e.inclination_deg);
    let orbit = orbit_of(e, m(Transcendental::Cosine(inc)), m(Transcendental::Sine(inc)), start);
    let t = grid(start, k as nat)->0;
    let anomaly = eccentric_anomaly(orbit.mean_anomaly_at(t), orbit.ecc, m);
    let cos_e = m(Transcendental::Cosine(anomaly));
    assert(cos_e.finite());
    orbits_are_as_high_as_given(e);
    let a = orbit.a_km;
    let one = double::integer(1);
    double::integers_are_finite(1);
    shadow::lemma_times_zero(cos_e, orbit.ecc);
    let z = double::product(orbit.ecc, cos_e);
    growth::lemma_opposite(z);
    shadow::lemma_add_zero(one, double::opposite(z));
    growth::product_with_one(a);
    assert(orbit.distance(cos_e) == a);
    let (r, alt) = (earth_radius_km(), e.altitude_km.units());
    near::ratio_between(6_378_137, 1000, 22, 23, 9, 10);
    growth::lemma_opposite(r);
    let x = r.units();
    assert(-(6_378_137 * o) <= 0x2000_0000_0000 * (x * 1000 - 6_378_137 * o) <= 6_378_137 * o);
    assert(a.units() == size(a.unsigned()));
    let whole = 6_378_137 * o + 1000 * alt;
    assert(-(20 * whole) <= 0x2000_0000_0000 * (1000 * a.units() - whole) <= 20 * whole);
    growth::sums_are_bounded(a, double::opposite(r), 1_000_100_000);
    growth::sum_error(a, double::opposite(r));
}

/// The answers at zero are those of the functions: the sine is zero, the cosine is
/// one, and so is the angle of what lies straight ahead.
pub open spec fn knows_zero(m: spec_fn(Transcendental) -> Double) -> bool {
    &&& forall|x: Double| x.zero() ==> (#[trigger] m(Transcendental::Sine(x))).zero()
    &&& forall|x: Double| x.zero() ==> #[trigger] m(Transcendental::Cosine(x)) == double::integer(1)
    &&& forall|y: Double, x: Double|
        y.zero() && x.finite() && x.rank() > 0 ==> (#[trigger] m(Transcendental::Angle(y, x))).zero()
}

/// A mean anomaly of zero has an eccentric anomaly of zero.
proof fn lemma_no_anomaly(mean: Double, ecc: Double, m: spec_fn(Transcendental) -> Double)
    requires
        mean.zero(),
        ecc.finite(),
        0 <= ecc.units() < double::one(),
        knows_zero(m),
    ensures
        eccentric_anomaly(mean, ecc, m).zero(),
{
    lemma_powers();
    lemma_pi();
    assert(size(0) == 0);
    let turn = double::product(double::integer(2), pi());
    double::integers_are_finite(2);
    double::integers_are_exact(2);
    let start = in_turn(mean);
    assert(start.zero()) by {
        near::integer_between(2, 0, 8);
        lemma_pi_between();
        near::product_between(double::integer(2), pi(), 1074, 1082, 1074, 1082);
        reveal(double::remainder);
        reveal(double::less);
        double::integer_zero();
        let y = size(turn.unsigned());
        assert(0nat % y == 0) by {
            vstd::arithmetic::div_mod::lemma_small_mod(0, y);
        }
        growth::lemma_rounded(mean.negative(), 0, 1);
        growth::lemma_nearest_to_zero(1);
    }
    let k = Kepler { mean_anomaly: start, ecc, anomaly: start, rounds: 0, settled: false };
    let (sin_e, cos_e) = (m(Transcendental::Sine(start)), m(Transcendental::Cosine(start)));
    assert(sin_e.zero());
    assert(cos_e == double::integer(1));
    let next = refined(k, sin_e, cos_e);
    let slope = double::difference(double::integer(1), double::product(ecc, cos_e));
    growth::product_with_one(ecc);
    double::integers_are_exact(1);
    double::integers_are_finite(1);
    growth::lemma_opposite(ecc);
    lemma_below_one(ecc);
    shadow::lemma_times_zero(ecc, sin_e);
    let z = double::product(ecc, sin_e);
    growth::lemma_opposite(z);
    shadow::lemma_add_zero(start, double::opposite(z));
    let d = double::difference(start, z);
    growth::lemma_opposite(start);
    shadow::lemma_add_zero(d, double::opposite(start));
    let num = double::difference(d, start);
    assert(num.zero());
    growth::lemma_quotient_rank(num, slope);
    assert(0 * double::one() == 0) by (nonlinear_arith);
    growth::lemma_nearest_to_zero(size(slope.unsigned()));
    let de = double::quotient(num, slope);
    assert(de.zero());
    growth::lemma_opposite(de);
    shadow::lemma_add_zero(start, double::opposite(de));
    assert(next.anomaly.zero());
    assert(next.settled) by {
        reveal(double::less);
        near::ratio_between(1, 1_000_000_000_000, 0, 0, 39, 40);
        lemma_pow2_pos(1034);
        let tiny = double::ratio(1, 1_000_000_000_000);
        assert(tiny.unsigned() > 0);
    }
    reveal_with_fuel(search, 3);
    assert(search(k, m) == next);
}

proof fn lemma_pi_between()
    ensures
        pow2(1074) <= size(pi().unsigned()) <= pow2(1082),
{
    lemma_powers();
    lemma_pi();
    lemma_pow2_adds(8, UNIT_EXPONENT as nat);
    assert(size(pi().unsigned()) == pi().units());
}

/// One less a share is not zero.
proof fn lemma_below_one(ecc: Double)
    requires
        ecc.finite(),
        0 <= ecc.units() < double::one(),
    ensures
        double::difference(double::integer(1), ecc).finite(),
        !double::difference(double::integer(1), ecc).zero(),
        !double::difference(double::integer(1), ecc).negative(),
        double::difference(double::integer(1), ecc).units() > 0,
{
    let one = double::integer(1);
    double::integers_are_exact(1);
    double::integers_are_finite(1);
    growth::lemma_opposite(ecc);
    let o = double::one() as int;
    assert(1 * o == o) by (nonlinear_arith);
    let left = double::difference(one, ecc);
    growth::sums_are_bounded(one, double::opposite(ecc), 1);
    growth::lemma_sum_rank(one, double::opposite(ecc));
    let exact = (o - ecc.units()) as nat;
    growth::rounding_keeps_order(1, 1, exact, 1);
    assert(size(1) == 1);
    growth::lemma_nearest_to_itself(1);
    assert(left.rank() > 0);
    growth::lemma_rank_of_units(left, left);
    growth::lemma_rank_of_units(one, left);
}

/// A satellite that stands at its perigee at the epoch is found there: the first
/// sample from the epoch on lies where the angle from the node is the given
/// argument of perigee, on an orbit that the given node and inclination turn.
pub proof fn trajectories_start_at_the_perigee(
    e: OrbitalElements,
    start: UtcTime,
    end: UtcTime,
    m: spec_fn(Transcendental) -> Double,
)
    requires
        start.valid(),
        time::reading(e.epoch@) == Some(start),
        altitude_makes_sense(e),
        e.mean_anomaly_deg.zero(),
        e.eccentricity.finite(),
        0 <= e.eccentricity.units() < double::one(),
        e.raan_deg.finite(),
        e.arg_perigee_deg.finite(),
        e.inclination_deg.finite(),
        answers_are_finite(m),
        knows_zero(m),
        path(e, start, end, m).len() > 0,
        ({
            let inc = in_radians(e.inclination_deg);
            let orbit = orbit_of(e, m(Transcendental::Cosine(inc)), m(Transcendental::Sine(inc)), start);
            orbit.raan_rate.finite() && orbit.argp_rate.finite()
        }),
    ensures
        exists|r: Double, u: Double, w: Double, i: Double| #[trigger]
            stands_at(path(e, start, end, m)[0], m, r, u, w, i) && is_radians_of(u, e.arg_perigee_deg) && is_radians_of(
                w,
                e.raan_deg,
            ) && is_radians_of(i, e.inclination_deg) && r == double::product(
                semi_major_axis(e),
                double::difference(double::integer(1), e.eccentricity),
            ),
{
    reveal(point_at);
    lemma_powers();
    assert(size(0) == 0);
    let inc = in_radians(e.inclination_deg);
    radians_are_degrees(e.inclination_deg);
    let (cos_inc, sin_inc) = (m(Transcendental::Cosine(inc)), m(Transcendental::Sine(inc)));
    let orbit = orbit_of(e, cos_inc, sin_inc, start);
    let p = path(e, start, end, m)[0];
    assert(grid(start, 0) == Some(start));
    assert(p == point_at(orbit, start, m));
    orbits_keep_keplers_third_law(e, cos_inc, sin_inc, start);
    // The mean anomaly is zero, and with it the others.
    lemma_age(orbit, start);
    assert(time::millis_between(start, start) == 0);
    let age = orbit.age_s(start);
    lemma_pi();
    double::integers_are_finite(180);
    double::integers_are_finite(1);
    double::integers_are_exact(180);
    growth::quotients_are_bounded(pi(), double::integer(180), 1);
    growth::lemma_quotient_rank(pi(), double::integer(180));
    shadow::lemma_times_zero(double::quotient(pi(), double::integer(180)), e.mean_anomaly_deg);
    assert(orbit.m0.zero());
    shadow::lemma_times_zero(orbit.n, age);
    shadow::lemma_add_zero(orbit.m0, double::product(orbit.n, age));
    let mean = orbit.mean_anomaly_at(start);
    lemma_no_anomaly(mean, orbit.ecc, m);
    let anomaly = eccentric_anomaly(mean, orbit.ecc, m);
    let (sin_e, cos_e) = (m(Transcendental::Sine(anomaly)), m(Transcendental::Cosine(anomaly)));
    assert(sin_e.zero());
    assert(cos_e == double::integer(1));
    let (opposite, adjacent) = orbit.anomaly_legs(sin_e, cos_e);
    lemma_below_one(orbit.ecc);
    growth::lemma_rank_of_units(adjacent, adjacent);
    lemma_axis_is_finite(orbit.ecc);
    shadow::lemma_times_zero(
        double::root(double::difference(double::integer(1), double::product(orbit.ecc, orbit.ecc))),
        sin_e,
    );
    let nu = m(Transcendental::Angle(opposite, adjacent));
    assert(nu.zero());
    growth::product_with_one(orbit.ecc);
    let r = orbit.distance(cos_e);
    orbits_start_from_their_elements(e, cos_inc, sin_inc, start, nu);
    let (w, u) = (orbit.node_at(start), orbit.latitude_argument(start, nu));
    assert(stands_at(p, m, r, u, w, inc));
}

/// The minor axis of an ellipse is finite.
proof fn lemma_axis_is_finite(ecc: Double)
    requires
        ecc.finite(),
        0 <= ecc.units() < double::one(),
    ensures
        double::root(double::difference(double::integer(1), double::product(ecc, ecc))).finite(),
{
    let one = double::integer(1);
    double::integers_are_exact(1);
    double::integers_are_finite(1);
    let (x, o) = (size(ecc.unsigned()), double::one());
    lemma_powers();
    assert(1 * o == o) by (nonlinear_arith);
    growth::lemma_rank_of_units(ecc, ecc);
    growth::less_by_value(ecc, one);
    assert(x < o) by {
        assert(size(0) == 0);
    }
    let s = double::product(ecc, ecc);
    if ecc.rank() >= 0 && !ecc.negative() {
        growth::shares_are_no_larger(ecc, ecc);
    } else {
        growth::lemma_product_rank(ecc, ecc);
        shadow::lemma_times_zero(ecc, ecc);
    }
    growth::lemma_product_rank(ecc, ecc);
    if s.unsigned() < ecc.unsigned() {
        crate::double::model::lemma_size_monotone(s.unsigned(), ecc.unsigned());
    }
    assert(0 <= s.units() < o);
    lemma_below_one(s);
    let left = double::difference(one, s);
    growth::lemma_opposite(s);
    growth::sums_are_bounded(one, double::opposite(s), 1);
    crate::double::roots::lemma_root(left);
    double::integers_are_exact(2);
    double::integers_are_finite(2);
    crate::double::roots::roots_compare(left, double::integer(2));
    let (l, two) = (size(left.unsigned()) as int, size(double::integer(2).unsigned()) as int);
    let oi = o as int;
    assert(l * oi <= oi * oi) by (nonlinear_arith)
        requires
            l <= oi,
            oi >= 0,
    ;
    assert(two * two == 4 * (oi * oi)) by (nonlinear_arith)
        requires
            two == 2 * oi,
    ;
    assert(oi * oi > 0) by (nonlinear_arith)
        requires
            oi > 0,
    ;
    reveal(double::less);
}

/// The sample stands at distance `r`, an angle of `u` from the node at `w`, on an
/// orbit inclined by `i`.
pub open spec fn stands_at(
    p: crate::hazard::TrajectoryPoint,
    m: spec_fn(Transcendental) -> Double,
    r: Double,
    u: Double,
    w: Double,
    i: Double,
) -> bool {
    let (cos_u, sin_u) = (m(Transcendental::Cosine(u)), m(Transcendental::Sine(u)));
    let (cos_w, sin_w) = (m(Transcendental::Cosine(w)), m(Transcendental::Sine(w)));
    let (cos_i, sin_i) = (m(Transcendental::Cosine(i)), m(Transcendental::Sine(i)));
    &&& p.eci_x == double::product(
        r,
        double::difference(
            double::product(cos_w, cos_u),
            double::product(double::product(sin_w, sin_u), cos_i),
        ),
    )
    &&& p.eci_y == double::product(
        r,
        double::sum(double::product(sin_w, cos_u), double::product(double::product(cos_w, sin_u), cos_i)),
    )
    &&& p.eci_z == double::product(double::product(r, sin_u), sin_i)
}

/// A longitude up to three half turns off is brought to within one half turn, by a whole
/// turn or none; a part in `2^40` of a degree is left open.
pub proof fn longitudes_lie_within_a_half_turn(lon: Double)
    requires
        lon.finite(),
        -540 * double::one() <= lon.units() <= 540 * double::one(),
    ensures
        ({
            let (w, l, o) = (wrapped(lon).units(), lon.units(), double::one() as int);
            &&& wrapped(lon).finite()
            &&& -180 * o <= l <= 180 * o ==> wrapped(lon) == lon
            &&& l > 180 * o ==> -o <= 0x100_0000_0000 * (w - (l - 360 * o)) <= o
            &&& l < -180 * o ==> -o <= 0x100_0000_0000 * (w - (l + 360 * o)) <= o
            &&& -o <= 0x100_0000_0000 * (w + 180 * o)
            &&& 0x100_0000_0000 * (w - 180 * o) <= o
        }),
{
    lemma_powers();
    let o = double::one() as int;
    double::integers_are_exact(180);
    double::integers_are_exact(-180);
    double::integers_are_exact(360);
    growth::less_by_value(double::integer(180), lon);
    let turn = double::integer(360);
    growth::lemma_opposite(turn);
    if lon.units() > 180 * o {
        growth::sums_are_bounded(lon, double::opposite(turn), 900);
        growth::sum_error(lon, double::opposite(turn));
        let west = double::difference(lon, turn);
        growth::less_by_value(west, double::integer(-180));
        if west.units() < -180 * o {
            // Only by rounding, which does not carry so far: it keeps order.
            lemma_turn_keeps_order(lon);
            assert(false);
        }
    } else {
        growth::less_by_value(lon, double::integer(-180));
        growth::sums_are_bounded(lon, turn, 900);
        growth::sum_error(lon, turn);
    }
}

/// What is east of a half turn is not west of it a turn back.
proof fn lemma_turn_keeps_order(lon: Double)
    requires
        lon.finite(),
        180 * double::one() <= lon.units() <= 540 * double::one(),
    ensures
        double::difference(lon, double::integer(360)).units() >= -180 * double::one(),
{
    lemma_powers();
    let o = double::one() as int;
    let (half, turn) = (double::integer(180), double::integer(360));
    double::integers_are_exact(180);
    double::integers_are_exact(360);
    double::integers_are_exact(-180);
    growth::lemma_opposite(turn);
    growth::less_by_value(half, lon);
    growth::sums_grow(half, lon, double::opposite(turn));
    growth::lemma_sum_rank(half, double::opposite(turn));
    let x = double::integer(-180);
    growth::lemma_nearest_to_itself(x.unsigned());
    growth::lemma_rank_of_units(x, x);
    let (a, b) = (double::difference(half, turn), double::difference(lon, turn));
    growth::sums_are_bounded(lon, double::opposite(turn), 900);
    assert(a.rank() == x.rank());
    reveal(double::at_most);
    growth::lemma_rank_of_units(x, b);
}

/// Radians turn into the degrees that they are.
pub proof fn degrees_are_radians(rad: Double)
    requires
        rad.finite(),
        pow2(600) <= size(rad.unsigned()) <= pow2(1900),
    ensures
        in_degrees(rad).finite(),
        near(
            in_degrees(rad).units() * (0x8000_0000_0000 * double::one()),
            rad.units() * (8_063_664_102_031_864 * double::one()),
            1,
        ),
{
    let d = Double { bits: crate::orbit::DEGREES_PER_RADIAN };
    lemma2_to64();
    lemma2_to64_rest();
    let m = 8_063_664_102_031_864nat;
    let k = d.unsigned();
    assert(k == 0x404c_a5dc_1a63_c1f8);
    assert(k == 1027 * BINADE as nat + m);
    lemma_size_of(1027, m);
    lemma_pow2_adds(47, 1027);
    assert(pow2(47) == 0x8000_0000_0000);
    let p = pow2(1027);
    assert(0x8000_0000_0000 * (m * p) == m * (0x8000_0000_0000 * p)) by (nonlinear_arith);
    lemma_pow2_adds(52, 1027);
    lemma_pow2_adds(53, 1027);
    assert(pow2(1079) <= m * p <= pow2(1080)) by (nonlinear_arith)
        requires
            pow2(1079) == pow2(52) * p,
            pow2(1080) == pow2(53) * p,
            pow2(52) <= m <= pow2(53),
    ;
    near::product_between(rad, d, 600, 1900, 1079, 1080);
    let (x, y, o) = (in_degrees(rad).units(), rad.units(), double::one() as int);
    let u = d.units();
    assert(0x8000_0000_0000 * u == 8_063_664_102_031_864 * o);
    near::near_times(x * o, y * u, 1, 0x8000_0000_0000);
    assert((x * o) * 0x8000_0000_0000 == x * (0x8000_0000_0000 * o)) by (nonlinear_arith);
    assert((y * u) * 0x8000_0000_0000 == y * (0x8000_0000_0000 * u)) by (nonlinear_arith);
}

/// On a circular orbit the eccentric anomaly is the mean one, within its turn.
pub proof fn circular_anomalies_are_even(mean: Double, ecc: Double, m: spec_fn(Transcendental) -> Double)
    requires
        ecc.zero(),
        in_turn(mean).finite(),
        answers_are_finite(m),
    ensures
        eccentric_anomaly(mean, ecc, m).units() == in_turn(mean).units(),
{
    lemma_powers();
    assert(size(0) == 0);
    let start = in_turn(mean);
    let k = Kepler { mean_anomaly: start, ecc, anomaly: start, rounds: 0, settled: false };
    let (sin_e, cos_e) = (m(Transcendental::Sine(start)), m(Transcendental::Cosine(start)));
    let next = refined(k, sin_e, cos_e);
    shadow::lemma_times_zero(sin_e, ecc);
    shadow::lemma_times_zero(cos_e, ecc);
    let (zs, zc) = (double::product(ecc, sin_e), double::product(ecc, cos_e));
    growth::lemma_opposite(zs);
    growth::lemma_opposite(zc);
    shadow::lemma_add_zero(start, double::opposite(zs));
    double::integers_are_finite(1);
    shadow::lemma_add_zero(double::integer(1), double::opposite(zc));
    let d = double::difference(start, zs);
    growth::lemma_opposite(start);
    growth::lemma_sum_rank(d, double::opposite(start));
    growth::lemma_nearest_to_zero(1);
    let num = double::difference(d, start);
    assert(num.rank() == 0);
    let slope = double::difference(double::integer(1), zc);
    growth::lemma_quotient_rank(num, slope);
    assert(0 * double::one() == 0) by (nonlinear_arith);
    growth::lemma_nearest_to_zero(size(slope.unsigned()));
    let de = double::quotient(num, slope);
    assert(de.zero());
    growth::lemma_opposite(de);
    shadow::lemma_add_zero(start, double::opposite(de));
    assert(next.settled) by {
        reveal(double::less);
        near::ratio_between(1, 1_000_000_000_000, 0, 0, 39, 40);
        lemma_pow2_pos(1034);
        let tiny = double::ratio(1, 1_000_000_000_000);
        assert(tiny.unsigned() > 0);
    }
    reveal_with_fuel(search, 3);
    assert(search(k, m) == next);
}

/// `e` is a step of Newton's method on from `x`, and the step is shorter than 1e-12: the
/// equation holds at `x` to that, over its slope.
pub open spec fn solves(e: Double, x: Double, mean: Double, ecc: Double, m: spec_fn(Transcendental) -> Double) -> bool {
    let miss = double::difference(
        double::difference(x, double::product(ecc, m(Transcendental::Sine(x)))),
        mean,
    );
    let slope = double::difference(double::integer(1), double::product(ecc, m(Transcendental::Cosine(x))));
    let step = double::quotient(miss, slope);
    &&& e == double::difference(x, step)
    &&& double::less(double::absolute(step), double::ratio(1, 1_000_000_000_000))
}

/// The search for an eccentric anomaly ends with a solution of Kepler's equation, or
/// after fifteen steps.
pub proof fn searches_solve_keplers_equation(k: Kepler, m: spec_fn(Transcendental) -> Double)
    requires
        k.rounds <= 15,
        !k.settled,
    ensures
        ({
            let r = search(k, m);
            &&& r.rounds <= 15
            &&& r.rounds == 15 || exists|x: Double| #[trigger] solves(r.anomaly, x, k.mean_anomaly, k.ecc, m)
        }),
    decreases 15 - k.rounds,
{
    if k.rounds < 15 {
        let next = refined(k, m(Transcendental::Sine(k.anomaly)), m(Transcendental::Cosine(k.anomaly)));
        assert(search(k, m) == search(next, m));
        if next.settled {
            assert(search(next, m) == next);
            assert(solves(next.anomaly, k.anomaly, k.mean_anomaly, k.ecc, m));
        } else {
            searches_solve_keplers_equation(next, m);
        }
    } else {
        assert(search(k, m) == k);
    }
}

/// An eccentric anomaly solves Kepler's equation for the mean anomaly within its turn,
/// unless fifteen steps do not find it; the search starts from the mean anomaly.
pub proof fn anomalies_solve_keplers_equation(mean: Double, ecc: Double, m: spec_fn(Transcendental) -> Double)
    ensures
        ({
            let start = in_turn(mean);
            let k = Kepler { mean_anomaly: start, ecc, anomaly: start, rounds: 0, settled: false };
            let e = eccentric_anomaly(mean, ecc, m);
            &&& e == search(k, m).anomaly
            &&& search(k, m).rounds == 15 || exists|x: Double| #[trigger] solves(e, x, start, ecc, m)
        }),
{
    let start = in_turn(mean);
    searches_solve_keplers_equation(
        Kepler { mean_anomaly: start, ecc, anomaly: start, rounds: 0, settled: false },
        m,
    );
}

} // verus!
