//! Where the Earth's shadow lies, when the sun stands on an axis.

use vstd::arithmetic::power2::{lemma2_to64, lemma2_to64_rest, lemma_pow2_pos, lemma_pow2_strictly_increases, pow2};
use vstd::prelude::*;

use super::detect::eclipsed;
use super::geometry::{across, dot, earth_radius_km, in_shadow, length, scaled_down, Vector};
use super::TrajectoryPoint;
use crate::double::growth;
use crate::double::model::{size, UNIT_EXPONENT};
use crate::double::roots;
use crate::double::{self, Double};

verus! {

/// The sun is far enough to be one, and near enough to be reckoned with.
pub open spec fn stands_off(sun: Double) -> bool {
    &&& sun.finite()
    &&& double::one() <= size(sun.unsigned()) <= pow2(400) * double::one()
}

/// The value of a coordinate, counted toward the sun.
pub open spec fn toward(c: Double, sun: Double) -> int {
    if sun.negative() {
        -c.units()
    } else {
        c.units()
    }
}

/// Away from the sun, and nearer to the axis than the Earth's radius of
/// 6378.137 km, by one part in `2^40` of the square; 40680631590769 is the square
/// of 6378137.
pub open spec fn clearly_dark(along: int, d: int, e: int) -> bool {
    let o = double::one() as int;
    &&& along < 0
    &&& 0x100_0000_0001 * (1_000_000 * (d * d + e * e)) <= 0x100_0000_0000 * (40_680_631_590_769 * (o * o))
}

/// On the side of the sun, or farther from the axis than the Earth's radius of
/// 6378.137 km, by one part in `2^40` of the square.
pub open spec fn clearly_lit(along: int, d: int, e: int) -> bool {
    let o = double::one() as int;
    ||| along >= 0
    ||| 0x100_0000_0000 * (1_000_000 * (d * d + e * e)) >= 0x100_0000_0001 * (40_680_631_590_769 * (o * o))
}

/// Adding a zero changes no value.
pub proof fn lemma_add_zero(a: Double, z: Double)
    requires
        a.finite(),
        z.zero(),
    ensures
        double::sum(a, z).finite(),
        double::sum(z, a).finite(),
        double::sum(a, z).units() == a.units(),
        double::sum(z, a).units() == a.units(),
        !a.zero() ==> double::sum(a, z) == a && double::sum(z, a) == a,
        double::sum(a, z).unsigned() == a.unsigned(),
        double::sum(z, a).unsigned() == a.unsigned(),
        !a.negative() && !z.negative() ==> !double::sum(a, z).negative() && !double::sum(z, a).negative(),
{
    reveal(double::sum);
    assert(size(0) == 0);
    growth::lemma_rank_of_units(a, a);
    let x = size(a.unsigned());
    growth::lemma_nearest_to_itself(a.unsigned());
    growth::lemma_rounded(a.units() < 0, x, 1);
}

/// A product with a zero is one.
pub proof fn lemma_times_zero(a: Double, z: Double)
    requires
        a.finite(),
        z.zero(),
    ensures
        double::product(a, z).zero(),
        double::product(z, a).zero(),
        double::product(z, z) == double::pattern(false, 0),
{
    growth::lemma_product_rank(a, z);
    growth::lemma_product_rank(z, a);
    growth::lemma_product_rank(z, z);
    assert(size(0) == 0);
    lemma_pow2_pos(UNIT_EXPONENT as nat);
    growth::lemma_nearest_to_zero(double::one());
    assert(size(a.unsigned()) * 0 == 0 && 0 * size(a.unsigned()) == 0 && 0nat * 0nat == 0) by (nonlinear_arith);
    reveal(double::product);
}

/// Times one, with either sign.
proof fn lemma_times_unit(a: Double, u: Double)
    requires
        a.finite(),
        u.unsigned() == double::integer(1).unsigned(),
    ensures
        double::product(a, u).finite(),
        double::product(a, u).unsigned() == a.unsigned(),
        double::product(a, u).negative() == (a.negative() != u.negative()),
        double::product(a, u).units() == if u.negative() { -a.units() } else { a.units() },
{
    double::integers_are_finite(1);
    growth::product_with_one(a);
    growth::lemma_product_rank(a, double::integer(1));
    growth::lemma_product_rank(a, u);
}

/// A number over its size is one, with its sign.
proof fn lemma_over_itself(s: Double)
    requires
        stands_off(s),
    ensures
        ({
            let u = double::quotient(s, double::absolute(s));
            u.unsigned() == double::integer(1).unsigned() && u.negative() == s.negative()
        }),
{
    let n = double::absolute(s);
    let (x, o) = (size(s.unsigned()), double::one());
    lemma_pow2_pos(UNIT_EXPONENT as nat);
    assert(size(0) == 0);
    growth::lemma_quotient_rank(s, n);
    double::integers_are_exact(1);
    double::integers_are_finite(1);
    assert(1 * o == o) by (nonlinear_arith);
    let k = double::integer(1).unsigned();
    growth::lemma_nearest_to_itself(k);
    assert((x * o) * 1 == o * x) by (nonlinear_arith);
    growth::rounding_keeps_order(x * o, x, o, 1);
    growth::rounding_keeps_order(o, 1, x * o, x);
}

/// A zero over a number is zero.
proof fn lemma_zero_over(z: Double, n: Double)
    requires
        z.zero(),
        n.finite(),
        !n.zero(),
    ensures
        double::quotient(z, n).zero(),
{
    growth::lemma_quotient_rank(z, n);
    assert(size(0) == 0);
    assert(0 * double::one() == 0) by (nonlinear_arith);
    growth::lemma_nearest_to_zero(size(n.unsigned()));
}

/// The square of a number that is not too large.
pub open spec fn far_off(d: Double) -> bool {
    double::product(d, d).infinite()
}

/// The distance from the axis compares with the Earth's radius as its square does.
proof fn lemma_distance(d: Double, e: Double, sum: Double)
    requires
        d.finite(),
        e.finite(),
        sum.unsigned() == double::sum(double::product(d, d), double::product(e, e)).unsigned(),
        !sum.nan(),
        !sum.negative() || sum.zero(),
    ensures
        ({
            let (x, y, o) = (d.units(), e.units(), double::one() as int);
            let near = double::less(double::root(sum), earth_radius_km());
            &&& 0x100_0000_0001 * (1_000_000 * (x * x + y * y)) <= 0x100_0000_0000 * (40_680_631_590_769 * (o * o))
                ==> near
            &&& 0x100_0000_0000 * (1_000_000 * (x * x + y * y)) >= 0x100_0000_0001 * (40_680_631_590_769 * (o * o))
                ==> !near
        }),
{
    let o = double::one() as int;
    lemma_pow2_pos(UNIT_EXPONENT as nat);
    lemma2_to64();
    lemma2_to64_rest();
    lemma_pow2_strictly_increases(60, UNIT_EXPONENT as nat);
    let r = earth_radius_km();
    lemma_radius();
    let (x, y) = (size(d.unsigned()) as int, size(e.unsigned()) as int);
    let (dd, ee) = (x * x, y * y);
    assert(d.units() * d.units() == dd) by (nonlinear_arith)
        requires
            d.units() == x || d.units() == -x,
            dd == x * x,
    ;
    assert(e.units() * e.units() == ee) by (nonlinear_arith)
        requires
            e.units() == y || e.units() == -y,
            ee == y * y,
    ;
    assert(dd >= 0 && ee >= 0) by (nonlinear_arith)
        requires
            dd == x * x,
            ee == y * y,
    ;
    let oo = o * o;
    assert(oo >= 0x1000_0000_0000_0000 * o) by (nonlinear_arith)
        requires
            oo == o * o,
            o >= 0x1000_0000_0000_0000,
    ;
    growth::lemma_product_rank(d, d);
    growth::lemma_product_rank(e, e);
    let (a, b) = (double::product(d, d), double::product(e, e));
    let close = 0x100_0000_0001 * (1_000_000 * (dd + ee)) <= 0x100_0000_0000 * (40_680_631_590_769 * oo);
    if close {
        assert(dd <= 40_680_632 * oo && ee <= 40_680_632 * oo);
        assert(40_680_632 * oo == (40_680_632 * o) * o) by (nonlinear_arith)
            requires
                oo == o * o,
        ;
        growth::products_are_bounded(d, d, 40_680_632);
        growth::products_are_bounded(e, e, 40_680_632);
        growth::sums_are_bounded(a, b, 81_361_264);
    }
    if a.finite() && b.finite() && double::sum(a, b).finite() {
        let c = double::sum(a, b);
        growth::sum_error(a, b);
        lemma_square_error(d);
        lemma_square_error(e);
        roots::roots_compare(sum, r);
        let (ax, bx, cx) = (size(a.unsigned()) as int, size(b.unsigned()) as int, size(c.unsigned()) as int);
        growth::lemma_rank_of_units(a, b);
        growth::lemma_rank_of_units(c, c);
        assert(c.units() == cx) by {
            assert(size(0) == 0);
            growth::sums_stay_near(a, b);
        }
        let (ao, bo, co) = (ax * o, bx * o, cx * o);
        let rr = size(r.unsigned()) as int * size(r.unsigned()) as int;
        assert(-(co + 0x10_0000_0000_0000 * o) <= 0x20_0000_0000_0000 * (co - (ao + bo)) <= co
            + 0x10_0000_0000_0000 * o) by (nonlinear_arith)
            requires
                -(cx + 0x10_0000_0000_0000) <= 0x20_0000_0000_0000 * (cx - (ax + bx)) <= cx + 0x10_0000_0000_0000,
                ao == ax * o,
                bo == bx * o,
                co == cx * o,
                o > 0,
        ;
        assert((ax + 0x10_0000_0000_0000) * o == ao + 0x10_0000_0000_0000 * o) by (nonlinear_arith)
            requires
                ao == ax * o,
        ;
        assert((bx + 0x10_0000_0000_0000) * o == bo + 0x10_0000_0000_0000 * o) by (nonlinear_arith)
            requires
                bo == bx * o,
        ;
        assert(ao >= 0 && bo >= 0 && co >= 0) by (nonlinear_arith)
            requires
                ao == ax * o,
                bo == bx * o,
                co == cx * o,
                ax >= 0,
                bx >= 0,
                cx >= 0,
                o > 0,
        ;
        lemma_dark_or_lit(dd, ee, ao, bo, co, rr, o, oo);
    } else {
        assert(!close);
        reveal(double::sum);
        reveal(double::root);
        reveal(double::less);
        assert(sum.infinite());
    }
}

/// How near the square of a number is to the exact one.
proof fn lemma_square_error(d: Double)
    requires
        d.finite(),
        double::product(d, d).finite(),
    ensures
        ({
            let (x, a) = (size(d.unsigned()) as int, size(double::product(d, d).unsigned()) as int);
            let o = double::one() as int;
            -((a + 0x10_0000_0000_0000) * o) <= 0x20_0000_0000_0000 * (a * o - x * x) <= (a + 0x10_0000_0000_0000) * o
        }),
        double::product(d, d).units() == size(double::product(d, d).unsigned()),
{
    growth::product_error(d, d);
    growth::lemma_product_rank(d, d);
    let x = size(d.unsigned()) as int;
    assert(d.units() * d.units() == x * x) by (nonlinear_arith)
        requires
            d.units() == x || d.units() == -x,
    ;
}

/// The Earth's radius is 6378.137 km, up to rounding.
pub proof fn lemma_radius()
    ensures
        earth_radius_km().finite(),
        !earth_radius_km().negative(),
        size(earth_radius_km().unsigned()) >= double::one(),
        ({
            let (r, o) = (size(earth_radius_km().unsigned()) as int, double::one() as int);
            let (rr, oo) = (r * r, o * o);
            &&& 0x1000_0000_0000 * (1_000_000 * rr) <= 0x1000_0000_0001 * (40_680_631_590_769 * oo)
            &&& 0x1000_0000_0000 * (1_000_000 * rr) >= 0xfff_ffff_ffff * (40_680_631_590_769 * oo)
        }),
{
    let o = double::one() as int;
    lemma_pow2_pos(UNIT_EXPONENT as nat);
    lemma2_to64();
    lemma2_to64_rest();
    lemma_pow2_strictly_increases(60, UNIT_EXPONENT as nat);
    let (a, b) = (double::integer(6_378_137), double::integer(1000));
    double::integers_are_exact(6_378_137);
    double::integers_are_exact(1000);
    double::integers_are_finite(6_378_137);
    double::integers_are_finite(1000);
    let r = earth_radius_km();
    growth::lemma_quotient_rank(a, b);
    growth::quotients_are_bounded(a, b, 6379);
    growth::quotient_error(a, b);
    let x = size(r.unsigned()) as int;
    assert(r.units() == x);
    assert(x * (1000 * o) - (6_378_137 * o) * o == (1000 * x - 6_378_137 * o) * o) by (nonlinear_arith);
    let g = 1000 * x - 6_378_137 * o;
    let y = (x + 0x10_0000_0000_0000) * 1000;
    assert((x + 0x10_0000_0000_0000) * (1000 * o) == y * o) by (nonlinear_arith)
        requires
            y == (x + 0x10_0000_0000_0000) * 1000,
    ;
    assert(-y <= 0x20_0000_0000_0000 * g <= y) by (nonlinear_arith)
        requires
            -(y * o) <= 0x20_0000_0000_0000 * (g * o) <= y * o,
            o > 0,
    ;
    assert(-o <= 0x1000_0000 * g <= o);
    let p = 1000 * x;
    let (low, high) = (1_712_118_114_025_471 * o, 1_712_118_114_025_473 * o);
    assert(low <= 0x1000_0000 * p <= high);
    assert(low * low <= (0x1000_0000 * p) * (0x1000_0000 * p) <= high * high) by (nonlinear_arith)
        requires
            0 <= low <= 0x1000_0000 * p <= high,
    ;
    let (rr, oo) = (x * x, o * o);
    assert((0x1000_0000 * p) * (0x1000_0000 * p) == 72_057_594_037_927_936_000_000 * rr) by (nonlinear_arith)
        requires
            p == 1000 * x,
            rr == x * x,
    ;
    assert(low * low == 2_931_348_436_374_135_716_964_036_771_841 * oo) by (nonlinear_arith)
        requires
            low == 1_712_118_114_025_471 * o,
            oo == o * o,
    ;
    assert(high * high == 2_931_348_436_374_142_565_436_492_873_729 * oo) by (nonlinear_arith)
        requires
            high == 1_712_118_114_025_473 * o,
            oo == o * o,
    ;
    assert(oo > 0) by (nonlinear_arith)
        requires
            oo == o * o,
            o > 0,
    ;
}

proof fn lemma_dark_or_lit(dd: int, ee: int, ao: int, bo: int, co: int, rr: int, o: int, oo: int)
    requires
        0 <= dd,
        0 <= ee,
        0 <= ao,
        0 <= bo,
        0 <= co,
        0 < o,
        oo >= 0x1000_0000_0000_0000 * o,
        -(ao + 0x10_0000_0000_0000 * o) <= 0x20_0000_0000_0000 * (ao - dd) <= ao + 0x10_0000_0000_0000 * o,
        -(bo + 0x10_0000_0000_0000 * o) <= 0x20_0000_0000_0000 * (bo - ee) <= bo + 0x10_0000_0000_0000 * o,
        -(co + 0x10_0000_0000_0000 * o) <= 0x20_0000_0000_0000 * (co - (ao + bo)) <= co + 0x10_0000_0000_0000 * o,
        0x1000_0000_0000 * (1_000_000 * rr) <= 0x1000_0000_0001 * (40_680_631_590_769 * oo),
        0x1000_0000_0000 * (1_000_000 * rr) >= 0xfff_ffff_ffff * (40_680_631_590_769 * oo),
    ensures
        0x100_0000_0001 * (1_000_000 * (dd + ee)) <= 0x100_0000_0000 * (40_680_631_590_769 * oo)
            ==> 0x4_0000_0000_0000 * co < 0x3_ffff_ffff_ffff * rr,
        0x100_0000_0000 * (1_000_000 * (dd + ee)) >= 0x100_0000_0001 * (40_680_631_590_769 * oo) ==> co > rr,
{
}

/// Everything about the shadow when the sun stands on the axis of `c`.
proof fn lemma_on_axis(c: Double, d: Double, e: Double, sun: Double, z1: Double, z2: Double)
    requires
        c.finite(),
        d.finite(),
        e.finite(),
        stands_off(sun),
        z1.zero(),
        z2.zero(),
    ensures
        ({
            let t = toward(c, sun);
            let x = in_shadow(Vector { x: c, y: d, z: e }, Vector { x: sun, y: z1, z: z2 });
            let y = in_shadow(Vector { x: d, y: c, z: e }, Vector { x: z1, y: sun, z: z2 });
            let z = in_shadow(Vector { x: d, y: e, z: c }, Vector { x: z1, y: z2, z: sun });
            &&& clearly_dark(t, d.units(), e.units()) ==> x && y && z
            &&& clearly_lit(t, d.units(), e.units()) ==> !x && !y && !z
        }),
{
    lemma_axis_x(c, d, e, sun, z1, z2);
    lemma_axis_y(c, d, e, sun, z1, z2);
    lemma_axis_z(c, d, e, sun, z1, z2);
}

/// What is left of the coordinates across the axis.
proof fn lemma_across(c: Double, d: Double, sun: Double, along: Double, u: Double, w: Double)
    requires
        c.finite(),
        d.finite(),
        along.finite(),
        along.units() == toward(c, sun),
        u.unsigned() == double::integer(1).unsigned(),
        u.negative() == sun.negative(),
        w.zero(),
    ensures
        double::difference(c, double::product(along, u)).zero(),
        double::difference(d, double::product(along, w)).finite(),
        double::difference(d, double::product(along, w)).units() == d.units(),
        double::difference(d, double::product(along, w)).unsigned() == d.unsigned(),
{
    double::integers_are_finite(1);
    lemma_times_unit(along, u);
    let back = double::product(along, u);
    growth::lemma_opposite(back);
    growth::lemma_sum_rank(c, double::opposite(back));
    growth::lemma_nearest_to_zero(1);
    assert(c.units() + double::opposite(back).units() == 0);
    let left = double::difference(c, back);
    reveal(double::sum);
    lemma_times_zero(along, w);
    growth::lemma_opposite(double::product(along, w));
    lemma_add_zero(d, double::opposite(double::product(along, w)));
}

/// The verdict from what is known of the parts.
proof fn lemma_verdict(satellite: Vector, sun: Vector, t: int, d: Double, e: Double, square: Double)
    requires
        d.finite(),
        e.finite(),
        !double::less(length(sun), double::integer(1)),
        ({
            let u = scaled_down(sun, length(sun));
            let along = dot(satellite, u);
            &&& along.finite()
            &&& along.units() == t
            &&& dot(across(satellite, along, u), across(satellite, along, u)) == square
        }),
        square.unsigned() == double::sum(double::product(d, d), double::product(e, e)).unsigned(),
        !square.nan(),
        !square.negative() || square.zero(),
    ensures
        clearly_dark(t, d.units(), e.units()) ==> in_shadow(satellite, sun),
        clearly_lit(t, d.units(), e.units()) ==> !in_shadow(satellite, sun),
{
    let u = scaled_down(sun, length(sun));
    let along = dot(satellite, u);
    double::integers_are_exact(0);
    growth::less_by_value(double::integer(0), along);
    assert(0 * double::one() == 0) by (nonlinear_arith);
    lemma_distance(d, e, square);
}

/// The sun's distance, and the direction to it.
proof fn lemma_direction(sun: Double)
    requires
        stands_off(sun),
    ensures
        double::product(sun, sun).finite(),
        !double::product(sun, sun).zero(),
        !double::product(sun, sun).negative(),
        double::root(double::product(sun, sun)) == double::absolute(sun),
        !double::less(double::absolute(sun), double::integer(1)),
        double::absolute(sun).finite(),
        !double::absolute(sun).zero(),
{
    roots::squares_root_back(sun);
    lemma_pow2_pos(UNIT_EXPONENT as nat);
    assert(size(0) == 0);
    double::integers_are_exact(1);
    growth::less_by_value(double::absolute(sun), double::integer(1));
    assert(1 * double::one() == double::one()) by (nonlinear_arith);
    if double::product(sun, sun).zero() {
        reveal(double::root);
        assert(double::absolute(sun).unsigned() == 0);
    }
}

/// The squares of two sides, and of one that is none, add up.
proof fn lemma_sides(d: Double, e: Double, d2: Double, e2: Double, n: Double)
    requires
        d.finite(),
        e.finite(),
        d2.unsigned() == d.unsigned(),
        e2.unsigned() == e.unsigned(),
        n.zero(),
    ensures
        ({
            let (a, b, z) = (double::product(d2, d2), double::product(e2, e2), double::product(n, n));
            let plain = double::sum(double::product(d, d), double::product(e, e));
            let (x, y, w) = (
                double::sum(double::sum(z, a), b),
                double::sum(double::sum(a, z), b),
                double::sum(double::sum(a, b), z),
            );
            &&& x.unsigned() == plain.unsigned() && !x.nan() && !x.negative()
            &&& y.unsigned() == plain.unsigned() && !y.nan() && !y.negative()
            &&& w.unsigned() == plain.unsigned() && !w.nan() && !w.negative()
        }),
{
    let (a, b, z) = (double::product(d2, d2), double::product(e2, e2), double::product(n, n));
    growth::lemma_product_rank(d, d);
    growth::lemma_product_rank(e, e);
    growth::lemma_product_rank(d2, d2);
    growth::lemma_product_rank(e2, e2);
    assert(a == double::product(d, d)) by {
        reveal(double::product);
    }
    assert(b == double::product(e, e)) by {
        reveal(double::product);
    }
    lemma_times_zero(n, n);
    assert(z == double::pattern(false, 0));
    if a.finite() {
        lemma_add_zero(a, z);
        assert(double::sum(z, a) == a && double::sum(a, z) == a);
    } else {
        reveal(double::sum);
    }
    let s = double::sum(a, b);
    assert(!s.nan() && !s.negative()) by {
        if a.finite() && b.finite() {
            growth::lemma_sum_rank(a, b);
            growth::lemma_rank_of_units(a, b);
            growth::lemma_rank_of_units(b, a);
            reveal(double::sum);
            growth::lemma_rounded(false, double::magnitude(a.units() + b.units()), 1);
        } else {
            reveal(double::sum);
        }
    }
    if s.finite() {
        lemma_add_zero(s, z);
    } else {
        reveal(double::sum);
    }
}

proof fn lemma_axis_x(c: Double, d: Double, e: Double, sun: Double, z1: Double, z2: Double)
    requires
        c.finite(),
        d.finite(),
        e.finite(),
        stands_off(sun),
        z1.zero(),
        z2.zero(),
    ensures
        ({
            let t = toward(c, sun);
            let x = in_shadow(Vector { x: c, y: d, z: e }, Vector { x: sun, y: z1, z: z2 });
            &&& clearly_dark(t, d.units(), e.units()) ==> x
            &&& clearly_lit(t, d.units(), e.units()) ==> !x
        }),
{
    let satellite = Vector { x: c, y: d, z: e };
    let sun_at = Vector { x: sun, y: z1, z: z2 };
    let s = double::product(sun, sun);
    lemma_direction(sun);
    lemma_times_zero(sun, z1);
    lemma_times_zero(sun, z2);
    lemma_add_zero(s, double::product(z1, z1));
    lemma_add_zero(s, double::product(z2, z2));
    let n = double::absolute(sun);
    assert(length(sun_at) == n);
    let u = scaled_down(sun_at, n);
    lemma_over_itself(sun);
    lemma_zero_over(z1, n);
    lemma_zero_over(z2, n);
    lemma_times_unit(c, u.x);
    lemma_times_zero(d, u.y);
    lemma_times_zero(e, u.z);
    let p = double::product(c, u.x);
    lemma_add_zero(p, double::product(d, u.y));
    lemma_add_zero(double::sum(p, double::product(d, u.y)), double::product(e, u.z));
    let along = dot(satellite, u);
    assert(along.units() == toward(c, sun));
    lemma_across(c, d, sun, along, u.x, u.y);
    lemma_across(c, e, sun, along, u.x, u.z);
    let q = across(satellite, along, u);
    lemma_sides(d, e, q.y, q.z, q.x);
    lemma_verdict(satellite, sun_at, toward(c, sun), d, e, dot(q, q));
}

proof fn lemma_axis_y(c: Double, d: Double, e: Double, sun: Double, z1: Double, z2: Double)
    requires
        c.finite(),
        d.finite(),
        e.finite(),
        stands_off(sun),
        z1.zero(),
        z2.zero(),
    ensures
        ({
            let t = toward(c, sun);
            let y = in_shadow(Vector { x: d, y: c, z: e }, Vector { x: z1, y: sun, z: z2 });
            &&& clearly_dark(t, d.units(), e.units()) ==> y
            &&& clearly_lit(t, d.units(), e.units()) ==> !y
        }),
{
    let satellite = Vector { x: d, y: c, z: e };
    let sun_at = Vector { x: z1, y: sun, z: z2 };
    let s = double::product(sun, sun);
    lemma_direction(sun);
    lemma_times_zero(sun, z1);
    lemma_times_zero(sun, z2);
    lemma_add_zero(s, double::product(z1, z1));
    lemma_add_zero(s, double::product(z2, z2));
    let n = double::absolute(sun);
    assert(length(sun_at) == n);
    let u = scaled_down(sun_at, n);
    lemma_over_itself(sun);
    lemma_zero_over(z1, n);
    lemma_zero_over(z2, n);
    lemma_times_unit(c, u.y);
    lemma_times_zero(d, u.x);
    lemma_times_zero(e, u.z);
    let p = double::product(c, u.y);
    lemma_add_zero(p, double::product(d, u.x));
    lemma_add_zero(double::sum(double::product(d, u.x), p), double::product(e, u.z));
    let along = dot(satellite, u);
    assert(along.units() == toward(c, sun));
    lemma_across(c, d, sun, along, u.y, u.x);
    lemma_across(c, e, sun, along, u.y, u.z);
    let q = across(satellite, along, u);
    lemma_sides(d, e, q.x, q.z, q.y);
    lemma_verdict(satellite, sun_at, toward(c, sun), d, e, dot(q, q));
}

proof fn lemma_axis_z(c: Double, d: Double, e: Double, sun: Double, z1: Double, z2: Double)
    requires
        c.finite(),
        d.finite(),
        e.finite(),
        stands_off(sun),
        z1.zero(),
        z2.zero(),
    ensures
        ({
            let t = toward(c, sun);
            let z = in_shadow(Vector { x: d, y: e, z: c }, Vector { x: z1, y: z2, z: sun });
            &&& clearly_dark(t, d.units(), e.units()) ==> z
            &&& clearly_lit(t, d.units(), e.units()) ==> !z
        }),
{
    let satellite = Vector { x: d, y: e, z: c };
    let sun_at = Vector { x: z1, y: z2, z: sun };
    let s = double::product(sun, sun);
    lemma_direction(sun);
    lemma_times_zero(sun, z1);
    lemma_times_zero(sun, z2);
    lemma_add_zero(double::product(z1, z1), double::product(z2, z2));
    lemma_add_zero(s, double::sum(double::product(z1, z1), double::product(z2, z2)));
    let n = double::absolute(sun);
    assert(length(sun_at) == n);
    let u = scaled_down(sun_at, n);
    lemma_over_itself(sun);
    lemma_zero_over(z1, n);
    lemma_zero_over(z2, n);
    lemma_times_unit(c, u.z);
    lemma_times_zero(d, u.x);
    lemma_times_zero(e, u.y);
    let p = double::product(c, u.z);
    lemma_add_zero(double::product(d, u.x), double::product(e, u.y));
    lemma_add_zero(p, double::sum(double::product(d, u.x), double::product(e, u.y)));
    let along = dot(satellite, u);
    assert(along.units() == toward(c, sun));
    lemma_across(c, d, sun, along, u.z, u.x);
    lemma_across(c, e, sun, along, u.z, u.y);
    let q = across(satellite, along, u);
    lemma_sides(d, e, q.x, q.y, q.z);
    lemma_verdict(satellite, sun_at, toward(c, sun), d, e, dot(q, q));
}

/// With the sun on an axis, a sample is in eclipse exactly if it stands on the far
/// side, nearer to the axis than 6378.137 km; one part in `2^40` of the square of
/// that is left open.
pub proof fn shadow_is_a_cylinder_of_the_earths_radius(p: TrajectoryPoint)
    requires
        p.eci_x.finite(),
        p.eci_y.finite(),
        p.eci_z.finite(),
    ensures
        ({
            let (x, y, z) = (p.eci_x.units(), p.eci_y.units(), p.eci_z.units());
            &&& stands_off(p.sun_x) && p.sun_y.zero() && p.sun_z.zero() ==> {
                &&& clearly_dark(toward(p.eci_x, p.sun_x), y, z) ==> eclipsed(p)
                &&& clearly_lit(toward(p.eci_x, p.sun_x), y, z) ==> !eclipsed(p)
            }
            &&& stands_off(p.sun_y) && p.sun_x.zero() && p.sun_z.zero() ==> {
                &&& clearly_dark(toward(p.eci_y, p.sun_y), x, z) ==> eclipsed(p)
                &&& clearly_lit(toward(p.eci_y, p.sun_y), x, z) ==> !eclipsed(p)
            }
            &&& stands_off(p.sun_z) && p.sun_x.zero() && p.sun_y.zero() ==> {
                &&& clearly_dark(toward(p.eci_z, p.sun_z), x, y) ==> eclipsed(p)
                &&& clearly_lit(toward(p.eci_z, p.sun_z), x, y) ==> !eclipsed(p)
            }
        }),
{
    if stands_off(p.sun_x) && p.sun_y.zero() && p.sun_z.zero() {
        lemma_on_axis(p.eci_x, p.eci_y, p.eci_z, p.sun_x, p.sun_y, p.sun_z);
    }
    if stands_off(p.sun_y) && p.sun_x.zero() && p.sun_z.zero() {
        lemma_on_axis(p.eci_y, p.eci_x, p.eci_z, p.sun_y, p.sun_x, p.sun_z);
    }
    if stands_off(p.sun_z) && p.sun_x.zero() && p.sun_y.zero() {
        lemma_on_axis(p.eci_z, p.eci_x, p.eci_y, p.sun_z, p.sun_x, p.sun_y);
    }
}

} // verus!
