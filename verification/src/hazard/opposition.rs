//! The Earth's shadow lies straight behind it, in whatever direction the sun stands.

use vstd::arithmetic::power2::{
    lemma2_to64, lemma2_to64_rest, lemma_pow2_adds, lemma_pow2_pos, lemma_pow2_strictly_increases, pow2,
};
use vstd::prelude::*;

use super::detect::eclipsed;
use super::geometry::{across, dot, earth_radius_km, length, scaled_down, Vector};
use super::TrajectoryPoint;
use crate::double::growth;
use crate::double::model::{size, UNIT_EXPONENT};
use crate::double::near::{self, near};
use crate::double::roots;
use crate::double::{self, Double};

verus! {

/// The sun stands `t` times as far as the satellite, in its direction or, where `t` is
/// negative, on the other side of the Earth.
pub open spec fn in_line(p: TrajectoryPoint, t: int) -> bool {
    &&& p.sun_x.units() == t * p.eci_x.units()
    &&& p.sun_y.units() == t * p.eci_y.units()
    &&& p.sun_z.units() == t * p.eci_z.units()
}

/// A coordinate of a satellite or of the sun that is reckoned with: of at most so many
/// kilometres.
pub open spec fn within_km(x: Double, km: int) -> bool {
    x.finite() && -(km * double::one()) <= x.units() <= km * double::one()
}

/// How far the square of a double is off.
proof fn lemma_square(s: Double)
    requires
        within_km(s, 0x100_0000_0000),
    ensures
        ({
            let p = double::product(s, s);
            let (a, x, o) = (p.units(), s.units(), double::one() as int);
            &&& p.finite()
            &&& 0 <= a
            &&& size(p.unsigned()) == a
            &&& -(a * o + 0x10_0000_0000_0000 * o) <= 0x20_0000_0000_0000 * (a * o - x * x) <= a * o
                + 0x10_0000_0000_0000 * o
        }),
{
    let o = double::one() as int;
    lemma_large();
    growth::lemma_product_rank(s, s);
    lemma_pow2_adds(40, UNIT_EXPONENT as nat);
    lemma_pow2_adds(400, UNIT_EXPONENT as nat);
    lemma_pow2_strictly_increases(40, 400);
    lemma2_to64();
    lemma2_to64_rest();
    let x = size(s.unsigned());
    assert(x <= pow2(400) * double::one()) by (nonlinear_arith)
        requires
            x <= 0x100_0000_0000 * double::one(),
            0x100_0000_0000 <= pow2(400),
    ;
    let p = double::product(s, s);
    assert(p.finite()) by {
        roots::lemma_square_is_finite(x, double::one());
    }
    growth::product_error(s, s);
    let a = size(p.unsigned()) as int;
    assert((a + 0x10_0000_0000_0000) * o == a * o + 0x10_0000_0000_0000 * o) by (nonlinear_arith);
}

proof fn lemma_large()
    ensures
        double::one() >= 0x1000_0000_0000_0000,
{
    lemma2_to64();
    lemma2_to64_rest();
    lemma_pow2_strictly_increases(60, UNIT_EXPONENT as nat);
    lemma_pow2_pos(UNIT_EXPONENT as nat);
}

/// The sum of three squares.
proof fn lemma_squares(a1: int, a2: int, a3: int, d: int, q: int, x2: int, y2: int, z2: int, o: int, oo: int)
    requires
        o > 0,
        oo >= 0x1000_0000_0000_0000 * o,
        0 <= x2,
        0 <= y2,
        0 <= z2,
        x2 + y2 + z2 >= oo,
        0 <= a1,
        0 <= a2,
        0 <= a3,
        0 <= d,
        0 <= q,
        -(a1 + 0x10_0000_0000_0000 * o) <= 0x20_0000_0000_0000 * (a1 - x2) <= a1 + 0x10_0000_0000_0000 * o,
        -(a2 + 0x10_0000_0000_0000 * o) <= 0x20_0000_0000_0000 * (a2 - y2) <= a2 + 0x10_0000_0000_0000 * o,
        -(a3 + 0x10_0000_0000_0000 * o) <= 0x20_0000_0000_0000 * (a3 - z2) <= a3 + 0x10_0000_0000_0000 * o,
        -(d + 0x10_0000_0000_0000 * o) <= 0x20_0000_0000_0000 * (d - (a1 + a2)) <= d + 0x10_0000_0000_0000 * o,
        -(q + 0x10_0000_0000_0000 * o) <= 0x20_0000_0000_0000 * (q - (d + a3)) <= q + 0x10_0000_0000_0000 * o,
    ensures
        -(x2 + y2 + z2) <= 0x2000_0000_0000 * (q - (x2 + y2 + z2)) <= x2 + y2 + z2,
{
}

/// The length of a vector is that of its values, up to rounding.
pub proof fn lengths_are_pythagorean(v: Vector)
    requires
        within_km(v.x, 0x100_0000_0000),
        within_km(v.y, 0x100_0000_0000),
        within_km(v.z, 0x100_0000_0000),
        ({
            let (x, y, z, o) = (v.x.units(), v.y.units(), v.z.units(), double::one() as int);
            x * x + y * y + z * z >= o * o
        }),
    ensures
        ({
            let (x, y, z) = (v.x.units(), v.y.units(), v.z.units());
            let l = length(v).units();
            &&& length(v).finite()
            &&& !length(v).negative()
            &&& near(l * l, x * x + y * y + z * z, 3)
        }),
{
    let o = double::one() as int;
    lemma_large();
    lemma_square(v.x);
    lemma_square(v.y);
    lemma_square(v.z);
    let (p, q, r) = (double::product(v.x, v.x), double::product(v.y, v.y), double::product(v.z, v.z));
    let (x, y, z) = (v.x.units(), v.y.units(), v.z.units());
    let (a, b, c) = (p.units(), q.units(), r.units());
    let d = double::sum(p, q);
    let e = double::sum(d, r);
    lemma_powers();
    // Each square is at most 2^80 km^2.
    lemma_square_bound(v.x);
    lemma_square_bound(v.y);
    lemma_square_bound(v.z);
    lemma_pow2_strictly_increases(1154, 1155);
    lemma_sum_of_two(p, q, 81);
    lemma_sum_of_two(d, r, 82);
    let (du, eu) = (d.units(), e.units());
    let oo = o * o;
    assert(oo >= 0x1000_0000_0000_0000 * o) by (nonlinear_arith)
        requires
            oo == o * o,
            o >= 0x1000_0000_0000_0000,
    ;
    assert(x * x >= 0 && y * y >= 0 && z * z >= 0) by (nonlinear_arith);
    lemma_times_one(du, a + b, size(d.unsigned()) as int, o);
    lemma_times_one(eu, du + c, size(e.unsigned()) as int, o);
    assert((a + b) * o == a * o + b * o && (du + c) * o == du * o + c * o) by (nonlinear_arith);
    assert(a * o >= 0 && b * o >= 0 && c * o >= 0 && du * o >= 0 && eu * o >= 0) by (nonlinear_arith)
        requires
            a >= 0,
            b >= 0,
            c >= 0,
            du >= 0,
            eu >= 0,
            o > 0,
    ;
    lemma_squares(a * o, b * o, c * o, du * o, eu * o, x * x, y * y, z * z, o, oo);
    let s2 = x * x + y * y + z * z;
    assert(double::magnitude(s2) == s2);
    assert(near(eu * o, s2, 1));
    // The root
    assert(2 * eu >= o) by (nonlinear_arith)
        requires
            2 * (eu * o) >= o * o,
            o > 0,
    ;
    lemma_pow2_adds(1, 1073);
    lemma2_to64();
    near::root_between(e, 1073, 1074 + 82);
    let l = length(v).units();
    near::near_chain(l * l, eu * o, s2, 1, 1);
}

proof fn lemma_powers()
    ensures
        pow2(81) == 2 * pow2(80),
        pow2(82) == 4 * pow2(80),
        pow2(83) == 8 * pow2(80),
        pow2(80) == 0x100_0000_0000 * 0x100_0000_0000,
{
    lemma_pow2_adds(40, 40);
    lemma_pow2_adds(1, 80);
    lemma_pow2_adds(2, 80);
    lemma_pow2_adds(3, 80);
    lemma2_to64();
    lemma2_to64_rest();
}

proof fn lemma_square_bound(s: Double)
    requires
        within_km(s, 0x100_0000_0000),
    ensures
        double::product(s, s).units() <= pow2(80 + 1074),
        double::product(s, s).units() >= 0,
{
    let o = double::one();
    lemma_large();
    lemma_square(s);
    growth::lemma_product_rank(s, s);
    lemma_pow2_adds(80, UNIT_EXPONENT as nat);
    lemma_powers();
    lemma2_to64();
    lemma2_to64_rest();
    let b = crate::double::model::BINADE as nat;
    crate::double::model::lemma_size_of(1102, b);
    lemma_pow2_adds(52, 1102);
    let j = 1102 * b + b;
    assert(size(j) == pow2(1154));
    let x = size(s.unsigned());
    assert((x * x) * 1 <= pow2(1154) * o) by (nonlinear_arith)
        requires
            x <= 0x100_0000_0000 * o,
            pow2(1154) == (0x100_0000_0000 * 0x100_0000_0000) * o,
    ;
    growth::rounding_keeps_order(x * x, o, size(j), 1);
    growth::lemma_nearest_to_itself(j);
    let k = double::product(s, s).unsigned();
    if k < j {
        crate::double::model::lemma_size_monotone(k, j);
    }
}

/// A sum of two numbers that are not negative and below a power of two.
proof fn lemma_sum_of_two(a: Double, b: Double, e: nat)
    requires
        a.finite(),
        b.finite(),
        0 <= a.units() <= pow2((e - 1 + 1074) as nat),
        0 <= b.units() <= pow2((e - 1 + 1074) as nat),
        1 <= e <= 100,
    ensures
        double::sum(a, b).finite(),
        0 <= double::sum(a, b).units() <= pow2(e + 1074),
        size(double::sum(a, b).unsigned()) == double::sum(a, b).units(),
        ({
            let (s, x) = (double::sum(a, b).units(), size(double::sum(a, b).unsigned()) as int);
            -(x + 0x10_0000_0000_0000) <= 0x20_0000_0000_0000 * (s - (a.units() + b.units())) <= x
                + 0x10_0000_0000_0000
        }),
{
    lemma_pow2_adds(1, (e - 1 + 1074) as nat);
    lemma2_to64();
    lemma2_to64_rest();
    let exact = (a.units() + b.units()) as nat;
    let bin = crate::double::model::BINADE as nat;
    let t = (e + 1074 - 52) as nat;
    crate::double::model::lemma_size_of(t, bin);
    lemma_pow2_adds(52, t);
    let j = t * bin + bin;
    assert(j < crate::double::model::INFINITE) by (nonlinear_arith)
        requires
            j == t * bin + bin,
            t <= 1122,
            bin == 0x10_0000_0000_0000,
            crate::double::model::INFINITE == 0x7ff0_0000_0000_0000,
    ;
    growth::lemma_sum_rank(a, b);
    growth::rounding_keeps_order(exact, 1, size(j), 1);
    growth::lemma_nearest_to_itself(j);
    let s = double::sum(a, b);
    growth::lemma_rounded(false, exact, 1);
    assert(s.rank() == growth::nearest_to(exact, 1));
    growth::lemma_rank_of_units(s, s);
    let k = s.unsigned();
    assert(size(0) == 0);
    if k < j {
        crate::double::model::lemma_size_monotone(k, j);
    }
    growth::sum_error(a, b);
}

proof fn lemma_times_one(s: int, exact: int, x: int, o: int)
    requires
        o > 0,
        x == s,
        -(x + 0x10_0000_0000_0000) <= 0x20_0000_0000_0000 * (s - exact) <= x + 0x10_0000_0000_0000,
    ensures
        -(s * o + 0x10_0000_0000_0000 * o) <= 0x20_0000_0000_0000 * (s * o - exact * o) <= s * o
            + 0x10_0000_0000_0000 * o,
{
    assert(s * o - exact * o == (s - exact) * o) by (nonlinear_arith);
    let d = s - exact;
    assert(-((x + 0x10_0000_0000_0000) * o) <= 0x20_0000_0000_0000 * (d * o) <= (x + 0x10_0000_0000_0000) * o)
        by (nonlinear_arith)
        requires
            -(x + 0x10_0000_0000_0000) <= 0x20_0000_0000_0000 * d <= x + 0x10_0000_0000_0000,
            o > 0,
    ;
    assert((x + 0x10_0000_0000_0000) * o == s * o + 0x10_0000_0000_0000 * o) by (nonlinear_arith)
        requires
            x == s,
    ;
}

/// The direction along one axis.
proof fn lemma_direction(si: Double, l: Double)
    requires
        si.finite(),
        l.finite(),
        l.units() >= double::one(),
        -(2 * l.units()) <= si.units() <= 2 * l.units(),
    ensures
        ({
            let u = double::quotient(si, l);
            let o = double::one() as int;
            &&& u.finite()
            &&& -(2 * o) <= u.units() <= 2 * o
            &&& -(o * l.units()) <= 0x8_0000_0000_0000 * (u.units() * l.units() - si.units() * o) <= o * l.units()
        }),
{
    lemma_large();
    let o = double::one() as int;
    assert(size(0) == 0);
    growth::lemma_rank_of_units(l, l);
    growth::quotients_are_bounded(si, l, 2);
    growth::quotient_error(si, l);
    let u = double::quotient(si, l);
    let (z, y) = (size(u.unsigned()) as int, size(l.unsigned()) as int);
    assert(y == l.units());
    let g = u.units() * l.units() - si.units() * o;
    assert((z + 0x10_0000_0000_0000) * y <= (3 * o) * y) by (nonlinear_arith)
        requires
            z <= 2 * o,
            o >= 0x10_0000_0000_0000,
            y >= 0,
    ;
    assert((3 * o) * y == 3 * (o * y)) by (nonlinear_arith);
}

/// A product of a coordinate and a direction.
proof fn lemma_part(x: Double, u: Double, km: nat)
    requires
        x.finite(),
        u.finite(),
        km <= 0x40_0000,
        -(km * double::one()) <= x.units() <= km * double::one(),
        -(2 * double::one()) <= u.units() <= 2 * double::one(),
    ensures
        ({
            let e = double::product(x, u);
            let o = double::one() as int;
            &&& e.finite()
            &&& -(2 * (km * o)) <= e.units() <= 2 * (km * o)
            &&& -(o * o) <= 0x2000_0000 * (e.units() * o - x.units() * u.units()) <= o * o
        }),
{
    lemma_large();
    let o = double::one() as int;
    let (a, b) = (size(x.unsigned()) as int, size(u.unsigned()) as int);
    let k = km as int;
    assert(a * b <= ((2 * k) * o) * o) by (nonlinear_arith)
        requires
            0 <= a <= k * o,
            0 <= b <= 2 * o,
    ;
    growth::products_are_bounded(x, u, 2 * km);
    growth::product_error(x, u);
    let e = double::product(x, u);
    let z = size(e.unsigned()) as int;
    assert((2 * k) * o == 2 * (k * o)) by (nonlinear_arith);
    assert(2 * (k * o) <= 0x80_0000 * o) by (nonlinear_arith)
        requires
            k <= 0x40_0000,
            o > 0,
    ;
    let oo = o * o;
    assert((z + 0x10_0000_0000_0000) * o <= 0x80_0001 * oo) by (nonlinear_arith)
        requires
            z <= 0x80_0000 * o,
            o >= 0x10_0000_0000_0000,
            oo == o * o,
    ;
}

/// A sum of two of them.
proof fn lemma_join(a: Double, b: Double)
    requires
        a.finite(),
        b.finite(),
        -(0x200_0000 * double::one()) <= a.units() <= 0x200_0000 * double::one(),
        -(0x200_0000 * double::one()) <= b.units() <= 0x200_0000 * double::one(),
    ensures
        ({
            let (s, o) = (double::sum(a, b), double::one() as int);
            &&& s.finite()
            &&& -o <= 0x400_0000 * (s.units() - (a.units() + b.units())) <= o
        }),
{
    lemma_large();
    growth::sums_are_bounded(a, b, 0x400_0000);
    growth::sum_error(a, b);
}

/// How far along the satellite stands: as far as the sun over `t`.
proof fn lemma_along(
    x: (int, int, int),
    s: (int, int, int),
    u: (int, int, int),
    e: (int, int, int),
    d: int,
    along: int,
    l: int,
    t: int,
    o: int,
)
    requires
        o >= 0x1000_0000_0000_0000,
        l >= o,
        t != 0,
        s.0 == t * x.0,
        s.1 == t * x.1,
        s.2 == t * x.2,
        -(0x10_0000 * o) <= x.0 <= 0x10_0000 * o,
        -(0x10_0000 * o) <= x.1 <= 0x10_0000 * o,
        -(0x10_0000 * o) <= x.2 <= 0x10_0000 * o,
        near(l * l, s.0 * s.0 + s.1 * s.1 + s.2 * s.2, 3),
        -(o * l) <= 0x8_0000_0000_0000 * (u.0 * l - s.0 * o) <= o * l,
        -(o * l) <= 0x8_0000_0000_0000 * (u.1 * l - s.1 * o) <= o * l,
        -(o * l) <= 0x8_0000_0000_0000 * (u.2 * l - s.2 * o) <= o * l,
        -(o * o) <= 0x2000_0000 * (e.0 * o - x.0 * u.0) <= o * o,
        -(o * o) <= 0x2000_0000 * (e.1 * o - x.1 * u.1) <= o * o,
        -(o * o) <= 0x2000_0000 * (e.2 * o - x.2 * u.2) <= o * o,
        -o <= 0x400_0000 * (d - (e.0 + e.1)) <= o,
        -o <= 0x400_0000 * (along - (d + e.2)) <= o,
    ensures
        ({
            let n = if t < 0 { -t } else { t };
            -(n * o) <= 0x8_0000 * (t * along - l) <= n * o
        }),
        ({
            let n = if t < 0 { -t } else { t };
            l <= 0x20_0000 * (n * o)
        }),
{
    let n = if t < 0 { -t } else { t };
    let (oo, ol, no, ll) = (o * o, o * l, n * o, l * l);
    let s2 = s.0 * s.0 + s.1 * s.1 + s.2 * s.2;
    let x2 = x.0 * x.0 + x.1 * x.1 + x.2 * x.2;
    let tt = t * t;
    lemma_same_line(x.0, s.0, t);
    lemma_same_line(x.1, s.1, t);
    lemma_same_line(x.2, s.2, t);
    lemma_factor(x.0 * x.0, x.1 * x.1, x.2 * x.2, tt);
    assert(s2 == tt * x2);
    assert(s2 >= 0) by (nonlinear_arith)
        requires
            s2 == s.0 * s.0 + s.1 * s.1 + s.2 * s.2,
    ;
    assert(double::magnitude(s2) == s2);
    // The sun's distance is bounded by the satellite's.
    lemma_bounded_square(x.0, o);
    lemma_bounded_square(x.1, o);
    lemma_bounded_square(x.2, o);
    assert(x2 <= 0x300_0000_0000 * oo);
    assert(tt == n * n) by (nonlinear_arith)
        requires
            tt == t * t,
            n == t || n == -t,
    ;
    assert(tt * x2 <= 0x300_0000_0000 * (no * no)) by (nonlinear_arith)
        requires
            tt == n * n,
            no == n * o,
            oo == o * o,
            x2 <= 0x300_0000_0000 * oo,
    ;
    assert(ll <= 0x400_0000_0000 * (no * no));
    assert(l <= 0x20_0000 * no) by (nonlinear_arith)
        requires
            l * l <= 0x400_0000_0000 * (no * no),
            no >= 0,
            l >= 0,
    ;
    // What the satellite has in the sun's direction
    let w = x.0 * u.0 + x.1 * u.1 + x.2 * u.2;
    let (g0, g1, g2) = (u.0 * l - s.0 * o, u.1 * l - s.1 * o, u.2 * l - s.2 * o);
    let rest = x.0 * g0 + x.1 * g1 + x.2 * g2;
    let xs = x.0 * s.0 + x.1 * s.1 + x.2 * s.2;
    lemma_component(x.0, s.0, u.0, g0, l, o);
    lemma_component(x.1, s.1, u.1, g1, l, o);
    lemma_component(x.2, s.2, u.2, g2, l, o);
    lemma_factor(x.0 * u.0, x.1 * u.1, x.2 * u.2, l);
    lemma_factor(x.0 * s.0, x.1 * s.1, x.2 * s.2, o);
    assert(w * l == xs * o + rest);
    lemma_factor(x.0 * s.0, x.1 * s.1, x.2 * s.2, t);
    assert(t * xs == s2);
    assert(t * (w * l) == s2 * o + t * rest) by (nonlinear_arith)
        requires
            w * l == xs * o + rest,
            t * xs == s2,
    ;
    let ool = oo * l;
    lemma_rest(x.0, g0, o, ol, ool, l);
    lemma_rest(x.1, g1, o, ol, ool, l);
    lemma_rest(x.2, g2, o, ol, ool, l);
    assert(-(3 * ool) <= 0x8000_0000 * rest <= 3 * ool);
    let tr = t * rest;
    assert(-(3 * (n * ool)) <= 0x8000_0000 * tr <= 3 * (n * ool)) by (nonlinear_arith)
        requires
            -(3 * ool) <= 0x8000_0000 * rest <= 3 * ool,
            tr == t * rest,
            n == t || n == -t,
            n >= 0,
    ;
    // t w l is l l o, up to a little of n o o l
    let nool = n * ool;
    let (s2o, llo) = (s2 * o, ll * o);
    assert(-(4 * llo) <= 0x2000_0000_0000 * (s2o - llo) <= 4 * llo) by (nonlinear_arith)
        requires
            -(4 * ll) <= 0x2000_0000_0000 * (s2 - ll) <= 4 * ll,
            s2o == s2 * o,
            llo == ll * o,
            o > 0,
    ;
    assert(llo <= 0x20_0000 * nool) by (nonlinear_arith)
        requires
            llo == (l * l) * o,
            nool == n * ((o * o) * l),
            l <= 0x20_0000 * (n * o),
            l > 0,
            o > 0,
    ;
    let twl = t * (w * l);
    assert(-nool <= 0x20_0000 * (twl - llo) <= nool);
    let tw = t * w;
    assert(twl == tw * l) by (nonlinear_arith)
        requires
            twl == t * (w * l),
            tw == t * w,
    ;
    assert(-(n * oo) <= 0x20_0000 * (tw - ol) <= n * oo) by (nonlinear_arith)
        requires
            -nool <= 0x20_0000 * (twl - llo) <= nool,
            nool == n * (oo * l),
            twl == tw * l,
            llo == (l * l) * o,
            ol == o * l,
            l > 0,
    ;
    // And so is t along o.
    let ao = along * o;
    assert(-(oo) <= 0x100_0000 * (ao - w) <= oo) by {
        lemma_scaled(d, e.0 + e.1, o, oo);
        lemma_scaled(along, d + e.2, o, oo);
        assert((e.0 + e.1) * o == e.0 * o + e.1 * o && (d + e.2) * o == d * o + e.2 * o) by (nonlinear_arith);
    }
    let tao = t * ao;
    assert(-(n * oo) <= 0x100_0000 * (tao - tw) <= n * oo) by (nonlinear_arith)
        requires
            -oo <= 0x100_0000 * (ao - w) <= oo,
            tao == t * ao,
            tw == t * w,
            n == t || n == -t,
            n >= 0,
    ;
    let noo = n * oo;
    assert(-noo <= 0x8_0000 * (tao - ol) <= noo);
    let ta = t * along;
    assert(-(no) <= 0x8_0000 * (ta - l) <= no) by (nonlinear_arith)
        requires
            -noo <= 0x8_0000 * (tao - ol) <= noo,
            noo == n * (o * o),
            tao == t * (along * o),
            ta == t * along,
            ol == o * l,
            no == n * o,
            o > 0,
    ;
}

proof fn lemma_same_line(x: int, s: int, t: int)
    requires
        s == t * x,
    ensures
        s * s == (t * t) * (x * x),
        t * (x * s) == s * s,
{
    assert(s * s == (t * t) * (x * x)) by (nonlinear_arith)
        requires
            s == t * x,
    ;
    assert(t * (x * s) == s * s) by (nonlinear_arith)
        requires
            s == t * x,
    ;
}

proof fn lemma_factor(p: int, q: int, r: int, k: int)
    ensures
        k * (p + q + r) == k * p + k * q + k * r,
        (p + q + r) * k == p * k + q * k + r * k,
{
    assert(k * (p + q + r) == k * p + k * q + k * r) by (nonlinear_arith);
    assert((p + q + r) * k == p * k + q * k + r * k) by (nonlinear_arith);
}

proof fn lemma_component(x: int, s: int, u: int, g: int, l: int, o: int)
    requires
        g == u * l - s * o,
    ensures
        (x * u) * l == (x * s) * o + x * g,
{
    assert((x * u) * l == x * (u * l)) by (nonlinear_arith);
    assert((x * s) * o == x * (s * o)) by (nonlinear_arith);
    assert(x * (u * l) == x * (s * o) + x * g) by (nonlinear_arith)
        requires
            g == u * l - s * o,
    ;
}

proof fn lemma_bounded_square(x: int, o: int)
    requires
        o > 0,
        -(0x10_0000 * o) <= x <= 0x10_0000 * o,
    ensures
        0 <= x * x <= 0x100_0000_0000 * (o * o),
{
    assert(0 <= x * x <= (0x10_0000 * o) * (0x10_0000 * o)) by (nonlinear_arith)
        requires
            -(0x10_0000 * o) <= x <= 0x10_0000 * o,
    ;
    assert((0x10_0000 * o) * (0x10_0000 * o) == 0x100_0000_0000 * (o * o)) by (nonlinear_arith);
}

proof fn lemma_rest(x: int, g: int, o: int, ol: int, ool: int, l: int)
    requires
        o > 0,
        l > 0,
        ol == o * l,
        ool == (o * o) * l,
        -(0x10_0000 * o) <= x <= 0x10_0000 * o,
        -ol <= 0x8_0000_0000_0000 * g <= ol,
    ensures
        -ool <= 0x8000_0000 * (x * g) <= ool,
{
    let p = x * g;
    assert(-((0x10_0000 * o) * ol) <= 0x8_0000_0000_0000 * p <= (0x10_0000 * o) * ol) by (nonlinear_arith)
        requires
            -(0x10_0000 * o) <= x <= 0x10_0000 * o,
            -ol <= 0x8_0000_0000_0000 * g <= ol,
            p == x * g,
    ;
    assert((0x10_0000 * o) * ol == 0x10_0000 * ool) by (nonlinear_arith)
        requires
            ol == o * l,
            ool == (o * o) * l,
    ;
}

proof fn lemma_scaled(a: int, b: int, o: int, oo: int)
    requires
        o > 0,
        oo == o * o,
        -o <= 0x400_0000 * (a - b) <= o,
    ensures
        -oo <= 0x400_0000 * (a * o - b * o) <= oo,
{
    assert(-(o * o) <= 0x400_0000 * ((a - b) * o) <= o * o) by (nonlinear_arith)
        requires
            -o <= 0x400_0000 * (a - b) <= o,
            o > 0,
    ;
    assert((a - b) * o == a * o - b * o) by (nonlinear_arith);
}

/// What the satellite has across that direction along one axis: next to nothing.
proof fn lemma_off_axis(x: Double, along: Double, u: Double, s: int, l: int, t: int)
    requires
        x.finite(),
        along.finite(),
        u.finite(),
        t != 0,
        s == t * x.units(),
        l >= double::one(),
        -(0x10_0000 * double::one()) <= x.units() <= 0x10_0000 * double::one(),
        -(2 * double::one()) <= u.units() <= 2 * double::one(),
        -(double::one() * l) <= 0x8_0000_0000_0000 * (u.units() * l - s * double::one()) <= double::one() * l,
        ({
            let n = if t < 0 { -t } else { t };
            &&& -(n * double::one()) <= 0x8_0000 * (t * along.units() - l) <= n * double::one()
            &&& l <= 0x20_0000 * (n * double::one())
        }),
    ensures
        double::difference(x, double::product(along, u)).finite(),
        size(double::difference(x, double::product(along, u)).unsigned()) <= double::one(),
{
    lemma_large();
    let o = double::one() as int;
    let n = if t < 0 { -t } else { t };
    let (a, no) = (along.units(), n * o);
    let ta = t * a;
    // The satellite is along within 2^22 km.
    assert(-(0x20_0001 * o) <= a <= 0x20_0001 * o) by (nonlinear_arith)
        requires
            -no <= 0x8_0000 * (ta - l) <= no,
            0 <= l <= 0x20_0000 * no,
            no == n * o,
            ta == t * a,
            n == t || n == -t,
            n >= 1,
            o > 0,
    ;
    lemma_part(along, u, 0x20_0001);
    let v = double::product(along, u);
    let (ui, xi) = (u.units(), x.units());
    let au = a * ui;
    // t a u is l u, which is t x o
    let eta = ta - l;
    let oo = o * o;
    let g = ui * l - s * o;
    let diff = au - xi * o;
    assert(t * diff == g + eta * ui) by (nonlinear_arith)
        requires
            diff == a * ui - xi * o,
            ta == t * a,
            eta == ta - l,
            g == ui * l - s * o,
            s == t * xi,
    ;
    let eu = eta * ui;
    assert(-(2 * (no * o)) <= 0x8_0000 * eu <= 2 * (no * o)) by (nonlinear_arith)
        requires
            -no <= 0x8_0000 * eta <= no,
            -(2 * o) <= ui <= 2 * o,
            eu == eta * ui,
            no >= 0,
    ;
    assert(o * l <= 0x20_0000 * (no * o)) by (nonlinear_arith)
        requires
            l <= 0x20_0000 * no,
            o > 0,
    ;
    let noo = no * o;
    let td = t * diff;
    assert(-noo <= 0x2_0000 * td <= noo);
    assert(-oo <= 0x2_0000 * diff <= oo) by (nonlinear_arith)
        requires
            -noo <= 0x2_0000 * td <= noo,
            noo == (n * o) * o,
            oo == o * o,
            td == t * diff,
            n == t || n == -t,
            n >= 1,
    ;
    let vx = v.units() - xi;
    assert(vx * o == v.units() * o - xi * o) by (nonlinear_arith)
        requires
            vx == v.units() - xi,
    ;
    assert(-oo <= 0x1_0000 * (vx * o) <= oo);
    assert(-o <= 0x1_0000 * vx <= o) by (nonlinear_arith)
        requires
            -(o * o) <= 0x1_0000 * (vx * o) <= o * o,
            o > 0,
    ;
    growth::lemma_opposite(v);
    growth::sums_are_bounded(x, double::opposite(v), 1);
}

/// A vector of less than a kilometre each way is shorter than the Earth's radius.
proof fn lemma_short(q: Vector)
    requires
        q.x.finite(),
        q.y.finite(),
        q.z.finite(),
        size(q.x.unsigned()) <= double::one(),
        size(q.y.unsigned()) <= double::one(),
        size(q.z.unsigned()) <= double::one(),
    ensures
        double::less(length(q), earth_radius_km()),
{
    lemma_large();
    let o = double::one() as int;
    lemma_unit_square(q.x);
    lemma_unit_square(q.y);
    lemma_unit_square(q.z);
    let (a, b, c) = (double::product(q.x, q.x), double::product(q.y, q.y), double::product(q.z, q.z));
    growth::sums_are_bounded(a, b, 2);
    let d = double::sum(a, b);
    growth::sums_stay_near(a, b);
    growth::sums_are_bounded(d, c, 4);
    let e = double::sum(d, c);
    growth::sums_stay_near(d, c);
    super::shadow::lemma_radius();
    assert(size(0) == 0);
    assert(!e.negative() || e.zero()) by {
        growth::lemma_rank_of_units(e, e);
    }
    roots::roots_compare(e, earth_radius_km());
    let (x, r) = (size(e.unsigned()) as int, size(earth_radius_km().unsigned()) as int);
    let (rr, oo) = (r * r, o * o);
    assert(x * o <= 4 * oo) by (nonlinear_arith)
        requires
            x <= 4 * o,
            oo == o * o,
            o > 0,
    ;
    assert(oo > 0) by (nonlinear_arith)
        requires
            oo == o * o,
            o > 0,
    ;
}

proof fn lemma_unit_square(q: Double)
    requires
        q.finite(),
        size(q.unsigned()) <= double::one(),
    ensures
        double::product(q, q).finite(),
        0 <= double::product(q, q).units() <= double::one(),
        size(double::product(q, q).unsigned()) == double::product(q, q).units(),
{
    let (x, o) = (size(q.unsigned()), double::one());
    assert(x * x <= (1 * o) * o) by (nonlinear_arith)
        requires
            x <= o,
    ;
    growth::products_are_bounded(q, q, 1);
    growth::lemma_product_rank(q, q);
    assert(1 * o == o) by (nonlinear_arith);
}

/// Straight behind the Earth a satellite is in eclipse, and straight before it, it is
/// not, in whatever direction the sun stands.
pub proof fn shadow_lies_straight_behind_the_earth(p: TrajectoryPoint, t: int)
    requires
        within_km(p.eci_x, 0x10_0000),
        within_km(p.eci_y, 0x10_0000),
        within_km(p.eci_z, 0x10_0000),
        within_km(p.sun_x, 0x100_0000_0000),
        within_km(p.sun_y, 0x100_0000_0000),
        within_km(p.sun_z, 0x100_0000_0000),
        t != 0,
        in_line(p, t),
        ({
            let (x, y, z, o) = (p.eci_x.units(), p.eci_y.units(), p.eci_z.units(), double::one() as int);
            x * x + y * y + z * z >= 4 * (o * o)
        }),
    ensures
        t < 0 ==> eclipsed(p),
        t > 0 ==> !eclipsed(p),
{
    lemma_large();
    let o = double::one() as int;
    let satellite = Vector { x: p.eci_x, y: p.eci_y, z: p.eci_z };
    let sun = Vector { x: p.sun_x, y: p.sun_y, z: p.sun_z };
    let (x, y, z) = (p.eci_x.units(), p.eci_y.units(), p.eci_z.units());
    let (a, b, c) = (p.sun_x.units(), p.sun_y.units(), p.sun_z.units());
    let n = if t < 0 { -t } else { t };
    let (x2, s2, tt, oo) = (x * x + y * y + z * z, a * a + b * b + c * c, t * t, o * o);
    lemma_same_line(x, a, t);
    lemma_same_line(y, b, t);
    lemma_same_line(z, c, t);
    lemma_factor(x * x, y * y, z * z, tt);
    assert(s2 == tt * x2);
    assert(oo > 0) by (nonlinear_arith)
        requires
            oo == o * o,
            o > 0,
    ;
    let nnoo = (n * o) * (n * o);
    assert(tt * x2 >= 4 * nnoo && nnoo >= oo) by (nonlinear_arith)
        requires
            x2 >= 4 * oo,
            oo == o * o,
            nnoo == (n * o) * (n * o),
            tt == t * t,
            n == t || n == -t,
            n >= 1,
            o > 0,
    ;
    lengths_are_pythagorean(sun);
    let l = length(sun).units();
    assert(double::magnitude(s2) == s2);
    let ll = l * l;
    assert(ll >= 3 * nnoo);
    assert(l >= n * o) by (nonlinear_arith)
        requires
            l * l >= 3 * ((n * o) * (n * o)),
            l >= 0,
            n * o >= 0,
    ;
    assert(n * o >= o) by (nonlinear_arith)
        requires
            n >= 1,
            o > 0,
    ;
    double::integers_are_exact(1);
    assert(1 * o == o) by (nonlinear_arith);
    growth::less_by_value(length(sun), double::integer(1));
    // The direction
    assert(a * a >= 0 && b * b >= 0 && c * c >= 0) by (nonlinear_arith);
    lemma_no_longer(a, l, s2, ll);
    lemma_no_longer(b, l, s2, ll);
    lemma_no_longer(c, l, s2, ll);
    lemma_direction(p.sun_x, length(sun));
    lemma_direction(p.sun_y, length(sun));
    lemma_direction(p.sun_z, length(sun));
    let u = scaled_down(sun, length(sun));
    lemma_part(p.eci_x, u.x, 0x10_0000);
    lemma_part(p.eci_y, u.y, 0x10_0000);
    lemma_part(p.eci_z, u.z, 0x10_0000);
    let (e0, e1, e2) = (
        double::product(p.eci_x, u.x),
        double::product(p.eci_y, u.y),
        double::product(p.eci_z, u.z),
    );
    lemma_join(e0, e1);
    let d = double::sum(e0, e1);
    lemma_join(d, e2);
    let along = dot(satellite, u);
    lemma_along(
        (x, y, z),
        (a, b, c),
        (u.x.units(), u.y.units(), u.z.units()),
        (e0.units(), e1.units(), e2.units()),
        d.units(),
        along.units(),
        l,
        t,
        o,
    );
    let ta = t * along.units();
    double::integers_are_exact(0);
    assert(0 * o == 0) by (nonlinear_arith);
    growth::less_by_value(double::integer(0), along);
    assert(ta > 0);
    if t > 0 {
        assert(along.units() > 0) by (nonlinear_arith)
            requires
                ta == t * along.units(),
                ta > 0,
                t > 0,
        ;
    } else {
        assert(along.units() < 0) by (nonlinear_arith)
            requires
                ta == t * along.units(),
                ta > 0,
                t < 0,
        ;
        lemma_off_axis(p.eci_x, along, u.x, a, l, t);
        lemma_off_axis(p.eci_y, along, u.y, b, l, t);
        lemma_off_axis(p.eci_z, along, u.z, c, l, t);
        lemma_short(across(satellite, along, u));
    }
}

/// No side of a box is longer than its diagonal.
proof fn lemma_no_longer(a: int, l: int, s2: int, ll: int)
    requires
        l > 0,
        ll == l * l,
        a * a <= s2,
        s2 >= 0,
        -(3 * s2) <= 0x2000_0000_0000 * (ll - s2) <= 3 * s2,
    ensures
        -(2 * l) <= a <= 2 * l,
{
    assert(a * a <= 2 * ll);
    assert(-(2 * l) <= a <= 2 * l) by (nonlinear_arith)
        requires
            a * a <= 2 * (l * l),
            l > 0,
    ;
}

} // verus!
