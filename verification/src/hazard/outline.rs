//! Where the South Atlantic Anomaly lies, on the map.

use vstd::prelude::*;

use super::detect::in_saa;
use super::geometry::{corner, crosses, crossings, inside, saa_outline, Corner};
use super::TrajectoryPoint;
use crate::double::growth;
use crate::double::model::{size, UNIT_EXPONENT};
use crate::double::{self, Double};

verus! {

/// The western shore of the anomaly from south to north: latitude and longitude in
/// degrees.
pub open spec fn western_shore() -> Seq<(int, int)> {
    seq![(-55int, -60int), (-50int, -85int), (-40int, -80int), (-20int, -60int), (-10int, -40int), (-5int, -20int),
        (0int, 0int)]
}

/// The eastern shore of the anomaly from south to north.
pub open spec fn eastern_shore() -> Seq<(int, int)> {
    seq![(-55int, -60int), (-50int, -30int), (-45int, 0int), (-35int, 15int), (-25int, 25int), (-15int, 30int),
        (-5int, 25int), (0int, 15int)]
}

/// The latitude lies between those of two points.
pub open spec fn level_with(lat: int, s: (int, int), n: (int, int)) -> bool {
    s.0 * double::one() <= lat < n.0 * double::one()
}

/// How far a place lies east of the line through two points, times the degrees of
/// latitude between them.
pub open spec fn east_of(lat: int, lon: int, s: (int, int), n: (int, int)) -> int {
    let o = double::one() as int;
    (n.0 - s.0) * (lon - s.1 * o) - (n.1 - s.1) * (lat - s.0 * o)
}

/// The place lies east of the line, by a ten-millionth of a degree or more.
pub open spec fn clearly_east(lat: int, lon: int, s: (int, int), n: (int, int)) -> bool {
    0x100_0000 * east_of(lat, lon, s, n) >= (n.0 - s.0) * double::one()
}

/// The place lies west of the line, by a ten-millionth of a degree or more.
pub open spec fn clearly_west(lat: int, lon: int, s: (int, int), n: (int, int)) -> bool {
    0x100_0000 * east_of(lat, lon, s, n) <= -((n.0 - s.0) * double::one())
}

/// The place lies within a shore, a ten-millionth of a degree or more from either.
pub open spec fn clearly_inside(lat: int, lon: int) -> bool {
    &&& exists|i: int|
        0 <= i < 6 && #[trigger] level_with(lat, western_shore()[i], western_shore()[i + 1]) && clearly_east(
            lat,
            lon,
            western_shore()[i],
            western_shore()[i + 1],
        )
    &&& exists|i: int|
        0 <= i < 7 && #[trigger] level_with(lat, eastern_shore()[i], eastern_shore()[i + 1]) && clearly_west(
            lat,
            lon,
            eastern_shore()[i],
            eastern_shore()[i + 1],
        )
}

/// The place lies south or north of the anomaly, or outside a shore by a
/// ten-millionth of a degree or more.
pub open spec fn clearly_outside(lat: int, lon: int) -> bool {
    ||| lat < -55 * double::one()
    ||| lat >= 0
    ||| exists|i: int|
        0 <= i < 6 && #[trigger] level_with(lat, western_shore()[i], western_shore()[i + 1]) && clearly_west(
            lat,
            lon,
            western_shore()[i],
            western_shore()[i + 1],
        )
    ||| exists|i: int|
        0 <= i < 7 && #[trigger] level_with(lat, eastern_shore()[i], eastern_shore()[i + 1]) && clearly_east(
            lat,
            lon,
            eastern_shore()[i],
            eastern_shore()[i + 1],
        )
}

/// What rounding makes of the crossing of an edge with a parallel.
proof fn lemma_crossing_arithmetic(
    big_f: int,
    f: int,
    dl: int,
    p: int,
    dn: int,
    q: int,
    e: int,
    a: int,
    o: int,
)
    requires
        0x1_0000_0000_0000 <= o,
        -300 * o <= big_f <= 300 * o,
        -200 <= dl <= 200,
        1 <= dn <= 100 || -100 <= dn <= -1,
        -300 * o <= f <= 300 * o,
        -60_000 * o <= p <= 60_000 * o,
        -60_000 * o <= q <= 60_000 * o,
        -61_000 * o <= e <= 61_000 * o,
        -302 * o <= 0x20_0000_0000_0000 * (f - big_f) <= 302 * o,
        -60_002 * o <= 0x20_0000_0000_0000 * (p - dl * f) <= 60_002 * o,
        -6_000_200 * o <= 0x20_0000_0000_0000 * (q * dn - p) <= 6_000_200 * o,
        -61_002 * o <= 0x20_0000_0000_0000 * (e - (q + a)) <= 61_002 * o,
    ensures
        -o <= 0x1000_0000 * (dn * (e - a) - dl * big_f) <= o,
{
    let (x, y) = (f - big_f, e - (q + a));
    assert(dl * f == dl * big_f + dl * x) by (nonlinear_arith)
        requires
            x == f - big_f,
    ;
    assert(-60_400 * o <= 0x20_0000_0000_0000 * (dl * x) <= 60_400 * o) by (nonlinear_arith)
        requires
            -302 * o <= 0x20_0000_0000_0000 * x <= 302 * o,
            -200 <= dl <= 200,
            o > 0,
    ;
    assert(dn * (e - a) == q * dn + dn * y) by (nonlinear_arith)
        requires
            y == e - (q + a),
    ;
    assert(-6_100_200 * o <= 0x20_0000_0000_0000 * (dn * y) <= 6_100_200 * o) by (nonlinear_arith)
        requires
            -61_002 * o <= 0x20_0000_0000_0000 * y <= 61_002 * o,
            -100 <= dn <= 100,
            o > 0,
    ;
}

/// The difference of two whole degrees is exact.
proof fn lemma_whole_difference(a: int, b: int)
    requires
        -100 <= a <= 100,
        -100 <= b <= 100,
    ensures
        double::difference(double::integer(b), double::integer(a)).finite(),
        double::difference(double::integer(b), double::integer(a)).units() == (b - a) * double::one(),
{
    let o = double::one() as int;
    double::integers_are_exact(a);
    double::integers_are_exact(b);
    double::integers_are_exact(b - a);
    growth::lemma_opposite(double::integer(a));
    growth::lemma_sum_rank(double::integer(b), double::opposite(double::integer(a)));
    assert(b * o - a * o == (b - a) * o) by (nonlinear_arith);
    let d = double::difference(double::integer(b), double::integer(a));
    let x = double::integer(b - a);
    growth::lemma_nearest_to_itself(x.unsigned());
    growth::lemma_rank_of_units(x, x);
    assert(d.rank() == x.rank());
    growth::lemma_rank_of_units(d, x);
    growth::lemma_rank_of_units(x, d);
}

/// Where the edge between two corners meets the parallel of a latitude.
pub open spec fn meeting(lat: Double, a: Corner, b: Corner) -> Double {
    double::sum(
        double::quotient(
            double::product(double::difference(b.lon, a.lon), double::difference(lat, a.lat)),
            double::difference(b.lat, a.lat),
        ),
        a.lon,
    )
}

/// The edge between two corners of whole degrees meets a parallel where the line
/// through them does, up to rounding.
proof fn lemma_meeting(lat: Double, a: (int, int), b: (int, int))
    requires
        lat.finite(),
        -100 * double::one() <= lat.units() <= 100 * double::one(),
        -100 <= a.0 <= 100,
        -100 <= a.1 <= 100,
        -100 <= b.0 <= 100,
        -100 <= b.1 <= 100,
        1 <= b.0 - a.0 <= 100 || -100 <= b.0 - a.0 <= -1,
    ensures
        ({
            let o = double::one() as int;
            let e = meeting(lat, corner(a.0, a.1), corner(b.0, b.1));
            &&& e.finite()
            &&& -o <= 0x1000_0000 * ((b.0 - a.0) * (e.units() - a.1 * o) - (b.1 - a.1) * (lat.units() - a.0 * o))
                <= o
        }),
{
    let o = double::one() as int;
    vstd::arithmetic::power2::lemma_pow2_pos(UNIT_EXPONENT as nat);
    vstd::arithmetic::power2::lemma2_to64();
    vstd::arithmetic::power2::lemma2_to64_rest();
    vstd::arithmetic::power2::lemma_pow2_strictly_increases(60, UNIT_EXPONENT as nat);
    let (dl, dn) = (b.1 - a.1, b.0 - a.0);
    let (ca, cb) = (corner(a.0, a.1), corner(b.0, b.1));
    lemma_whole_difference(a.1, b.1);
    lemma_whole_difference(a.0, b.0);
    double::integers_are_exact(a.0);
    double::integers_are_exact(a.1);
    let wide = double::difference(cb.lon, ca.lon);
    let high = double::difference(cb.lat, ca.lat);
    let f = double::difference(lat, ca.lat);
    let big_f = lat.units() - a.0 * o;
    growth::lemma_opposite(ca.lat);
    assert(-100 * o <= a.0 * o <= 100 * o && -100 * o <= a.1 * o <= 100 * o) by (nonlinear_arith)
        requires
            -100 <= a.0 <= 100,
            -100 <= a.1 <= 100,
            o > 0,
    ;
    growth::sums_are_bounded(lat, double::opposite(ca.lat), 300);
    growth::sum_error(lat, double::opposite(ca.lat));
    let p = double::product(wide, f);
    let (x, y) = (size(wide.unsigned()) as int, size(f.unsigned()) as int);
    assert(x <= 200 * o) by {
        assert(-200 * o <= dl * o <= 200 * o) by (nonlinear_arith)
            requires
                -200 <= dl <= 200,
                o > 0,
        ;
    }
    assert(x * y <= (60_000 * o) * o) by (nonlinear_arith)
        requires
            0 <= x <= 200 * o,
            0 <= y <= 300 * o,
    ;
    growth::products_are_bounded(wide, f, 60_000);
    growth::product_error(wide, f);
    assert(p.units() * o - wide.units() * f.units() == (p.units() - dl * f.units()) * o) by (nonlinear_arith)
        requires
            wide.units() == dl * o,
    ;
    let (pe, px) = (p.units() - dl * f.units(), size(p.unsigned()) as int);
    assert(-(px + 0x10_0000_0000_0000) <= 0x20_0000_0000_0000 * pe <= px + 0x10_0000_0000_0000) by (nonlinear_arith)
        requires
            -((px + 0x10_0000_0000_0000) * o) <= 0x20_0000_0000_0000 * (pe * o) <= (px + 0x10_0000_0000_0000) * o,
            o > 0,
    ;
    let q = double::quotient(p, high);
    let h = size(high.unsigned()) as int;
    assert(o <= h <= 100 * o) by (nonlinear_arith)
        requires
            h == dn * o || h == -(dn * o),
            h >= 0,
            1 <= dn <= 100 || -100 <= dn <= -1,
            o > 0,
    ;
    assert(size(0) == 0);
    assert(px <= 60_000 * h);
    growth::quotients_are_bounded(p, high, 60_000);
    growth::quotient_error(p, high);
    let qx = size(q.unsigned()) as int;
    assert(q.units() * high.units() - p.units() * o == (q.units() * dn - p.units()) * o) by (nonlinear_arith)
        requires
            high.units() == dn * o,
    ;
    let qe = q.units() * dn - p.units();
    assert((qx + 0x10_0000_0000_0000) * h <= (qx + 0x10_0000_0000_0000) * (100 * o)) by (nonlinear_arith)
        requires
            h <= 100 * o,
            qx >= 0,
    ;
    assert(-(100 * (qx + 0x10_0000_0000_0000)) <= 0x20_0000_0000_0000 * qe <= 100 * (qx + 0x10_0000_0000_0000))
        by (nonlinear_arith)
        requires
            -((qx + 0x10_0000_0000_0000) * (100 * o)) <= 0x20_0000_0000_0000 * (qe * o) <= (qx
                + 0x10_0000_0000_0000) * (100 * o),
            o > 0,
    ;
    let e = double::sum(q, ca.lon);
    growth::sums_are_bounded(q, ca.lon, 61_000);
    growth::sum_error(q, ca.lon);
    lemma_crossing_arithmetic(
        big_f,
        f.units(),
        dl,
        p.units(),
        dn,
        q.units(),
        e.units(),
        a.1 * o,
        o,
    );
}

/// A latitude is south of a corner of whole degrees exactly if its value says so.
proof fn lemma_south(lat: Double, v: int)
    requires
        lat.finite(),
        -100 <= v <= 100,
    ensures
        double::less(lat, double::integer(v)) <==> lat.units() < v * double::one(),
{
    double::integers_are_exact(v);
    growth::less_by_value(lat, double::integer(v));
}

/// A ray to the east crosses an edge only where the edge spans the latitude; then
/// it does where it starts clearly west of it, and not where clearly east.
proof fn lemma_crosses(lat: Double, lon: Double, s: (int, int), n: (int, int))
    requires
        lat.finite(),
        lon.finite(),
        -100 * double::one() <= lat.units() <= 100 * double::one(),
        -100 <= s.0 <= 100,
        -100 <= s.1 <= 100,
        -100 <= n.0 <= 100,
        -100 <= n.1 <= 100,
        1 <= n.0 - s.0 <= 100,
    ensures
        ({
            let (south, north) = (corner(s.0, s.1), corner(n.0, n.1));
            let level = level_with(lat.units(), s, n);
            &&& crosses(lat, lon, south, north) ==> level
            &&& crosses(lat, lon, north, south) ==> level
            &&& level && clearly_west(lat.units(), lon.units(), s, n) ==> crosses(lat, lon, south, north) && crosses(
                lat,
                lon,
                north,
                south,
            )
            &&& level && clearly_east(lat.units(), lon.units(), s, n) ==> !crosses(lat, lon, south, north) && !crosses(
                lat,
                lon,
                north,
                south,
            )
        }),
{
    let o = double::one() as int;
    vstd::arithmetic::power2::lemma_pow2_pos(UNIT_EXPONENT as nat);
    let (south, north) = (corner(s.0, s.1), corner(n.0, n.1));
    lemma_south(lat, s.0);
    lemma_south(lat, n.0);
    assert(s.0 * o < n.0 * o) by (nonlinear_arith)
        requires
            s.0 < n.0,
            o > 0,
    ;
    lemma_meeting(lat, s, n);
    lemma_meeting(lat, n, s);
    let (e, f) = (meeting(lat, south, north), meeting(lat, north, south));
    growth::less_by_value(lon, e);
    growth::less_by_value(lon, f);
    let (l, x) = (lat.units(), lon.units());
    let d = n.0 - s.0;
    let line = (n.1 - s.1) * (l - s.0 * o);
    // Both ways round the line is the same.
    let other = (s.1 - n.1) * (l - n.0 * o);
    let w = n.1 - s.1;
    let (up, g) = (l - s.0 * o, f.units() - s.1 * o);
    assert(n.0 * o == s.0 * o + d * o) by (nonlinear_arith)
        requires
            d == n.0 - s.0,
    ;
    assert(n.1 * o == s.1 * o + w * o) by (nonlinear_arith)
        requires
            w == n.1 - s.1,
    ;
    assert((s.1 - n.1) * (up - d * o) == -(w * up) + w * (d * o)) by (nonlinear_arith)
        requires
            w == n.1 - s.1,
    ;
    assert((-d) * (g - w * o) == -(d * g) + w * (d * o)) by (nonlinear_arith);
    lemma_side(d, x - s.1 * o, e.units() - s.1 * o, line, o);
    lemma_side(d, x - s.1 * o, f.units() - s.1 * o, line, o);
}

/// What lies clearly to one side of a line lies to that side of what is near it.
proof fn lemma_side(d: int, x: int, e: int, line: int, o: int)
    requires
        1 <= d <= 100,
        o > 0,
        -o <= 0x1000_0000 * (d * e - line) <= o,
    ensures
        0x100_0000 * (d * x - line) <= -(d * o) ==> x < e,
        0x100_0000 * (d * x - line) >= d * o ==> x >= e,
{
    if 0x100_0000 * (d * x - line) <= -(d * o) {
        assert(d * x < d * e) by (nonlinear_arith)
            requires
                0x100_0000 * (d * x - line) <= -(d * o),
                -o <= 0x1000_0000 * (d * e - line),
                1 <= d,
                o > 0,
        ;
        assert(x < e) by (nonlinear_arith)
            requires
                d * x < d * e,
                1 <= d,
        ;
    }
    if 0x100_0000 * (d * x - line) >= d * o {
        assert(d * x > d * e) by (nonlinear_arith)
            requires
                0x100_0000 * (d * x - line) >= d * o,
                0x1000_0000 * (d * e - line) <= o,
                1 <= d,
                o > 0,
        ;
        assert(x > e) by (nonlinear_arith)
            requires
                d * x > d * e,
                1 <= d,
        ;
    }
}

/// Between two parallels the outline holds what lies between the two shores there.
spec fn band_is_right(
    lat: Double,
    lon: Double,
    ws: (int, int),
    wn: (int, int),
    es: (int, int),
    en: (int, int),
) -> bool {
    let (l, x) = (lat.units(), lon.units());
    &&& clearly_east(l, x, ws, wn) && clearly_west(l, x, es, en) ==> inside(lat, lon, saa_outline())
    &&& clearly_west(l, x, ws, wn) || clearly_east(l, x, es, en) ==> !inside(lat, lon, saa_outline())
}

/// Whether the ray crosses the edge that ends in corner `i` of the outline.
spec fn crosses_into(lat: Double, lon: Double, i: int) -> bool {
    crosses(lat, lon, saa_outline()[i], saa_outline()[i - 1])
}

spec fn one_if(b: bool) -> int {
    if b { 1 } else { 0 }
}

/// The crossings of the outline, one by one.
proof fn lemma_crossings_counted(lat: Double, lon: Double)
    ensures
        inside(lat, lon, saa_outline()) <==> (one_if(crosses_into(lat, lon, 1)) + one_if(crosses_into(lat, lon, 2))
            + one_if(crosses_into(lat, lon, 3)) + one_if(crosses_into(lat, lon, 4))
            + one_if(crosses_into(lat, lon, 5)) + one_if(crosses_into(lat, lon, 7))
            + one_if(crosses_into(lat, lon, 8)) + one_if(crosses_into(lat, lon, 9))
            + one_if(crosses_into(lat, lon, 10)) + one_if(crosses_into(lat, lon, 11))
            + one_if(crosses_into(lat, lon, 12)) + one_if(crosses_into(lat, lon, 13))
            + one_if(crosses_into(lat, lon, 14))) % 2 == 1,
{
    let outline = saa_outline();
    assert(outline.len() == 15);
    reveal_with_fuel(crossings, 16);
    assert(!crosses(lat, lon, outline[0], outline[14]));
    assert(!crosses(lat, lon, outline[6], outline[5]));
}

/// The ray crosses an edge only where the edge spans the latitude.
proof fn lemma_edges_apart(lat: Double, lon: Double)
    requires
        lat.finite(),
        lon.finite(),
        -100 * double::one() <= lat.units() <= 100 * double::one(),
    ensures
        crosses_into(lat, lon, 1) ==> -50 * double::one() <= lat.units() < -40 * double::one(),
        crosses_into(lat, lon, 2) ==> -40 * double::one() <= lat.units() < -20 * double::one(),
        crosses_into(lat, lon, 3) ==> -20 * double::one() <= lat.units() < -10 * double::one(),
        crosses_into(lat, lon, 4) ==> -10 * double::one() <= lat.units() < -5 * double::one(),
        crosses_into(lat, lon, 5) ==> -5 * double::one() <= lat.units() < 0 * double::one(),
        crosses_into(lat, lon, 7) ==> -5 * double::one() <= lat.units() < 0 * double::one(),
        crosses_into(lat, lon, 8) ==> -15 * double::one() <= lat.units() < -5 * double::one(),
        crosses_into(lat, lon, 9) ==> -25 * double::one() <= lat.units() < -15 * double::one(),
        crosses_into(lat, lon, 10) ==> -35 * double::one() <= lat.units() < -25 * double::one(),
        crosses_into(lat, lon, 11) ==> -45 * double::one() <= lat.units() < -35 * double::one(),
        crosses_into(lat, lon, 12) ==> -50 * double::one() <= lat.units() < -45 * double::one(),
        crosses_into(lat, lon, 13) ==> -55 * double::one() <= lat.units() < -50 * double::one(),
        crosses_into(lat, lon, 14) ==> -55 * double::one() <= lat.units() < -50 * double::one(),
{
    lemma_crosses(lat, lon, (-50, -85), (-40, -80));
    lemma_crosses(lat, lon, (-40, -80), (-20, -60));
    lemma_crosses(lat, lon, (-20, -60), (-10, -40));
    lemma_crosses(lat, lon, (-10, -40), (-5, -20));
    lemma_crosses(lat, lon, (-5, -20), (0, 0));
    lemma_crosses(lat, lon, (-5, 25), (0, 15));
    lemma_crosses(lat, lon, (-15, 30), (-5, 25));
    lemma_crosses(lat, lon, (-25, 25), (-15, 30));
    lemma_crosses(lat, lon, (-35, 15), (-25, 25));
    lemma_crosses(lat, lon, (-45, 0), (-35, 15));
    lemma_crosses(lat, lon, (-50, -30), (-45, 0));
    lemma_crosses(lat, lon, (-55, -60), (-50, -30));
    lemma_crosses(lat, lon, (-55, -60), (-50, -85));
}

proof fn lemma_band_0(lat: Double, lon: Double)
    requires
        lat.finite(),
        lon.finite(),
        -55 * double::one() <= lat.units() < -50 * double::one(),
    ensures
        band_is_right(lat, lon, (-55, -60), (-50, -85), (-55, -60), (-50, -30)),
{
    lemma_crossings_counted(lat, lon);
    lemma_edges_apart(lat, lon);
    lemma_crosses(lat, lon, (-55, -60), (-50, -85));
    lemma_crosses(lat, lon, (-55, -60), (-50, -30));
}

proof fn lemma_band_1(lat: Double, lon: Double)
    requires
        lat.finite(),
        lon.finite(),
        -50 * double::one() <= lat.units() < -45 * double::one(),
    ensures
        band_is_right(lat, lon, (-50, -85), (-40, -80), (-50, -30), (-45, 0)),
{
    lemma_crossings_counted(lat, lon);
    lemma_edges_apart(lat, lon);
    lemma_crosses(lat, lon, (-50, -85), (-40, -80));
    lemma_crosses(lat, lon, (-50, -30), (-45, 0));
}

proof fn lemma_band_2(lat: Double, lon: Double)
    requires
        lat.finite(),
        lon.finite(),
        -45 * double::one() <= lat.units() < -40 * double::one(),
    ensures
        band_is_right(lat, lon, (-50, -85), (-40, -80), (-45, 0), (-35, 15)),
{
    lemma_crossings_counted(lat, lon);
    lemma_edges_apart(lat, lon);
    lemma_crosses(lat, lon, (-50, -85), (-40, -80));
    lemma_crosses(lat, lon, (-45, 0), (-35, 15));
}

proof fn lemma_band_3(lat: Double, lon: Double)
    requires
        lat.finite(),
        lon.finite(),
        -40 * double::one() <= lat.units() < -35 * double::one(),
    ensures
        band_is_right(lat, lon, (-40, -80), (-20, -60), (-45, 0), (-35, 15)),
{
    lemma_crossings_counted(lat, lon);
    lemma_edges_apart(lat, lon);
    lemma_crosses(lat, lon, (-40, -80), (-20, -60));
    lemma_crosses(lat, lon, (-45, 0), (-35, 15));
}

proof fn lemma_band_4(lat: Double, lon: Double)
    requires
        lat.finite(),
        lon.finite(),
        -35 * double::one() <= lat.units() < -25 * double::one(),
    ensures
        band_is_right(lat, lon, (-40, -80), (-20, -60), (-35, 15), (-25, 25)),
{
    lemma_crossings_counted(lat, lon);
    lemma_edges_apart(lat, lon);
    lemma_crosses(lat, lon, (-40, -80), (-20, -60));
    lemma_crosses(lat, lon, (-35, 15), (-25, 25));
}

proof fn lemma_band_5(lat: Double, lon: Double)
    requires
        lat.finite(),
        lon.finite(),
        -25 * double::one() <= lat.units() < -20 * double::one(),
    ensures
        band_is_right(lat, lon, (-40, -80), (-20, -60), (-25, 25), (-15, 30)),
{
    lemma_crossings_counted(lat, lon);
    lemma_edges_apart(lat, lon);
    lemma_crosses(lat, lon, (-40, -80), (-20, -60));
    lemma_crosses(lat, lon, (-25, 25), (-15, 30));
}

proof fn lemma_band_6(lat: Double, lon: Double)
    requires
        lat.finite(),
        lon.finite(),
        -20 * double::one() <= lat.units() < -15 * double::one(),
    ensures
        band_is_right(lat, lon, (-20, -60), (-10, -40), (-25, 25), (-15, 30)),
{
    lemma_crossings_counted(lat, lon);
    lemma_edges_apart(lat, lon);
    lemma_crosses(lat, lon, (-20, -60), (-10, -40));
    lemma_crosses(lat, lon, (-25, 25), (-15, 30));
}

proof fn lemma_band_7(lat: Double, lon: Double)
    requires
        lat.finite(),
        lon.finite(),
        -15 * double::one() <= lat.units() < -10 * double::one(),
    ensures
        band_is_right(lat, lon, (-20, -60), (-10, -40), (-15, 30), (-5, 25)),
{
    lemma_crossings_counted(lat, lon);
    lemma_edges_apart(lat, lon);
    lemma_crosses(lat, lon, (-20, -60), (-10, -40));
    lemma_crosses(lat, lon, (-15, 30), (-5, 25));
}

proof fn lemma_band_8(lat: Double, lon: Double)
    requires
        lat.finite(),
        lon.finite(),
        -10 * double::one() <= lat.units() < -5 * double::one(),
    ensures
        band_is_right(lat, lon, (-10, -40), (-5, -20), (-15, 30), (-5, 25)),
{
    lemma_crossings_counted(lat, lon);
    lemma_edges_apart(lat, lon);
    lemma_crosses(lat, lon, (-10, -40), (-5, -20));
    lemma_crosses(lat, lon, (-15, 30), (-5, 25));
}

proof fn lemma_band_9(lat: Double, lon: Double)
    requires
        lat.finite(),
        lon.finite(),
        -5 * double::one() <= lat.units() < 0 * double::one(),
    ensures
        band_is_right(lat, lon, (-5, -20), (0, 0), (-5, 25), (0, 15)),
{
    lemma_crossings_counted(lat, lon);
    lemma_edges_apart(lat, lon);
    lemma_crosses(lat, lon, (-5, -20), (0, 0));
    lemma_crosses(lat, lon, (-5, 25), (0, 15));
}

/// A sample is in the South Atlantic Anomaly exactly if its latitude and longitude
/// lie between the shores, a ten-millionth of a degree along them left open.
pub proof fn anomaly_lies_between_its_shores(p: TrajectoryPoint)
    requires
        p.lat.finite(),
        p.lon.finite(),
    ensures
        clearly_inside(p.lat.units(), p.lon.units()) ==> in_saa(p),
        clearly_outside(p.lat.units(), p.lon.units()) ==> !in_saa(p),
{
    let (lat, lon) = (p.lat, p.lon);
    let (l, x) = (lat.units(), lon.units());
    let o = double::one() as int;
    vstd::arithmetic::power2::lemma_pow2_pos(UNIT_EXPONENT as nat);
    if l < -55 * o || l >= 0 {
        lemma_crossings_counted(lat, lon);
        lemma_nothing_crossed(lat, lon);
        assert(!clearly_inside(l, x)) by {
            assert forall|i: int| 0 <= i < 6 implies !#[trigger] level_with(
                l,
                western_shore()[i],
                western_shore()[i + 1],
            ) by {
                assert(i == 0 || i == 1 || i == 2 || i == 3 || i == 4 || i == 5);
            }
        }
    } else {
        if l < -50 * o {
            lemma_band_0(lat, lon);
        } else if l < -45 * o {
            lemma_band_1(lat, lon);
        } else if l < -40 * o {
            lemma_band_2(lat, lon);
        } else if l < -35 * o {
            lemma_band_3(lat, lon);
        } else if l < -25 * o {
            lemma_band_4(lat, lon);
        } else if l < -20 * o {
            lemma_band_5(lat, lon);
        } else if l < -15 * o {
            lemma_band_6(lat, lon);
        } else if l < -10 * o {
            lemma_band_7(lat, lon);
        } else if l < -5 * o {
            lemma_band_8(lat, lon);
        } else {
            lemma_band_9(lat, lon);
        }
    }
}

/// North and south of the anomaly no edge is crossed.
proof fn lemma_nothing_crossed(lat: Double, lon: Double)
    requires
        lat.finite(),
        lat.units() < -55 * double::one() || lat.units() >= 0,
    ensures
        !crosses_into(lat, lon, 1),
        !crosses_into(lat, lon, 2),
        !crosses_into(lat, lon, 3),
        !crosses_into(lat, lon, 4),
        !crosses_into(lat, lon, 5),
        !crosses_into(lat, lon, 7),
        !crosses_into(lat, lon, 8),
        !crosses_into(lat, lon, 9),
        !crosses_into(lat, lon, 10),
        !crosses_into(lat, lon, 11),
        !crosses_into(lat, lon, 12),
        !crosses_into(lat, lon, 13),
        !crosses_into(lat, lon, 14),
{
    vstd::arithmetic::power2::lemma_pow2_pos(UNIT_EXPONENT as nat);
    lemma_south(lat, -55);
    lemma_south(lat, -50);
    lemma_south(lat, -45);
    lemma_south(lat, -40);
    lemma_south(lat, -35);
    lemma_south(lat, -25);
    lemma_south(lat, -20);
    lemma_south(lat, -15);
    lemma_south(lat, -10);
    lemma_south(lat, -5);
    lemma_south(lat, 0);
}

} // verus!
