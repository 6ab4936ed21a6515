//! Where a satellite stands: in the Earth's shadow, in the South Atlantic
//! Anomaly.

use vstd::prelude::*;

use crate::double::{self, Double};

verus! {

/// The Earth's radius in kilometres: 6378.137.
pub open spec fn earth_radius_km() -> Double {
    double::ratio(6_378_137, 1000)
}

pub fn earth_radius() -> (r: Double)
    ensures
        r == earth_radius_km(),
{
    Double::decimal(6_378_137, 1000)
}

/// A vector in an Earth-centred frame that does not turn, in kilometres.
#[derive(Debug, Clone, Copy, PartialEq, Eq, Structural)]
pub struct Vector {
    pub x: Double,
    pub y: Double,
    pub z: Double,
}

pub open spec fn dot(a: Vector, b: Vector) -> Double {
    double::sum(
        double::sum(double::product(a.x, b.x), double::product(a.y, b.y)),
        double::product(a.z, b.z),
    )
}

pub open spec fn length(a: Vector) -> Double {
    double::root(dot(a, a))
}

pub open spec fn scaled_down(a: Vector, by: Double) -> Vector {
    Vector { x: double::quotient(a.x, by), y: double::quotient(a.y, by), z: double::quotient(a.z, by) }
}

/// `a` without `along` times the unit vector `u`.
pub open spec fn across(a: Vector, along: Double, u: Vector) -> Vector {
    Vector {
        x: double::difference(a.x, double::product(along, u.x)),
        y: double::difference(a.y, double::product(along, u.y)),
        z: double::difference(a.z, double::product(along, u.z)),
    }
}

/// The satellite is in the Earth's shadow, a cylinder away from the sun: it
/// stands on the far side, nearer to the axis than the Earth's radius. A sun
/// nearer than a kilometre is none.
pub open spec fn in_shadow(satellite: Vector, sun: Vector) -> bool {
    let toward_sun = scaled_down(sun, length(sun));
    let along = dot(satellite, toward_sun);
    &&& !double::less(length(sun), double::integer(1))
    &&& !double::at_most(double::integer(0), along)
    &&& double::less(length(across(satellite, along, toward_sun)), earth_radius_km())
}

fn vector_dot(a: Vector, b: Vector) -> (r: Double)
    ensures
        r == dot(a, b),
{
    a.x.times(b.x).plus(a.y.times(b.y)).plus(a.z.times(b.z))
}

fn vector_length(a: Vector) -> (r: Double)
    ensures
        r == length(a),
{
    vector_dot(a, a).sqrt()
}

/// Whether the satellite is in the Earth's shadow.
pub fn is_in_eclipse(
    eci_x: Double,
    eci_y: Double,
    eci_z: Double,
    sun_x: Double,
    sun_y: Double,
    sun_z: Double,
) -> (r: bool)
    ensures
        r == in_shadow(Vector { x: eci_x, y: eci_y, z: eci_z }, Vector { x: sun_x, y: sun_y, z: sun_z }),
{
    let satellite = Vector { x: eci_x, y: eci_y, z: eci_z };
    let sun = Vector { x: sun_x, y: sun_y, z: sun_z };
    let sun_mag = vector_length(sun);
    if sun_mag.is_less(Double::from_i64(1)) {
        return false;
    }
    let u = Vector { x: sun.x.over(sun_mag), y: sun.y.over(sun_mag), z: sun.z.over(sun_mag) };

    // Satellite position along sun direction
    let along = vector_dot(satellite, u);
    if Double::from_i64(0).is_at_most(along) {
        return false;  // sunlit side
    }
    // Perpendicular distance from Earth-Sun line
    let p = Vector {
        x: satellite.x.minus(along.times(u.x)),
        y: satellite.y.minus(along.times(u.y)),
        z: satellite.z.minus(along.times(u.z)),
    };
    vector_length(p).is_less(earth_radius())
}

/// A corner of a region: latitude and longitude in degrees.
#[derive(Debug, Clone, Copy, PartialEq, Eq, Structural)]
pub struct Corner {
    pub lat: Double,
    pub lon: Double,
}

/// A ray that leaves the point for the east crosses the edge between two corners.
pub open spec fn crosses(lat: Double, lon: Double, a: Corner, b: Corner) -> bool {
    &&& double::less(lat, a.lat) != double::less(lat, b.lat)
    &&& double::less(
        lon,
        double::sum(
            double::quotient(
                double::product(double::difference(b.lon, a.lon), double::difference(lat, a.lat)),
                double::difference(b.lat, a.lat),
            ),
            a.lon,
        ),
    )
}

/// How many of the edges that end in the first `n` corners the ray crosses; the
/// edge before the first corner comes from the last one.
pub open spec fn crossings(lat: Double, lon: Double, polygon: Seq<Corner>, n: int) -> nat
    decreases n,
{
    if n <= 0 {
        0
    } else {
        let before = if n == 1 { polygon.len() - 1 } else { n - 2 };
        let last = if crosses(lat, lon, polygon[n - 1], polygon[before]) { 1nat } else { 0nat };
        crossings(lat, lon, polygon, n - 1) + last
    }
}

/// The point lies in the polygon: a ray from it crosses the outline an odd
/// number of times.
pub open spec fn inside(lat: Double, lon: Double, polygon: Seq<Corner>) -> bool {
    crossings(lat, lon, polygon, polygon.len() as int) % 2 == 1
}

/// Whether a point lies in a polygon.
pub fn point_in_polygon(lat: Double, lon: Double, polygon: &[Corner]) -> (r: bool)
    ensures
        r == inside(lat, lon, polygon@),
{
    let n: usize = polygon.len();
    let mut odd = false;
    let mut i: usize = 0;
    while i < n
        invariant
            n == polygon@.len(),
            i <= n,
            odd == (crossings(lat, lon, polygon@, i as int) % 2 == 1),
        decreases n - i,
    {
        let j: usize = if i == 0 { n - 1 } else { i - 1 };
        let a = polygon[i];
        let b = polygon[j];
        if lat.is_less(a.lat) != lat.is_less(b.lat) {
            let edge = b.lon.minus(a.lon).times(lat.minus(a.lat)).over(b.lat.minus(a.lat)).plus(a.lon);
            if lon.is_less(edge) {
                odd = !odd;
            }
        }
        i = i + 1;
    }
    odd
}

pub open spec fn corner(lat: int, lon: int) -> Corner {
    Corner { lat: double::integer(lat), lon: double::integer(lon) }
}

/// The outline of the South Atlantic Anomaly, where the flux of trapped protons
/// peaks for satellites in low orbits.
pub open spec fn saa_outline() -> Seq<Corner> {
    seq![
        corner(-50, -85),
        corner(-40, -80),
        corner(-20, -60),
        corner(-10, -40),
        corner(-5, -20),
        corner(0, 0),
        corner(0, 15),
        corner(-5, 25),
        corner(-15, 30),
        corner(-25, 25),
        corner(-35, 15),
        corner(-45, 0),
        corner(-50, -30),
        corner(-55, -60),
        corner(-50, -85),
    ]
}

fn corner_at(lat: i64, lon: i64) -> (r: Corner)
    ensures
        r == corner(lat as int, lon as int),
{
    Corner { lat: Double::from_i64(lat), lon: Double::from_i64(lon) }
}

/// The corners of the South Atlantic Anomaly.
pub fn saa_boundary() -> (r: Vec<Corner>)
    ensures
        r@ == saa_outline(),
{
    let r: Vec<Corner> = vec![
        corner_at(-50, -85),
        corner_at(-40, -80),
        corner_at(-20, -60),
        corner_at(-10, -40),
        corner_at(-5, -20),
        corner_at(0, 0),
        corner_at(0, 15),
        corner_at(-5, 25),
        corner_at(-15, 30),
        corner_at(-25, 25),
        corner_at(-35, 15),
        corner_at(-45, 0),
        corner_at(-50, -30),
        corner_at(-55, -60),
        corner_at(-50, -85),
    ];
    assert(r@ =~= saa_outline());
    r
}

} // verus!
