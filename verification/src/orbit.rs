//! Where a satellite and the sun stand: Keplerian motion with the secular drift
//! that the Earth's oblateness causes.
//!
//! Sines, cosines, their inverses and exponentials come from a function that the
//! caller hands in; everything between them is computed here. What follows is
//! stated for every such function.

use vstd::arithmetic::power2::lemma_pow2_pos;
use vstd::prelude::*;

use crate::double::growth::{self, integers_multiply, nearest_to};
use crate::double::model::{lemma_size_monotone, size, UNIT_EXPONENT};
use crate::double::{self, Double};
use crate::hazard::geometry::{self, earth_radius, Vector};
use crate::hazard::TrajectoryPoint;
use crate::sim_client::OrbitalElements;
use crate::time::{self, UtcTime, FIRST_SECOND};

verus! {

/// The number nearest to pi.
pub const PI: u64 = 0x4009_21fb_5444_2d18;

/// The number nearest to the degrees in a radian.
pub const DEGREES_PER_RADIAN: u64 = 0x404c_a5dc_1a63_c1f8;

pub open spec fn pi() -> Double {
    Double { bits: PI }
}

/// Degrees in radians.
pub open spec fn in_radians(degrees: Double) -> Double {
    double::product(degrees, double::quotient(pi(), double::integer(180)))
}

/// Radians in degrees.
pub open spec fn in_degrees(radians: Double) -> Double {
    double::product(radians, Double { bits: DEGREES_PER_RADIAN })
}

pub fn to_radians(degrees: Double) -> (r: Double)
    ensures
        r == in_radians(degrees),
{
    degrees.times(Double::from_bits(PI).over(Double::from_i64(180)))
}

pub fn to_degrees(radians: Double) -> (r: Double)
    ensures
        r == in_degrees(radians),
{
    radians.times(Double::from_bits(DEGREES_PER_RADIAN))
}

/// A value that arithmetic does not reach.
#[derive(Debug, Clone, Copy, PartialEq, Eq, Structural)]
pub enum Transcendental {
    /// The sine of an angle in radians
    Sine(Double),
    /// The cosine of an angle in radians
    Cosine(Double),
    /// The angle, in radians, with the given opposite and adjacent leg
    Angle(Double, Double),
    /// The angle, in radians, with the given sine
    ArcSine(Double),
    /// The exponential
    Exponential(Double),
}

/// `f` can be asked for every value.
pub open spec fn answers_all<F: Fn(Transcendental) -> Double>(f: F) -> bool {
    forall|q: Transcendental| #[trigger] call_requires(f, (q,))
}

/// `f` answers as `m` does.
pub open spec fn follows<F: Fn(Transcendental) -> Double>(f: F, m: spec_fn(Transcendental) -> Double) -> bool {
    forall|q: Transcendental, a: Double| #[trigger] call_ensures(f, (q,), a) ==> a == m(q)
}

/// The Earth's gravitational parameter, 398600.4418 km^3/s^2.
pub open spec fn mu() -> Double {
    double::ratio(3_986_004_418, 10_000)
}

/// The Earth's oblateness, 1.08263e-3.
pub open spec fn j2() -> Double {
    double::ratio(108_263, 100_000_000)
}

pub open spec fn square(x: Double) -> Double {
    double::product(x, x)
}

/// An orbit: its size and shape, its mean motion, the drift of node and perigee,
/// and where it stood at its epoch.
#[derive(Debug, Clone, Copy, PartialEq, Eq, Structural)]
pub struct Orbit {
    /// Semi-major axis in kilometres
    pub a_km: Double,
    /// Mean motion in radians per second
    pub n: Double,
    pub ecc: Double,
    pub cos_inc: Double,
    pub sin_inc: Double,
    /// Drift of the node in radians per second
    pub raan_rate: Double,
    /// Drift of the perigee in radians per second
    pub argp_rate: Double,
    pub raan0: Double,
    pub argp0: Double,
    pub m0: Double,
    pub epoch: UtcTime,
}

pub open spec fn semi_major_axis(e: OrbitalElements) -> Double {
    double::sum(geometry::earth_radius_km(), e.altitude_km)
}

/// Mean motion on an orbit of the given size.
pub open spec fn mean_motion(a_km: Double) -> Double {
    double::root(double::quotient(mu(), double::product(double::product(a_km, a_km), a_km)))
}

/// The Earth's radius over the orbit's parameter, squared.
pub open spec fn flattening(a_km: Double, ecc: Double) -> Double {
    let p = double::product(a_km, double::difference(double::integer(1), double::product(ecc, ecc)));
    square(double::quotient(geometry::earth_radius_km(), p))
}

pub open spec fn node_drift(a_km: Double, ecc: Double, cos_inc: Double) -> Double {
    double::product(
        double::product(
            double::product(double::product(double::ratio(-15, 10), mean_motion(a_km)), j2()),
            flattening(a_km, ecc),
        ),
        cos_inc,
    )
}

pub open spec fn perigee_drift(a_km: Double, ecc: Double, sin_inc: Double) -> Double {
    double::product(
        double::product(
            double::product(double::product(double::ratio(15, 10), mean_motion(a_km)), j2()),
            flattening(a_km, ecc),
        ),
        double::difference(
            double::integer(2),
            double::product(double::ratio(25, 10), square(sin_inc)),
        ),
    )
}

/// The orbit with the given elements. Where the epoch cannot be read it is
/// `start`.
pub open spec fn orbit_of(e: OrbitalElements, cos_inc: Double, sin_inc: Double, start: UtcTime) -> Orbit {
    let a_km = semi_major_axis(e);
    Orbit {
        a_km,
        n: mean_motion(a_km),
        ecc: e.eccentricity,
        cos_inc,
        sin_inc,
        raan_rate: node_drift(a_km, e.eccentricity, cos_inc),
        argp_rate: perigee_drift(a_km, e.eccentricity, sin_inc),
        raan0: in_radians(e.raan_deg),
        argp0: in_radians(e.arg_perigee_deg),
        m0: in_radians(e.mean_anomaly_deg),
        epoch: match time::reading(e.epoch@) {
            Some(t) => t,
            None => start,
        },
    }
}

impl Orbit {
    /// Seconds since the epoch.
    pub open spec fn age_s(self, t: UtcTime) -> Double {
        double::quotient(double::integer(time::millis_between(t, self.epoch)), double::integer(1000))
    }

    /// Mean anomaly at an instant.
    pub open spec fn mean_anomaly_at(self, t: UtcTime) -> Double {
        double::sum(self.m0, double::product(self.n, self.age_s(t)))
    }

    /// Opposite and adjacent leg of the true anomaly, for an eccentric anomaly
    /// with the given sine and cosine.
    pub open spec fn anomaly_legs(self, sin_e: Double, cos_e: Double) -> (Double, Double) {
        (
            double::product(
                double::root(double::difference(double::integer(1), double::product(self.ecc, self.ecc))),
                sin_e,
            ),
            double::difference(cos_e, self.ecc),
        )
    }

    /// Distance from the Earth's centre.
    pub open spec fn distance(self, cos_e: Double) -> Double {
        double::product(
            self.a_km,
            double::difference(double::integer(1), double::product(self.ecc, cos_e)),
        )
    }

    /// Right ascension of the node at an instant.
    pub open spec fn node_at(self, t: UtcTime) -> Double {
        double::sum(self.raan0, double::product(self.raan_rate, self.age_s(t)))
    }

    /// Angle from the node to the satellite.
    pub open spec fn latitude_argument(self, t: UtcTime, true_anomaly: Double) -> Double {
        double::sum(
            double::sum(self.argp0, double::product(self.argp_rate, self.age_s(t))),
            true_anomaly,
        )
    }

    /// Position at distance `r`, with the node and the angle from it given by
    /// their cosines and sines.
    pub open spec fn place(self, r: Double, node: (Double, Double), u: (Double, Double)) -> Vector {
        Vector {
            x: double::product(
                r,
                double::difference(
                    double::product(node.0, u.0),
                    double::product(double::product(node.1, u.1), self.cos_inc),
                ),
            ),
            y: double::product(
                r,
                double::sum(
                    double::product(node.1, u.0),
                    double::product(double::product(node.0, u.1), self.cos_inc),
                ),
            ),
            z: double::product(double::product(r, u.1), self.sin_inc),
        }
    }

    /// The orbit with the given elements; cosine and sine are those of its
    /// inclination.
    pub fn new(elements: &OrbitalElements, cos_inc: Double, sin_inc: Double, start: UtcTime) -> (r: Orbit)
        requires
            start.valid(),
        ensures
            r == orbit_of(*elements, cos_inc, sin_inc, start),
            r.epoch.valid(),
    {
        let a_km = earth_radius().plus(elements.altitude_km);
        let n = Double::decimal(3_986_004_418, 10_000).over(a_km.times(a_km).times(a_km)).sqrt();
        let ecc = elements.eccentricity;
        let p = a_km.times(Double::from_i64(1).minus(ecc.times(ecc)));
        let q = earth_radius().over(p);
        let flat = q.times(q);
        let oblateness = Double::decimal(108_263, 100_000_000);
        let raan_rate = Double::decimal(-15, 10).times(n).times(oblateness).times(flat).times(cos_inc);
        let tilt = Double::from_i64(2).minus(Double::decimal(25, 10).times(sin_inc.times(sin_inc)));
        let argp_rate = Double::decimal(15, 10).times(n).times(oblateness).times(flat).times(tilt);
        let epoch = match UtcTime::parse(elements.epoch.as_str()) {
            Some(t) => t,
            None => start,
        };
        Orbit {
            a_km,
            n,
            ecc,
            cos_inc,
            sin_inc,
            raan_rate,
            argp_rate,
            raan0: to_radians(elements.raan_deg),
            argp0: to_radians(elements.arg_perigee_deg),
            m0: to_radians(elements.mean_anomaly_deg),
            epoch,
        }
    }

    fn age(&self, t: UtcTime) -> (r: Double)
        requires
            self.epoch.valid(),
            t.valid(),
        ensures
            r == self.age_s(t),
    {
        let millis: i64 = t.millis_since(self.epoch);
        Double::from_i64(millis).over(Double::from_i64(1000))
    }

    /// Mean anomaly at an instant, in radians.
    fn mean_anomaly(&self, t: UtcTime) -> (r: Double)
        requires
            self.epoch.valid(),
            t.valid(),
        ensures
            r == self.mean_anomaly_at(t),
    {
        self.m0.plus(self.n.times(self.age(t)))
    }

    /// The legs whose angle is the true anomaly.
    fn true_anomaly_legs(&self, sin_e: Double, cos_e: Double) -> (r: (Double, Double))
        ensures
            r == self.anomaly_legs(sin_e, cos_e),
    {
        let axis = Double::from_i64(1).minus(self.ecc.times(self.ecc)).sqrt();
        (axis.times(sin_e), cos_e.minus(self.ecc))
    }

    /// Distance from the Earth's centre in kilometres.
    fn radius(&self, cos_e: Double) -> (r: Double)
        ensures
            r == self.distance(cos_e),
    {
        self.a_km.times(Double::from_i64(1).minus(self.ecc.times(cos_e)))
    }

    /// Right ascension of the node, and angle from the node to the satellite.
    fn angles(&self, t: UtcTime, true_anomaly: Double) -> (r: (Double, Double))
        requires
            self.epoch.valid(),
            t.valid(),
        ensures
            r == (self.node_at(t), self.latitude_argument(t, true_anomaly)),
    {
        let dt_s = self.age(t);
        let raan = self.raan0.plus(self.raan_rate.times(dt_s));
        let argp = self.argp0.plus(self.argp_rate.times(dt_s));
        (raan, argp.plus(true_anomaly))
    }

    /// Position of the satellite; node and angle from it are given by cosine and
    /// sine.
    fn position(&self, r_km: Double, node: (Double, Double), u: (Double, Double)) -> (r: Vector)
        ensures
            r == self.place(r_km, node, u),
    {
        let (cos_raan, sin_raan) = node;
        let (cos_u, sin_u) = u;
        Vector {
            x: r_km.times(cos_raan.times(cos_u).minus(sin_raan.times(sin_u).times(self.cos_inc))),
            y: r_km.times(sin_raan.times(cos_u).plus(cos_raan.times(sin_u).times(self.cos_inc))),
            z: r_km.times(sin_u).times(self.sin_inc),
        }
    }
}

/// How many steps Newton's method may take.
pub const KEPLER_ROUNDS: u32 = 15;

/// Newton's method on Kepler's equation: the eccentric anomaly found so far.
#[derive(Debug, Clone, Copy, PartialEq, Eq, Structural)]
pub struct Kepler {
    pub mean_anomaly: Double,
    pub ecc: Double,
    pub anomaly: Double,
    pub rounds: u32,
    pub settled: bool,
}

/// Newton's correction at an anomaly with the given sine and cosine.
pub open spec fn correction(k: Kepler, sin_e: Double, cos_e: Double) -> Double {
    double::quotient(
        double::difference(double::difference(k.anomaly, double::product(k.ecc, sin_e)), k.mean_anomaly),
        double::difference(double::integer(1), double::product(k.ecc, cos_e)),
    )
}

/// The search after one more step.
pub open spec fn refined(k: Kepler, sin_e: Double, cos_e: Double) -> Kepler {
    let de = correction(k, sin_e, cos_e);
    Kepler {
        anomaly: double::difference(k.anomaly, de),
        rounds: (k.rounds + 1) as u32,
        settled: double::less(double::absolute(de), double::ratio(1, 1_000_000_000_000)),
        ..k
    }
}

impl Kepler {
    /// The search goes on: no correction was negligible yet, and there are rounds
    /// left.
    pub open spec fn searching(self) -> bool {
        !self.settled && self.rounds < KEPLER_ROUNDS
    }

    /// One more step, with sine and cosine of the anomaly found so far.
    fn refine(&mut self, sin_e: Double, cos_e: Double)
        requires
            old(self).searching(),
        ensures
            *final(self) == refined(*old(self), sin_e, cos_e),
            final(self).rounds == old(self).rounds + 1,
    {
        let slope = Double::from_i64(1).minus(self.ecc.times(cos_e));
        let de = self.anomaly.minus(self.ecc.times(sin_e)).minus(self.mean_anomaly).over(slope);
        self.anomaly = self.anomaly.minus(de);
        self.rounds = self.rounds + 1;
        self.settled = de.abs().is_less(Double::decimal(1, 1_000_000_000_000));
    }
}

/// Where the search ends.
pub open spec fn search(k: Kepler, m: spec_fn(Transcendental) -> Double) -> Kepler
    decreases KEPLER_ROUNDS - k.rounds,
{
    if k.searching() {
        search(refined(k, m(Transcendental::Sine(k.anomaly)), m(Transcendental::Cosine(k.anomaly))), m)
    } else {
        k
    }
}

/// The eccentric anomaly for a mean anomaly: the search starts at the mean anomaly
/// within a turn.
pub open spec fn eccentric_anomaly(mean: Double, ecc: Double, m: spec_fn(Transcendental) -> Double) -> Double {
    let start = in_turn(mean);
    search(Kepler { mean_anomaly: start, ecc, anomaly: start, rounds: 0, settled: false }, m).anomaly
}

/// The search takes at most fifteen steps, whatever it is answered.
pub proof fn searches_end(k: Kepler, m: spec_fn(Transcendental) -> Double)
    requires
        k.rounds <= KEPLER_ROUNDS,
    ensures
        !search(k, m).searching(),
        search(k, m).rounds <= KEPLER_ROUNDS,
    decreases KEPLER_ROUNDS - k.rounds,
{
    if k.searching() {
        searches_end(
            refined(k, m(Transcendental::Sine(k.anomaly)), m(Transcendental::Cosine(k.anomaly))),
            m,
        );
    }
}

/// Solves Kepler's equation by Newton's method.
pub fn solve_kepler<F: Fn(Transcendental) -> Double>(m: Double, ecc: Double, f: &F) -> (r: Double)
    requires
        answers_all(*f),
    ensures
        forall|values: spec_fn(Transcendental) -> Double| #[trigger]
            follows(*f, values) ==> r == eccentric_anomaly(m, ecc, values),
{
    let start = within_turn(m);
    let mut k = Kepler { mean_anomaly: start, ecc, anomaly: start, rounds: 0, settled: false };
    let ghost first = k;
    while !k.settled && k.rounds < KEPLER_ROUNDS
        invariant
            answers_all(*f),
            k.rounds <= KEPLER_ROUNDS,
            forall|values: spec_fn(Transcendental) -> Double| #[trigger]
                follows(*f, values) ==> search(first, values) == search(k, values),
        decreases KEPLER_ROUNDS - k.rounds,
    {
        let ghost before = k;
        let sin_e = f(Transcendental::Sine(k.anomaly));
        let cos_e = f(Transcendental::Cosine(k.anomaly));
        k.refine(sin_e, cos_e);
        assert forall|values: spec_fn(Transcendental) -> Double| #[trigger] follows(*f, values) implies search(
            first,
            values,
        ) == search(k, values) by {
            assert(search(before, values) == search(k, values));
        }
    }
    k.anomaly
}

/// An angle brought into one turn.
pub open spec fn in_turn(angle: Double) -> Double {
    double::least_remainder(angle, double::product(double::integer(2), pi()))
}

/// Brings an angle into one turn.
pub fn within_turn(m: Double) -> (r: Double)
    ensures
        r == in_turn(m),
{
    m.rem_euclid(Double::from_i64(2).times(Double::from_bits(PI)))
}

/// Second of the minute; a leap second is the sixtieth.
pub open spec fn second_of_minute(t: UtcTime) -> int {
    t.second_of_day() % 60 + if t.leap() { 1int } else { 0int }
}

/// Day of the month with the time of day as a fraction.
pub open spec fn day_with_fraction(t: UtcTime) -> Double {
    let hours = double::sum(
        double::sum(
            double::integer(t.second_of_day() / 3600),
            double::quotient(double::integer(t.second_of_day() / 60 % 60), double::integer(60)),
        ),
        double::quotient(double::integer(second_of_minute(t)), double::integer(3600)),
    );
    double::sum(
        double::integer(time::calendar_date(t.secs).2 as int),
        double::quotient(hours, double::integer(24)),
    )
}

/// The Julian date of an instant. January and February count as the last months
/// of the year before.
pub open spec fn julian_date_of(t: UtcTime) -> Double {
    let (year, month, day) = time::calendar_date(t.secs);
    let early = month <= 2;
    let y = if early {
        double::difference(double::integer(year as int), double::integer(1))
    } else {
        double::integer(year as int)
    };
    let m = if early {
        double::sum(double::integer(month as int), double::integer(12))
    } else {
        double::integer(month as int)
    };
    let a = double::floored(double::quotient(y, double::integer(100)));
    let b = double::sum(
        double::difference(double::integer(2), a),
        double::floored(double::quotient(a, double::integer(4))),
    );
    let years = double::floored(
        double::product(double::ratio(36_525, 100), double::sum(y, double::integer(4716))),
    );
    let months = double::floored(
        double::product(double::ratio(306_001, 10_000), double::sum(m, double::integer(1))),
    );
    double::difference(
        double::sum(double::sum(double::sum(years, months), day_with_fraction(t)), b),
        double::ratio(15_245, 10),
    )
}

/// The Julian date of an instant.
pub fn julian_date(t: UtcTime) -> (r: Double)
    requires
        t.valid(),
    ensures
        r == julian_date_of(t),
{
    let (year, month, day) = t.date();
    // The calendar's first second starts a day.
    let of_day: i64 = (t.secs - FIRST_SECOND) % 86_400;
    assert(of_day == t.second_of_day());
    let h = Double::from_i64(of_day / 3600);
    let min = Double::from_i64(of_day / 60 % 60);
    let leap: i64 = if t.nanos >= 1_000_000_000 { 1 } else { 0 };
    let sec = Double::from_i64(of_day % 60 + leap);
    let hours = h.plus(min.over(Double::from_i64(60))).plus(sec.over(Double::from_i64(3600)));
    let day_frac = Double::from_i64(day as i64).plus(hours.over(Double::from_i64(24)));

    let y = Double::from_i64(year as i64);
    let m = Double::from_i64(month as i64);
    let (y2, m2) = if month <= 2 {
        (y.minus(Double::from_i64(1)), m.plus(Double::from_i64(12)))
    } else {
        (y, m)
    };
    let a = y2.over(Double::from_i64(100)).floor();
    let b = Double::from_i64(2).minus(a).plus(a.over(Double::from_i64(4)).floor());
    let years = Double::decimal(36_525, 100).times(y2.plus(Double::from_i64(4716))).floor();
    let months = Double::decimal(306_001, 10_000).times(m2.plus(Double::from_i64(1))).floor();
    years.plus(months).plus(day_frac).plus(b).minus(Double::decimal(15_245, 10))
}

/// Days since noon of the first day of 2000.
pub open spec fn days_of_epoch(t: UtcTime) -> Double {
    double::difference(julian_date_of(t), double::integer(2_451_545))
}

/// The Earth's rotation at an instant, in radians.
pub open spec fn sidereal_angle(t: UtcTime) -> Double {
    let days = days_of_epoch(t);
    let centuries = double::quotient(days, double::integer(36_525));
    let degrees = double::sum(
        double::sum(
            double::ratio(28_046_061_837, 100_000_000),
            double::product(double::ratio(36_098_564_736_629, 100_000_000_000), days),
        ),
        double::product(double::product(double::ratio(387_933, 1_000_000_000), centuries), centuries),
    );
    in_radians(double::remainder(degrees, double::integer(360)))
}

/// Greenwich sidereal time in radians.
pub fn greenwich_sidereal_time(t: UtcTime) -> (r: Double)
    requires
        t.valid(),
    ensures
        r == sidereal_angle(t),
{
    let days = julian_date(t).minus(Double::from_i64(2_451_545));
    let t_centuries = days.over(Double::from_i64(36_525));
    let gmst_deg = Double::decimal(28_046_061_837, 100_000_000).plus(
        Double::decimal(36_098_564_736_629, 100_000_000_000).times(days),
    ).plus(Double::decimal(387_933, 1_000_000_000).times(t_centuries).times(t_centuries));
    to_radians(gmst_deg.rem(Double::from_i64(360)))
}

/// The sun's mean longitude and mean anomaly in radians.
pub open spec fn sun_angles(t: UtcTime) -> (Double, Double) {
    let n = days_of_epoch(t);
    (
        in_radians(
            double::sum(
                double::ratio(280_460, 1000),
                double::product(double::ratio(9_856_474, 10_000_000), n),
            ),
        ),
        in_radians(
            double::sum(
                double::ratio(357_528, 1000),
                double::product(double::ratio(9_856_003, 10_000_000), n),
            ),
        ),
    )
}

/// The sun's longitude along the ecliptic, from its mean longitude and the sines
/// of its mean anomaly and of twice that.
pub open spec fn sun_longitude(mean: Double, sin_g: Double, sin_2g: Double) -> Double {
    double::sum(
        mean,
        in_radians(
            double::sum(
                double::product(double::ratio(1915, 1000), sin_g),
                double::product(double::ratio(20, 1000), sin_2g),
            ),
        ),
    )
}

/// The sun's position, from cosine and sine of its longitude and of the obliquity.
pub open spec fn sun_place(longitude: (Double, Double), obliquity: (Double, Double)) -> Vector {
    let au_km = double::ratio(1_495_978_707, 10);
    Vector {
        x: double::product(au_km, longitude.0),
        y: double::product(double::product(au_km, longitude.1), obliquity.0),
        z: double::product(double::product(au_km, longitude.1), obliquity.1),
    }
}

/// The sun's mean longitude and mean anomaly in radians.
fn solar_angles(t: UtcTime) -> (r: (Double, Double))
    requires
        t.valid(),
    ensures
        r == sun_angles(t),
{
    let n = julian_date(t).minus(Double::from_i64(2_451_545));
    let l = Double::decimal(280_460, 1000).plus(Double::decimal(9_856_474, 10_000_000).times(n));
    let g = Double::decimal(357_528, 1000).plus(Double::decimal(9_856_003, 10_000_000).times(n));
    (to_radians(l), to_radians(g))
}

/// The sun's longitude along the ecliptic in radians.
fn ecliptic_longitude(mean: Double, sin_g: Double, sin_2g: Double) -> (r: Double)
    ensures
        r == sun_longitude(mean, sin_g, sin_2g),
{
    let center = Double::decimal(1915, 1000).times(sin_g).plus(Double::decimal(20, 1000).times(sin_2g));
    mean.plus(to_radians(center))
}

/// The obliquity of the ecliptic, 23.439 degrees, in radians.
pub open spec fn tilt() -> Double {
    in_radians(double::ratio(23_439, 1000))
}

/// Where the sun stands at an instant.
pub open spec fn sun_at(t: UtcTime, m: spec_fn(Transcendental) -> Double) -> Vector {
    let (l, g) = sun_angles(t);
    let twice = double::product(double::integer(2), g);
    let lambda = sun_longitude(l, m(Transcendental::Sine(g)), m(Transcendental::Sine(twice)));
    sun_place(
        (m(Transcendental::Cosine(lambda)), m(Transcendental::Sine(lambda))),
        (m(Transcendental::Cosine(tilt())), m(Transcendental::Sine(tilt()))),
    )
}

/// The sun's position: a low-precision ephemeris, good to less than a degree.
pub fn sun_position_eci<F: Fn(Transcendental) -> Double>(t: UtcTime, f: &F) -> (r: Vector)
    requires
        t.valid(),
        answers_all(*f),
    ensures
        forall|m: spec_fn(Transcendental) -> Double| #[trigger] follows(*f, m) ==> r == sun_at(t, m),
{
    let (l, g) = solar_angles(t);
    let sin_g = f(Transcendental::Sine(g));
    let sin_2g = f(Transcendental::Sine(Double::from_i64(2).times(g)));
    let lambda = ecliptic_longitude(l, sin_g, sin_2g);
    let epsilon = to_radians(Double::decimal(23_439, 1000));
    let (cos_l, sin_l) = (f(Transcendental::Cosine(lambda)), f(Transcendental::Sine(lambda)));
    let (cos_e, sin_e) = (f(Transcendental::Cosine(epsilon)), f(Transcendental::Sine(epsilon)));
    let au_km = Double::decimal(1_495_978_707, 10);
    Vector {
        x: au_km.times(cos_l),
        y: au_km.times(sin_l).times(cos_e),
        z: au_km.times(sin_l).times(sin_e),
    }
}

/// The exponent of the strength of the South Atlantic Anomaly at an altitude: a
/// Gaussian around 400 km with a deviation of 150 km.
pub open spec fn saa_decay(alt_km: Double) -> Double {
    let off = double::difference(alt_km, double::integer(400));
    double::quotient(
        double::opposite(square(off)),
        double::product(double::integer(2), square(double::integer(150))),
    )
}

/// The strength of the South Atlantic Anomaly at an altitude.
pub open spec fn saa_strength(alt_km: Double, m: spec_fn(Transcendental) -> Double) -> Double {
    m(Transcendental::Exponential(saa_decay(alt_km)))
}

/// How far an altitude lies from 400 km, in units.
pub open spec fn off_peak(alt_km: Double) -> nat {
    double::magnitude(alt_km.units() - 400 * double::one())
}

proof fn lemma_decay(alt_km: Double)
    requires
        alt_km.finite(),
    ensures
        ({
            let off = double::difference(alt_km, double::integer(400));
            let width = double::integer(45_000);
            &&& saa_decay(alt_km) == double::quotient(double::opposite(square(off)), width)
            &&& width.finite() && !width.zero() && !width.negative()
            &&& !off.nan()
            &&& off.unsigned() == nearest_to(off_peak(alt_km), 1)
            &&& !square(off).nan()
            &&& !square(off).negative()
            &&& off.finite() ==> square(off).unsigned() == nearest_to(
                size(off.unsigned()) * size(off.unsigned()),
                double::one(),
            )
            &&& off.infinite() ==> square(off).infinite()
        }),
{
    integers_multiply(150, 150);
    integers_multiply(2, 22_500);
    double::integers_are_finite(45_000);
    double::integers_are_exact(400);
    double::integers_are_finite(400);
    let peak = double::integer(400);
    let off = double::difference(alt_km, peak);
    growth::lemma_opposite(peak);
    growth::lemma_sum_rank(alt_km, double::opposite(peak));
    if off.finite() {
        growth::lemma_product_rank(off, off);
    }
    reveal(double::product);
}

/// The anomaly's exponent is never positive, and it falls with the distance from
/// 400 km, above and below alike.
pub proof fn saa_decay_falls_off(a: Double, b: Double)
    requires
        a.finite(),
        b.finite(),
    ensures
        double::at_most(saa_decay(a), double::integer(0)),
        off_peak(a) <= off_peak(b) ==> double::at_most(saa_decay(b), saa_decay(a)),
        off_peak(a) == 0 ==> saa_decay(a).rank() == 0,
{
    reveal(double::at_most);
    reveal(double::quotient);
    double::integer_zero();
    lemma_decay(a);
    lemma_decay(b);
    let width = double::integer(45_000);
    let (x, y) = (double::difference(a, double::integer(400)), double::difference(b, double::integer(400)));
    let (xx, yy) = (square(x), square(y));
    growth::lemma_opposite(xx);
    growth::lemma_opposite(yy);
    if xx.finite() {
        growth::lemma_quotient_rank(double::opposite(xx), width);
    }
    if yy.finite() {
        growth::lemma_quotient_rank(double::opposite(yy), width);
    }
    if off_peak(a) <= off_peak(b) {
        growth::rounding_keeps_order(off_peak(a), 1, off_peak(b), 1);
        let (p, q) = (size(x.unsigned()), size(y.unsigned()));
        if x.unsigned() < y.unsigned() {
            lemma_size_monotone(x.unsigned(), y.unsigned());
        }
        assert(p <= q);
        lemma_pow2_pos(UNIT_EXPONENT as nat);
        let o = double::one();
        assert((p * p) * o <= (q * q) * o) by (nonlinear_arith)
            requires
                p <= q,
        ;
        growth::rounding_keeps_order(p * p, o, q * q, o);
        growth::lemma_rounded(false, p * p, o);
        assert(xx.unsigned() <= yy.unsigned());
        if xx.finite() && yy.finite() {
            growth::lemma_rank_of_units(yy, xx);
            growth::quotients_grow(double::opposite(yy), double::opposite(xx), width);
        }
    }
    if off_peak(a) == 0 {
        growth::lemma_nearest_to_zero(1);
        growth::lemma_nearest_to_zero(double::one());
        assert(size(0) == 0);
        assert(0nat * 0nat == 0);
        lemma_pow2_pos(UNIT_EXPONENT as nat);
        growth::lemma_nearest_to_zero(size(width.unsigned()));
        assert(0 * double::one() == 0);
    }
}

/// What any exponential does: it never falls, is one at zero and not negative.
pub open spec fn exponential_grows(m: spec_fn(Transcendental) -> Double) -> bool {
    &&& forall|x: Double, y: Double|
        double::at_most(x, y) ==> double::at_most(
            #[trigger] m(Transcendental::Exponential(x)),
            #[trigger] m(Transcendental::Exponential(y)),
        )
    &&& forall|x: Double| x.rank() == 0 ==> #[trigger] m(Transcendental::Exponential(x)) == double::integer(1)
    &&& forall|x: Double| !x.nan() ==> double::at_most(
        double::integer(0),
        #[trigger] m(Transcendental::Exponential(x)),
    )
}

/// Whatever exponential is handed in, the anomaly's strength is between zero and
/// one, is one at 400 km, and falls with the distance from there.
pub proof fn saa_strength_falls_off(a: Double, b: Double, m: spec_fn(Transcendental) -> Double)
    requires
        a.finite(),
        b.finite(),
        exponential_grows(m),
    ensures
        double::at_most(double::integer(0), saa_strength(a, m)),
        double::at_most(saa_strength(a, m), double::integer(1)),
        off_peak(a) == 0 ==> saa_strength(a, m) == double::integer(1),
        off_peak(a) <= off_peak(b) ==> double::at_most(saa_strength(b, m), saa_strength(a, m)),
{
    saa_decay_falls_off(a, b);
    double::integer_zero();
    reveal(double::at_most);
    let none = double::integer(0);
    assert(m(Transcendental::Exponential(none)) == double::integer(1));
    assert(double::at_most(saa_decay(a), none));
}

/// The strength of the South Atlantic Anomaly at an altitude.
pub fn saa_intensity<F: Fn(Transcendental) -> Double>(alt_km: Double, f: &F) -> (r: Double)
    requires
        answers_all(*f),
    ensures
        forall|m: spec_fn(Transcendental) -> Double| #[trigger]
            follows(*f, m) ==> r == saa_strength(alt_km, m),
{
    let off = alt_km.minus(Double::from_i64(400));
    let width = Double::from_i64(150);
    let exponent = off.times(off).negate().over(Double::from_i64(2).times(width.times(width)));
    f(Transcendental::Exponential(exponent))
}

/// A longitude in degrees that is at most one turn off, brought into a half turn
/// on either side.
pub open spec fn wrapped(lon: Double) -> Double {
    let west = if double::less(double::integer(180), lon) {
        double::difference(lon, double::integer(360))
    } else {
        lon
    };
    if double::less(west, double::integer(-180)) {
        double::sum(west, double::integer(360))
    } else {
        west
    }
}

/// Longitude above ground in degrees, from the right ascension and the Earth's
/// rotation.
fn ground_longitude(right_ascension: Double, gmst: Double) -> (r: Double)
    ensures
        r == wrapped(in_degrees(double::difference(right_ascension, gmst))),
{
    let mut lon = to_degrees(right_ascension.minus(gmst));
    if Double::from_i64(180).is_less(lon) {
        lon = lon.minus(Double::from_i64(360));
    }
    if lon.is_less(Double::from_i64(-180)) {
        lon = lon.plus(Double::from_i64(360));
    }
    lon
}

/// The sample of a trajectory at an instant.
#[verifier::opaque]
pub open spec fn point_at(orbit: Orbit, t: UtcTime, m: spec_fn(Transcendental) -> Double) -> TrajectoryPoint {
    let e = eccentric_anomaly(orbit.mean_anomaly_at(t), orbit.ecc, m);
    let (sin_e, cos_e) = (m(Transcendental::Sine(e)), m(Transcendental::Cosine(e)));
    let (opposite, adjacent) = orbit.anomaly_legs(sin_e, cos_e);
    let r = orbit.distance(cos_e);
    let raan = orbit.node_at(t);
    let u = orbit.latitude_argument(t, m(Transcendental::Angle(opposite, adjacent)));
    let place = orbit.place(
        r,
        (m(Transcendental::Cosine(raan)), m(Transcendental::Sine(raan))),
        (m(Transcendental::Cosine(u)), m(Transcendental::Sine(u))),
    );
    let right_ascension = m(Transcendental::Angle(place.y, place.x));
    let alt_km = double::difference(r, geometry::earth_radius_km());
    let sun = sun_at(t, m);
    TrajectoryPoint {
        time: t,
        lat: in_degrees(m(Transcendental::ArcSine(double::quotient(place.z, r)))),
        lon: wrapped(in_degrees(double::difference(right_ascension, sidereal_angle(t)))),
        alt_km,
        eci_x: place.x,
        eci_y: place.y,
        eci_z: place.z,
        sun_x: sun.x,
        sun_y: sun.y,
        sun_z: sun.z,
        saa_intensity: saa_strength(alt_km, m),
    }
}

/// A sample of the trajectory.
fn sample<F: Fn(Transcendental) -> Double>(orbit: &Orbit, t: UtcTime, f: &F) -> (r: TrajectoryPoint)
    requires
        orbit.epoch.valid(),
        t.valid(),
        answers_all(*f),
    ensures
        r.time == t,
        forall|m: spec_fn(Transcendental) -> Double| #[trigger] follows(*f, m) ==> r == point_at(*orbit, t, m),
{
    proof {
        reveal(point_at);
    }
    let e = solve_kepler(orbit.mean_anomaly(t), orbit.ecc, f);
    let cos_e = f(Transcendental::Cosine(e));
    let sin_e = f(Transcendental::Sine(e));
    let (opposite, adjacent) = orbit.true_anomaly_legs(sin_e, cos_e);
    let nu = f(Transcendental::Angle(opposite, adjacent));
    let r = orbit.radius(cos_e);
    let (raan, u) = orbit.angles(t, nu);
    let cos_raan = f(Transcendental::Cosine(raan));
    let sin_raan = f(Transcendental::Sine(raan));
    let cos_u = f(Transcendental::Cosine(u));
    let sin_u = f(Transcendental::Sine(u));
    let place = orbit.position(r, (cos_raan, sin_raan), (cos_u, sin_u));

    let latitude = f(Transcendental::ArcSine(place.z.over(r)));
    let right_ascension = f(Transcendental::Angle(place.y, place.x));
    let alt_km = r.minus(earth_radius());
    let sun = sun_position_eci(t, f);
    TrajectoryPoint {
        time: t,
        lat: to_degrees(latitude),
        lon: ground_longitude(right_ascension, greenwich_sidereal_time(t)),
        alt_km,
        eci_x: place.x,
        eci_y: place.y,
        eci_z: place.z,
        sun_x: sun.x,
        sun_y: sun.y,
        sun_z: sun.z,
        saa_intensity: saa_intensity(alt_km, f),
    }
}

/// Milliseconds between two samples of a trajectory.
pub const STEP_MILLIS: i64 = 30_000;

/// The `k`-th instant of a grid that starts at `start`; `None` past the end of
/// the calendar.
pub open spec fn grid(start: UtcTime, k: nat) -> Option<UtcTime>
    decreases k,
{
    if k == 0 {
        Some(start)
    } else {
        match grid(start, (k - 1) as nat) {
            Some(t) => time::shifted(t, STEP_MILLIS as int),
            None => None,
        }
    }
}

/// The `k`-th instant of the grid is one, and no later than `end`.
pub open spec fn on_grid(start: UtcTime, end: UtcTime, k: nat) -> bool {
    grid(start, k) matches Some(t) && !t.later_than(end)
}

/// The first instants of the grid, none of them later than `end`.
pub open spec fn sampled(start: UtcTime, end: UtcTime, times: Seq<UtcTime>) -> bool {
    forall|k: int|
        0 <= k < times.len() ==> grid(start, k as nat) == Some(#[trigger] times[k]) && !times[k].later_than(end)
            && times[k].valid()
}

/// The instants at which a trajectory is sampled, every 30 seconds up to and with
/// the end; `None` where the calendar ends before the grid has passed it.
pub fn sample_times(start: UtcTime, end: UtcTime) -> (r: Option<Vec<UtcTime>>)
    requires
        start.valid(),
    ensures
        match r {
            Some(times) => sampled(start, end, times@) && grid(start, times@.len()) is Some && grid(
                start,
                times@.len(),
            )->0.later_than(end),
            None => exists|k: nat| #[trigger] on_grid(start, end, k) && grid(start, k + 1) is None,
        },
{
    let mut times: Vec<UtcTime> = Vec::new();
    let mut t = start;
    while !t.is_after(end)
        invariant
            t.valid(),
            grid(start, times@.len()) == Some(t),
            sampled(start, end, times@),
        decreases i64::MAX - t.secs,
    {
        let ghost k = times@.len();
        times.push(t);
        assert(sampled(start, end, times@));
        match t.shift_millis(STEP_MILLIS) {
            Some(next) => {
                assert(next.secs > t.secs);
                assert(grid(start, k + 1) == Some(next));
                t = next;
            },
            None => {
                assert(on_grid(start, end, k) && grid(start, k + 1) is None);
                return None;
            },
        }
    }
    Some(times)
}

/// The grid passes `end` with its `n`-th instant, and not before.
pub open spec fn passes(start: UtcTime, end: UtcTime, n: nat) -> bool {
    &&& forall|k: nat| k < n ==> #[trigger] on_grid(start, end, k)
    &&& grid(start, n) matches Some(t) && t.later_than(end)
}

/// How many instants of the grid are no later than `end`.
pub open spec fn sample_count(start: UtcTime, end: UtcTime) -> nat {
    choose|n: nat| passes(start, end, n)
}

proof fn lemma_sample_count(start: UtcTime, end: UtcTime, n: nat)
    requires
        passes(start, end, n),
    ensures
        sample_count(start, end) == n,
{
    let c = sample_count(start, end);
    assert(passes(start, end, c));
    if n < c {
        assert(on_grid(start, end, n));
    }
    if c < n {
        assert(on_grid(start, end, c));
    }
}

/// The instants that were sampled are all that there are.
pub proof fn lemma_sampled(start: UtcTime, end: UtcTime, times: Seq<UtcTime>)
    requires
        sampled(start, end, times),
        grid(start, times.len()) matches Some(t) && t.later_than(end),
    ensures
        passes(start, end, times.len()),
        sample_count(start, end) == times.len(),
        !cut_short(start, end),
{
    assert forall|k: nat| k < times.len() implies #[trigger] on_grid(start, end, k) by {
        assert(grid(start, k) == Some(times[k as int]));
    }
    lemma_sample_count(start, end, times.len());
    lemma_not_cut_short(start, end, times.len());
}

/// No instant of the grid from the one that passes `end` on is a sample.
pub proof fn lemma_samples_before(start: UtcTime, end: UtcTime, n: nat, k: nat)
    requires
        passes(start, end, n),
        on_grid(start, end, k),
    ensures
        k < n,
{
    if k >= n {
        grid_rises(start, n, k);
    }
}

/// The trajectory from `start` to `end`: a sample for every instant of the grid.
pub open spec fn path(
    elements: OrbitalElements,
    start: UtcTime,
    end: UtcTime,
    m: spec_fn(Transcendental) -> Double,
) -> Seq<TrajectoryPoint> {
    let inc = in_radians(elements.inclination_deg);
    let orbit = orbit_of(elements, m(Transcendental::Cosine(inc)), m(Transcendental::Sine(inc)), start);
    Seq::new(sample_count(start, end), |k: int| point_at(orbit, grid(start, k as nat)->0, m))
}

/// The calendar ends before the grid has passed `end`.
pub open spec fn cut_short(start: UtcTime, end: UtcTime) -> bool {
    exists|k: nat| #[trigger] on_grid(start, end, k) && grid(start, k + 1) is None
}

/// The times of the samples of a trajectory are those of the grid.
pub open spec fn follows_grid(start: UtcTime, end: UtcTime, points: Seq<TrajectoryPoint>) -> bool {
    &&& points.len() == sample_count(start, end)
    &&& forall|k: int|
        0 <= k < points.len() ==> grid(start, k as nat) == Some((#[trigger] points[k]).time) && on_grid(
            start,
            end,
            k as nat,
        ) && points[k].time.valid()
}

/// Propagates an orbit: a sample every 30 seconds up to and with the end; `None`
/// where the calendar ends before that.
pub fn propagate_trajectory<F: Fn(Transcendental) -> Double>(
    elements: &OrbitalElements,
    start: UtcTime,
    end: UtcTime,
    f: &F,
) -> (r: Option<Vec<TrajectoryPoint>>)
    requires
        start.valid(),
        answers_all(*f),
    ensures
        r is None <==> cut_short(start, end),
        r matches Some(points) ==> {
            &&& follows_grid(start, end, points@)
            &&& forall|m: spec_fn(Transcendental) -> Double| #[trigger]
                follows(*f, m) ==> points@ == path(*elements, start, end, m)
        },
{
    let inc = to_radians(elements.inclination_deg);
    let cos_inc = f(Transcendental::Cosine(inc));
    let sin_inc = f(Transcendental::Sine(inc));
    let orbit = Orbit::new(elements, cos_inc, sin_inc, start);
    let times = match sample_times(start, end) {
        Some(t) => t,
        None => {
            return None;
        },
    };
    proof {
        lemma_sampled(start, end, times@);
    }
    let mut points: Vec<TrajectoryPoint> = Vec::new();
    let mut i: usize = 0;
    while i < times.len()
        invariant
            i <= times@.len(),
            points@.len() == i,
            answers_all(*f),
            orbit.epoch.valid(),
            sampled(start, end, times@),
            forall|k: int| 0 <= k < i ==> (#[trigger] points@[k]).time == times@[k],
            forall|m: spec_fn(Transcendental) -> Double, k: int|
                #![trigger follows(*f, m), points@[k]]
                follows(*f, m) && 0 <= k < i ==> points@[k] == point_at(orbit, times@[k], m),
        decreases times@.len() - i,
    {
        let t: UtcTime = times[i];
        assert(grid(start, i as nat) == Some(times@[i as int]));
        let point = sample(&orbit, t, f);
        points.push(point);
        i = i + 1;
    }
    assert forall|m: spec_fn(Transcendental) -> Double| #[trigger] follows(*f, m) implies points@ == path(
        *elements,
        start,
        end,
        m,
    ) by {
        assert(orbit == orbit_of(
            *elements,
            m(Transcendental::Cosine(inc)),
            m(Transcendental::Sine(inc)),
            start,
        ));
        assert forall|k: int| 0 <= k < points@.len() implies points@[k] == path(*elements, start, end, m)[k] by {
            assert(points@[k] == point_at(orbit, times@[k], m));
            assert(grid(start, k as nat) == Some(times@[k]));
        }
        assert(points@ =~= path(*elements, start, end, m));
    }
    assert(follows_grid(start, end, points@)) by {
        assert forall|k: int| 0 <= k < points@.len() implies grid(start, k as nat) == Some(
            (#[trigger] points@[k]).time,
        ) && on_grid(start, end, k as nat) && points@[k].time.valid() by {
            assert(points@[k].time == times@[k]);
        }
    }
    Some(points)
}

proof fn lemma_not_cut_short(start: UtcTime, end: UtcTime, n: nat)
    requires
        passes(start, end, n),
    ensures
        !cut_short(start, end),
{
    if cut_short(start, end) {
        let k = choose|k: nat| #[trigger] on_grid(start, end, k) && grid(start, k + 1) is None;
        if k + 1 <= n {
            if k + 1 < n {
                assert(on_grid(start, end, k + 1));
            }
        } else {
            lemma_samples_before(start, end, n, k);
        }
    }
}

/// Samples stand in order of time.
pub proof fn grid_rises(start: UtcTime, j: nat, k: nat)
    requires
        j <= k,
        grid(start, k) is Some,
    ensures
        grid(start, j) is Some,
        j < k ==> grid(start, k)->0.later_than(grid(start, j)->0),
    decreases k - j,
{
    if j < k {
        assert(grid(start, (k - 1) as nat) is Some);
        grid_rises(start, j, (k - 1) as nat);
        let t = grid(start, (k - 1) as nat)->0;
        assert(time::shifted(t, STEP_MILLIS as int) == grid(start, k));
        assert(grid(start, k)->0.later_than(t));
    }
}

} // verus!
