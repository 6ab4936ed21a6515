//! The simulation service, which computes orbital state, and the power and
//! thermal state that the agent keeps between its answers.

use vstd::arithmetic::power2::{lemma2_to64, lemma2_to64_rest, lemma_pow2_pos, lemma_pow2_strictly_increases};
use vstd::prelude::*;

use crate::agent::AgentError;
use crate::client::{self, Method, Request};
use crate::double::growth;
use crate::double::model::{size, BINADE, UNIT_EXPONENT};
use crate::double::{self, Double};
use crate::json::{self, Json, JsonView};
use crate::text;
use crate::time::{self, UtcTime};

verus! {

/// Orbital elements passed to the simulation service.
#[derive(Debug, Clone)]
pub struct OrbitalElements {
    pub altitude_km: Double,
    pub inclination_deg: Double,
    pub eccentricity: Double,
    pub raan_deg: Double,
    pub arg_perigee_deg: Double,
    pub mean_anomaly_deg: Double,
    pub mean_motion: Double,
    pub epoch: String,
}

/// The eccentricity where elements do not say: 0.0001.
pub fn default_eccentricity() -> (r: Double)
    ensures
        r == double::ratio(1, 10_000),
{
    Double::decimal(1, 10_000)
}

/// The argument of perigee where elements do not say: 90 degrees.
pub fn default_arg_perigee() -> (r: Double)
    ensures
        r == double::integer(90),
{
    Double::from_i64(90)
}

/// The JSON form of orbital elements.
pub open spec fn elements_form(e: OrbitalElements) -> JsonView {
    let shape = json::with_field(
        json::with_field(
            json::with_field(
                JsonView::Object(Map::empty()),
                "altitude_km"@,
                json::number_view(e.altitude_km),
            ),
            "inclination_deg"@,
            json::number_view(e.inclination_deg),
        ),
        "eccentricity"@,
        json::number_view(e.eccentricity),
    );
    let turned = json::with_field(
        json::with_field(
            json::with_field(shape, "raan_deg"@, json::number_view(e.raan_deg)),
            "arg_perigee_deg"@,
            json::number_view(e.arg_perigee_deg),
        ),
        "mean_anomaly_deg"@,
        json::number_view(e.mean_anomaly_deg),
    );
    json::with_field(
        json::with_field(turned, "mean_motion"@, json::number_view(e.mean_motion)),
        "epoch"@,
        JsonView::Text(e.epoch@),
    )
}

impl OrbitalElements {
    /// The elements as JSON.
    pub fn to_json(&self) -> (r: Json)
        ensures
            r@ == elements_form(*self),
    {
        let mut form = Json::object();
        form.set("altitude_km", Json::number(self.altitude_km));
        form.set("inclination_deg", Json::number(self.inclination_deg));
        form.set("eccentricity", Json::number(self.eccentricity));
        form.set("raan_deg", Json::number(self.raan_deg));
        form.set("arg_perigee_deg", Json::number(self.arg_perigee_deg));
        form.set("mean_anomaly_deg", Json::number(self.mean_anomaly_deg));
        form.set("mean_motion", Json::number(self.mean_motion));
        form.set("epoch", Json::text(self.epoch.as_str()));
        form
    }
}

/// Response from the simulation service's /v1/state endpoint.
#[derive(Debug, Clone, Copy, PartialEq, Eq, Structural)]
pub struct OrbitalState {
    pub lat: Double,
    pub lon: Double,
    pub altitude_km: Double,
    pub velocity_km_s: Double,
    pub in_eclipse: bool,
    pub orbit_fraction: Double,
}

/// Client for the simulation service.
#[derive(Debug)]
pub struct SimClient {
    pub sim_url: String,
}

/// The body that asks for the state at an instant.
pub open spec fn state_form(elements: OrbitalElements, timestamp: UtcTime) -> JsonView {
    json::with_field(
        json::with_field(
            JsonView::Object(Map::empty()),
            "elements"@,
            elements_form(elements),
        ),
        "timestamp"@,
        JsonView::Text(time::stamp(timestamp)),
    )
}

impl SimClient {
    pub fn new(sim_url: String) -> (r: Result<SimClient, AgentError>)
        ensures
            r matches Ok(c) && c.sim_url@ == sim_url@,
    {
        Ok(SimClient { sim_url })
    }

    /// The request for the orbital state at the given timestamp.
    pub fn get_state(&self, elements: &OrbitalElements, timestamp: UtcTime) -> (r: Request)
        requires
            timestamp.valid(),
        ensures
            r.method == Method::Post,
            r.url@ == self.sim_url@ + "/v1/state"@,
            client::header_list(r.headers@) == Seq::<(Seq<char>, Seq<char>)>::empty(),
            r.body matches Some(b) && b@ == state_form(*elements, timestamp),
    {
        let mut body = Json::object();
        body.set("elements", elements.to_json());
        let stamp = timestamp.to_rfc3339();
        body.set("timestamp", Json::text(stamp.as_str()));
        let headers: Vec<client::Header> = Vec::new();
        assert(client::header_list(headers@) =~= Seq::<(Seq<char>, Seq<char>)>::empty());
        Request {
            method: Method::Post,
            url: text::pair(self.sim_url.as_str(), "/v1/state"),
            headers,
            body: Some(body),
        }
    }

    /// What the status of an answer means: any but a success is an error, with
    /// the status line and the text of the answer in its message.
    pub fn check_state(status: u16, status_line: &str, body: &str) -> (r: Result<(), AgentError>)
        ensures
            r is Ok <==> client::success(status),
            r matches Err(e) ==> (e matches AgentError::ApiError(m) && m@ == "Sim service "@ + status_line@ + ": "@
                + body@),
    {
        if client::is_success(status) {
            Ok(())
        } else {
            let head = text::join("Sim service ", status_line, ": ");
            Err(AgentError::ApiError(text::pair(head.as_str(), body)))
        }
    }
}

/// Local satellite state model: power and thermal.
///
/// The simulation service provides position and eclipse; this tracks what
/// evolves between its answers.
#[derive(Debug, Clone, Copy, PartialEq, Eq, Structural)]
pub struct SatelliteState {
    pub battery_wh: Double,
    pub temperature_c: Double,
    pub last_update: UtcTime,
}

/// Seconds from the last update to `now`.
pub open spec fn elapsed_s(state: SatelliteState, now: UtcTime) -> Double {
    double::quotient(double::integer(time::millis_between(now, state.last_update)), double::integer(1000))
}

/// Net power in watts: panels charge with 750 in sunlight and the bus draws 250
/// in eclipse; computing draws 200 more.
pub open spec fn net_power_w(in_eclipse: bool, is_computing: bool) -> Double {
    double::sum(
        double::integer(if in_eclipse { -250 } else { 750 }),
        double::integer(if is_computing { -200 } else { 0 }),
    )
}

/// The charge after `dt_s` seconds, kept within the battery's 100 Wh.
pub open spec fn charge_after(battery_wh: Double, dt_s: Double, in_eclipse: bool, is_computing: bool) -> Double {
    let dt_h = double::quotient(dt_s, double::integer(3600));
    double::clamped(
        double::sum(battery_wh, double::product(net_power_w(in_eclipse, is_computing), dt_h)),
        double::integer(0),
        double::integer(100),
    )
}

/// The share of the way to its target that the temperature goes in `dt_s`
/// seconds, at half a degree per minute.
pub open spec fn thermal_share(dt_s: Double) -> Double {
    let dt_min = double::quotient(dt_s, double::integer(60));
    double::smaller(
        double::quotient(double::product(double::ratio(1, 2), dt_min), double::integer(60)),
        double::integer(1),
    )
}

/// The temperature that a satellite tends to: -20 in eclipse and 40 in sunlight,
/// each 5 degrees warmer while computing.
pub open spec fn target_c(in_eclipse: bool, is_computing: bool) -> Double {
    double::sum(
        double::integer(if in_eclipse { -20 } else { 40 }),
        double::integer(if is_computing { 5 } else { 0 }),
    )
}

/// The temperature after `dt_s` seconds: it nears its target.
pub open spec fn temperature_after(
    temperature_c: Double,
    dt_s: Double,
    in_eclipse: bool,
    is_computing: bool,
) -> Double {
    double::sum(
        temperature_c,
        double::product(
            double::difference(target_c(in_eclipse, is_computing), temperature_c),
            thermal_share(dt_s),
        ),
    )
}

/// The state at `now`; nothing changes where no time has passed.
pub open spec fn state_at(state: SatelliteState, now: UtcTime, in_eclipse: bool, is_computing: bool) -> SatelliteState {
    let dt_s = elapsed_s(state, now);
    if double::at_most(dt_s, double::integer(0)) {
        state
    } else {
        SatelliteState {
            battery_wh: charge_after(state.battery_wh, dt_s, in_eclipse, is_computing),
            temperature_c: temperature_after(state.temperature_c, dt_s, in_eclipse, is_computing),
            last_update: now,
        }
    }
}

/// The battery never leaves its range: a charge between 0 and 100 Wh stays
/// there, whatever time passes and whatever the satellite does.
pub proof fn battery_stays_within_capacity(
    state: SatelliteState,
    now: UtcTime,
    in_eclipse: bool,
    is_computing: bool,
)
    requires
        double::at_most(double::integer(0), state.battery_wh),
        double::at_most(state.battery_wh, double::integer(100)),
    ensures
        double::at_most(double::integer(0), state_at(state, now, in_eclipse, is_computing).battery_wh),
        double::at_most(state_at(state, now, in_eclipse, is_computing).battery_wh, double::integer(100)),
{
    reveal(double::less);
    reveal(double::at_most);
    let (zero, hundred) = (double::integer(0), double::integer(100));
    double::integers_are_finite(0);
    double::integers_are_finite(100);
    double::integers_are_finite(1000);
    double::integers_are_finite(3600);
    let dt_s = elapsed_s(state, now);
    let dt_h = double::quotient(dt_s, double::integer(3600));
    let net = net_power_w(in_eclipse, is_computing);
    let (charge, draw) = (if in_eclipse { -250int } else { 750int }, if is_computing { -200int } else { 0int });
    double::integers_add_up(charge, draw);
    double::integers_are_finite(charge + draw);
    assert(net == double::integer(charge + draw));
    double::integer_is_a_number(time::millis_between(now, state.last_update));
    double::division_gives_a_number(
        double::integer(time::millis_between(now, state.last_update)),
        double::integer(1000),
    );
    double::division_gives_a_number(dt_s, double::integer(3600));
    double::product_gives_a_number(net, dt_h);
    assert(state.battery_wh.finite());
    double::sum_gives_a_number(state.battery_wh, double::product(net, dt_h));
    double::integer_zero();
    assert(zero.rank() <= hundred.rank());
}

/// The temperature where all of the way to the target is gone at once, as far as
/// numbers can hold the way.
pub open spec fn full_step(temperature_c: Double, target: Double) -> Double {
    double::sum(temperature_c, double::difference(target, temperature_c))
}

/// `b` lies between `a` and `c`, either of which may be the lower.
pub open spec fn between(a: Double, b: Double, c: Double) -> bool {
    (double::at_most(a, b) && double::at_most(b, c)) || (double::at_most(c, b) && double::at_most(b, a))
}

proof fn lemma_elapsed(state: SatelliteState, now: UtcTime)
    requires
        state.last_update.valid(),
        now.valid(),
    ensures
        elapsed_s(state, now).finite(),
        double::at_most(elapsed_s(state, now), double::integer(0)) <==> time::millis_between(now, state.last_update)
            <= 0,
        time::millis_between(now, state.last_update) > 0 ==> elapsed_s(state, now).rank() > 0,
{
    reveal(double::at_most);
    reveal(double::less);
    double::integer_zero();
    let millis = time::millis_between(now, state.last_update);
    let (m, thousand) = (double::integer(millis), double::integer(1000));
    double::integers_are_finite(millis);
    double::integers_are_finite(1000);
    double::integers_are_finite(1);
    double::integers_compare(1, 1000);
    growth::quotients_are_no_larger(m, thousand);
    growth::lemma_quotient_rank(m, thousand);
    let (x, z, o) = (size(m.unsigned()), size(thousand.unsigned()), double::one());
    growth::lemma_nearest_to_zero(z);
    assert(size(0) == 0);
    assert(0 * o == 0) by (nonlinear_arith);
    if millis != 0 {
        growth::integers_keep_from_zero(millis);
        double::integers_are_exact(1000);
        lemma_pow2_pos(UNIT_EXPONENT as nat);
        lemma_pow2_strictly_increases(10, UNIT_EXPONENT as nat);
        lemma2_to64();
        assert(1 * z <= (x * o) * 1) by (nonlinear_arith)
            requires
                z == 1000 * o,
                x >= 1000,
                o > 0,
        ;
        growth::rounding_keeps_order(1, 1, x * o, z);
        assert(size(1) == 1);
        growth::lemma_nearest_to_itself(1);
    }
}

proof fn lemma_thermal_share(dt_s: Double)
    requires
        dt_s.finite(),
        dt_s.rank() >= 0,
    ensures
        thermal_share(dt_s).finite(),
        thermal_share(dt_s).rank() >= 0,
        double::at_most(thermal_share(dt_s), double::integer(1)),
{
    reveal(double::at_most);
    reveal(double::less);
    double::integer_zero();
    double::integers_are_finite(1);
    double::integers_are_finite(60);
    double::integers_compare(1, 60);
    growth::fractions_are_shares(1, 2);
    let (half, sixty) = (double::ratio(1, 2), double::integer(60));
    growth::quotients_are_no_larger(dt_s, sixty);
    growth::lemma_quotient_rank(dt_s, sixty);
    let dt_min = double::quotient(dt_s, sixty);
    lemma_no_sign_from_none(dt_s, sixty);
    growth::shares_are_no_larger(dt_min, half);
    growth::lemma_product_rank(half, dt_min);
    let way = double::product(half, dt_min);
    assert(way.rank() >= 0) by {
        growth::products_grow(double::integer(0), dt_min, half);
        growth::lemma_product_rank(half, double::integer(0));
        assert(size(0) == 0);
        assert(size(half.unsigned()) * 0 == 0) by (nonlinear_arith);
        lemma_pow2_pos(UNIT_EXPONENT as nat);
        growth::lemma_nearest_to_zero(double::one());
    }
    growth::quotients_are_no_larger(way, sixty);
    lemma_no_sign_from_none(way, sixty);
}

/// The charge does not rise in eclipse and does not fall in sunlight, whether the
/// satellite computes or not.
pub proof fn charge_follows_the_sun(state: SatelliteState, now: UtcTime, in_eclipse: bool, is_computing: bool)
    requires
        state.last_update.valid(),
        now.valid(),
        double::at_most(double::integer(0), state.battery_wh),
        double::at_most(state.battery_wh, double::integer(100)),
    ensures
        in_eclipse ==> double::at_most(
            state_at(state, now, in_eclipse, is_computing).battery_wh,
            state.battery_wh,
        ),
        !in_eclipse ==> double::at_most(
            state.battery_wh,
            state_at(state, now, in_eclipse, is_computing).battery_wh,
        ),
{
    reveal(double::at_most);
    reveal(double::less);
    double::integer_zero();
    double::integers_are_finite(100);
    double::integers_are_finite(3600);
    double::integers_are_finite(1);
    double::integers_compare(1, 3600);
    lemma_elapsed(state, now);
    let dt_s = elapsed_s(state, now);
    if !double::at_most(dt_s, double::integer(0)) {
        let hour = double::integer(3600);
        let dt_h = double::quotient(dt_s, hour);
        growth::quotients_are_no_larger(dt_s, hour);
        lemma_no_sign_from_none(dt_s, hour);
        let (charge, draw) = (if in_eclipse { -250int } else { 750int }, if is_computing { -200int } else { 0int });
        let net = net_power_w(in_eclipse, is_computing);
        double::integers_add_up(charge, draw);
        double::integers_are_finite(charge + draw);
        growth::lemma_product_rank(net, dt_h);
        let gain = double::product(net, dt_h);
        assert(if in_eclipse { gain.rank() <= 0 } else { gain.rank() >= 0 }) by {
            growth::lemma_rank_of_units(dt_h, dt_h);
            assert(size(0) == 0);
            assert(size(net.unsigned()) * 0 == 0) by (nonlinear_arith);
            lemma_pow2_pos(UNIT_EXPONENT as nat);
            growth::lemma_nearest_to_zero(double::one());
        }
        if gain.finite() {
            growth::sums_move_with_the_sign(state.battery_wh, gain);
        } else {
            reveal(double::sum);
        }
    }
}

/// Nothing changes until a millisecond has passed; then the state is as of now.
pub proof fn updates_keep_time(state: SatelliteState, now: UtcTime, in_eclipse: bool, is_computing: bool)
    requires
        state.last_update.valid(),
        now.valid(),
    ensures
        ({
            let after = state_at(state, now, in_eclipse, is_computing);
            if time::millis_between(now, state.last_update) <= 0 {
                after == state
            } else {
                after.last_update == now
            }
        }),
{
    lemma_elapsed(state, now);
}

/// The temperature moves toward its target, never away from it, and no further
/// than by all of the way there. So it ends between where it was and the target,
/// unless rounding carries all of the way past the target.
pub proof fn temperature_nears_its_target(
    state: SatelliteState,
    now: UtcTime,
    in_eclipse: bool,
    is_computing: bool,
)
    requires
        state.last_update.valid(),
        now.valid(),
        state.temperature_c.finite(),
    ensures
        ({
            let (old, target) = (state.temperature_c, target_c(in_eclipse, is_computing));
            let new = state_at(state, now, in_eclipse, is_computing).temperature_c;
            let full = full_step(old, target);
            &&& double::at_most(old, target) ==> double::at_most(old, new) && double::at_most(new, full)
            &&& double::at_most(target, old) ==> double::at_most(new, old) && double::at_most(full, new)
            &&& between(old, full, target) ==> between(old, new, target)
        }),
{
    reveal(double::at_most);
    double::integer_zero();
    let (old, target) = (state.temperature_c, target_c(in_eclipse, is_computing));
    let (base, heat) = (if in_eclipse { -20int } else { 40int }, if is_computing { 5int } else { 0int });
    double::integers_add_up(base, heat);
    double::integers_are_exact(base + heat);
    double::integers_are_finite(base + heat);
    lemma_pow2_pos(UNIT_EXPONENT as nat);
    let o = double::one() as int;
    assert(-45 * o <= (base + heat) * o <= 45 * o) by (nonlinear_arith)
        requires
            -45 <= base + heat <= 45,
            o > 0,
    ;
    assert(45 * o <= 2 * BINADE * o) by (nonlinear_arith)
        requires
            o > 0,
    ;
    growth::lemma_opposite(old);
    growth::small_steps_stay_finite(double::opposite(old), target);
    growth::lemma_sum_rank(target, double::opposite(old));
    growth::lemma_sum_rank(double::opposite(old), target);
    let way = double::difference(target, old);
    assert(way.finite());
    growth::lemma_rank_of_units(old, target);
    growth::lemma_rank_of_units(target, old);
    growth::lemma_nearest_to_zero(1);
    lemma_elapsed(state, now);
    let dt_s = elapsed_s(state, now);
    let full = full_step(old, target);
    growth::sums_move_with_the_sign(old, way);
    if !double::at_most(dt_s, double::integer(0)) {
        lemma_thermal_share(dt_s);
        let share = thermal_share(dt_s);
        let gone = double::product(way, share);
        growth::shares_are_no_larger(way, share);
        growth::lemma_product_rank(way, share);
        assert(size(0) == 0);
        assert(size(way.unsigned()) * 0 == 0 && 0 * size(share.unsigned()) == 0) by (nonlinear_arith);
        growth::lemma_nearest_to_zero(double::one());
        growth::sums_move_with_the_sign(old, gone);
        if way.rank() >= 0 {
            assert(0 <= gone.rank() <= way.rank());
            growth::sums_grow(gone, way, old);
        }
        if way.rank() <= 0 {
            assert(way.rank() <= gone.rank() <= 0);
            growth::sums_grow(way, gone, old);
        }
    }
}

/// Between a temperature and its target, or past the target by no more than one
/// part in `2^53` of the way there and of where all of the way ends.
pub open spec fn hardly_past(old: Double, new: Double, target: Double) -> bool {
    let way = double::difference(target, old);
    let slack = size(way.unsigned()) + size(full_step(old, target).unsigned()) + 0x20_0000_0000_0000;
    &&& double::at_most(old, target) ==> double::at_most(old, new) && 0x20_0000_0000_0000 * (new.units()
        - target.units()) <= slack
    &&& double::at_most(target, old) ==> double::at_most(new, old) && 0x20_0000_0000_0000 * (target.units()
        - new.units()) <= slack
}

/// Whatever the temperature, it ends between where it was and its target, but for
/// what rounding carries it past the target. From up to a thousand degrees that is
/// less than a billionth of a degree.
pub proof fn temperature_hardly_passes_its_target(
    state: SatelliteState,
    now: UtcTime,
    in_eclipse: bool,
    is_computing: bool,
)
    requires
        state.last_update.valid(),
        now.valid(),
        state.temperature_c.finite(),
    ensures
        ({
            let (old, target) = (state.temperature_c, target_c(in_eclipse, is_computing));
            let new = state_at(state, now, in_eclipse, is_computing).temperature_c;
            let tame = double::at_most(double::integer(-1000), old) && double::at_most(old, double::integer(1000));
            &&& hardly_past(old, new, target)
            &&& tame && double::at_most(old, target) ==> 1_000_000_000 * (new.units() - target.units())
                <= double::one()
            &&& tame && double::at_most(target, old) ==> 1_000_000_000 * (target.units() - new.units())
                <= double::one()
        }),
{
    reveal(double::at_most);
    let (old, target) = (state.temperature_c, target_c(in_eclipse, is_computing));
    let new = state_at(state, now, in_eclipse, is_computing).temperature_c;
    let (base, heat) = (if in_eclipse { -20int } else { 40int }, if is_computing { 5int } else { 0int });
    double::integers_add_up(base, heat);
    double::integers_are_exact(base + heat);
    double::integers_are_exact(1000);
    double::integers_are_exact(-1000);
    double::integers_are_finite(base + heat);
    lemma_pow2_pos(UNIT_EXPONENT as nat);
    lemma2_to64();
    lemma2_to64_rest();
    lemma_pow2_strictly_increases(60, UNIT_EXPONENT as nat);
    let o = double::one() as int;
    assert(-45 * o <= (base + heat) * o <= 45 * o) by (nonlinear_arith)
        requires
            -45 <= base + heat <= 45,
            o > 0,
    ;
    temperature_nears_its_target(state, now, in_eclipse, is_computing);
    let way = double::difference(target, old);
    let full = full_step(old, target);
    growth::steps_land_near(old, target);
    growth::lemma_opposite(old);
    growth::sums_stay_near(target, double::opposite(old));
    growth::lemma_rank_of_units(new, full);
    growth::lemma_rank_of_units(full, new);
    growth::lemma_rank_of_units(double::integer(-1000), old);
    growth::lemma_rank_of_units(old, double::integer(1000));
    if double::at_most(double::integer(-1000), old) && double::at_most(old, double::integer(1000)) {
        assert(size(way.unsigned()) <= 1046 * o);
        assert(size(full.unsigned()) <= 47 * o);
    }
}

/// From a whole number of degrees all of the way ends at the target.
pub proof fn whole_degrees_land_on_the_target(degrees: int, in_eclipse: bool, is_computing: bool)
    requires
        -BINADE <= degrees <= BINADE,
    ensures
        ({
            let (old, target) = (double::integer(degrees), target_c(in_eclipse, is_computing));
            between(old, full_step(old, target), target)
        }),
{
    reveal(double::at_most);
    let (base, heat) = (if in_eclipse { -20int } else { 40int }, if is_computing { 5int } else { 0int });
    let whole = base + heat;
    let (old, target) = (double::integer(degrees), target_c(in_eclipse, is_computing));
    double::integers_add_up(base, heat);
    double::integers_are_exact(whole);
    double::integers_are_exact(degrees);
    double::integers_are_exact(whole - degrees);
    double::integers_are_finite(whole - degrees);
    growth::lemma_opposite(old);
    let way = double::difference(target, old);
    growth::lemma_sum_rank(target, double::opposite(old));
    let exact = double::integer(whole - degrees);
    let o = double::one() as int;
    assert(whole * o - degrees * o == (whole - degrees) * o) by (nonlinear_arith);
    growth::lemma_nearest_to_itself(exact.unsigned());
    growth::lemma_rank_of_units(exact, exact);
    assert(way.rank() == exact.rank());
    growth::lemma_rank_of_units(way, exact);
    growth::lemma_rank_of_units(exact, way);
    growth::lemma_sum_rank(old, way);
    growth::lemma_nearest_to_itself(target.unsigned());
    growth::lemma_rank_of_units(target, target);
    assert(full_step(old, target).rank() == target.rank());
}

/// Dividing what is not negative by what is positive gives nothing negative.
proof fn lemma_no_sign_from_none(a: Double, c: Double)
    requires
        a.finite(),
        a.rank() >= 0,
        c.finite(),
        c.rank() > 0,
    ensures
        double::quotient(a, c).rank() >= 0,
{
    reveal(double::at_most);
    double::integer_zero();
    growth::quotients_grow(double::integer(0), a, c);
    growth::lemma_quotient_rank(double::integer(0), c);
    growth::lemma_nearest_to_zero(size(c.unsigned()));
    assert(size(0) == 0);
    assert(0 * double::one() == 0) by (nonlinear_arith);
}

/// Share of the full compute capacity that a charge allows.
pub open spec fn capacity_at(battery_wh: Double) -> Double {
    if double::less(battery_wh, double::integer(15)) {
        double::integer(0)
    } else if double::less(battery_wh, double::integer(30)) {
        double::ratio(1, 2)
    } else {
        double::integer(1)
    }
}

impl Default for SatelliteState {
    fn default() -> (r: SatelliteState)
        ensures
            r.battery_wh == double::integer(80),
            r.temperature_c == double::integer(25),
            r.last_update.valid(),
    {
        SatelliteState::new()
    }
}

impl SatelliteState {
    /// A battery at 80%, at 25 degrees, as of now.
    pub fn new() -> (r: SatelliteState)
        ensures
            r.battery_wh == double::integer(80),
            r.temperature_c == double::integer(25),
            r.last_update.valid(),
    {
        SatelliteState {
            battery_wh: Double::from_i64(80),
            temperature_c: Double::from_i64(25),
            last_update: UtcTime::now(),
        }
    }

    /// Update power and thermal state based on elapsed time and eclipse status.
    pub fn update(&mut self, now: UtcTime, in_eclipse: bool, is_computing: bool)
        requires
            old(self).last_update.valid(),
            now.valid(),
        ensures
            *final(self) == state_at(*old(self), now, in_eclipse, is_computing),
            final(self).last_update.valid(),
    {
        let millis: i64 = now.millis_since(self.last_update);
        let dt_s = Double::from_i64(millis).over(Double::from_i64(1000));
        if dt_s.is_at_most(Double::from_i64(0)) {
            return;
        }
        let dt_min = dt_s.over(Double::from_i64(60));

        let dt_h = dt_s.over(Double::from_i64(3600));
        let charge_rate_w = Double::from_i64(if in_eclipse { -250 } else { 750 });
        let compute_draw_w = Double::from_i64(if is_computing { -200 } else { 0 });
        let net = charge_rate_w.plus(compute_draw_w);
        self.battery_wh = self.battery_wh.plus(net.times(dt_h)).clamp(Double::from_i64(0), Double::from_i64(100));

        let target_temp = Double::from_i64(if in_eclipse { -20 } else { 40 });
        let compute_heat = Double::from_i64(if is_computing { 5 } else { 0 });
        let rate = Double::decimal(1, 2);
        let share = rate.times(dt_min).over(Double::from_i64(60)).min(Double::from_i64(1));
        let delta = target_temp.plus(compute_heat).minus(self.temperature_c).times(share);
        self.temperature_c = self.temperature_c.plus(delta);

        self.last_update = now;
    }

    /// Battery percentage; the battery holds 100 Wh.
    pub fn battery_percent(&self) -> (r: Double)
        ensures
            r == self.battery_wh,
    {
        self.battery_wh
    }

    /// Whether compute is available (battery > 15%).
    pub fn compute_available(&self) -> (r: bool)
        ensures
            r == double::less(double::integer(15), self.battery_wh),
    {
        Double::from_i64(15).is_less(self.battery_wh)
    }

    /// Compute capacity fraction (0.0-1.0).
    pub fn compute_capacity(&self) -> (r: Double)
        ensures
            r == capacity_at(self.battery_wh),
    {
        if self.battery_wh.is_less(Double::from_i64(15)) {
            Double::from_i64(0)
        } else if self.battery_wh.is_less(Double::from_i64(30)) {
            Double::decimal(1, 2)
        } else {
            Double::from_i64(1)
        }
    }
}

} // verus!
