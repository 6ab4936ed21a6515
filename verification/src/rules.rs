//! The rules of the agent in plain figures.

use vstd::arithmetic::power2::{
    lemma2_to64, lemma2_to64_rest, lemma_pow2_adds, lemma_pow2_pos, lemma_pow2_strictly_increases, pow2,
};
use vstd::prelude::*;

use crate::constellation::{
    described_step, described_transfer, failover_reason, next_state, ConstellationView, StepStatus,
    TransferStatus,
};
use crate::double::growth;
use crate::double::model::{size, UNIT_EXPONENT};
use crate::double::{self, Double};
use crate::elements;
use crate::execution::{checked_event, first_run, first_stage, horizon, prediction_for, status_after, Stage};
use crate::hazard::{predict, shadow, TrajectoryPoint};
use crate::json;
use crate::ocp::{self, fits, half_check_due, precondition_warning, EclipseEnergyTracker, QualityTier};
use crate::sim_client::{self, capacity_at, OrbitalState, SatelliteState};
use crate::simulated::{located, pause_between, position_in, Live, SimulatedSatellite};
use crate::time;
use crate::types::{AgentStatus, EventView, Position};

verus! {

proof fn lemma_one()
    ensures
        double::one() >= 0x1000_0000_0000_0000,
{
    lemma2_to64();
    lemma2_to64_rest();
    lemma_pow2_strictly_increases(60, UNIT_EXPONENT as nat);
}

/// A finite number against a whole one.
proof fn lemma_against(x: Double, i: int)
    requires
        x.finite(),
        -1000 <= i <= 1000,
    ensures
        double::less(x, double::integer(i)) <==> x.units() < i * double::one(),
        double::less(double::integer(i), x) <==> x.units() > i * double::one(),
{
    double::integers_are_exact(i);
    growth::less_by_value(x, double::integer(i));
    growth::less_by_value(double::integer(i), x);
}

/// Below 15 Wh nothing can be computed, below 30 at half capacity, from there on at
/// full capacity.
pub proof fn capacity_goes_by_charge(battery_wh: Double)
    requires
        battery_wh.finite(),
    ensures
        ({
            let (b, c, o) = (battery_wh.units(), capacity_at(battery_wh), double::one() as int);
            &&& b < 15 * o ==> c == double::integer(0)
            &&& 15 * o <= b < 30 * o ==> c == double::ratio(1, 2)
            &&& 30 * o <= b ==> c == double::integer(1)
        }),
{
    lemma_against(battery_wh, 15);
    lemma_against(battery_wh, 30);
}

/// A step is failed over exactly if the charge is 15 Wh or less or the temperature
/// above 75 degrees; a charge below 10 is named first, then the heat, then that
/// nothing can be computed.
pub proof fn failovers_go_by_charge_and_heat(satellite: SatelliteState)
    requires
        satellite.battery_wh.finite(),
        satellite.temperature_c.finite(),
    ensures
        ({
            let (b, t, o) = (satellite.battery_wh.units(), satellite.temperature_c.units(), double::one() as int);
            let reason = failover_reason(satellite);
            &&& reason is Some <==> b <= 15 * o || t > 75 * o
            &&& b < 10 * o ==> "Battery critically low ("@.is_prefix_of(reason->0)
            &&& b >= 10 * o && t > 75 * o ==> "Temperature too high ("@.is_prefix_of(reason->0)
            &&& 10 * o <= b <= 15 * o && t <= 75 * o ==> reason == Some("Compute not available (battery below 15%)"@)
        }),
{
    lemma_against(satellite.battery_wh, 10);
    lemma_against(satellite.battery_wh, 15);
    lemma_against(satellite.temperature_c, 75);
    lemma_one();
    let reason = failover_reason(satellite);
    let (low, hot) = ("Battery critically low ("@, "Temperature too high ("@);
    if satellite.battery_wh.units() < 10 * double::one() {
        assert(reason->0.subrange(0, low.len() as int) =~= low);
    } else if satellite.temperature_c.units() > 75 * double::one() {
        assert(reason->0.subrange(0, hot.len() as int) =~= hot);
    }
}

/// A warning comes exactly when a step in eclipse starts in sunlight, or a step
/// during a pass with a charge below 10 Wh.
pub proof fn warnings_come_at_starts(event_type: Seq<char>, state: SatelliteState, in_eclipse: Option<bool>)
    requires
        state.battery_wh.finite(),
    ensures
        ({
            let starts = ".started"@.is_suffix_of(event_type);
            let eclipse = "eclipse_step."@.is_prefix_of(event_type);
            let pass = "pass_step."@.is_prefix_of(event_type);
            let warning = precondition_warning(event_type, state, in_eclipse);
            let dark = starts && eclipse && in_eclipse == Some(false);
            let weak = starts && pass && state.battery_wh.units() < 10 * double::one();
            &&& warning is Some <==> dark || weak
            &&& dark ==> warning == Some("satellite not in eclipse"@)
            &&& weak ==> warning == Some("battery critically low for pass-step"@)
        }),
{
    lemma_against(state.battery_wh, 10);
    reveal_strlit("eclipse_step.");
    reveal_strlit("window_step.");
    reveal_strlit("pass_step.");
    let t = event_type;
    if "eclipse_step."@.is_prefix_of(t) {
        assert("eclipse_step."@[0] == t.subrange(0, 13)[0]);
        assert(t[0] == 'e');
    }
    if "window_step."@.is_prefix_of(t) {
        assert("window_step."@[0] == t.subrange(0, 12)[0]);
        assert(t[0] == 'w');
    }
    if "pass_step."@.is_prefix_of(t) {
        assert("pass_step."@[0] == t.subrange(0, 10)[0]);
        assert(t[0] == 'p');
    }
}

/// The state of a known step goes by the events that name it, and only by them.
pub proof fn steps_go_by_their_events(
    event: EventView,
    state: ConstellationView,
    position: Option<Position>,
    id: Seq<char>,
)
    requires
        event.step_id == Some(id),
        state.steps.dom().contains(id),
    ensures
        ({
            let after = next_state(event, state, position);
            let (was, is) = (state.steps[id], after.steps[id]);
            &&& after.steps.dom().contains(id)
            &&& event.event_type == "constellation.step_started"@ ==> is.status == StepStatus::Executing
            &&& event.event_type == "constellation.step_completed"@ ==> is.status == StepStatus::Completed
                && after.completed.contains(id) && after.failed_over == state.failed_over
            &&& event.event_type == "constellation.failover"@ ==> is.status == StepStatus::FailedOver
                && after.failed_over == state.failed_over.push(id) && after.completed == state.completed
            &&& event.event_type == "constellation.step_assigned"@ ==> is.status == StepStatus::Pending && is
                == described_step(event)
            &&& event.event_type != "constellation.step_assigned"@ ==> is.step_name == was.step_name && is.duration_s
                == was.duration_s && is.dependencies == was.dependencies && is.is_replica == was.is_replica
                && is.assigned_at == was.assigned_at && is.step_id == was.step_id
        }),
{
    reveal(described_step);
    lemma_types_differ();
    if event.event_type == "constellation.step_completed"@ && !state.completed.contains(id) {
        assert(state.completed.push(id)[state.completed.len() as int] == id);
    }
}

proof fn lemma_types_differ()
    ensures
        "constellation.step_assigned"@.len() == 27,
        "constellation.step_started"@.len() == 26,
        "constellation.step_completed"@.len() == 28,
        "constellation.failover"@.len() == 22,
        "isl_transfer.started"@.len() == 20,
        "isl_transfer.hop_completed"@.len() == 26,
        "isl_transfer.completed"@.len() == 22,
        "constellation.failover"@ != "isl_transfer.completed"@,
        "constellation.step_started"@ != "isl_transfer.hop_completed"@,
{
    reveal_strlit("constellation.step_assigned");
    reveal_strlit("constellation.step_started");
    reveal_strlit("constellation.step_completed");
    reveal_strlit("constellation.failover");
    reveal_strlit("isl_transfer.started");
    reveal_strlit("isl_transfer.hop_completed");
    reveal_strlit("isl_transfer.completed");
    assert("constellation.failover"@[0] != "isl_transfer.completed"@[0]);
    assert("constellation.step_started"@[0] != "isl_transfer.hop_completed"@[0]);
}

/// An assigned step is filed under its own name, pending, with what the event says of
/// it.
pub proof fn assignments_are_taken_as_given(event: EventView, state: ConstellationView, position: Option<Position>)
    requires
        event.event_type == "constellation.step_assigned"@,
        event.step_id is Some,
    ensures
        ({
            let after = next_state(event, state, position);
            let id = event.step_id->0;
            let step = after.steps[id];
            &&& after.steps.dom() == state.steps.dom().insert(id)
            &&& step.step_id == id
            &&& step.assigned_at == event.timestamp
            &&& step.status == StepStatus::Pending
            &&& json::text_field(event.payload, "step_name"@) matches Some(name) ==> step.step_name == name
            &&& json::number_field(event.payload, "duration_s"@) matches Some(d) ==> step.duration_s == d
            &&& step.dependencies == json::texts_field(event.payload, "dependencies"@)
            &&& step.is_replica <==> json::flag_field(event.payload, "is_replica"@) == Some(true)
            &&& after.transfers == state.transfers
            &&& after.completed == state.completed
            &&& after.failed_over == state.failed_over
        }),
{
    reveal(described_step);
    assert(next_state(event, state, position).steps.dom() =~= state.steps.dom().insert(event.step_id->0));
}

/// A transfer starts in progress with what the event says of it and without links; when
/// it completes its data counts as transferred, once for each time.
pub proof fn transfers_go_by_their_events(
    event: EventView,
    state: ConstellationView,
    position: Option<Position>,
    id: Seq<char>,
)
    requires
        json::text_field(event.payload, "transfer_id"@) == Some(id),
    ensures
        ({
            let after = next_state(event, state, position);
            let t = after.transfers[id];
            &&& event.event_type == "isl_transfer.started"@ ==> {
                &&& after.transfers.dom() == state.transfers.dom().insert(id)
                &&& t.transfer_id == id
                &&& t.status == TransferStatus::InProgress
                &&& t.hops.len() == 0
                &&& t.started_at == event.timestamp
                &&& json::text_field(event.payload, "from_satellite"@) matches Some(s) ==> t.from_satellite == s
                &&& json::text_field(event.payload, "to_satellite"@) matches Some(s) ==> t.to_satellite == s
                &&& json::number_field(event.payload, "data_mb"@) matches Some(d) ==> t.data_mb == d
                &&& after.total_isl_data_mb == state.total_isl_data_mb
            }
            &&& event.event_type == "isl_transfer.completed"@ && state.transfers.dom().contains(id) ==> {
                &&& t.status == TransferStatus::Completed
                &&& t.hops == state.transfers[id].hops
                &&& t.data_mb == state.transfers[id].data_mb
                &&& after.total_isl_data_mb == double::sum(state.total_isl_data_mb, state.transfers[id].data_mb)
            }
        }),
{
    reveal(described_transfer);
    lemma_types_differ();
    let after = next_state(event, state, position);
    if event.event_type == "isl_transfer.started"@ {
        assert(after.transfers.dom() =~= state.transfers.dom().insert(id));
    }
}

/// A transfer that starts makes the agent one that transfers, and when it completes the
/// agent executes on; constellation events are handled before they are checked, and
/// others are not.
pub proof fn agents_go_by_transfers(event: EventView, status: AgentStatus)
    ensures
        event.event_type == "isl_transfer.started"@ ==> status_after(event, status) == AgentStatus::Transferring,
        event.event_type == "isl_transfer.completed"@ ==> status_after(event, status) == AgentStatus::Executing,
        event.event_type != "isl_transfer.started"@ && event.event_type != "isl_transfer.completed"@ ==> status_after(
            event,
            status,
        ) == status,
        "constellation."@.is_prefix_of(event.event_type) ==> first_stage(event) == Stage::Handle,
        "isl_transfer."@.is_prefix_of(event.event_type) ==> first_stage(event) == Stage::Handle,
        !"constellation."@.is_prefix_of(event.event_type) && !"isl_transfer."@.is_prefix_of(event.event_type)
            ==> first_stage(event) == Stage::Check,
{
    lemma_types_differ();
}

/// A tier fits where its duration, the switch to it and 5 seconds are available; a
/// thousandth of a second is left open.
pub proof fn tiers_fit_by_their_seconds(tier: QualityTier, available_s: Double)
    requires
        tier.duration_s.finite(),
        tier.switch_cost_s.finite(),
        available_s.finite(),
        -(1_000_000_000 * double::one()) <= tier.duration_s.units() <= 1_000_000_000 * double::one(),
        -(1_000_000_000 * double::one()) <= tier.switch_cost_s.units() <= 1_000_000_000 * double::one(),
    ensures
        ({
            let o = double::one() as int;
            let needed = tier.duration_s.units() + tier.switch_cost_s.units() + 5 * o;
            &&& 1000 * (available_s.units() - needed) >= o ==> fits(tier, available_s)
            &&& 1000 * (available_s.units() - needed) <= -o ==> !fits(tier, available_s)
        }),
{
    lemma_one();
    let (a, b) = (tier.duration_s, tier.switch_cost_s);
    let five = double::integer(5);
    double::integers_are_exact(5);
    growth::sums_are_bounded(a, b, 2_000_000_000);
    growth::sum_error(a, b);
    let s = double::sum(a, b);
    growth::sums_are_bounded(s, five, 2_000_000_006);
    growth::sum_error(s, five);
    growth::less_by_value(ocp::needed_s(tier), available_s);
}

/// The half mark is due when twice what was consumed reaches the budget, and was not
/// reported before.
pub proof fn half_marks_go_by_the_budget(t: EclipseEnergyTracker)
    requires
        t.consumed_j.finite(),
        t.budget_j.finite(),
        size(t.budget_j.unsigned()) % 2 == 0,
    ensures
        half_check_due(t) <==> !t.half_check_emitted && t.budget_j.units() <= 2 * t.consumed_j.units(),
{
    lemma_one();
    let o = double::one();
    let half = double::ratio(1, 2);
    lemma_half();
    let b = t.budget_j;
    let x = size(b.unsigned());
    growth::lemma_product_rank(b, half);
    let h = size(half.unsigned());
    // Half of it is a number.
    growth::shares_are_no_larger(b, half);
    let p = double::product(b, half);
    lemma_halved(b.unsigned());
    let k = choose|k: nat| 2 * size(k) == x && k < crate::double::model::INFINITE;
    growth::lemma_nearest_to_itself(k);
    let y = size(k);
    assert((x * h) * 1 == y * o) by (nonlinear_arith)
        requires
            x == 2 * y,
            2 * h == o,
    ;
    growth::rounding_keeps_order(x * h, o, y, 1);
    growth::rounding_keeps_order(y, 1, x * h, o);
    assert(p.unsigned() == k);
    assert(2 * p.units() == b.units());
    growth::less_by_value(p, t.consumed_j);
}

pub proof fn lemma_half()
    ensures
        double::ratio(1, 2).finite(),
        !double::ratio(1, 2).negative(),
        double::ratio(1, 2).rank() > 0,
        double::at_most(double::ratio(1, 2), double::integer(1)),
        2 * size(double::ratio(1, 2).unsigned()) == double::one(),
{
    growth::fractions_are_shares(1, 2);
    double::integers_are_exact(1);
    double::integers_are_exact(2);
    double::integers_are_finite(1);
    double::integers_are_finite(2);
    growth::lemma_quotient_rank(double::integer(1), double::integer(2));
    let o = double::one();
    lemma_one();
    lemma2_to64();
    lemma2_to64_rest();
    // Half of one is a number: a significand of 2^52, and a power of two.
    let b = crate::double::model::BINADE as nat;
    crate::double::model::lemma_size_of(1021, b);
    lemma_pow2_adds(52, 1021);
    lemma_pow2_adds(1, 1073);
    let k = 1021 * b + b;
    let y = size(k);
    assert(2 * y == o);
    growth::lemma_nearest_to_itself(k);
    let (x, z) = (size(double::integer(1).unsigned()), size(double::integer(2).unsigned()));
    assert((x * o) * 1 == y * z) by (nonlinear_arith)
        requires
            x == o,
            z == 2 * o,
            2 * y == o,
    ;
    assert(1 * o == o) by (nonlinear_arith);
    growth::rounding_keeps_order(x * o, z, y, 1);
    growth::rounding_keeps_order(y, 1, x * o, z);
}

/// Half of an even size is the size of a number.
proof fn lemma_halved(k: nat)
    requires
        k < crate::double::model::INFINITE,
        size(k) % 2 == 0,
    ensures
        exists|j: nat| 2 * size(j) == size(k) && j < crate::double::model::INFINITE,
{
    let b = crate::double::model::BINADE as nat;
    let (e, f) = (k / b, k % b);
    vstd::arithmetic::div_mod::lemma_fundamental_div_mod(k as int, b as int);
    lemma2_to64();
    if e <= 1 {
        // The size is the pattern.
        assert(size(k) == k) by {
            if e == 1 {
                assert((b + f) * pow2(0) == b + f) by (nonlinear_arith)
                    requires
                        pow2(0) == 1,
                ;
            }
        }
        let j = k / 2;
        assert(j < 2 * b);
        crate::double::model::lemma_size_of(0, j);
        assert(0 * b + j == j) by (nonlinear_arith);
        assert(j * pow2(0) == j) by (nonlinear_arith)
            requires
                pow2(0) == 1,
        ;
        assert(2 * size(j) == size(k));
    } else {
        let t = (e - 1) as nat;
        let m = b + f;
        crate::double::model::lemma_size_of((t - 1) as nat, m);
        lemma_pow2_adds(1, (t - 1) as nat);
        let j = (t - 1) as nat * b + m;
        let (p, q) = (pow2(t), pow2((t - 1) as nat));
        assert(p == 2 * q);
        assert(m * (2 * q) == 2 * (m * q)) by (nonlinear_arith);
        assert(2 * size(j) == size(k));
        assert(j < k) by (nonlinear_arith)
            requires
                j == (t - 1) * b + m,
                k == b * e + f,
                m == b + f,
                t == e - 1,
                b > 0,
        ;
    }
}

/// What is left of a pause when time runs `speed` times as fast: nothing where that is
/// a millisecond or less, else its milliseconds over the speed, without the fraction.
pub proof fn pauses_shrink_with_the_speed(previous: Seq<char>, current: Seq<char>, speed: Double)
    requires
        time::reading(previous) is Some,
        time::reading(current) is Some,
        speed.finite(),
        double::one() <= speed.units() <= 1_000_000_000 * double::one(),
    ensures
        ({
            let millis = time::millis_between(time::reading(current)->0, time::reading(previous)->0);
            let (v, o) = (speed.units(), double::one() as int);
            let pause = pause_between(previous, current, speed);
            0 < millis <= 1_000_000_000_000 ==> {
                &&& pause is None ==> 1000 * (millis * o) <= 1001 * v
                &&& pause matches Some(p) ==> 1000 * (millis * o) >= 999 * v && 1000 * (p * v) <= 1001 * (millis * o)
                    && 1001 * ((p + 1) * v) >= 1000 * (millis * o)
            }
        }),
        time::millis_between(time::reading(current)->0, time::reading(previous)->0) <= 0 ==> pause_between(
            previous,
            current,
            speed,
        ) is None,
{
    lemma_one();
    let millis = time::millis_between(time::reading(current)->0, time::reading(previous)->0);
    let (v, o) = (speed.units(), double::one() as int);
    let lasting = if millis > 0 { millis } else { 0 };
    let a = double::integer(lasting);
    assert(speed.units() == size(speed.unsigned()));
    if 0 < millis <= 1_000_000_000_000 || millis <= 0 {
        double::integers_are_exact(lasting);
        double::integers_are_finite(lasting);
        double::integers_are_exact(1);
        double::integers_are_finite(1);
        assert(size(0) == 0);
        assert(0 <= lasting * o) by (nonlinear_arith)
            requires
                lasting >= 0,
                o > 0,
        ;
        assert(size(a.unsigned()) <= 1_000_000_000_000nat * size(speed.unsigned())) by (nonlinear_arith)
            requires
                size(a.unsigned()) == lasting * o,
                size(speed.unsigned()) == v,
                v >= o,
                0 <= lasting <= 1_000_000_000_000,
        ;
        growth::quotients_are_bounded(a, speed, 1_000_000_000_000);
        growth::quotient_error(a, speed);
        growth::lemma_quotient_rank(a, speed);
        let q = double::quotient(a, speed);
        let (x, z) = (q.units(), size(q.unsigned()) as int);
        growth::less_by_value(double::integer(1), q);
        assert(1 * o == o) by (nonlinear_arith);
        if millis <= 0 {
            assert(lasting * o == 0) by (nonlinear_arith)
                requires
                    lasting == 0,
            ;
            assert(0 * double::one() == 0) by (nonlinear_arith);
            growth::lemma_nearest_to_zero(size(speed.unsigned()));
            assert(z == 0);
        } else {
            assert(x == z);
            reveal(double::truncated);
            let w = z / o;
            assert(w * o <= z < w * o + o) by (nonlinear_arith)
                requires
                    w == z / o,
                    o > 0,
            ;
            assert(0 <= w <= 1_000_000_000_000) by (nonlinear_arith)
                requires
                    w * o <= z < w * o + o,
                    0 <= z <= 1_000_000_000_000 * o,
                    o > 0,
            ;
            lemma_pause(millis, v, o, z, w);
        }
    }
}

proof fn lemma_pause(millis: int, v: int, o: int, z: int, w: int)
    requires
        0 < millis,
        o >= 0x1000_0000_0000_0000,
        o <= v,
        0 <= z,
        0 <= w,
        w * o <= z < w * o + o,
        -((z + 0x10_0000_0000_0000) * v) <= 0x20_0000_0000_0000 * (z * v - (millis * o) * o) <= (z
            + 0x10_0000_0000_0000) * v,
    ensures
        z <= o ==> 1000 * (millis * o) <= 1001 * v,
        z > o ==> 1000 * (millis * o) >= 999 * v && 1000 * (w * v) <= 1001 * (millis * o) && 1001 * ((w + 1) * v)
            >= 1000 * (millis * o),
{
    let (zv, mo) = (z * v, millis * o);
    let moo = mo * o;
    assert((z + 0x10_0000_0000_0000) * v == zv + 0x10_0000_0000_0000 * v) by (nonlinear_arith)
        requires
            zv == z * v,
    ;
    // A 256th of one times the speed covers what is lost to units.
    let ov = o * v;
    assert(0x100 * (0x10_0000_0000_0000 * v) <= ov) by (nonlinear_arith)
        requires
            ov == o * v,
            o >= 0x1000_0000_0000_0000,
            v > 0,
    ;
    if z <= o {
        assert(zv <= ov) by (nonlinear_arith)
            requires
                zv == z * v,
                ov == o * v,
                z <= o,
                v > 0,
        ;
        assert(1000 * moo <= 1001 * ov);
        assert(1000 * mo <= 1001 * v) by (nonlinear_arith)
            requires
                1000 * moo <= 1001 * ov,
                moo == mo * o,
                ov == o * v,
                o > 0,
        ;
    } else {
        assert(zv >= ov) by (nonlinear_arith)
            requires
                zv == z * v,
                ov == o * v,
                z >= o,
                v > 0,
        ;
        assert(1000 * moo >= 999 * ov);
        assert(1000 * mo >= 999 * v) by (nonlinear_arith)
            requires
                1000 * moo >= 999 * ov,
                moo == mo * o,
                ov == o * v,
                o > 0,
        ;
        let (wv, nv) = (w * v, (w + 1) * v);
        assert(wv * o <= zv <= nv * o) by (nonlinear_arith)
            requires
                zv == z * v,
                wv == w * v,
                nv == (w + 1) * v,
                w * o <= z <= w * o + o,
                v > 0,
        ;
        assert(1000 * zv <= 1001 * moo);
        assert(1000 * wv <= 1001 * mo) by (nonlinear_arith)
            requires
                1000 * (wv * o) <= 1001 * (mo * o),
                o > 0,
        ;
        assert(1001 * zv >= 1000 * moo);
        assert(1001 * nv >= 1000 * mo) by (nonlinear_arith)
            requires
                1001 * (nv * o) >= 1000 * (mo * o),
                o > 0,
        ;
    }
}

/// The first rate that is observed is taken whole; of later ones a smoothing factor of
/// one takes the observed rate alone, and one of zero keeps the estimate. Without work
/// or time nothing is observed.
pub proof fn estimates_are_smoothed(alpha: Double, rate: Option<Double>, fraction: Double, elapsed_s: Double)
    requires
        fraction.finite(),
        elapsed_s.finite(),
    ensures
        ({
            let new = ocp::smoothed_rate(alpha, rate, fraction, elapsed_s);
            let observed = double::quotient(fraction, elapsed_s);
            let seen = fraction.units() > 0 && elapsed_s.units() > 0;
            &&& !seen ==> new == rate
            &&& seen && rate is None ==> new == Some(observed)
            &&& seen && rate is Some && rate->0.finite() && observed.finite() ==> {
                &&& alpha == double::integer(1) ==> new is Some && new->0.units() == observed.units()
                &&& alpha == double::integer(0) ==> new is Some && new->0.units() == rate->0.units()
            }
        }),
{
    lemma_against(fraction, 0);
    lemma_against(elapsed_s, 0);
    assert(0 * double::one() == 0) by (nonlinear_arith);
    double::integers_are_exact(0);
    double::integers_are_exact(1);
    double::integers_are_finite(0);
    double::integers_are_finite(1);
    growth::less_by_value(elapsed_s, double::integer(0));
    growth::less_by_value(fraction, double::integer(0));
    let observed = double::quotient(fraction, elapsed_s);
    let (one, none) = (double::integer(1), double::integer(0));
    if rate is Some && rate->0.finite() && observed.finite() {
        let prev = rate->0;
        growth::lemma_opposite(one);
        growth::lemma_opposite(none);
        elements::lemma_one_times(observed);
        elements::lemma_one_times(prev);
        shadow::lemma_times_zero(observed, none);
        shadow::lemma_times_zero(prev, none);
        shadow::lemma_add_zero(one, double::opposite(none));
        double::integer_zero();
        growth::lemma_sum_rank(one, double::opposite(one));
        growth::lemma_nearest_to_zero(1);
        let left = double::difference(one, one);
        assert(left.zero()) by {
            assert(left.rank() == 0);
        }
        shadow::lemma_times_zero(prev, left);
        shadow::lemma_add_zero(observed, double::product(left, prev));
        shadow::lemma_add_zero(prev, double::product(none, observed));
    }
}

/// The rest of the work takes what is left of it over the rate: all of it where
/// nothing is done, nothing where all is; and no end of time at no rate.
pub proof fn the_rest_takes_its_time(rate: Double, fraction_done: Double)
    requires
        rate.finite(),
    ensures
        ({
            let left = ocp::remaining_at(rate, fraction_done);
            &&& rate.units() <= 0 ==> left.infinite() && !left.negative()
            &&& rate.units() > 0 && fraction_done == double::integer(0) ==> left == double::quotient(
                double::integer(1),
                rate,
            )
            &&& rate.units() > 0 && fraction_done == double::integer(1) ==> left.zero()
        }),
{
    double::integers_are_exact(0);
    double::integers_are_exact(1);
    double::integers_are_finite(0);
    double::integers_are_finite(1);
    double::integer_zero();
    growth::less_by_value(rate, double::integer(0));
    assert(0 * double::one() == 0) by (nonlinear_arith);
    let (one, none) = (double::integer(1), double::integer(0));
    growth::lemma_opposite(one);
    growth::lemma_opposite(none);
    shadow::lemma_add_zero(one, double::opposite(none));
    if rate.units() > 0 {
        growth::lemma_sum_rank(one, double::opposite(one));
        growth::lemma_nearest_to_zero(1);
        let left = double::difference(one, one);
        assert(left.rank() == 0);
        assert(size(0) == 0);
        growth::lemma_rank_of_units(rate, rate);
        growth::lemma_quotient_rank(left, rate);
        growth::lemma_nearest_to_zero(size(rate.unsigned()));
    }
}

/// The satellite's state is brought up to date with the eclipse that the service tells
/// of, computing while the agent executes; without an answer nothing changes.
pub proof fn answers_bring_the_state_up_to_date(live: Live, now: time::UtcTime, o: OrbitalState)
    ensures
        located(live, now, None) == live,
        located(live, now, Some(o)).status == live.status,
        live.status == AgentStatus::Executing ==> located(live, now, Some(o)).sat_state == sim_client::state_at(
            live.sat_state,
            now,
            o.in_eclipse,
            true,
        ),
        live.status != AgentStatus::Executing ==> located(live, now, Some(o)).sat_state == sim_client::state_at(
            live.sat_state,
            now,
            o.in_eclipse,
            false,
        ),
        position_in(None) is None,
        position_in(Some(o)) == Some(
            Position { lat: o.lat, lon: o.lon, altitude_km: o.altitude_km, in_eclipse: o.in_eclipse },
        ),
{
}

/// A warning stands in the payload of the event, and every other member that the
/// runtime does not set stays.
pub proof fn warnings_stand_in_the_payload(event: EventView, satellite: SatelliteState, in_eclipse: Option<bool>)
    requires
        event.payload is Object,
    ensures
        ({
            let payload = checked_event(event, satellite, in_eclipse).payload;
            &&& precondition_warning(event.event_type, satellite, in_eclipse) matches Some(reason) ==> json::text_field(
                payload,
                "ocp_warning"@,
            ) == Some(reason)
            &&& precondition_warning(event.event_type, satellite, in_eclipse) is None ==> json::field(
                payload,
                "ocp_warning"@,
            ) == json::field(event.payload, "ocp_warning"@)
        }),
{
    reveal_strlit("ocp_warning");
    reveal_strlit("actual_battery_wh");
    reveal_strlit("actual_battery_percent");
    reveal_strlit("actual_temperature_c");
    reveal_strlit("max_available_energy_j");
    reveal_strlit("compute_capacity");
    assert("ocp_warning"@.len() == 11);
    assert("actual_battery_wh"@.len() == 17);
    assert("actual_battery_percent"@.len() == 22);
    assert("actual_temperature_c"@.len() == 20);
    assert("max_available_energy_j"@.len() == 22);
    assert("compute_capacity"@.len() == 16);
    assert(!ocp::is_runtime_field("ocp_warning"@));
    let warned = match precondition_warning(event.event_type, satellite, in_eclipse) {
        Some(reason) => EventView {
            payload: json::with_new_field(event.payload, "ocp_warning"@, json::JsonView::Text(reason)),
            ..event
        },
        None => event,
    };
    ocp::enrichment_keeps_other_fields(warned, satellite, "ocp_warning"@);
}

/// An execution starts with the first event, with no step and no transfer, under the
/// satellite's own name or else the agent's.
pub proof fn executions_start_afresh(satellite: SimulatedSatellite)
    ensures
        ({
            let run = first_run(satellite);
            let c = run.constellation;
            &&& run.stage == Stage::Start
            &&& run.index == 0
            &&& run.pending is None
            &&& c.steps.dom().len() == 0
            &&& c.transfers.dom().len() == 0
            &&& c.completed.len() == 0
            &&& c.failed_over.len() == 0
            &&& c.total_isl_data_mb == double::integer(0)
            &&& satellite.config.satellite_id matches Some(id) ==> c.satellite_id == id@
            &&& satellite.config.satellite_id is None ==> c.satellite_id == satellite.config.agent_id@
        }),
{
}

/// Before an execution hazards are predicted six hours ahead, for a state of 50 MB and
/// a flash storage that takes 10 MB a second.
pub proof fn predictions_look_six_hours_ahead(trajectory: Seq<TrajectoryPoint>, now: time::UtcTime)
    ensures
        prediction_for(trajectory, now) == predict::predicted(
            trajectory,
            now,
            double::integer(6),
            50_000_000,
            10_000_000,
        ),
        horizon(now) == predict::horizon_end(now, double::integer(6))->0,
{
}

} // verus!
