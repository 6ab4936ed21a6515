//! Orbital compute primitives: steps that run in eclipse, in a compute window or
//! during a ground pass.
//!
//! Events of such steps are checked against the satellite's actual state and
//! carry that state when they are reported.

use vstd::prelude::*;

use crate::double::{self, Double};
use crate::json::{self, Json, JsonView};
use crate::sim_client::{self, SatelliteState};
use crate::text::{begins_with, ends_with, same};
use crate::types::{AgentEvent, EventView};

verus! {

/// Spare seconds that a tier must leave in its window.
pub const MIN_MARGIN_S: i64 = 5;

/// Step types recognized by the runtime.
#[derive(Debug, Clone, Copy, PartialEq, Eq, Structural)]
pub enum StepType {
    Standard,
    EclipseStep,
    WindowStep,
    PassStep,
}

/// The step type that the head of an event type names.
pub open spec fn step_type_of(event_type: Seq<char>) -> Option<StepType> {
    if "eclipse_step."@.is_prefix_of(event_type) {
        Some(StepType::EclipseStep)
    } else if "window_step."@.is_prefix_of(event_type) {
        Some(StepType::WindowStep)
    } else if "pass_step."@.is_prefix_of(event_type) {
        Some(StepType::PassStep)
    } else {
        None
    }
}

impl StepType {
    pub fn from_event_type(event_type: &str) -> (r: Option<StepType>)
        ensures
            r == step_type_of(event_type@),
    {
        if begins_with(event_type, "eclipse_step.") {
            Some(StepType::EclipseStep)
        } else if begins_with(event_type, "window_step.") {
            Some(StepType::WindowStep)
        } else if begins_with(event_type, "pass_step.") {
            Some(StepType::PassStep)
        } else {
            None
        }
    }
}

/// The word for a step type.
pub open spec fn step_type_word(t: StepType) -> Seq<char> {
    match t {
        StepType::Standard => "standard"@,
        StepType::EclipseStep => "eclipse-step"@,
        StepType::WindowStep => "window-step"@,
        StepType::PassStep => "pass-step"@,
    }
}

impl StepType {
    /// The word for the step type.
    pub fn word(self) -> (r: &'static str)
        ensures
            r@ == step_type_word(self),
    {
        match self {
            StepType::Standard => "standard",
            StepType::EclipseStep => "eclipse-step",
            StepType::WindowStep => "window-step",
            StepType::PassStep => "pass-step",
        }
    }
}

/// Quality tier definition for window-step adaptive execution.
#[derive(Debug, Clone)]
pub struct QualityTier {
    pub id: String,
    pub duration_s: Double,
    pub output_data_mb: Double,
    pub output_quality: Double,
    pub switch_cost_s: Double,
}

/// The JSON form of a tier.
pub open spec fn tier_form(tier: QualityTier) -> JsonView {
    json::with_field(
        json::with_field(
            json::with_field(
                json::with_field(
                    json::with_field(
                        JsonView::Object(Map::empty()),
                        "id"@,
                        JsonView::Text(tier.id@),
                    ),
                    "duration_s"@,
                    json::number_view(tier.duration_s),
                ),
                "output_data_mb"@,
                json::number_view(tier.output_data_mb),
            ),
            "output_quality"@,
            json::number_view(tier.output_quality),
        ),
        "switch_cost_s"@,
        json::number_view(tier.switch_cost_s),
    )
}

impl QualityTier {
    /// The tier as JSON.
    pub fn to_json(&self) -> (r: Json)
        ensures
            r@ == tier_form(*self),
    {
        let mut form = Json::object();
        form.set("id", Json::text(self.id.as_str()));
        form.set("duration_s", Json::number(self.duration_s));
        form.set("output_data_mb", Json::number(self.output_data_mb));
        form.set("output_quality", Json::number(self.output_quality));
        form.set("switch_cost_s", Json::number(self.switch_cost_s));
        form
    }
}

/// Throughput estimator with exponential smoothing.
///
/// It predicts whether the current tier will complete within the remaining
/// window. The smoothing factor weighs a new observation against the estimate
/// so far.
#[derive(Debug)]
pub struct ThroughputEstimator {
    alpha: Double,
    estimated_rate: Option<Double>,
}

/// The rate after an observation of `fraction` of the work in `elapsed_s`
/// seconds; one without work or time says nothing.
pub open spec fn smoothed_rate(
    alpha: Double,
    rate: Option<Double>,
    fraction: Double,
    elapsed_s: Double,
) -> Option<Double> {
    let zero = double::integer(0);
    if double::at_most(elapsed_s, zero) || double::at_most(fraction, zero) {
        rate
    } else {
        let observed = double::quotient(fraction, elapsed_s);
        match rate {
            Some(prev) => Some(
                double::sum(
                    double::product(alpha, observed),
                    double::product(double::difference(double::integer(1), alpha), prev),
                ),
            ),
            None => Some(observed),
        }
    }
}

/// Time for the rest of the work at the given rate; infinite where the rate is
/// not positive.
pub open spec fn remaining_at(rate: Double, fraction_done: Double) -> Double {
    if double::at_most(rate, double::integer(0)) {
        double::pattern(false, double::model::INFINITE as nat)
    } else {
        double::quotient(double::difference(double::integer(1), fraction_done), rate)
    }
}

impl ThroughputEstimator {
    /// The smoothing factor.
    pub closed spec fn alpha(self) -> Double {
        self.alpha
    }

    /// The estimated rate, in shares of the work per second.
    pub closed spec fn rate(self) -> Option<Double> {
        self.estimated_rate
    }

    pub fn new(alpha: Double) -> (r: ThroughputEstimator)
        ensures
            r.alpha() == alpha,
            r.rate() is None,
    {
        ThroughputEstimator { alpha, estimated_rate: None }
    }

    /// Update the estimate with a new observation.
    /// `fraction` is the work completed (0.0-1.0), `elapsed_s` is time taken.
    pub fn update(&mut self, fraction: Double, elapsed_s: Double)
        ensures
            final(self).alpha() == old(self).alpha(),
            final(self).rate() == smoothed_rate(old(self).alpha(), old(self).rate(), fraction, elapsed_s),
    {
        let zero = Double::from_i64(0);
        if elapsed_s.is_at_most(zero) || fraction.is_at_most(zero) {
            return;
        }
        let observed_rate = fraction.over(elapsed_s);
        self.estimated_rate = Some(
            match self.estimated_rate {
                Some(prev) => self.alpha.times(observed_rate).plus(
                    Double::from_i64(1).minus(self.alpha).times(prev),
                ),
                None => observed_rate,
            },
        );
    }

    /// Estimate time to complete remaining work.
    /// Returns None if no observations yet.
    pub fn estimate_remaining_s(&self, fraction_done: Double) -> (r: Option<Double>)
        ensures
            r == match self.rate() {
                Some(rate) => Some(remaining_at(rate, fraction_done)),
                None => None,
            },
    {
        match self.estimated_rate {
            Some(rate) => Some(
                if rate.is_at_most(Double::from_i64(0)) {
                    Double::from_bits(double::model::INFINITE)
                } else {
                    Double::from_i64(1).minus(fraction_done).over(rate)
                },
            ),
            None => None,
        }
    }
}

/// Eclipse energy tracker: monitors battery usage during eclipse-step execution.
#[derive(Debug, Clone, Copy, PartialEq, Eq, Structural)]
pub struct EclipseEnergyTracker {
    pub budget_j: Double,
    pub consumed_j: Double,
    pub power_w: Double,
    pub started_battery_wh: Double,
    pub half_check_emitted: bool,
}

/// The tracker after `elapsed_s` more seconds of work.
pub open spec fn ticked(t: EclipseEnergyTracker, elapsed_s: Double) -> EclipseEnergyTracker {
    EclipseEnergyTracker {
        consumed_j: double::sum(t.consumed_j, double::product(t.power_w, elapsed_s)),
        ..t
    }
}

/// Half of the budget is used up, and that has not been reported.
pub open spec fn half_check_due(t: EclipseEnergyTracker) -> bool {
    !t.half_check_emitted && double::at_most(double::product(t.budget_j, double::ratio(1, 2)), t.consumed_j)
}

/// The tracker after a look at the half mark.
pub open spec fn half_checked(t: EclipseEnergyTracker) -> EclipseEnergyTracker {
    EclipseEnergyTracker { half_check_emitted: t.half_check_emitted || half_check_due(t), ..t }
}

/// A use of the tracker.
pub enum Use {
    /// So many more seconds of work
    Tick(Double),
    /// A look at the half mark
    Look,
}

/// The tracker after a row of uses.
pub open spec fn used(t: EclipseEnergyTracker, uses: Seq<Use>) -> EclipseEnergyTracker
    decreases uses.len(),
{
    if uses.len() == 0 {
        t
    } else {
        let before = used(t, uses.drop_last());
        match uses.last() {
            Use::Tick(elapsed_s) => ticked(before, elapsed_s),
            Use::Look => half_checked(before),
        }
    }
}

/// How many looks in a row of uses find the half mark due.
pub open spec fn times_due(t: EclipseEnergyTracker, uses: Seq<Use>) -> nat
    decreases uses.len(),
{
    if uses.len() == 0 {
        0
    } else {
        let rest = uses.drop_last();
        times_due(t, rest) + if uses.last() is Look && half_check_due(used(t, rest)) { 1nat } else { 0nat }
    }
}

/// The half mark is due once at most, whatever row of ticks and looks: the first
/// look that finds half of the budget used up is told so, and none after it.
pub proof fn half_check_is_due_once(t: EclipseEnergyTracker, uses: Seq<Use>)
    ensures
        times_due(t, uses) <= 1,
        t.half_check_emitted ==> times_due(t, uses) == 0,
        used(t, uses).half_check_emitted <==> t.half_check_emitted || times_due(t, uses) == 1,
        times_due(t, uses) == 1 ==> !half_check_due(used(t, uses)),
        used(t, uses).budget_j == t.budget_j,
    decreases uses.len(),
{
    if uses.len() > 0 {
        half_check_is_due_once(t, uses.drop_last());
    }
}

impl EclipseEnergyTracker {
    pub fn new(budget_j: Double, power_w: Double, current_battery_wh: Double) -> (r: EclipseEnergyTracker)
        ensures
            r == (EclipseEnergyTracker {
                budget_j,
                consumed_j: double::integer(0),
                power_w,
                started_battery_wh: current_battery_wh,
                half_check_emitted: false,
            }),
    {
        EclipseEnergyTracker {
            budget_j,
            consumed_j: Double::from_i64(0),
            power_w,
            started_battery_wh: current_battery_wh,
            half_check_emitted: false,
        }
    }

    /// Update energy consumed. Returns true if over budget.
    pub fn tick(&mut self, elapsed_s: Double) -> (r: bool)
        ensures
            *final(self) == ticked(*old(self), elapsed_s),
            r == double::less(old(self).budget_j, final(self).consumed_j),
    {
        self.consumed_j = self.consumed_j.plus(self.power_w.times(elapsed_s));
        self.budget_j.is_less(self.consumed_j)
    }

    /// Check if we've passed the 50% mark (for energy_check event).
    pub fn should_emit_half_check(&mut self) -> (r: bool)
        ensures
            *final(self) == half_checked(*old(self)),
            r == half_check_due(*old(self)),
    {
        if !self.half_check_emitted && self.budget_j.times(Double::decimal(1, 2)).is_at_most(self.consumed_j) {
            self.half_check_emitted = true;
            return true;
        }
        false
    }

    /// What is left of the budget; nothing once it is exceeded.
    pub fn remaining_j(&self) -> (r: Double)
        ensures
            r == double::larger(double::difference(self.budget_j, self.consumed_j), double::integer(0)),
            double::at_most(double::integer(0), r),
    {
        proof {
            double::integer_zero();
            reveal(double::less);
            reveal(double::at_most);
        }
        self.budget_j.minus(self.consumed_j).max(Double::from_i64(0))
    }
}

/// Seconds that a tier takes: its duration, the switch to it, and the margin.
pub open spec fn needed_s(tier: QualityTier) -> Double {
    double::sum(double::sum(tier.duration_s, tier.switch_cost_s), double::integer(MIN_MARGIN_S as int))
}

/// The tier completes within the available seconds.
pub open spec fn fits(tier: QualityTier, available_s: Double) -> bool {
    double::at_most(needed_s(tier), available_s)
}

/// Select the best quality tier that fits within the available window.
///
/// Returns the tier index. Tiers must be sorted highest-quality-first, so that
/// the first that fits is the best.
pub fn select_best_tier(tiers: &[QualityTier], available_s: Double) -> (r: Option<usize>)
    ensures
        match r {
            Some(i) => i < tiers@.len() && fits(tiers@[i as int], available_s) && forall|j: int|
                0 <= j < i ==> !fits(#[trigger] tiers@[j], available_s),
            None => forall|j: int| 0 <= j < tiers@.len() ==> !fits(#[trigger] tiers@[j], available_s),
        },
{
    let mut i: usize = 0;
    while i < tiers.len()
        invariant
            i <= tiers@.len(),
            forall|j: int| 0 <= j < i ==> !fits(#[trigger] tiers@[j], available_s),
        decreases tiers@.len() - i,
    {
        let tier = &tiers[i];
        let needed = tier.duration_s.plus(tier.switch_cost_s).plus(Double::from_i64(MIN_MARGIN_S));
        if needed.is_at_most(available_s) {
            return Some(i);
        }
        i = i + 1;
    }
    None
}

/// Where tiers stand highest-quality-first, the first that fits is the best that
/// does.
pub proof fn first_fit_is_best(tiers: Seq<QualityTier>, available_s: Double, i: int, j: int)
    requires
        forall|a: int, b: int|
            0 <= a < b < tiers.len() ==> double::at_most(
                (#[trigger] tiers[b]).output_quality,
                (#[trigger] tiers[a]).output_quality,
            ),
        0 <= i < tiers.len(),
        forall|k: int| 0 <= k < i ==> !fits(#[trigger] tiers[k], available_s),
        0 <= j < tiers.len(),
        j != i,
        fits(tiers[j], available_s),
    ensures
        double::at_most(tiers[j].output_quality, tiers[i].output_quality),
{
    assert(j > i);
}

/// A number rounded to hundredths.
pub open spec fn to_hundredths(v: Double) -> Double {
    double::to_parts(v, 100)
}

/// Rounds to hundredths.
pub fn round2(v: Double) -> (r: Double)
    ensures
        r == to_hundredths(v),
{
    v.round_to(100)
}

/// The energy that a charge allows an eclipse-step, in joules: a quarter of it.
pub open spec fn eclipse_allowance_j(battery_wh: Double) -> Double {
    double::product(double::product(battery_wh, double::ratio(1, 4)), double::integer(3600))
}

/// The payload of an event with what the runtime adds to it.
pub open spec fn enriched_payload(event_type: Seq<char>, payload: JsonView, state: SatelliteState) -> JsonView {
    let percent = json::number_view(to_hundredths(state.battery_wh));
    match step_type_of(event_type) {
        Some(StepType::EclipseStep) => {
            let actual = json::with_field(
                json::with_field(
                    json::with_field(
                        payload,
                        "actual_battery_wh"@,
                        json::number_view(to_hundredths(state.battery_wh)),
                    ),
                    "actual_battery_percent"@,
                    percent,
                ),
                "actual_temperature_c"@,
                json::number_view(to_hundredths(state.temperature_c)),
            );
            if event_type == "eclipse_step.started"@ {
                json::with_field(
                    actual,
                    "max_available_energy_j"@,
                    json::number_view(to_hundredths(eclipse_allowance_j(state.battery_wh))),
                )
            } else {
                actual
            }
        },
        Some(StepType::WindowStep) => json::with_field(
            json::with_field(payload, "actual_battery_percent"@, percent),
            "compute_capacity"@,
            json::number_view(sim_client::capacity_at(state.battery_wh)),
        ),
        Some(StepType::PassStep) => json::with_field(payload, "actual_battery_percent"@, percent),
        _ => payload,
    }
}

/// The event with what the runtime adds to it.
pub open spec fn enriched(event: EventView, state: SatelliteState) -> EventView {
    EventView { payload: enriched_payload(event.event_type, event.payload, state), ..event }
}

/// Enrich an event with runtime satellite state.
///
/// Called during event replay. Adds actual battery, temperature, and computed
/// fields to the event payload, where that is an object.
pub fn enrich_event(event: &mut AgentEvent, state: &SatelliteState)
    ensures
        final(event)@ == enriched(old(event)@, *state),
        final(event).payload is Object == old(event).payload is Object,
{
    match StepType::from_event_type(event.event_type.as_str()) {
        Some(StepType::EclipseStep) => {
            event.payload.set("actual_battery_wh", Json::number(round2(state.battery_wh)));
            event.payload.set("actual_battery_percent", Json::number(round2(state.battery_percent())));
            event.payload.set("actual_temperature_c", Json::number(round2(state.temperature_c)));

            if same(event.event_type.as_str(), "eclipse_step.started") {
                let max_available_wh = state.battery_wh.times(Double::decimal(1, 4));
                let max_available_j = max_available_wh.times(Double::from_i64(3600));
                event.payload.set("max_available_energy_j", Json::number(round2(max_available_j)));
            }
        },
        Some(StepType::WindowStep) => {
            event.payload.set("actual_battery_percent", Json::number(round2(state.battery_percent())));
            event.payload.set("compute_capacity", Json::number(state.compute_capacity()));
        },
        Some(StepType::PassStep) => {
            event.payload.set("actual_battery_percent", Json::number(round2(state.battery_percent())));
        },
        _ => {},
    }
}

/// Every member that enrichment sets.
pub open spec fn is_runtime_field(name: Seq<char>) -> bool {
    name == "actual_battery_wh"@ || name == "actual_battery_percent"@ || name == "actual_temperature_c"@ || name
        == "max_available_energy_j"@ || name == "compute_capacity"@
}

/// Enrichment sets its own members and leaves every other one as it was, and an
/// event of no such step stays whole.
pub proof fn enrichment_keeps_other_fields(event: EventView, state: SatelliteState, name: Seq<char>)
    ensures
        !is_runtime_field(name) ==> json::field(enriched(event, state).payload, name) == json::field(
            event.payload,
            name,
        ),
        step_type_of(event.event_type) is None ==> enriched(event, state) == event,
        !(event.payload is Object) ==> enriched(event, state) == event,
{
}

/// Enriching twice with the same state is enriching once.
pub proof fn enrichment_is_idempotent(event: EventView, state: SatelliteState)
    ensures
        enriched(enriched(event, state), state) == enriched(event, state),
{
    let once = enriched(event, state).payload;
    let twice = enriched(enriched(event, state), state).payload;
    if let JsonView::Object(m) = event.payload {
        assert(twice->Object_0 =~= once->Object_0);
    }
}

/// Why the satellite's state does not suit an event; `None` where it does.
pub open spec fn precondition_warning(
    event_type: Seq<char>,
    state: SatelliteState,
    in_eclipse: Option<bool>,
) -> Option<Seq<char>> {
    let starts = ".started"@.is_suffix_of(event_type);
    if step_type_of(event_type) == Some(StepType::EclipseStep) && starts && in_eclipse == Some(false) {
        Some("satellite not in eclipse"@)
    } else if step_type_of(event_type) == Some(StepType::PassStep) && starts && double::less(
        state.battery_wh,
        double::integer(10),
    ) {
        Some("battery critically low for pass-step"@)
    } else {
        None
    }
}

/// Check whether the satellite is in a valid state for the given event.
/// Returns a description if execution should be skipped or deferred.
pub fn validate_ocp_precondition(event_type: &str, state: &SatelliteState, in_eclipse: Option<bool>) -> (r: Option<
    String,
>)
    ensures
        match r {
            Some(reason) => precondition_warning(event_type@, *state, in_eclipse) == Some(reason@),
            None => precondition_warning(event_type@, *state, in_eclipse) is None,
        },
{
    match StepType::from_event_type(event_type) {
        Some(StepType::EclipseStep) => {
            if ends_with(event_type, ".started") {
                if let Some(false) = in_eclipse {
                    return Some("satellite not in eclipse".to_owned());
                }
            }
            None
        },
        Some(StepType::PassStep) => {
            if ends_with(event_type, ".started") && state.battery_percent().is_less(Double::from_i64(10)) {
                return Some("battery critically low for pass-step".to_owned());
            }
            None
        },
        _ => None,
    }
}

} // verus!
