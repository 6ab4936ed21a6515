//! Runtime intelligence for eclipse, window and pass steps.

use rotastellar_agent::double::Double;
use rotastellar_agent::json::Json;
use rotastellar_agent::ocp::{
    enrich_event, round2, select_best_tier, validate_ocp_precondition, EclipseEnergyTracker, QualityTier, StepType,
    ThroughputEstimator,
};
use rotastellar_agent::sim_client::SatelliteState;
use rotastellar_agent::time::UtcTime;
use rotastellar_agent::types::AgentEvent;

fn d(x: f64) -> Double {
    Double::from_bits(x.to_bits())
}

fn f(x: Double) -> f64 {
    f64::from_bits(x.to_bits())
}

fn object(members: Vec<(&str, Json)>) -> Json {
    let mut v = Json::object();
    for (name, value) in members {
        v.set(name, value);
    }
    v
}

fn event(event_type: &str, step_id: &str, payload: Json) -> AgentEvent {
    AgentEvent {
        event_type: event_type.to_string(),
        timestamp: UtcTime::now().to_rfc3339(),
        job_id: "j1".to_string(),
        step_id: Some(step_id.to_string()),
        payload,
    }
}

fn number(event: &AgentEvent, name: &str) -> f64 {
    f(event.payload.number_at(name).unwrap())
}

#[test]
fn test_step_type_from_event() {
    assert_eq!(StepType::from_event_type("eclipse_step.started"), Some(StepType::EclipseStep));
    assert_eq!(StepType::from_event_type("window_step.completed"), Some(StepType::WindowStep));
    assert_eq!(StepType::from_event_type("pass_step.started"), Some(StepType::PassStep));
    assert_eq!(StepType::from_event_type("step.started"), None);
    assert_eq!(StepType::from_event_type("job.completed"), None);
}

#[test]
fn test_throughput_estimator() {
    let mut est = ThroughputEstimator::new(d(0.3));
    assert!(est.estimate_remaining_s(d(0.0)).is_none());

    // 25% done in 45s → rate = 0.00556/s
    est.update(d(0.25), d(45.0));
    let remaining = f(est.estimate_remaining_s(d(0.25)).unwrap());
    // Should estimate ~135s for remaining 75%
    assert!((remaining - 135.0).abs() < 1.0);

    // Faster observation: 50% done in 80s total → rate for this chunk = 0.25/35 = 0.00714
    est.update(d(0.25), d(35.0));
    // Rate should be smoothed between old and new
    let remaining2 = f(est.estimate_remaining_s(d(0.50)).unwrap());
    assert!(remaining2 < 135.0); // should be faster now
}

#[test]
fn estimates_are_those_of_native_arithmetic() {
    let mut est = ThroughputEstimator::new(d(0.3));
    est.update(d(0.25), d(45.0));
    est.update(d(0.25), d(35.0));
    let rate = 0.3 * (0.25 / 35.0) + (1.0 - 0.3) * (0.25 / 45.0);
    assert_eq!(f(est.estimate_remaining_s(d(0.5)).unwrap()), (1.0 - 0.5) / rate);
}

#[test]
fn observations_without_work_or_time_are_ignored() {
    let mut est = ThroughputEstimator::new(d(0.3));
    est.update(d(0.5), d(0.0));
    est.update(d(0.0), d(10.0));
    est.update(d(0.5), d(-1.0));
    assert!(est.estimate_remaining_s(d(0.0)).is_none());
}

#[test]
fn a_rate_that_is_not_positive_never_finishes() {
    // A smoothing factor above one can push the rate below zero.
    let mut est = ThroughputEstimator::new(d(2.0));
    est.update(d(1.0), d(1.0));
    est.update(d(0.1), d(1.0));
    assert_eq!(f(est.estimate_remaining_s(d(0.5)).unwrap()), f64::INFINITY);
}

#[test]
fn test_eclipse_energy_tracker() {
    let mut tracker = EclipseEnergyTracker::new(d(4800.0), d(8.0), d(80.0));
    assert!(!tracker.tick(d(100.0))); // 800J < 4800J
    assert!(!tracker.should_emit_half_check()); // 800 < 2400

    tracker.tick(d(200.0)); // now 2400J = 50%
    assert!(tracker.should_emit_half_check());
    assert!(!tracker.should_emit_half_check()); // only once

    assert!(!tracker.tick(d(200.0))); // 4000J < 4800J
    assert!(tracker.tick(d(200.0))); // 5600J > 4800J — over budget
    assert_eq!(f(tracker.remaining_j()), 0.0);
}

#[test]
fn looks_before_the_half_mark_find_nothing() {
    let mut tracker = EclipseEnergyTracker::new(d(10.0), d(1.0), d(80.0));
    let mut found = 0;
    for _ in 0..12 {
        for _ in 0..3 {
            if tracker.should_emit_half_check() {
                assert_eq!(f(tracker.consumed_j), 5.0);
                found += 1;
            }
        }
        tracker.tick(d(1.0));
    }
    assert_eq!(found, 1);
}

#[test]
fn the_half_mark_is_reported_once() {
    let mut tracker = EclipseEnergyTracker::new(d(10.0), d(1.0), d(80.0));
    tracker.tick(d(6.0));
    assert!(tracker.should_emit_half_check());
    for _ in 0..5 {
        tracker.tick(d(6.0));
        assert!(!tracker.should_emit_half_check());
    }
    assert_eq!(f(tracker.consumed_j), 36.0);
    assert_eq!(f(tracker.started_battery_wh), 80.0);
}

#[test]
fn the_rest_of_a_budget() {
    let mut tracker = EclipseEnergyTracker::new(d(4800.0), d(8.0), d(80.0));
    tracker.tick(d(100.0));
    assert_eq!(f(tracker.remaining_j()), 4000.0);
}

fn tiers() -> Vec<QualityTier> {
    vec![
        QualityTier {
            id: "full".to_string(),
            duration_s: d(180.0),
            output_data_mb: d(50.0),
            output_quality: d(1.0),
            switch_cost_s: d(0.0),
        },
        QualityTier {
            id: "reduced".to_string(),
            duration_s: d(90.0),
            output_data_mb: d(25.0),
            output_quality: d(0.7),
            switch_cost_s: d(2.0),
        },
        QualityTier {
            id: "minimal".to_string(),
            duration_s: d(30.0),
            output_data_mb: d(5.0),
            output_quality: d(0.3),
            switch_cost_s: d(2.0),
        },
    ]
}

#[test]
fn test_select_best_tier() {
    let tiers = tiers();

    // Plenty of time → full tier
    assert_eq!(select_best_tier(&tiers, d(200.0)), Some(0));
    // Not enough for full, but enough for reduced
    assert_eq!(select_best_tier(&tiers, d(100.0)), Some(1));
    // Only minimal fits
    assert_eq!(select_best_tier(&tiers, d(40.0)), Some(2));
    // Nothing fits
    assert_eq!(select_best_tier(&tiers, d(30.0)), None);
}

#[test]
fn a_tier_fits_to_the_second() {
    let tiers = tiers();
    assert_eq!(select_best_tier(&tiers, d(185.0)), Some(0));
    assert_eq!(select_best_tier(&tiers, d(184.99)), Some(1));
    assert_eq!(select_best_tier(&tiers, d(37.0)), Some(2));
    assert_eq!(select_best_tier(&tiers, d(36.99)), None);
    assert_eq!(select_best_tier(&tiers, d(f64::NAN)), None);
    assert_eq!(select_best_tier(&[], d(1000.0)), None);
}

#[test]
fn the_first_fit_has_the_best_quality() {
    let tiers = tiers();
    for available in [30.0, 37.0, 100.0, 184.0, 1000.0] {
        if let Some(i) = select_best_tier(&tiers, d(available)) {
            for tier in &tiers {
                if f(tier.duration_s) + f(tier.switch_cost_s) + 5.0 <= available {
                    assert!(f(tier.output_quality) <= f(tiers[i].output_quality));
                }
            }
        }
    }
}

#[test]
fn test_enrich_eclipse_event() {
    let mut state = SatelliteState::new();
    state.battery_wh = d(75.0);
    state.temperature_c = d(-15.0);

    let mut event = event(
        "eclipse_step.started",
        "eclipse_preprocess",
        object(vec![("energy_budget_j", Json::natural(4800))]),
    );

    enrich_event(&mut event, &state);

    assert_eq!(number(&event, "actual_battery_wh"), 75.0);
    assert_eq!(number(&event, "actual_battery_percent"), 75.0);
    assert_eq!(number(&event, "actual_temperature_c"), -15.0);
    // max_available = 75 * 0.25 * 3600 = 67500J
    assert!(number(&event, "max_available_energy_j") > 60000.0);
    assert_eq!(number(&event, "max_available_energy_j"), 67500.0);
    assert_eq!(number(&event, "energy_budget_j"), 4800.0);
}

#[test]
fn test_enrich_window_event() {
    let mut state = SatelliteState::new();
    state.battery_wh = d(50.0);

    let mut event = event(
        "window_step.started",
        "adaptive_analysis",
        object(vec![("planned_tier", Json::text("full"))]),
    );

    enrich_event(&mut event, &state);

    assert_eq!(number(&event, "actual_battery_percent"), 50.0);
    assert_eq!(number(&event, "compute_capacity"), 1.0);
    assert_eq!(event.payload.text_at("planned_tier"), Some("full"));
}

#[test]
fn only_the_start_of_an_eclipse_step_gets_an_allowance() {
    let state = SatelliteState::new();
    let mut event = event("eclipse_step.completed", "s", Json::object());
    enrich_event(&mut event, &state);
    assert_eq!(number(&event, "actual_battery_wh"), 80.0);
    assert!(event.payload.get("max_available_energy_j").is_none());
}

#[test]
fn enriching_again_changes_nothing() {
    let mut state = SatelliteState::new();
    state.battery_wh = d(61.23456);
    let mut event = event("pass_step.started", "s", object(vec![("a", Json::Bool(true))]));
    enrich_event(&mut event, &state);
    let once = format!("{:?}", event);
    enrich_event(&mut event, &state);
    assert_eq!(format!("{:?}", event), once);
    assert_eq!(number(&event, "actual_battery_percent"), 61.23);
    assert_eq!(event.payload.flag_at("a"), Some(true));
}

#[test]
fn other_events_and_payloads_stay_as_they_are() {
    let state = SatelliteState::new();
    let mut plain = event("step.started", "s", Json::object());
    enrich_event(&mut plain, &state);
    assert!(plain.payload.get("actual_battery_percent").is_none());
    let mut odd = event("pass_step.started", "s", Json::text("x"));
    enrich_event(&mut odd, &state);
    assert!(matches!(odd.payload, Json::Text(t) if t == "x"));
}

#[test]
fn hundredths_round_half_away_from_zero() {
    for x in [0.125, -0.125, 2.675, 1.005, -7.0, 1e300, f64::INFINITY] {
        let expected: f64 = (x * 100.0_f64).round() / 100.0;
        assert_eq!(f(round2(d(x))).to_bits(), expected.to_bits());
    }
}

#[test]
fn test_validate_eclipse_not_in_eclipse() {
    let state = SatelliteState::new();
    let result = validate_ocp_precondition("eclipse_step.started", &state, Some(false));
    assert!(result.is_some());
    assert!(result.unwrap().contains("not in eclipse"));
}

#[test]
fn test_validate_eclipse_in_eclipse() {
    let state = SatelliteState::new();
    let result = validate_ocp_precondition("eclipse_step.started", &state, Some(true));
    assert!(result.is_none());
}

#[test]
fn test_validate_pass_low_battery() {
    let mut state = SatelliteState::new();
    state.battery_wh = d(5.0);
    let result = validate_ocp_precondition("pass_step.started", &state, None);
    assert!(result.is_some());
}

#[test]
fn test_standard_events_pass_validation() {
    let state = SatelliteState::new();
    assert!(validate_ocp_precondition("step.started", &state, None).is_none());
    assert!(validate_ocp_precondition("job.completed", &state, None).is_none());
}

#[test]
fn only_starts_are_held_against_the_state() {
    let mut state = SatelliteState::new();
    state.battery_wh = d(5.0);
    assert!(validate_ocp_precondition("eclipse_step.completed", &state, Some(false)).is_none());
    assert!(validate_ocp_precondition("pass_step.completed", &state, None).is_none());
    assert!(validate_ocp_precondition("eclipse_step.started", &state, None).is_none());
    state.battery_wh = d(10.0);
    assert!(validate_ocp_precondition("pass_step.started", &state, None).is_none());
}

#[test]
fn forms_of_tiers_and_step_types() {
    let tier = QualityTier {
        id: "full".to_string(),
        duration_s: d(120.0),
        output_data_mb: d(50.0),
        output_quality: d(0.95),
        switch_cost_s: d(1.5),
    };
    let form = tier.to_json();
    assert_eq!(form.text_at("id"), Some("full"));
    assert_eq!(f(form.number_at("duration_s").unwrap()), 120.0);
    assert_eq!(f(form.number_at("output_data_mb").unwrap()), 50.0);
    assert_eq!(f(form.number_at("output_quality").unwrap()), 0.95);
    assert_eq!(f(form.number_at("switch_cost_s").unwrap()), 1.5);
    assert_eq!(StepType::Standard.word(), "standard");
    assert_eq!(StepType::EclipseStep.word(), "eclipse-step");
    assert_eq!(StepType::WindowStep.word(), "window-step");
    assert_eq!(StepType::PassStep.word(), "pass-step");
}
