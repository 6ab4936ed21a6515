//! The local view of a constellation execution.

use rotastellar_agent::constellation::{
    check_failover_condition, enrich_event, handle_event, handle_event_at, is_constellation_event,
    ConstellationState, StepStatus, TransferStatus,
};
use rotastellar_agent::double::Double;
use rotastellar_agent::json::Json;
use rotastellar_agent::time::UtcTime;
use rotastellar_agent::{AgentEvent, Position, SatelliteState};

fn d(x: f64) -> Double {
    Double::from_bits(x.to_bits())
}

fn f(x: Double) -> f64 {
    f64::from_bits(x.to_bits())
}

fn object(members: Vec<(&str, Json)>) -> Json {
    let mut v = Json::object();
    for (name, value) in members {
        v.set(name, value);
    }
    v
}

fn num(x: f64) -> Json {
    Json::number(d(x))
}

fn make_event(event_type: &str, step_id: Option<&str>, payload: Json) -> AgentEvent {
    AgentEvent {
        event_type: event_type.to_string(),
        timestamp: "2026-03-10T12:00:00Z".to_string(),
        job_id: "job-1".to_string(),
        step_id: step_id.map(String::from),
        payload,
    }
}

fn state_with(battery_wh: f64, temperature_c: f64) -> SatelliteState {
    SatelliteState { battery_wh: d(battery_wh), temperature_c: d(temperature_c), last_update: UtcTime::now() }
}

fn make_sat_state() -> SatelliteState {
    state_with(80.0, 25.0)
}

fn status(state: &ConstellationState, id: &str) -> StepStatus {
    state.assigned_steps.get(id).unwrap().status
}

#[test]
fn test_is_constellation_event() {
    assert!(is_constellation_event(&make_event("constellation.step_assigned", None, Json::object())));
    assert!(is_constellation_event(&make_event("isl_transfer.started", None, Json::object())));
    assert!(!is_constellation_event(&make_event("step.completed", None, Json::object())));
    assert!(!is_constellation_event(&make_event("job.accepted", None, Json::object())));
}

#[test]
fn test_step_assignment_and_completion() {
    let mut state = ConstellationState::new("sat-99901".to_string());
    let sat_state = make_sat_state();

    // Assign a step
    let assign_event = make_event(
        "constellation.step_assigned",
        Some("step-1"),
        object(vec![
            ("step_name", Json::text("feature_extraction")),
            ("duration_s", num(180.0)),
            ("is_replica", Json::Bool(false)),
        ]),
    );
    handle_event(&assign_event, &mut state, &sat_state, None);
    assert_eq!(state.steps_assigned(), 1);
    assert_eq!(status(&state, "step-1"), StepStatus::Pending);

    // Start it
    let start_event = make_event("constellation.step_started", Some("step-1"), Json::object());
    handle_event(&start_event, &mut state, &sat_state, None);
    assert_eq!(status(&state, "step-1"), StepStatus::Executing);

    // Complete it
    let complete_event = make_event("constellation.step_completed", Some("step-1"), Json::object());
    let extras = handle_event(&complete_event, &mut state, &sat_state, None);
    assert_eq!(status(&state, "step-1"), StepStatus::Completed);
    assert_eq!(state.steps_completed(), 1);
    assert!(state.all_done());
    // Should emit satellite_complete event
    assert_eq!(extras.len(), 1);
    assert_eq!(extras[0].event_type, "constellation.satellite_complete");
}

#[test]
fn a_step_counts_once() {
    let mut state = ConstellationState::new("sat-1".to_string());
    let sat_state = make_sat_state();
    handle_event(&make_event("constellation.step_assigned", Some("s1"), Json::object()), &mut state, &sat_state, None);
    let complete = make_event("constellation.step_completed", Some("s1"), Json::object());
    handle_event(&complete, &mut state, &sat_state, None);
    let extras = handle_event(&complete, &mut state, &sat_state, None);
    assert_eq!(state.steps_assigned(), 1);
    assert_eq!(state.steps_completed(), 1);
    assert_eq!(state.completed_steps, vec!["s1"]);
    assert_eq!(f(extras[0].payload.number_at("steps_completed").unwrap()), 1.0);

    handle_event(&make_event("constellation.step_assigned", Some("s2"), Json::object()), &mut state, &sat_state, None);
    let failover = make_event("constellation.failover", Some("s2"), Json::object());
    handle_event(&failover, &mut state, &sat_state, None);
    handle_event(&failover, &mut state, &sat_state, None);
    // Each failover is noted
    assert_eq!(state.failed_over_steps, vec!["s2", "s2"]);
    assert_eq!(state.steps_completed(), 1);
    // A step that is not assigned here does not count
    handle_event(
        &make_event("constellation.step_completed", Some("s3"), Json::object()),
        &mut state,
        &sat_state,
        None,
    );
    assert_eq!(state.steps_completed(), 1);
}

fn quality_at(distance_km: f64, position: Option<Position>) -> f64 {
    let mut state = ConstellationState::new("sat".to_string());
    let sat_state = make_sat_state();
    let start = make_event("isl_transfer.started", None, object(vec![("transfer_id", Json::text("t"))]));
    handle_event(&start, &mut state, &sat_state, None);
    let hop = make_event(
        "isl_transfer.hop_completed",
        None,
        object(vec![("transfer_id", Json::text("t")), ("distance_km", num(distance_km))]),
    );
    handle_event(&hop, &mut state, &sat_state, position.as_ref());
    f(state.active_transfers.get("t").unwrap().hops[0].quality)
}

#[test]
fn links_get_worse_with_distance_and_in_eclipse() {
    let lit = Position { lat: d(0.0), lon: d(0.0), altitude_km: d(550.0), in_eclipse: false };
    let dark = Position { in_eclipse: true, ..lit };
    let mut last = 1.0;
    for distance in [0.0, 0.1, 1.0, 999.9, 1000.0, 5000.0, 8333.0, 8334.0, 1e9, f64::MAX] {
        let quality = quality_at(distance, Some(lit));
        assert!(0.0 <= quality && quality <= last);
        assert_eq!(quality_at(distance, Some(dark)), quality * 0.9);
        assert_eq!(quality_at(distance, None), 0.85);
        last = quality;
    }
    assert_eq!(quality_at(0.0, Some(lit)), 1.0);
    assert_eq!(last, 0.0);
}

#[test]
fn the_announcement_of_completion() {
    let mut state = ConstellationState::new("sat-99901".to_string());
    let sat_state = make_sat_state();
    let a = make_event("constellation.step_assigned", Some("s1"), Json::object());
    handle_event(&a, &mut state, &sat_state, None);
    let c = make_event("constellation.step_completed", Some("s1"), Json::object());
    let extras = handle_event_at(&c, &mut state, &sat_state, None, "2026-03-10T12:00:01Z");
    assert_eq!(extras[0].timestamp, "2026-03-10T12:00:01Z");
    assert_eq!(extras[0].job_id, "job-1");
    assert!(extras[0].step_id.is_none());
    let p = &extras[0].payload;
    assert_eq!(p.text_at("satellite_id"), Some("sat-99901"));
    assert_eq!(f(p.number_at("steps_completed").unwrap()), 1.0);
    assert_eq!(f(p.number_at("steps_failed_over").unwrap()), 0.0);
    assert_eq!(f(p.number_at("total_isl_data_mb").unwrap()), 0.0);
    assert_eq!(f(p.number_at("battery_percent").unwrap()), 80.0);
    assert_eq!(f(p.number_at("temperature_c").unwrap()), 25.0);
}

#[test]
fn an_assignment_is_read_in_full() {
    let mut state = ConstellationState::new("sat-99901".to_string());
    let assign = make_event(
        "constellation.step_assigned",
        Some("step-1"),
        object(vec![
            ("step_name", Json::text("inference")),
            ("duration_s", Json::natural(60)),
            ("is_replica", Json::Bool(true)),
            (
                "dependencies",
                Json::list(vec![Json::text("a"), Json::natural(3), Json::text("b")]),
            ),
        ]),
    );
    handle_event(&assign, &mut state, &make_sat_state(), None);
    let step = state.assigned_steps.get("step-1").unwrap();
    assert_eq!(step.step_id, "step-1");
    assert_eq!(step.step_name, "inference");
    assert_eq!(step.assigned_at, "2026-03-10T12:00:00Z");
    assert_eq!(f(step.duration_s), 60.0);
    assert_eq!(step.dependencies, vec!["a".to_string(), "b".to_string()]);
    assert!(step.is_replica);
}

#[test]
fn an_assignment_that_says_nothing() {
    let mut state = ConstellationState::new("sat-99901".to_string());
    let assign = make_event("constellation.step_assigned", None, Json::Null);
    handle_event(&assign, &mut state, &make_sat_state(), None);
    let step = state.assigned_steps.get("unknown").unwrap();
    assert_eq!(step.step_id, "unknown");
    assert_eq!(step.step_name, "unnamed");
    assert_eq!(f(step.duration_s), 0.0);
    assert!(step.dependencies.is_empty());
    assert!(!step.is_replica);
}

#[test]
fn test_failover() {
    let mut state = ConstellationState::new("sat-99901".to_string());
    let sat_state = make_sat_state();

    let assign = make_event(
        "constellation.step_assigned",
        Some("step-1"),
        object(vec![("step_name", Json::text("inference")), ("duration_s", num(60.0))]),
    );
    handle_event(&assign, &mut state, &sat_state, None);

    let failover = make_event(
        "constellation.failover",
        Some("step-1"),
        object(vec![("reason", Json::text("battery_low")), ("target_satellite", Json::text("sat-99902"))]),
    );
    let extras = handle_event(&failover, &mut state, &sat_state, None);
    assert_eq!(status(&state, "step-1"), StepStatus::FailedOver);
    assert_eq!(state.failed_over_steps.len(), 1);
    assert_eq!(extras.len(), 1);
    assert_eq!(extras[0].event_type, "constellation.failover_acknowledged");
}

#[test]
fn a_failover_counts_what_remains() {
    let mut state = ConstellationState::new("sat-99901".to_string());
    let sat_state = make_sat_state();
    for id in ["s1", "s2", "s3", "s4"] {
        let a = make_event("constellation.step_assigned", Some(id), Json::object());
        handle_event(&a, &mut state, &sat_state, None);
    }
    let started = make_event("constellation.step_started", Some("s2"), Json::object());
    handle_event(&started, &mut state, &sat_state, None);
    let done = make_event("constellation.step_completed", Some("s3"), Json::object());
    handle_event(&done, &mut state, &sat_state, None);
    let failover = make_event("constellation.failover", Some("s4"), Json::object());
    let extras = handle_event_at(&failover, &mut state, &sat_state, None, "now");
    let p = &extras[0].payload;
    assert_eq!(p.text_at("satellite_id"), Some("sat-99901"));
    assert_eq!(p.text_at("reason"), Some("unknown"));
    assert_eq!(f(p.number_at("steps_remaining").unwrap()), 2.0);
    assert_eq!(extras[0].step_id.as_deref(), Some("s4"));
    assert_eq!(extras[0].timestamp, "now");
}

#[test]
fn test_isl_transfer_lifecycle() {
    let mut state = ConstellationState::new("sat-99901".to_string());
    let sat_state = make_sat_state();
    let pos = Position { lat: d(45.0), lon: d(10.0), altitude_km: d(550.0), in_eclipse: false };

    // Start transfer
    let start = make_event(
        "isl_transfer.started",
        None,
        object(vec![
            ("transfer_id", Json::text("tx-1")),
            ("from_satellite", Json::text("sat-99901")),
            ("to_satellite", Json::text("sat-99902")),
            ("data_mb", num(50.0)),
        ]),
    );
    handle_event(&start, &mut state, &sat_state, Some(&pos));
    assert_eq!(state.active_transfers.len(), 1);

    // Hop completed
    let hop = make_event(
        "isl_transfer.hop_completed",
        None,
        object(vec![
            ("transfer_id", Json::text("tx-1")),
            ("from", Json::text("sat-99901")),
            ("to", Json::text("sat-99902")),
            ("distance_km", num(1200.0)),
        ]),
    );
    handle_event(&hop, &mut state, &sat_state, Some(&pos));
    assert_eq!(state.active_transfers.get("tx-1").unwrap().hops.len(), 1);
    assert!(f(state.active_transfers.get("tx-1").unwrap().hops[0].quality) > 0.0);

    // Transfer completed
    let done = make_event("isl_transfer.completed", None, object(vec![("transfer_id", Json::text("tx-1"))]));
    let extras = handle_event(&done, &mut state, &sat_state, Some(&pos));
    assert_eq!(state.active_transfers.get("tx-1").unwrap().status, TransferStatus::Completed);
    assert_eq!(f(state.total_isl_data_mb), 50.0);
    assert_eq!(extras.len(), 1);
    assert_eq!(extras[0].event_type, "isl_transfer.quality_report");
}

#[test]
fn links_are_judged_as_in_native_arithmetic() {
    let mut state = ConstellationState::new("sat".to_string());
    let sat_state = make_sat_state();
    let start = make_event(
        "isl_transfer.started",
        Some("s1"),
        object(vec![("transfer_id", Json::text("t")), ("data_mb", num(12.5))]),
    );
    handle_event(&start, &mut state, &sat_state, None);
    assert_eq!(state.active_transfers.get("t").unwrap().status, TransferStatus::InProgress);
    assert_eq!(state.active_transfers.get("t").unwrap().from_satellite, "");

    let lit = Position { lat: d(0.0), lon: d(0.0), altitude_km: d(550.0), in_eclipse: false };
    let dark = Position { in_eclipse: true, ..lit };
    let cases: Vec<(Option<f64>, Option<Position>)> =
        vec![(Some(1200.0), Some(lit)), (Some(777.7), Some(dark)), (Some(20000.0), Some(lit)), (None, None)];
    let mut qualities: Vec<f64> = Vec::new();
    let mut latencies: Vec<f64> = Vec::new();
    for (distance, position) in &cases {
        let mut payload = object(vec![("transfer_id", Json::text("t"))]);
        if let Some(x) = distance {
            payload.set("distance_km", num(*x));
        }
        let hop = make_event("isl_transfer.hop_completed", None, payload);
        handle_event(&hop, &mut state, &sat_state, position.as_ref());
        let dist = distance.unwrap_or(1000.0);
        let quality = match position {
            Some(p) => {
                let base_quality = 1.0 - (dist / 5000.0) * 0.6;
                let eclipse_penalty = if p.in_eclipse { 0.9 } else { 1.0 };
                (base_quality * eclipse_penalty).max(0.0)
            }
            None => 0.85,
        };
        let got = state.active_transfers.get("t").unwrap().hops.last().unwrap();
        assert_eq!(f(got.distance_km), dist);
        assert_eq!(f(got.quality), quality);
        assert_eq!(f(got.bw_mbps), 100.0 * quality);
        assert_eq!(f(got.latency_ms), (dist / 299792.458) * 1000.0 + 2.0);
        assert!(got.completed);
        qualities.push(quality);
        latencies.push(f(got.latency_ms));
    }

    let done = make_event("isl_transfer.completed", Some("s1"), object(vec![("transfer_id", Json::text("t"))]));
    let extras = handle_event_at(&done, &mut state, &sat_state, None, "now");
    let p = &extras[0].payload;
    let avg = (((0.0 + qualities[0]) + qualities[1]) + qualities[2] + qualities[3]) / 4.0;
    let total = ((0.0 + latencies[0]) + latencies[1]) + latencies[2] + latencies[3];
    assert_eq!(p.text_at("transfer_id"), Some("t"));
    assert_eq!(f(p.number_at("hops").unwrap()), 4.0);
    assert_eq!(f(p.number_at("data_mb").unwrap()), 12.5);
    assert_eq!(f(p.number_at("avg_link_quality").unwrap()), (avg * 1000.0).round() / 1000.0);
    assert_eq!(f(p.number_at("total_latency_ms").unwrap()), (total * 10.0).round() / 10.0);
    assert_eq!(f(p.number_at("total_isl_data_mb").unwrap()), 12.5);
    assert_eq!(f(p.number_at("battery_after_transfer").unwrap()), 80.0);
    assert_eq!(extras[0].step_id.as_deref(), Some("s1"));
}

#[test]
fn what_is_not_known_changes_nothing() {
    let mut state = ConstellationState::new("sat".to_string());
    let sat_state = make_sat_state();
    let a = make_event("constellation.step_assigned", Some("s1"), Json::object());
    handle_event(&a, &mut state, &sat_state, None);
    let before = format!("{:?}", state);
    for event in [
        make_event("constellation.step_started", Some("other"), Json::object()),
        make_event("constellation.step_started", None, Json::object()),
        make_event("constellation.step_completed", Some("other"), Json::object()),
        make_event("constellation.failover", Some("other"), Json::object()),
        make_event("isl_transfer.hop_completed", None, Json::object()),
        make_event("isl_transfer.completed", None, object(vec![("transfer_id", Json::text("t"))])),
        make_event("constellation.unheard_of", Some("s1"), Json::object()),
        make_event("step.completed", Some("s1"), Json::object()),
    ] {
        assert!(handle_event(&event, &mut state, &sat_state, None).is_empty());
        assert_eq!(format!("{:?}", state), before);
    }
}

#[test]
fn steps_are_filed_under_their_names() {
    let mut state = ConstellationState::new("sat".to_string());
    for id in ["a", "b", "a", "c"] {
        let e = make_event("constellation.step_assigned", Some(id), Json::object());
        handle_event(&e, &mut state, &make_sat_state(), None);
    }
    assert_eq!(state.steps_assigned(), 3);
    for id in ["a", "b", "c"] {
        assert_eq!(state.assigned_steps.get(id).unwrap().step_id, id);
    }
}

#[test]
fn test_check_failover_condition() {
    // Healthy state
    assert!(check_failover_condition(&state_with(80.0, 25.0), None).is_none());
    // Low battery
    assert!(check_failover_condition(&state_with(5.0, 25.0), None).is_some());
    // High temperature
    assert!(check_failover_condition(&state_with(80.0, 80.0), None).is_some());
}

#[test]
fn reasons_for_a_failover() {
    assert_eq!(
        check_failover_condition(&state_with(5.25, 99.0), None).unwrap(),
        format!("Battery critically low ({:.1}%), cannot execute step", 5.25)
    );
    assert_eq!(
        check_failover_condition(&state_with(80.0, 80.04999), None).unwrap(),
        format!("Temperature too high ({:.1}°C), thermal protection active", 80.04999)
    );
    assert_eq!(
        check_failover_condition(&state_with(12.0, 25.0), None).unwrap(),
        "Compute not available (battery below 15%)"
    );
    assert!(check_failover_condition(&state_with(15.0, 25.0), None).is_some());
    assert!(check_failover_condition(&state_with(10.0, 25.0), None).is_some());
    assert!(check_failover_condition(&state_with(15.1, 75.0), None).is_none());
    assert!(check_failover_condition(&state_with(f64::NAN, 25.0), None).is_some());
}

#[test]
fn test_enrich_event() {
    let sat_state = make_sat_state();
    let pos = Position { lat: d(42.0), lon: d(-71.0), altitude_km: d(550.0), in_eclipse: true };

    let mut event = make_event("constellation.step_completed", Some("s1"), Json::object());
    enrich_event(&mut event, &sat_state, Some(&pos));

    let p = &event.payload;
    assert!(p.get("actual_battery_percent").is_some());
    assert!(p.get("actual_temperature_c").is_some());
    assert!(p.get("actual_in_eclipse").is_some());
    assert_eq!(p.flag_at("actual_in_eclipse"), Some(true));
    assert_eq!(f(p.number_at("actual_battery_percent").unwrap()), 80.0);
    assert_eq!(f(p.number_at("actual_temperature_c").unwrap()), 25.0);
    assert_eq!(f(p.number_at("actual_lat").unwrap()), 42.0);
    assert_eq!(f(p.number_at("actual_lon").unwrap()), -71.0);
    assert_eq!(f(p.number_at("actual_altitude_km").unwrap()), 550.0);
}

#[test]
fn enrichment_without_a_position() {
    let mut event = make_event("isl_transfer.started", None, object(vec![("a", Json::natural(1))]));
    let sat_state = make_sat_state();
    enrich_event(&mut event, &sat_state, None);
    let once = format!("{:?}", event);
    enrich_event(&mut event, &sat_state, None);
    assert_eq!(format!("{:?}", event), once);
    assert!(event.payload.get("actual_battery_percent").is_some());
    assert!(event.payload.get("actual_lat").is_none());
    assert_eq!(f(event.payload.number_at("a").unwrap()), 1.0);
}

#[test]
fn test_non_constellation_event_not_enriched() {
    let sat_state = make_sat_state();
    let mut event = make_event("step.completed", Some("s1"), object(vec![("data", Json::natural(1))]));
    enrich_event(&mut event, &sat_state, None);
    // Should not be modified
    assert!(event.payload.get("actual_battery_percent").is_none());
}

#[test]
fn test_multiple_steps_not_all_done() {
    let mut state = ConstellationState::new("sat-99901".to_string());
    let sat_state = make_sat_state();

    // Assign two steps
    let a1 = make_event("constellation.step_assigned", Some("s1"), object(vec![("step_name", Json::text("a"))]));
    let a2 = make_event("constellation.step_assigned", Some("s2"), object(vec![("step_name", Json::text("b"))]));
    handle_event(&a1, &mut state, &sat_state, None);
    handle_event(&a2, &mut state, &sat_state, None);
    assert!(!state.all_done());

    // Complete one
    let c1 = make_event("constellation.step_completed", Some("s1"), Json::object());
    let extras = handle_event(&c1, &mut state, &sat_state, None);
    assert!(!state.all_done());
    assert!(extras.is_empty()); // No satellite_complete yet

    // Complete second
    let c2 = make_event("constellation.step_completed", Some("s2"), Json::object());
    let extras = handle_event(&c2, &mut state, &sat_state, None);
    assert!(state.all_done());
    assert_eq!(extras.len(), 1); // Now emits satellite_complete
}

#[test]
fn forms_of_steps_and_transfers() {
    let mut state = ConstellationState::new("sat".to_string());
    let sat_state = make_sat_state();
    let assign = make_event(
        "constellation.step_assigned",
        Some("s1"),
        object(vec![
            ("step_name", Json::text("inference")),
            ("duration_s", num(60.0)),
            ("dependencies", Json::Array(vec![Json::text("s0")])),
            ("is_replica", Json::Bool(true)),
        ]),
    );
    handle_event(&assign, &mut state, &sat_state, None);
    handle_event(&make_event("constellation.failover", Some("s1"), Json::object()), &mut state, &sat_state, None);
    let form = state.assigned_steps.get("s1").unwrap().to_json();
    assert_eq!(form.text_at("step_id"), Some("s1"));
    assert_eq!(form.text_at("step_name"), Some("inference"));
    assert_eq!(form.text_at("status"), Some("failed_over"));
    assert_eq!(f(form.number_at("duration_s").unwrap()), 60.0);
    assert_eq!(form.texts_at("dependencies"), vec!["s0"]);
    assert_eq!(form.flag_at("is_replica"), Some(true));
    assert!(form.text_at("assigned_at").is_some());

    let start = make_event(
        "isl_transfer.started",
        None,
        object(vec![("transfer_id", Json::text("t")), ("to_satellite", Json::text("b")), ("data_mb", num(2.5))]),
    );
    handle_event(&start, &mut state, &sat_state, None);
    let hop = make_event(
        "isl_transfer.hop_completed",
        None,
        object(vec![("transfer_id", Json::text("t")), ("from", Json::text("a"))]),
    );
    handle_event(&hop, &mut state, &sat_state, None);
    let form = state.active_transfers.get("t").unwrap().to_json();
    assert_eq!(form.text_at("transfer_id"), Some("t"));
    assert_eq!(form.text_at("from_satellite"), Some(""));
    assert_eq!(form.text_at("to_satellite"), Some("b"));
    assert_eq!(form.text_at("status"), Some("in_progress"));
    assert_eq!(f(form.number_at("data_mb").unwrap()), 2.5);
    match form.get("hops").unwrap() {
        Json::Array(hops) => {
            assert_eq!(hops.len(), 1);
            assert_eq!(hops[0].text_at("from"), Some("a"));
            assert_eq!(hops[0].text_at("to"), Some(""));
            assert_eq!(f(hops[0].number_at("distance_km").unwrap()), 1000.0);
            assert_eq!(f(hops[0].number_at("quality").unwrap()), 0.85);
            assert_eq!(f(hops[0].number_at("bw_mbps").unwrap()), 85.0);
            assert!(hops[0].number_at("latency_ms").is_some());
            assert_eq!(hops[0].flag_at("completed"), Some(true));
        }
        other => panic!("{:?}", other),
    }
}
