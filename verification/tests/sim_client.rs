//! The simulation service and the state kept between its answers.

use rotastellar_agent::agent::AgentError;
use rotastellar_agent::client::Method;
use rotastellar_agent::double::Double;
use rotastellar_agent::sim_client::{
    default_arg_perigee, default_eccentricity, OrbitalElements, SatelliteState, SimClient,
};
use rotastellar_agent::time::UtcTime;

fn d(x: f64) -> Double {
    Double::from_bits(x.to_bits())
}

fn f(x: Double) -> f64 {
    f64::from_bits(x.to_bits())
}

fn minutes_later(t: UtcTime, minutes: i64) -> UtcTime {
    t.shift_millis(minutes * 60_000).unwrap()
}

#[test]
fn test_satellite_state_sunlit_charging() {
    let mut state = SatelliteState::new();
    state.battery_wh = d(50.0);
    let now = state.last_update;
    let later = minutes_later(now, 30);
    state.update(later, false, false);
    assert!(f(state.battery_wh) > 50.0, "Battery should charge in sunlight");
}

#[test]
fn test_satellite_state_eclipse_drain() {
    let mut state = SatelliteState::new();
    state.battery_wh = d(50.0);
    let now = state.last_update;
    let later = minutes_later(now, 30);
    state.update(later, true, false);
    assert!(f(state.battery_wh) < 50.0, "Battery should drain in eclipse");
}

#[test]
fn test_compute_available() {
    let mut state = SatelliteState::new();
    state.battery_wh = d(20.0);
    assert!(state.compute_available());
    state.battery_wh = d(10.0);
    assert!(!state.compute_available());
}

#[test]
fn test_compute_capacity() {
    let mut state = SatelliteState::new();
    state.battery_wh = d(50.0);
    assert_eq!(f(state.compute_capacity()), 1.0);
    state.battery_wh = d(25.0);
    assert_eq!(f(state.compute_capacity()), 0.5);
    state.battery_wh = d(10.0);
    assert_eq!(f(state.compute_capacity()), 0.0);
}

#[test]
fn the_thresholds_of_compute() {
    let mut state = SatelliteState::default();
    assert_eq!(f(state.battery_percent()), 80.0);
    state.battery_wh = d(15.0);
    assert!(!state.compute_available());
    assert_eq!(f(state.compute_capacity()), 0.5);
    state.battery_wh = d(30.0);
    assert_eq!(f(state.compute_capacity()), 1.0);
}

/// The same model in native arithmetic.
fn native(battery: f64, temp: f64, millis: i64, in_eclipse: bool, is_computing: bool) -> (f64, f64) {
    let dt_s = millis as f64 / 1000.0;
    let dt_min = dt_s / 60.0;
    let dt_h = dt_s / 3600.0;
    let net = (if in_eclipse { -250.0 } else { 750.0 }) + (if is_computing { -200.0 } else { 0.0 });
    let target: f64 = (if in_eclipse { -20.0 } else { 40.0 }) + (if is_computing { 5.0 } else { 0.0 });
    let share = (0.5_f64 * dt_min / 60.0).min(1.0);
    ((battery + net * dt_h).clamp(0.0, 100.0), temp + (target - temp) * share)
}

#[test]
fn updates_are_those_of_native_arithmetic() {
    for millis in [1i64, 17, 60_000, 123_457, 1_800_000, 90_000_000] {
        for (in_eclipse, is_computing) in [(false, false), (false, true), (true, false), (true, true)] {
            let mut state = SatelliteState::new();
            state.battery_wh = d(50.3);
            state.temperature_c = d(12.7);
            let later = state.last_update.shift_millis(millis).unwrap();
            state.update(later, in_eclipse, is_computing);
            let (battery, temp) = native(50.3, 12.7, millis, in_eclipse, is_computing);
            assert_eq!(f(state.battery_wh), battery);
            assert_eq!(f(state.temperature_c), temp);
            assert_eq!(state.last_update, later);
        }
    }
}

#[test]
fn the_battery_stays_within_its_capacity() {
    let mut state = SatelliteState::new();
    for hour in 1..20 {
        let later = minutes_later(state.last_update, 60);
        state.update(later, hour % 3 == 0, hour % 2 == 0);
        assert!(0.0 <= f(state.battery_wh) && f(state.battery_wh) <= 100.0);
    }
}

#[test]
fn charge_and_temperature_follow_the_sun() {
    for millis in [1i64, 60_000, 5_400_000, 86_400_000] {
        for (in_eclipse, is_computing) in [(false, false), (false, true), (true, false), (true, true)] {
            for degrees in [-100.0, -20.0, 0.0, 25.0, 40.0, 45.0, 90.0] {
                let mut state = SatelliteState::new();
                state.temperature_c = d(degrees);
                let later = state.last_update.shift_millis(millis).unwrap();
                state.update(later, in_eclipse, is_computing);
                if in_eclipse {
                    assert!(f(state.battery_wh) <= 80.0);
                } else {
                    assert!(f(state.battery_wh) >= 80.0);
                }
                let target: f64 = (if in_eclipse { -20.0 } else { 40.0 }) + (if is_computing { 5.0 } else { 0.0 });
                let (low, high) = (target.min(degrees), target.max(degrees));
                assert!(low <= f(state.temperature_c) && f(state.temperature_c) <= high);
            }
        }
    }
}

#[test]
fn temperature_hardly_passes_its_target() {
    // From 12.2 degrees all of the way ends just past the target
    let mut state = SatelliteState::new();
    state.temperature_c = d(12.2);
    let later = minutes_later(state.last_update, 60 * 24 * 10);
    state.update(later, true, false);
    assert_eq!(f(state.temperature_c), -20.000000000000004);
    for tenths in -10_000..10_001 {
        let mut state = SatelliteState::new();
        let start = tenths as f64 / 10.0;
        state.temperature_c = d(start);
        let later = minutes_later(state.last_update, 60 * 24 * 10);
        state.update(later, tenths % 2 == 0, tenths % 3 == 0);
        let target = (if tenths % 2 == 0 { -20.0 } else { 40.0 }) + (if tenths % 3 == 0 { 5.0 } else { 0.0 });
        assert!((f(state.temperature_c) - target).abs() <= 1e-9);
    }
}

#[test]
fn no_time_no_change() {
    let mut state = SatelliteState::new();
    let before = state;
    state.update(before.last_update, true, true);
    assert_eq!(state, before);
    state.update(minutes_later(before.last_update, -5), true, true);
    assert_eq!(state, before);
    let mut shortly = before.last_update;
    shortly.nanos = if shortly.nanos < 999_000_000 { shortly.nanos + 999_999 } else { shortly.nanos };
    state.update(shortly, true, true);
    assert_eq!(state, before);
    let later = before.last_update.shift_millis(1).unwrap();
    state.update(later, true, true);
    assert_eq!(state.last_update, later);
}

fn elements() -> OrbitalElements {
    OrbitalElements {
        altitude_km: d(550.0),
        inclination_deg: d(51.6),
        eccentricity: default_eccentricity(),
        raan_deg: d(0.0),
        arg_perigee_deg: default_arg_perigee(),
        mean_anomaly_deg: d(0.0),
        mean_motion: d(15.09),
        epoch: "2026-03-08T00:00:00Z".to_string(),
    }
}

#[test]
fn defaults_of_elements() {
    assert_eq!(f(default_eccentricity()), 0.0001);
    assert_eq!(f(default_arg_perigee()), 90.0);
}

#[test]
fn the_request_for_a_state() {
    let sim = SimClient::new("https://sim.rotastellar.com".to_string()).unwrap();
    let t = UtcTime::parse("2026-03-09T12:00:00Z").unwrap();
    let request = sim.get_state(&elements(), t);
    assert_eq!(request.method, Method::Post);
    assert_eq!(request.url, "https://sim.rotastellar.com/v1/state");
    assert!(request.headers.is_empty());
    let body = request.body.unwrap();
    assert_eq!(body.text_at("timestamp"), Some("2026-03-09T12:00:00+00:00"));
    let sent = body.get("elements").unwrap();
    assert_eq!(f(sent.number_at("altitude_km").unwrap()), 550.0);
    assert_eq!(f(sent.number_at("inclination_deg").unwrap()), 51.6);
    assert_eq!(f(sent.number_at("eccentricity").unwrap()), 0.0001);
    assert_eq!(f(sent.number_at("raan_deg").unwrap()), 0.0);
    assert_eq!(f(sent.number_at("arg_perigee_deg").unwrap()), 90.0);
    assert_eq!(f(sent.number_at("mean_anomaly_deg").unwrap()), 0.0);
    assert_eq!(f(sent.number_at("mean_motion").unwrap()), 15.09);
    assert_eq!(sent.text_at("epoch"), Some("2026-03-08T00:00:00Z"));
}

#[test]
fn answers_of_the_simulation_service() {
    assert!(SimClient::check_state(200, "200 OK", "").is_ok());
    assert!(SimClient::check_state(299, "299", "").is_ok());
    match SimClient::check_state(503, "503 Service Unavailable", "later") {
        Err(AgentError::ApiError(m)) => assert_eq!(m, "Sim service 503 Service Unavailable: later"),
        other => panic!("{:?}", other),
    }
    assert!(SimClient::check_state(300, "300 Multiple Choices", "").is_err());
    assert!(SimClient::check_state(199, "199", "").is_err());
}
