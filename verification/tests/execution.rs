//! Executing workloads, the agent's round, and the simulated satellite.

use rotastellar_agent::client::Method;
use rotastellar_agent::double::Double;
use rotastellar_agent::duty::{Duty, Outcome};
use rotastellar_agent::execution::{
    announce_ahead, announce_hazards, announce_prediction, can_foresee, Action, Reply, Stage,
};
use rotastellar_agent::hazard::{predict_along, HazardPrediction, TrajectoryPoint};
use rotastellar_agent::json::Json;
use rotastellar_agent::orbit::Transcendental;
use rotastellar_agent::simulated::{elapsed_seconds, pause_ms};
use rotastellar_agent::time::UtcTime;
use rotastellar_agent::{
    AgentConfig, AgentError, AgentEvent, AgentStatus, OrbitalElements, OrbitalState, SimulatedSatellite, WorkloadSpec,
};

fn d(x: f64) -> Double {
    Double::from_bits(x.to_bits())
}

fn f(x: Double) -> f64 {
    f64::from_bits(x.to_bits())
}

fn test_config() -> AgentConfig {
    AgentConfig {
        agent_id: "test-sat".into(),
        api_url: "http://127.0.0.1:1".into(), // unreachable, for testing
        api_key: "rs_test".into(),
        poll_interval_s: 1,
        satellite_id: None,
        satellite_name: None,
        sim_url: None,
    }
}

fn elements() -> OrbitalElements {
    OrbitalElements {
        altitude_km: d(550.0),
        inclination_deg: d(51.6),
        eccentricity: d(0.0001),
        raan_deg: d(0.0),
        arg_perigee_deg: d(90.0),
        mean_anomaly_deg: d(0.0),
        mean_motion: d(15.09),
        epoch: "2026-03-08T00:00:00Z".into(),
    }
}

fn event(event_type: &str, timestamp: &str, step_id: Option<&str>, payload: Json) -> AgentEvent {
    AgentEvent {
        event_type: event_type.into(),
        timestamp: timestamp.into(),
        job_id: "j1".into(),
        step_id: step_id.map(String::from),
        payload,
    }
}

fn workload(events: Vec<AgentEvent>) -> WorkloadSpec {
    WorkloadSpec {
        plan_id: "p1".into(),
        deployment_id: "d1".into(),
        satellite_id: "25544".into(),
        plan_data: Json::object(),
        events,
    }
}

/// What an execution did.
struct Story {
    result: Result<(), AgentError>,
    reported: Vec<AgentEvent>,
    announced: Vec<AgentEvent>,
    sent: Vec<String>,
    pauses: Vec<u64>,
    statuses: Vec<AgentStatus>,
}

/// Executes a workload; `running` says how many looks find the agent running, and
/// `orbital` is what the simulation service answers.
fn run(
    sat: &mut SimulatedSatellite,
    workload: &WorkloadSpec,
    running: usize,
    orbital: Option<OrbitalState>,
) -> Story {
    let mut story =
        Story { result: Ok(()), reported: vec![], announced: vec![], sent: vec![], pauses: vec![], statuses: vec![] };
    let mut execution = match sat.execute(workload) {
        Ok(e) => e,
        Err(e) => {
            story.result = Err(e);
            return story;
        }
    };
    let mut looks = 0;
    let mut action = Action::AskRunning;
    loop {
        let reply = match action {
            Action::AskRunning => {
                looks += 1;
                Reply::Running(looks <= running)
            }
            Action::Sleep(ms) => {
                story.pauses.push(ms);
                Reply::Done
            }
            Action::Locate => Reply::Located(orbital),
            Action::Announce(events) => {
                story.sent.extend(events.iter().map(|e| e.event_type.clone()));
                story.announced.extend(events);
                story.statuses.push(sat.status);
                Reply::Done
            }
            Action::Report(event) => {
                story.sent.push(event.event_type.clone());
                story.reported.push(event);
                Reply::Done
            }
            Action::Complete => return story,
            Action::Stop => {
                story.result = Err(AgentError::Stopped);
                return story;
            }
        };
        let now = UtcTime::now();
        assert!(execution.accepts(sat, workload, reply, now));
        action = execution.advance(sat, workload, reply, now);
    }
}

#[test]
fn test_new_creates_satellite() {
    let sat = SimulatedSatellite::new(test_config(), d(100.0));
    assert!(sat.is_ok());
    let sat = sat.unwrap();
    assert_eq!(f(sat.speed_multiplier), 100.0);
    assert!(!sat.running);
    assert!(sat.sim_client.is_none());
}

#[test]
fn test_new_with_sim_url() {
    let mut config = test_config();
    config.sim_url = Some("https://sim.rotastellar.com".into());
    let sat = SimulatedSatellite::new(config, d(100.0)).unwrap();
    assert!(sat.sim_client.is_some());
}

#[test]
fn test_with_orbital_elements() {
    let sat = SimulatedSatellite::new(test_config(), d(100.0)).unwrap().with_orbital_elements(elements());
    assert!(sat.orbital_elements.is_some());
}

#[test]
fn test_execute_empty_events() {
    let mut sat = SimulatedSatellite::new(test_config(), d(100.0)).unwrap();
    sat.start();

    let result = run(&mut sat, &workload(vec![]), usize::MAX, None).result;
    assert!(result.is_err());
    assert!(result.unwrap_err().message().contains("No events"));
    assert_eq!(sat.status, AgentStatus::Idle);
}

fn three_events() -> WorkloadSpec {
    let mut success = Json::object();
    success.set("status", Json::text("success"));
    workload(vec![
        event("job.accepted", "2026-03-07T12:00:00Z", None, Json::object()),
        event("step.started", "2026-03-07T12:00:10Z", Some("s1"), Json::object()),
        event("job.completed", "2026-03-07T12:00:20Z", None, success),
    ])
}

#[test]
fn test_execute_processes_events() {
    let mut sat = SimulatedSatellite::new(test_config(), d(10000.0)).unwrap();
    sat.start();

    let result = run(&mut sat, &three_events(), usize::MAX, None).result;
    assert!(result.is_ok());
}

#[test]
fn test_execute_low_battery_rejected() {
    let mut sat = SimulatedSatellite::new(test_config(), d(100.0)).unwrap();
    sat.start();

    // Drain battery below threshold
    sat.sat_state.battery_wh = d(10.0);

    let w = workload(vec![event("job.accepted", "2026-03-07T12:00:00Z", None, Json::object())]);
    let result = run(&mut sat, &w, usize::MAX, None).result;
    assert!(result.is_err());
    assert!(result.unwrap_err().message().contains("battery"));
}

#[test]
fn events_are_reported_once_in_order() {
    let mut sat = SimulatedSatellite::new(test_config(), d(100.0)).unwrap();
    let story = run(&mut sat, &three_events(), usize::MAX, None);
    let types: Vec<&str> = story.reported.iter().map(|e| e.event_type.as_str()).collect();
    assert_eq!(types, vec!["job.accepted", "step.started", "job.completed"]);
    assert_eq!(story.reported[1].timestamp, "2026-03-07T12:00:10Z");
    assert_eq!(story.reported[1].step_id.as_deref(), Some("s1"));
    assert_eq!(story.reported[2].payload.text_at("status"), Some("success"));
    assert_eq!(story.pauses, vec![100, 100]);
    assert_eq!(sat.status, AgentStatus::Idle);
}

#[test]
fn a_stopped_agent_reports_nothing_more() {
    let mut sat = SimulatedSatellite::new(test_config(), d(100.0)).unwrap();
    let story = run(&mut sat, &three_events(), 2, None);
    assert!(matches!(story.result, Err(AgentError::Stopped)));
    assert_eq!(story.reported.len(), 2);
    assert_eq!(sat.status, AgentStatus::Idle);

    let story = run(&mut sat, &three_events(), 0, None);
    assert!(matches!(story.result, Err(AgentError::Stopped)));
    assert!(story.reported.is_empty());
}

#[test]
fn pauses_between_events() {
    let pause = |a: &str, b: &str, speed: f64| pause_ms(a, b, d(speed));
    assert_eq!(pause("2026-03-07T12:00:00Z", "2026-03-07T12:00:10Z", 100.0), Some(100));
    assert_eq!(pause("2026-03-07T12:00:00Z", "2026-03-07T12:00:10Z", 1.0), Some(10_000));
    assert_eq!(pause("2026-03-07T12:00:00Z", "2026-03-07T12:00:10Z", 3.0), Some(3333));
    assert_eq!(pause("2026-03-07T12:00:00Z", "2026-03-07T12:00:10Z", 10000.0), None);
    assert_eq!(pause("2026-03-07T12:00:10Z", "2026-03-07T12:00:00Z", 1.0), None);
    assert_eq!(pause("soon", "2026-03-07T12:00:00Z", 1.0), None);
    assert_eq!(pause("2026-03-07T12:00:00Z", "2026-03-07T12:00:00.002Z", 1.0), Some(2));
    // Nothing is waited for at no speed at all
    assert_eq!(pause("2026-03-07T12:00:00Z", "2026-03-07T12:00:10Z", 0.0), Some(u64::MAX));
}

#[test]
fn seconds_into_a_replay() {
    assert_eq!(elapsed_seconds("2026-03-07T12:00:00Z", "2026-03-07T12:01:10.9Z"), 70);
    assert_eq!(elapsed_seconds("2026-03-07T12:00:00Z", "2026-03-07T11:59:50Z"), -10);
    assert_eq!(elapsed_seconds("then", "2026-03-07T11:59:50Z"), 0);
}

fn orbital(in_eclipse: bool) -> OrbitalState {
    OrbitalState {
        lat: d(1.0),
        lon: d(2.0),
        altitude_km: d(550.0),
        velocity_km_s: d(7.6),
        in_eclipse,
        orbit_fraction: d(0.25),
    }
}

#[test]
fn constellation_events_are_handled_on_the_way() {
    let mut sat = SimulatedSatellite::new(test_config(), d(100.0)).unwrap();
    let t = "2026-03-07T12:00:00Z";
    let mut transfer = Json::object();
    transfer.set("transfer_id", Json::text("tx"));
    transfer.set("data_mb", Json::natural(5));
    let w = workload(vec![
        event("constellation.step_assigned", t, Some("s1"), Json::object()),
        event("constellation.step_started", t, Some("s1"), Json::object()),
        event("isl_transfer.started", t, None, transfer.copy()),
        event("isl_transfer.completed", t, None, transfer.copy()),
        event("constellation.step_completed", t, Some("s1"), Json::object()),
    ]);
    let story = run(&mut sat, &w, usize::MAX, Some(orbital(false)));
    assert!(story.result.is_ok());
    assert_eq!(story.reported.len(), 5);
    // What follows from an event is sent ahead of it
    assert_eq!(
        story.sent,
        vec![
            "constellation.step_assigned",
            "constellation.step_started",
            "isl_transfer.started",
            "isl_transfer.quality_report",
            "isl_transfer.completed",
            "constellation.satellite_complete",
            "constellation.step_completed",
        ]
    );
    // Without an identifier of its own the satellite goes by the agent's
    assert_eq!(story.announced[1].payload.text_at("satellite_id"), Some("test-sat"));
    assert_eq!(
        story.statuses,
        vec![
            AgentStatus::Executing,
            AgentStatus::Executing,
            AgentStatus::Transferring,
            AgentStatus::Executing,
            AgentStatus::Executing
        ]
    );
    for e in &story.reported {
        assert!(e.payload.get("actual_battery_percent").is_some());
        assert_eq!(f(e.payload.number_at("actual_lat").unwrap()), 1.0);
        assert_eq!(e.payload.flag_at("actual_in_eclipse"), Some(false));
    }
}

#[test]
fn a_step_that_cannot_start_is_failed_over() {
    let mut config = test_config();
    config.satellite_id = Some("99901".into());
    let mut sat = SimulatedSatellite::new(config, d(100.0)).unwrap();
    sat.sat_state.temperature_c = d(80.0);
    let t = "2026-03-07T12:00:00Z";
    let w = workload(vec![event("constellation.step_started", t, Some("s1"), Json::object())]);
    let story = run(&mut sat, &w, usize::MAX, None);
    assert_eq!(story.announced.len(), 1);
    assert_eq!(story.announced[0].event_type, "constellation.failover");
    assert_eq!(story.announced[0].step_id.as_deref(), Some("s1"));
    assert_eq!(story.announced[0].job_id, "j1");
    assert_eq!(story.announced[0].payload.text_at("satellite_id"), Some("99901"));
    assert_eq!(
        story.announced[0].payload.text_at("reason"),
        Some("Temperature too high (80.0°C), thermal protection active")
    );
    assert!(UtcTime::parse(&story.announced[0].timestamp).is_some());
    assert_eq!(story.reported.len(), 1);
    assert_eq!(story.sent, vec!["constellation.failover", "constellation.step_started"]);

    let mut nameless = SimulatedSatellite::new(test_config(), d(100.0)).unwrap();
    nameless.sat_state.temperature_c = d(80.0);
    let story = run(&mut nameless, &w, usize::MAX, None);
    assert!(story.announced[0].payload.get("satellite_id").unwrap().is_null());
}

#[test]
fn events_that_do_not_suit_the_state_carry_a_warning() {
    let t = "2026-03-07T12:00:00Z";
    for payload in [Json::object(), Json::Null] {
        let mut sat = SimulatedSatellite::new(test_config(), d(100.0)).unwrap();
        let w = workload(vec![event("eclipse_step.started", t, Some("s1"), payload)]);
        let story = run(&mut sat, &w, usize::MAX, Some(orbital(false)));
        let p = &story.reported[0].payload;
        assert_eq!(p.text_at("ocp_warning"), Some("satellite not in eclipse"));
        assert!(p.get("actual_battery_wh").is_some());
    }
    let mut sat = SimulatedSatellite::new(test_config(), d(100.0)).unwrap();
    let w = workload(vec![event("eclipse_step.started", t, Some("s1"), Json::object())]);
    let story = run(&mut sat, &w, usize::MAX, Some(orbital(true)));
    assert!(story.reported[0].payload.get("ocp_warning").is_none());
}

#[test]
fn a_warning_needs_a_place_to_stand() {
    let mut sat = SimulatedSatellite::new(test_config(), d(100.0)).unwrap();
    let w = workload(vec![event("eclipse_step.started", "t", None, Json::text("x"))]);
    let mut execution = sat.execute(&w).unwrap();
    let now = UtcTime::now();
    assert_eq!(execution.stage, Stage::Start);
    assert!(!execution.accepts(&sat, &w, Reply::Done, now));
    execution.advance(&mut sat, &w, Reply::Running(true), now);
    assert_eq!(execution.stage, Stage::Check);
    assert!(!execution.accepts(&sat, &w, Reply::Located(Some(orbital(false))), now));
    assert!(execution.accepts(&sat, &w, Reply::Located(Some(orbital(true))), now));
    assert!(execution.accepts(&sat, &w, Reply::Located(None), now));
}

#[test]
fn the_battery_drains_while_an_execution_is_in_eclipse() {
    let mut sat = SimulatedSatellite::new(test_config(), d(100.0)).unwrap();
    let w = workload(vec![event("job.accepted", "t", None, Json::object())]);
    let mut execution = sat.execute(&w).unwrap();
    let start = sat.sat_state.last_update;
    let later = start.shift_millis(60_000).unwrap();
    execution.advance_at(&mut sat, &w, Reply::Running(true), start, "s");
    execution.advance_at(&mut sat, &w, Reply::Located(Some(orbital(true))), later, "s");
    assert_eq!(f(sat.sat_state.battery_wh), 80.0 + (-250.0 + -200.0) * (60.0 / 3600.0));
    assert_eq!(sat.sat_state.last_update, later);
}

fn eclipse(flags: &[bool]) -> Vec<TrajectoryPoint> {
    let start = UtcTime::parse("2026-03-09T12:00:00Z").unwrap();
    flags
        .iter()
        .enumerate()
        .map(|(i, dark)| TrajectoryPoint {
            time: start.shift_millis(30_000 * i as i64).unwrap(),
            lat: d(60.0),
            lon: d(0.0),
            alt_km: d(400.0),
            eci_x: d(if *dark { -7000.0 } else { 7000.0 }),
            eci_y: d(0.0),
            eci_z: d(0.0),
            sun_x: d(149597870.7),
            sun_y: d(0.0),
            sun_z: d(0.0),
            saa_intensity: d(1.0),
        })
        .collect()
}

fn foresee(flags: &[bool]) -> HazardPrediction {
    let trajectory = eclipse(flags);
    predict_along(&trajectory, trajectory[0].time, d(6.0), 50_000_000, 10_000_000)
}

#[test]
fn hazards_ahead_are_announced() {
    let w = three_events();
    let prediction = foresee(&[false, false, true, true, false]);
    let announced = announce_prediction(&w, &prediction, "2026-03-09T12:00:01Z").unwrap();
    assert_eq!(announced.event_type, "checkpoint.predicted");
    assert_eq!(announced.timestamp, "2026-03-09T12:00:01Z");
    assert_eq!(announced.job_id, "j1");
    assert!(announced.step_id.is_none());
    let p = &announced.payload;
    assert_eq!(f(p.number_at("hazards_count").unwrap()), 1.0);
    assert_eq!(f(p.number_at("checkpoints_count").unwrap()), 3.0);
    assert_eq!(p.text_at("next_hazard"), Some("2026-03-09T12:01:00+00:00"));
    // Six hours, free again 5.5 s after 12:02:00
    assert_eq!(f(p.number_at("max_safe_window_s").unwrap()), 21474.0);
    assert_eq!(f(p.number_at("overhead_fraction").unwrap()), 0.0008);
    match (p.get("hazards"), p.get("checkpoint_schedule")) {
        (Some(Json::Array(hazards)), Some(Json::Array(checkpoints))) => {
            assert_eq!(hazards.len(), 1);
            assert_eq!(hazards[0].text_at("hazard_type"), Some("ECLIPSE"));
            assert_eq!(checkpoints.len(), 3);
            assert_eq!(checkpoints[0].text_at("checkpoint_type"), Some("SAVE"));
        }
        other => panic!("{:?}", other),
    }
    assert!(announce_prediction(&w, &foresee(&[false, false]), "now").is_none());
    let idle = announce_prediction(&workload(vec![]), &prediction, "now").unwrap();
    assert_eq!(idle.job_id, "");
}

#[test]
fn hazards_along_an_orbit_are_announced() {
    let machine = |q: Transcendental| {
        d(match q {
            Transcendental::Sine(x) => f(x).sin(),
            Transcendental::Cosine(x) => f(x).cos(),
            Transcendental::Angle(y, x) => f(y).atan2(f(x)),
            Transcendental::ArcSine(x) => f(x).asin(),
            Transcendental::Exponential(x) => f(x).exp(),
        })
    };
    let now = UtcTime::parse("2026-03-09T12:00:00Z").unwrap();
    assert!(can_foresee(now));
    let announced = announce_hazards(&three_events(), &elements(), now, &machine).unwrap();
    let sat = SimulatedSatellite::new(test_config(), d(1.0)).unwrap();
    assert!(announce_ahead(&sat, &three_events(), now, &machine).is_none());
    let sat = sat.with_orbital_elements(elements());
    let ahead = announce_ahead(&sat, &three_events(), now, &machine).unwrap();
    assert_eq!(ahead.event_type, announced.event_type);
    assert_eq!(ahead.job_id, announced.job_id);
    assert_eq!(ahead.payload.text_at("next_hazard"), announced.payload.text_at("next_hazard"));
    assert_eq!(announced.event_type, "checkpoint.predicted");
    assert!(UtcTime::parse(&announced.timestamp).is_some());
    assert!(f(announced.payload.number_at("hazards_count").unwrap()) >= 2.0);
    assert!(!can_foresee(UtcTime { secs: 8_210_266_876_799, nanos: 0 }));
}

#[test]
fn the_satellite_registers_with_what_it_knows() {
    let mut config = test_config();
    config.satellite_id = Some("25544".into());
    config.satellite_name = Some("ISS (ZARYA)".into());
    let sat = SimulatedSatellite::new(config, d(1.0)).unwrap().with_orbital_elements(elements());
    let request = sat.register();
    assert_eq!(request.method, Method::Post);
    assert_eq!(request.url, "http://127.0.0.1:1/api/agent/register");
    assert_eq!(request.headers.len(), 2);
    let body = request.body.unwrap();
    assert_eq!(body.text_at("agent_id"), Some("test-sat"));
    assert_eq!(body.text_at("satellite_id"), Some("25544"));
    assert_eq!(body.text_at("satellite_name"), Some("ISS (ZARYA)"));
    assert_eq!(f(body.number_at("orbit_altitude_km").unwrap()), 550.0);
    assert_eq!(body.text_at("agent_version"), Some("0.1.0"));
}

#[test]
fn the_state_is_asked_for_only_where_it_can_be() {
    let now = UtcTime::now();
    let mut config = test_config();
    let sat = SimulatedSatellite::new(config.copy(), d(1.0)).unwrap().with_orbital_elements(elements());
    assert!(sat.state_request(now).is_none());
    config.sim_url = Some("https://sim.rotastellar.com".into());
    let sat = SimulatedSatellite::new(config, d(1.0)).unwrap();
    assert!(sat.state_request(now).is_none());
    let sat = sat.with_orbital_elements(elements());
    assert_eq!(sat.state_request(now).unwrap().url, "https://sim.rotastellar.com/v1/state");
}

#[test]
fn telemetry_reads_the_state() {
    let mut sat = SimulatedSatellite::new(test_config(), d(1.0)).unwrap();
    sat.sat_state.battery_wh = d(20.0);
    sat.status = AgentStatus::Transferring;
    let now = sat.sat_state.last_update;
    let position = sat.update_orbital_state(now, Some(orbital(true)));
    let t = sat.build_telemetry(position);
    assert_eq!(t.agent_id, "test-sat");
    assert_eq!(t.status, AgentStatus::Transferring);
    assert!(UtcTime::parse(&t.timestamp).is_some());
    assert!(t.cpu_percent.is_none());
    assert!(t.memory_mb.is_none());
    assert_eq!(f(t.battery_percent.unwrap()), 20.0);
    assert_eq!(f(t.temperature_c.unwrap()), 25.0);
    assert_eq!(f(t.compute_capacity.unwrap()), 0.5);
    assert_eq!(f(t.position.unwrap().lon), 2.0);
    assert!(t.position.unwrap().in_eclipse);
    assert!(sat.build_telemetry(None).position.is_none());
    sat.config.poll_interval_s = 15;
    assert_eq!(sat.telemetry_interval_s(), 30);
    sat.config.poll_interval_s = 29;
    assert_eq!(sat.telemetry_interval_s(), 30);
    sat.config.poll_interval_s = 31;
    assert_eq!(sat.telemetry_interval_s(), 31);
    sat.config.poll_interval_s = 60;
    assert_eq!(sat.telemetry_interval_s(), 60);
}

#[test]
fn the_round_of_an_agent() {
    let mut sat = SimulatedSatellite::new(test_config(), d(1.0)).unwrap();
    let mut duty = sat.start();
    assert!(sat.running);
    assert_eq!(duty, Duty::Register);
    let steps = [
        (Outcome::Done, Duty::LookBeforePoll),
        (Outcome::Running(true), Duty::Poll),
        (Outcome::Workload(false), Duty::LookBeforeRest),
        (Outcome::Running(true), Duty::Rest),
        (Outcome::Done, Duty::LookBeforePoll),
        (Outcome::Running(true), Duty::Poll),
        (Outcome::Workload(true), Duty::Execute),
        (Outcome::Done, Duty::LookBeforeRest),
        (Outcome::Running(false), Duty::LookBeforePoll),
        (Outcome::Running(false), Duty::Quit),
    ];
    for (outcome, expected) in steps {
        duty = duty.next(outcome);
        assert_eq!(duty, expected);
    }
    sat.stop();
    assert!(!sat.running);
}

#[test]
fn events_are_reported_against_their_deployment() {
    let mut config = test_config();
    config.api_url = "https://console.example".into();
    let sat = SimulatedSatellite::new(config, d(1.0)).unwrap();
    let e = event("constellation.failover", "2026-03-07T12:00:00Z", Some("s1"), Json::object());
    let request = sat.report_event("d1", &e);
    assert_eq!(request.url, "https://console.example/api/deployments/d1/events");
    let body = request.body.unwrap();
    assert_eq!(body.text_at("type"), Some("constellation.failover"));
    assert_eq!(body.text_at("step_id"), Some("s1"));
}
