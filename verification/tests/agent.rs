//! Messages of errors, the console's requests and answers, the JSON forms.

use rotastellar_agent::client::{ConsoleClient, Method, Request, AGENT_VERSION, USER_AGENT};
use rotastellar_agent::double::Double;
use rotastellar_agent::json::Json;
use rotastellar_agent::types::default_poll_interval;
use rotastellar_agent::{AgentConfig, AgentError, AgentEvent, AgentStatus, AgentTelemetry, Position};

fn d(x: f64) -> Double {
    Double::from_bits(x.to_bits())
}

fn f(x: Double) -> f64 {
    f64::from_bits(x.to_bits())
}

#[test]
fn test_agent_error_api_display() {
    let err = AgentError::ApiError("timeout".into());
    assert_eq!(err.message(), "API request failed: timeout");
}

#[test]
fn test_agent_error_execution_display() {
    let err = AgentError::ExecutionError("step failed".into());
    assert_eq!(err.message(), "Execution error: step failed");
}

#[test]
fn test_agent_error_stopped_display() {
    let err = AgentError::Stopped;
    assert_eq!(err.message(), "Agent stopped");
}

#[test]
fn messages_of_the_other_errors() {
    assert_eq!(AgentError::NetworkError("refused".into()).message(), "Network error: refused");
    assert_eq!(AgentError::SerializationError("eof".into()).message(), "Serialization error: eof");
}

fn config() -> AgentConfig {
    AgentConfig {
        agent_id: "sat-25544".into(),
        api_url: "https://console.rotastellar.com".into(),
        api_key: "rs_test".into(),
        poll_interval_s: default_poll_interval(),
        satellite_id: None,
        satellite_name: None,
        sim_url: None,
    }
}

fn authenticated(request: &Request) -> bool {
    request.headers.len() == 2
        && request.headers[0].name == "X-API-Key"
        && request.headers[0].value == "rs_test"
        && request.headers[1].name == "X-Agent-ID"
        && request.headers[1].value == "sat-25544"
}

#[test]
fn what_the_agent_calls_itself() {
    assert_eq!(USER_AGENT, "rotastellar-agent/0.1.0");
    assert_eq!(AGENT_VERSION, "0.1.0");
    assert_eq!(default_poll_interval(), 30);
}

#[test]
fn a_registration_says_what_is_known() {
    let client = ConsoleClient::new(config()).unwrap();
    let full = client.register(Some("25544"), Some("ISS (ZARYA)"), Some(d(408.0)), Some("0.1.0"));
    assert_eq!(full.method, Method::Post);
    assert_eq!(full.url, "https://console.rotastellar.com/api/agent/register");
    assert!(authenticated(&full));
    let body = full.body.unwrap();
    assert_eq!(body.text_at("agent_id"), Some("sat-25544"));
    assert_eq!(body.text_at("satellite_id"), Some("25544"));
    assert_eq!(body.text_at("satellite_name"), Some("ISS (ZARYA)"));
    assert_eq!(f(body.number_at("orbit_altitude_km").unwrap()), 408.0);
    assert_eq!(body.text_at("agent_version"), Some("0.1.0"));

    let bare = client.register(None, None, None, None).body.unwrap();
    assert_eq!(bare.text_at("agent_id"), Some("sat-25544"));
    for name in ["satellite_id", "satellite_name", "orbit_altitude_km", "agent_version"] {
        assert!(bare.get(name).is_none());
    }
}

#[test]
fn a_poll_has_no_body() {
    let client = ConsoleClient::new(config()).unwrap();
    let poll = client.poll_workloads();
    assert_eq!(poll.method, Method::Get);
    assert_eq!(poll.url, "https://console.rotastellar.com/api/agent/workloads");
    assert!(authenticated(&poll));
    assert!(poll.body.is_none());
}

fn event(step_id: Option<&str>) -> AgentEvent {
    let mut payload = Json::object();
    payload.set("duration_s", Json::natural(180));
    AgentEvent {
        event_type: "step.completed".into(),
        timestamp: "2026-03-07T14:23:45Z".into(),
        job_id: "preset-001".into(),
        step_id: step_id.map(String::from),
        payload,
    }
}

#[test]
fn an_event_is_reported_under_its_deployment() {
    let client = ConsoleClient::new(config()).unwrap();
    let report = client.report_event("dep-456", &event(Some("feature_extraction")));
    assert_eq!(report.method, Method::Post);
    assert_eq!(report.url, "https://console.rotastellar.com/api/deployments/dep-456/events");
    assert!(authenticated(&report));
    let body = report.body.unwrap();
    assert_eq!(body.text_at("type"), Some("step.completed"));
    assert_eq!(body.text_at("timestamp"), Some("2026-03-07T14:23:45Z"));
    assert_eq!(body.text_at("job_id"), Some("preset-001"));
    assert_eq!(body.text_at("step_id"), Some("feature_extraction"));
    assert_eq!(f(body.get("payload").unwrap().number_at("duration_s").unwrap()), 180.0);
    assert!(event(None).to_json().get("step_id").is_none());
}

#[test]
fn telemetry_leaves_out_what_was_not_read() {
    let client = ConsoleClient::new(config()).unwrap();
    let telemetry = AgentTelemetry {
        agent_id: "sat-25544".into(),
        status: AgentStatus::Executing,
        timestamp: "2026-03-07T14:23:45Z".into(),
        cpu_percent: Some(d(67.5)),
        memory_mb: None,
        battery_percent: Some(d(82.0)),
        temperature_c: Some(d(34.2)),
        position: Some(Position { lat: d(1.5), lon: d(-2.5), altitude_km: d(408.0), in_eclipse: true }),
        compute_capacity: None,
    };
    let report = client.report_telemetry(&telemetry);
    assert_eq!(report.method, Method::Post);
    assert_eq!(report.url, "https://console.rotastellar.com/api/agent/telemetry");
    assert!(authenticated(&report));
    let body = report.body.unwrap();
    assert_eq!(body.text_at("agent_id"), Some("sat-25544"));
    assert_eq!(body.text_at("status"), Some("executing"));
    assert_eq!(body.text_at("timestamp"), Some("2026-03-07T14:23:45Z"));
    assert_eq!(f(body.number_at("cpu_percent").unwrap()), 67.5);
    assert_eq!(f(body.number_at("battery_percent").unwrap()), 82.0);
    assert_eq!(f(body.number_at("temperature_c").unwrap()), 34.2);
    let position = body.get("position").unwrap();
    assert_eq!(f(position.number_at("lat").unwrap()), 1.5);
    assert_eq!(f(position.number_at("lon").unwrap()), -2.5);
    assert_eq!(f(position.number_at("altitude_km").unwrap()), 408.0);
    assert_eq!(position.flag_at("in_eclipse"), Some(true));
    assert!(body.get("memory_mb").is_none());
    assert!(body.get("compute_capacity").is_none());
}

#[test]
fn words_for_the_status() {
    assert_eq!(AgentStatus::Idle.word(), "idle");
    assert_eq!(AgentStatus::Executing.word(), "executing");
    assert_eq!(AgentStatus::Transferring.word(), "transferring");
    assert_eq!(AgentStatus::Offline.word(), "offline");
}

#[test]
fn answers_of_the_console() {
    assert!(ConsoleClient::check_report(201, "201 Created", "").is_ok());
    match ConsoleClient::check_report(401, "401 Unauthorized", "bad key") {
        Err(AgentError::ApiError(m)) => assert_eq!(m, "401 Unauthorized: bad key"),
        other => panic!("{:?}", other),
    }
    assert!(matches!(ConsoleClient::check_poll(204, "204 No Content", ""), Ok(false)));
    assert!(matches!(ConsoleClient::check_poll(200, "200 OK", ""), Ok(true)));
    match ConsoleClient::check_poll(429, "429 Too Many Requests", "slow down") {
        Err(AgentError::ApiError(m)) => assert_eq!(m, "429 Too Many Requests: slow down"),
        other => panic!("{:?}", other),
    }
}

#[test]
fn a_copied_configuration_is_the_same() {
    let mut c = config();
    c.satellite_id = Some("99901".into());
    let copy = c.copy();
    assert_eq!(format!("{:?}", copy), format!("{:?}", c));
}
