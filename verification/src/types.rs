//! What agents and the console exchange: events, workloads, telemetry.

use vstd::prelude::*;

use crate::double::Double;
use crate::json::{self, Json, JsonView};

verus! {

/// What an optional text holds.
pub open spec fn optional(text: Option<String>) -> Option<Seq<char>> {
    match text {
        Some(t) => Some(t@),
        None => None,
    }
}

/// A copy of an optional text.
pub fn copy_text(text: &Option<String>) -> (r: Option<String>)
    ensures
        optional(r) == optional(*text),
        r == *text,
{
    match text {
        Some(t) => Some(t.clone()),
        None => None,
    }
}

/// A single event in the execution timeline.
///
/// Event types: job.accepted, placement.decided, plan.created, step.started,
/// step.progress, step.completed, transfer.started, transfer.pass_started,
/// transfer.progress, transfer.pass_completed, transfer.completed,
/// checkpoint.saved, security.encrypted, security.key_exchange, job.completed,
/// job.failed
#[derive(Debug)]
pub struct AgentEvent {
    pub event_type: String,
    pub timestamp: String,
    pub job_id: String,
    pub step_id: Option<String>,
    pub payload: Json,
}

/// What an event says.
pub struct EventView {
    pub event_type: Seq<char>,
    pub timestamp: Seq<char>,
    pub job_id: Seq<char>,
    pub step_id: Option<Seq<char>>,
    pub payload: JsonView,
}

impl AgentEvent {
    pub open spec fn view(self) -> EventView {
        EventView {
            event_type: self.event_type@,
            timestamp: self.timestamp@,
            job_id: self.job_id@,
            step_id: optional(self.step_id),
            payload: self.payload@,
        }
    }
}

impl Clone for AgentEvent {
    fn clone(&self) -> (r: AgentEvent)
        ensures
            r@ == self@,
            r.payload is Object == self.payload is Object,
    {
        AgentEvent {
            event_type: self.event_type.clone(),
            timestamp: self.timestamp.clone(),
            job_id: self.job_id.clone(),
            step_id: copy_text(&self.step_id),
            payload: self.payload.copy(),
        }
    }
}

/// What a list of events says.
pub open spec fn event_list(events: Seq<AgentEvent>) -> Seq<EventView> {
    Seq::new(events.len(), |i: int| events[i]@)
}

/// The JSON form of an event: the type under `type`, and `step_id` only where
/// there is one.
pub open spec fn event_form(e: EventView) -> JsonView {
    let bare = json::with_field(
        json::with_field(
            json::with_field(
                json::with_field(
                    JsonView::Object(Map::empty()),
                    "type"@,
                    JsonView::Text(e.event_type),
                ),
                "timestamp"@,
                JsonView::Text(e.timestamp),
            ),
            "job_id"@,
            JsonView::Text(e.job_id),
        ),
        "payload"@,
        e.payload,
    );
    match e.step_id {
        Some(id) => json::with_field(bare, "step_id"@, JsonView::Text(id)),
        None => bare,
    }
}

impl AgentEvent {
    /// The event as JSON.
    pub fn to_json(&self) -> (r: Json)
        ensures
            r@ == event_form(self@),
    {
        let mut form = Json::object();
        form.set("type", Json::text(self.event_type.as_str()));
        form.set("timestamp", Json::text(self.timestamp.as_str()));
        form.set("job_id", Json::text(self.job_id.as_str()));
        form.set("payload", self.payload.copy());
        if let Some(id) = &self.step_id {
            form.set("step_id", Json::text(id.as_str()));
        }
        form
    }
}

/// A workload specification dispatched to an agent.
#[derive(Debug, Clone)]
pub struct WorkloadSpec {
    pub plan_id: String,
    pub deployment_id: String,
    pub satellite_id: String,
    pub plan_data: Json,
    pub events: Vec<AgentEvent>,
}

/// Configuration for an agent instance.
#[derive(Debug, Clone)]
pub struct AgentConfig {
    pub agent_id: String,
    pub api_url: String,
    pub api_key: String,
    pub poll_interval_s: u64,
    pub satellite_id: Option<String>,
    pub satellite_name: Option<String>,
    pub sim_url: Option<String>,
}

impl AgentConfig {
    /// A copy of the configuration.
    pub fn copy(&self) -> (r: AgentConfig)
        ensures
            r == *self,
    {
        AgentConfig {
            agent_id: self.agent_id.clone(),
            api_url: self.api_url.clone(),
            api_key: self.api_key.clone(),
            poll_interval_s: self.poll_interval_s,
            satellite_id: copy_text(&self.satellite_id),
            satellite_name: copy_text(&self.satellite_name),
            sim_url: copy_text(&self.sim_url),
        }
    }
}

/// Seconds between polls where a configuration does not say.
pub fn default_poll_interval() -> (r: u64)
    ensures
        r == 30,
{
    30
}

/// Where a satellite is.
#[derive(Debug, Clone, Copy, PartialEq, Eq, Structural)]
pub struct Position {
    pub lat: Double,
    pub lon: Double,
    pub altitude_km: Double,
    pub in_eclipse: bool,
}

/// Agent operational status.
#[derive(Debug, Clone, Copy, PartialEq, Eq, Structural)]
pub enum AgentStatus {
    Idle,
    Executing,
    Transferring,
    Offline,
}

/// The word for a status.
pub open spec fn status_word(status: AgentStatus) -> Seq<char> {
    match status {
        AgentStatus::Idle => "idle"@,
        AgentStatus::Executing => "executing"@,
        AgentStatus::Transferring => "transferring"@,
        AgentStatus::Offline => "offline"@,
    }
}

impl AgentStatus {
    /// The word for the status, as it is shown and sent.
    pub fn word(self) -> (r: &'static str)
        ensures
            r@ == status_word(self),
    {
        match self {
            AgentStatus::Idle => "idle",
            AgentStatus::Executing => "executing",
            AgentStatus::Transferring => "transferring",
            AgentStatus::Offline => "offline",
        }
    }
}

/// Telemetry data reported by an agent.
#[derive(Debug, Clone)]
pub struct AgentTelemetry {
    pub agent_id: String,
    pub status: AgentStatus,
    pub timestamp: String,
    pub cpu_percent: Option<Double>,
    pub memory_mb: Option<Double>,
    pub battery_percent: Option<Double>,
    pub temperature_c: Option<Double>,
    pub position: Option<Position>,
    pub compute_capacity: Option<Double>,
}

/// The object `v` with a number set where there is one.
pub open spec fn with_number(v: JsonView, name: Seq<char>, x: Option<Double>) -> JsonView {
    match x {
        Some(d) => json::with_field(v, name, json::number_view(d)),
        None => v,
    }
}

/// The JSON form of a position.
pub open spec fn position_form(p: Position) -> JsonView {
    json::with_field(
        json::with_field(
            json::with_field(
                json::with_field(
                    JsonView::Object(Map::empty()),
                    "lat"@,
                    json::number_view(p.lat),
                ),
                "lon"@,
                json::number_view(p.lon),
            ),
            "altitude_km"@,
            json::number_view(p.altitude_km),
        ),
        "in_eclipse"@,
        JsonView::Bool(p.in_eclipse),
    )
}

/// The JSON form of telemetry: readings that were not taken are left out.
pub open spec fn telemetry_form(t: AgentTelemetry) -> JsonView {
    let who = json::with_field(
        json::with_field(
            json::with_field(
                JsonView::Object(Map::empty()),
                "agent_id"@,
                JsonView::Text(t.agent_id@),
            ),
            "status"@,
            JsonView::Text(status_word(t.status)),
        ),
        "timestamp"@,
        JsonView::Text(t.timestamp@),
    );
    let health = with_number(
        with_number(
            with_number(
                with_number(who, "cpu_percent"@, t.cpu_percent),
                "memory_mb"@,
                t.memory_mb,
            ),
            "battery_percent"@,
            t.battery_percent,
        ),
        "temperature_c"@,
        t.temperature_c,
    );
    let placed = match t.position {
        Some(p) => json::with_field(health, "position"@, position_form(p)),
        None => health,
    };
    with_number(placed, "compute_capacity"@, t.compute_capacity)
}

/// Sets a number where there is one.
fn set_number(form: &mut Json, name: &str, x: Option<Double>)
    ensures
        final(form)@ == with_number(old(form)@, name@, x),
{
    if let Some(d) = x {
        form.set(name, Json::number(d));
    }
}

impl Position {
    /// The position as JSON.
    pub fn to_json(&self) -> (r: Json)
        ensures
            r@ == position_form(*self),
    {
        let mut form = Json::object();
        form.set("lat", Json::number(self.lat));
        form.set("lon", Json::number(self.lon));
        form.set("altitude_km", Json::number(self.altitude_km));
        form.set("in_eclipse", Json::Bool(self.in_eclipse));
        form
    }
}

impl AgentTelemetry {
    /// The telemetry as JSON.
    pub fn to_json(&self) -> (r: Json)
        ensures
            r@ == telemetry_form(*self),
    {
        let mut form = Json::object();
        form.set("agent_id", Json::text(self.agent_id.as_str()));
        form.set("status", Json::text(self.status.word()));
        form.set("timestamp", Json::text(self.timestamp.as_str()));
        set_number(&mut form, "cpu_percent", self.cpu_percent);
        set_number(&mut form, "memory_mb", self.memory_mb);
        set_number(&mut form, "battery_percent", self.battery_percent);
        set_number(&mut form, "temperature_c", self.temperature_c);
        if let Some(p) = &self.position {
            form.set("position", p.to_json());
        }
        set_number(&mut form, "compute_capacity", self.compute_capacity);
        form
    }
}

} // verus!
