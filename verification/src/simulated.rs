//! A simulated satellite that replays event streams.
//!
//! The satellite decides; what it asks for (a pause, the orbital state, a report)
//! is carried out around it.

use vstd::prelude::*;

use crate::agent::AgentError;
use crate::client::{self, ConsoleClient, Request, AGENT_VERSION};
use crate::double::{self, Double};
use crate::json::JsonView;
use crate::sim_client::{self, OrbitalElements, OrbitalState, SatelliteState, SimClient};
use crate::time::{self, UtcTime};
use crate::types::{self, AgentConfig, AgentEvent, AgentStatus, AgentTelemetry, Position};

verus! {

/// A simulated satellite that replays pre-computed event streams.
///
/// When configured with a `sim_url` and orbital elements, it asks the simulation
/// service for orbital state (position, eclipse) and maintains power and thermal
/// state locally. Without, it falls back to simple event replay.
#[derive(Debug)]
pub struct SimulatedSatellite {
    pub config: AgentConfig,
    pub client: ConsoleClient,
    pub speed_multiplier: Double,
    pub running: bool,
    pub sim_client: Option<SimClient>,
    pub orbital_elements: Option<OrbitalElements>,
    pub sat_state: SatelliteState,
    pub status: AgentStatus,
}

/// What changes while a satellite works.
#[derive(Debug, Clone, Copy, PartialEq, Eq, Structural)]
pub struct Live {
    pub sat_state: SatelliteState,
    pub status: AgentStatus,
}

impl SimulatedSatellite {
    pub open spec fn live(self) -> Live {
        Live { sat_state: self.sat_state, status: self.status }
    }

    /// The satellite with another state.
    pub open spec fn with_live(self, live: Live) -> SimulatedSatellite {
        SimulatedSatellite { sat_state: live.sat_state, status: live.status, ..self }
    }

    /// The last update is within the calendar.
    pub open spec fn dated(self) -> bool {
        self.sat_state.last_update.valid()
    }
}

/// The state after an answer of the simulation service: power and temperature
/// are brought up to date.
pub open spec fn located(live: Live, now: UtcTime, orbital: Option<OrbitalState>) -> Live {
    match orbital {
        Some(o) => Live {
            sat_state: sim_client::state_at(
                live.sat_state,
                now,
                o.in_eclipse,
                live.status == AgentStatus::Executing,
            ),
            ..live
        },
        None => live,
    }
}

/// The position that an answer of the simulation service gives.
pub open spec fn position_in(orbital: Option<OrbitalState>) -> Option<Position> {
    match orbital {
        Some(o) => Some(
            Position { lat: o.lat, lon: o.lon, altitude_km: o.altitude_km, in_eclipse: o.in_eclipse },
        ),
        None => None,
    }
}

/// Milliseconds to wait between two events: the time between their timestamps,
/// sped up. Pauses of a millisecond or less are left out, and so is one between
/// timestamps that cannot be read.
pub open spec fn pause_between(previous: Seq<char>, current: Seq<char>, speed: Double) -> Option<u64> {
    match (time::reading(previous), time::reading(current)) {
        (Some(p), Some(c)) => {
            let millis = time::millis_between(c, p);
            let adjusted = double::quotient(double::integer(if millis > 0 { millis } else { 0 }), speed);
            if double::less(double::integer(1), adjusted) {
                Some(double::truncated(adjusted, 0, u64::MAX as int) as u64)
            } else {
                None
            }
        },
        _ => None,
    }
}

/// At speed one a replay takes the time that the events took: the pause is the
/// time between their timestamps, to the millisecond.
pub proof fn real_time_replay_keeps_pauses(previous: Seq<char>, current: Seq<char>)
    requires
        time::reading(previous) is Some,
        time::reading(current) is Some,
        1 < time::millis_between(time::reading(current)->0, time::reading(previous)->0)
            <= 0x20_0000_0000_0000,
    ensures
        pause_between(previous, current, double::integer(1)) == Some(
            time::millis_between(time::reading(current)->0, time::reading(previous)->0) as u64,
        ),
{
    let millis = time::millis_between(time::reading(current)->0, time::reading(previous)->0);
    double::integers_are_finite(millis);
    double::division_by_one(double::integer(millis));
    double::integers_compare(1, millis);
    double::integers_truncate(millis);
}

/// Milliseconds to wait between two events.
pub fn pause_ms(previous: &str, current: &str, speed: Double) -> (r: Option<u64>)
    ensures
        r == pause_between(previous@, current@, speed),
{
    match (UtcTime::parse(previous), UtcTime::parse(current)) {
        (Some(prev_ts), Some(curr_ts)) => {
            let millis: i64 = curr_ts.millis_since(prev_ts);
            let delta = Double::from_i64(if millis > 0 { millis } else { 0 });
            let adjusted_ms = delta.over(speed);
            if Double::from_i64(1).is_less(adjusted_ms) {
                Some(adjusted_ms.to_u64())
            } else {
                None
            }
        },
        _ => None,
    }
}

/// Seconds from one event to another; zero where a timestamp cannot be read.
pub open spec fn seconds_into(first: Seq<char>, current: Seq<char>) -> int {
    match (time::reading(first), time::reading(current)) {
        (Some(f), Some(c)) => time::seconds_between(c, f),
        _ => 0,
    }
}

/// Seconds from one event to another.
pub fn elapsed_seconds(first: &str, current: &str) -> (r: i64)
    ensures
        r == seconds_into(first@, current@),
{
    match (UtcTime::parse(first), UtcTime::parse(current)) {
        (Some(f), Some(c)) => c.seconds_since(f),
        _ => 0,
    }
}

impl SimulatedSatellite {
    /// Create a new simulated satellite.
    ///
    /// `speed_multiplier` controls replay speed:
    /// - 1.0 = real-time
    /// - 10.0 = 10x faster
    /// - 100.0 = 100x faster (default for demos)
    pub fn new(config: AgentConfig, speed_multiplier: Double) -> (r: Result<SimulatedSatellite, AgentError>)
        ensures
            r matches Ok(sat) && {
                &&& sat.config == config
                &&& sat.client.config == config
                &&& sat.speed_multiplier == speed_multiplier
                &&& !sat.running
                &&& types::optional(config.sim_url) == match sat.sim_client {
                    Some(sim) => Some(sim.sim_url@),
                    None => None,
                }
                &&& sat.orbital_elements is None
                &&& sat.sat_state.battery_wh == double::integer(80)
                &&& sat.sat_state.temperature_c == double::integer(25)
                &&& sat.dated()
                &&& sat.status == AgentStatus::Idle
            },
    {
        let client = match ConsoleClient::new(config.copy()) {
            Ok(c) => c,
            Err(e) => {
                return Err(e);
            },
        };
        let sim_client = match &config.sim_url {
            Some(url) => match SimClient::new(url.clone()) {
                Ok(sim) => Some(sim),
                Err(e) => {
                    return Err(e);
                },
            },
            None => None,
        };
        Ok(
            SimulatedSatellite {
                config,
                client,
                speed_multiplier,
                running: false,
                sim_client,
                orbital_elements: None,
                sat_state: SatelliteState::new(),
                status: AgentStatus::Idle,
            },
        )
    }

    /// Set orbital elements for use with the simulation service.
    pub fn with_orbital_elements(self, elements: OrbitalElements) -> (r: SimulatedSatellite)
        ensures
            r == (SimulatedSatellite { orbital_elements: Some(elements), ..self }),
    {
        SimulatedSatellite { orbital_elements: Some(elements), ..self }
    }

    /// The request that registers the satellite with the console.
    pub fn register(&self) -> (r: Request)
        ensures
            r.method == client::Method::Post,
            r.url@ == self.client.config.api_url@ + "/api/agent/register"@,
            client::header_list(r.headers@) == client::credentials(self.client.config),
            r.body matches Some(b) && b@ == registration(*self),
    {
        let altitude = match &self.orbital_elements {
            Some(e) => Some(e.altitude_km),
            None => None,
        };
        let id = match &self.config.satellite_id {
            Some(s) => Some(s.as_str()),
            None => None,
        };
        let name = match &self.config.satellite_name {
            Some(s) => Some(s.as_str()),
            None => None,
        };
        self.client.register(id, name, altitude, Some(AGENT_VERSION))
    }

    /// The request for the orbital state, where the simulation service and the
    /// orbital elements are known.
    pub fn state_request(&self, now: UtcTime) -> (r: Option<Request>)
        requires
            now.valid(),
        ensures
            r is Some <==> self.sim_client is Some && self.orbital_elements is Some,
            r matches Some(q) ==> {
                &&& q.method == client::Method::Post
                &&& q.url@ == self.sim_client->0.sim_url@ + "/v1/state"@
                &&& q.headers@.len() == 0
                &&& q.body matches Some(b) && b@ == sim_client::state_form(self.orbital_elements->0, now)
            },
    {
        match (&self.sim_client, &self.orbital_elements) {
            (Some(sim), Some(elements)) => {
                let q = sim.get_state(elements, now);
                assert(client::header_list(q.headers@).len() == q.headers@.len());
                Some(q)
            },
            _ => None,
        }
    }

    /// Takes an answer of the simulation service: updates power and thermal state
    /// and gives the position.
    pub fn update_orbital_state(&mut self, now: UtcTime, orbital: Option<OrbitalState>) -> (r: Option<Position>)
        requires
            old(self).dated(),
            now.valid(),
        ensures
            final(self).dated(),
            *final(self) == old(self).with_live(located(old(self).live(), now, orbital)),
            r == position_in(orbital),
    {
        match orbital {
            Some(o) => {
                let is_executing = self.status == AgentStatus::Executing;
                self.sat_state.update(now, o.in_eclipse, is_executing);
                Some(
                    Position {
                        lat: o.lat,
                        lon: o.lon,
                        altitude_km: o.altitude_km,
                        in_eclipse: o.in_eclipse,
                    },
                )
            },
            None => None,
        }
    }

    /// Telemetry with the current state.
    pub fn build_telemetry(&self, position: Option<Position>) -> (r: AgentTelemetry)
        ensures
            exists|now: UtcTime| now.valid() && #[trigger] reads(r, *self, position, time::stamp(now)),
    {
        let now = UtcTime::now();
        let stamp = now.to_rfc3339();
        self.build_telemetry_at(position, stamp.as_str())
    }

    /// Telemetry with the current state, as of the given time.
    pub fn build_telemetry_at(&self, position: Option<Position>, stamp: &str) -> (r: AgentTelemetry)
        ensures
            reads(r, *self, position, stamp@),
    {
        AgentTelemetry {
            agent_id: self.config.agent_id.clone(),
            status: self.status,
            timestamp: stamp.to_owned(),
            cpu_percent: None,
            memory_mb: None,
            battery_percent: Some(self.sat_state.battery_percent()),
            temperature_c: Some(self.sat_state.temperature_c),
            position,
            compute_capacity: Some(self.sat_state.compute_capacity()),
        }
    }

    /// The request that reports an event of a deployment to the console.
    pub fn report_event(&self, deployment_id: &str, event: &AgentEvent) -> (r: Request)
        ensures
            r.method == client::Method::Post,
            r.url@ == self.client.config.api_url@ + "/api/deployments/"@ + deployment_id@ + "/events"@,
            client::header_list(r.headers@) == client::credentials(self.client.config),
            r.body matches Some(b) && b@ == types::event_form(event@),
    {
        self.client.report_event(deployment_id, event)
    }

    /// Seconds between two telemetry reports: the poll interval, but at least 30,
    /// since the console takes no more than one report in that time.
    pub fn telemetry_interval_s(&self) -> (r: u64)
        ensures
            r == if self.config.poll_interval_s < 30 { 30 } else { self.config.poll_interval_s },
    {
        if self.config.poll_interval_s < 30 {
            30
        } else {
            self.config.poll_interval_s
        }
    }
}

/// The body of the satellite's registration.
pub open spec fn registration(sat: SimulatedSatellite) -> JsonView {
    client::registration_form(
        sat.client.config.agent_id@,
        types::optional(sat.config.satellite_id),
        types::optional(sat.config.satellite_name),
        match sat.orbital_elements {
            Some(e) => Some(e.altitude_km),
            None => None,
        },
        Some(AGENT_VERSION@),
    )
}

/// Telemetry reads as the satellite's state does.
pub open spec fn reads(
    t: AgentTelemetry,
    sat: SimulatedSatellite,
    position: Option<Position>,
    stamp: Seq<char>,
) -> bool {
    &&& t.agent_id@ == sat.config.agent_id@
    &&& t.status == sat.status
    &&& t.timestamp@ == stamp
    &&& t.cpu_percent is None
    &&& t.memory_mb is None
    &&& t.battery_percent == Some(sat.sat_state.battery_wh)
    &&& t.temperature_c == Some(sat.sat_state.temperature_c)
    &&& t.position == position
    &&& t.compute_capacity == Some(sim_client::capacity_at(sat.sat_state.battery_wh))
}

} // verus!
