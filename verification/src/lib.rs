//! Agent that executes orbital compute workloads on satellites, using a
//! pull-based protocol.
//!
//! The agent runs on a satellite, or in simulation, and works with a console:
//!
//! 1. Poll: it checks for pending workloads during contact windows.
//! 2. Execute: it runs workload steps locally on the satellite.
//! 3. Report: it streams execution events back to the console.
//! 4. Telemetry: it sends periodic health heartbeats.
//!
//! This library holds what the agent decides and computes. Requests are built and
//! answers are judged here; sending them and pausing are left to the program around
//! it, which also hands in the trigonometry that orbits need.

pub mod agent;
pub mod client;
pub mod constellation;
pub mod double;
pub mod duty;
pub mod elements;
pub mod execution;
pub mod hazard;
pub mod json;
pub mod ocp;
pub mod orbit;
pub mod power;
pub mod reports;
pub mod rules;
pub mod sim_client;
pub mod simulated;
pub mod table;
pub mod text;
pub mod time;
pub mod types;

pub use agent::AgentError;
pub use client::ConsoleClient;
pub use sim_client::{OrbitalElements, OrbitalState, SatelliteState, SimClient};
pub use simulated::SimulatedSatellite;
pub use types::{AgentConfig, AgentEvent, AgentStatus, AgentTelemetry, Position, WorkloadSpec};
