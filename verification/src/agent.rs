//! What can go wrong while an agent works.

use vstd::prelude::*;

use crate::text::pair;

verus! {

/// Errors that can occur during agent operations.
#[derive(Debug)]
pub enum AgentError {
    /// The console or the simulation service refused a request.
    ApiError(String),
    /// A request could not be carried out.
    NetworkError(String),
    /// A value could not be written or read as JSON.
    SerializationError(String),
    /// A workload cannot be executed.
    ExecutionError(String),
    /// The agent was told to stop.
    Stopped,
}

/// The message of an error.
pub open spec fn error_message(e: AgentError) -> Seq<char> {
    match e {
        AgentError::ApiError(m) => "API request failed: "@ + m@,
        AgentError::NetworkError(m) => "Network error: "@ + m@,
        AgentError::SerializationError(m) => "Serialization error: "@ + m@,
        AgentError::ExecutionError(m) => "Execution error: "@ + m@,
        AgentError::Stopped => "Agent stopped"@,
    }
}

impl AgentError {
    /// The message to show for the error.
    pub fn message(&self) -> (r: String)
        ensures
            r@ == error_message(*self),
    {
        match self {
            AgentError::ApiError(m) => pair("API request failed: ", m.as_str()),
            AgentError::NetworkError(m) => pair("Network error: ", m.as_str()),
            AgentError::SerializationError(m) => pair("Serialization error: ", m.as_str()),
            AgentError::ExecutionError(m) => pair("Execution error: ", m.as_str()),
            AgentError::Stopped => "Agent stopped".to_owned(),
        }
    }
}

} // verus!
