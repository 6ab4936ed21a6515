//! The console's API: what the agent asks, and what the answers mean.

use vstd::prelude::*;

use crate::agent::AgentError;
use crate::double::Double;
use crate::json::{self, Json, JsonView};
use crate::text;
use crate::types::{self, AgentConfig, AgentEvent, AgentTelemetry};

verus! {

/// What the agent calls itself in `User-Agent`.
pub const USER_AGENT: &'static str = "rotastellar-agent/0.1.0";

/// The version that the agent registers with.
pub const AGENT_VERSION: &'static str = "0.1.0";

#[derive(Debug, Clone, Copy, PartialEq, Eq, Structural)]
pub enum Method {
    Get,
    Post,
}

#[derive(Debug)]
pub struct Header {
    pub name: String,
    pub value: String,
}

/// An HTTP request, ready to be sent.
#[derive(Debug)]
pub struct Request {
    pub method: Method,
    pub url: String,
    pub headers: Vec<Header>,
    pub body: Option<Json>,
}

/// What a list of headers says.
pub open spec fn header_list(headers: Seq<Header>) -> Seq<(Seq<char>, Seq<char>)> {
    Seq::new(headers.len(), |i: int| (headers[i].name@, headers[i].value@))
}

/// A status that reports success.
pub open spec fn success(status: u16) -> bool {
    200 <= status < 300
}

pub fn is_success(status: u16) -> (r: bool)
    ensures
        r == success(status),
{
    200 <= status && status < 300
}

/// Client for communicating with the console.
#[derive(Debug)]
pub struct ConsoleClient {
    pub config: AgentConfig,
}

/// The headers that authenticate the agent.
pub open spec fn credentials(config: AgentConfig) -> Seq<(Seq<char>, Seq<char>)> {
    seq![("X-API-Key"@, config.api_key@), ("X-Agent-ID"@, config.agent_id@)]
}

/// What an optional text says.
pub open spec fn said(text: Option<&str>) -> Option<Seq<char>> {
    match text {
        Some(t) => Some(t@),
        None => None,
    }
}

/// The object `v` with a text set where there is one.
pub open spec fn with_text(v: JsonView, name: Seq<char>, text: Option<Seq<char>>) -> JsonView {
    match text {
        Some(t) => json::with_field(v, name, JsonView::Text(t)),
        None => v,
    }
}

/// The body of a registration: what is not known is left out.
pub open spec fn registration_form(
    agent_id: Seq<char>,
    satellite_id: Option<Seq<char>>,
    satellite_name: Option<Seq<char>>,
    orbit_altitude_km: Option<Double>,
    agent_version: Option<Seq<char>>,
) -> JsonView {
    let who = json::with_field(JsonView::Object(Map::empty()), "agent_id"@, JsonView::Text(agent_id));
    with_text(
        types::with_number(
            with_text(
                with_text(who, "satellite_id"@, satellite_id),
                "satellite_name"@,
                satellite_name,
            ),
            "orbit_altitude_km"@,
            orbit_altitude_km,
        ),
        "agent_version"@,
        agent_version,
    )
}

/// The error of an answer that is no success.
pub open spec fn refusal(e: AgentError, status_line: Seq<char>, body: Seq<char>) -> bool {
    e matches AgentError::ApiError(m) && m@ == status_line + ": "@ + body
}

fn set_text(form: &mut Json, name: &str, t: Option<&str>)
    ensures
        final(form)@ == with_text(old(form)@, name@, said(t)),
{
    if let Some(s) = t {
        form.set(name, Json::text(s));
    }
}

impl ConsoleClient {
    pub fn new(config: AgentConfig) -> (r: Result<ConsoleClient, AgentError>)
        ensures
            r matches Ok(c) && c.config == config,
    {
        Ok(ConsoleClient { config })
    }

    fn headers(&self) -> (r: Vec<Header>)
        ensures
            header_list(r@) == credentials(self.config),
    {
        let mut headers: Vec<Header> = Vec::new();
        headers.push(Header { name: "X-API-Key".to_owned(), value: self.config.api_key.clone() });
        headers.push(Header { name: "X-Agent-ID".to_owned(), value: self.config.agent_id.clone() });
        assert(header_list(headers@) =~= credentials(self.config));
        headers
    }

    /// The request that registers the agent with the console.
    pub fn register(
        &self,
        satellite_id: Option<&str>,
        satellite_name: Option<&str>,
        orbit_altitude_km: Option<Double>,
        agent_version: Option<&str>,
    ) -> (r: Request)
        ensures
            r.method == Method::Post,
            r.url@ == self.config.api_url@ + "/api/agent/register"@,
            header_list(r.headers@) == credentials(self.config),
            r.body matches Some(b) && b@ == registration_form(
                self.config.agent_id@,
                said(satellite_id),
                said(satellite_name),
                orbit_altitude_km,
                said(agent_version),
            ),
    {
        let mut body = Json::object();
        body.set("agent_id", Json::text(self.config.agent_id.as_str()));
        set_text(&mut body, "satellite_id", satellite_id);
        set_text(&mut body, "satellite_name", satellite_name);
        if let Some(alt) = orbit_altitude_km {
            body.set("orbit_altitude_km", Json::number(alt));
        }
        set_text(&mut body, "agent_version", agent_version);
        Request {
            method: Method::Post,
            url: text::pair(self.config.api_url.as_str(), "/api/agent/register"),
            headers: self.headers(),
            body: Some(body),
        }
    }

    /// The request that polls for pending workloads assigned to this agent.
    pub fn poll_workloads(&self) -> (r: Request)
        ensures
            r.method == Method::Get,
            r.url@ == self.config.api_url@ + "/api/agent/workloads"@,
            header_list(r.headers@) == credentials(self.config),
            r.body is None,
    {
        Request {
            method: Method::Get,
            url: text::pair(self.config.api_url.as_str(), "/api/agent/workloads"),
            headers: self.headers(),
            body: None,
        }
    }

    /// The request that reports an execution event.
    pub fn report_event(&self, deployment_id: &str, event: &AgentEvent) -> (r: Request)
        ensures
            r.method == Method::Post,
            r.url@ == self.config.api_url@ + "/api/deployments/"@ + deployment_id@ + "/events"@,
            header_list(r.headers@) == credentials(self.config),
            r.body matches Some(b) && b@ == types::event_form(event@),
    {
        let head = text::join(self.config.api_url.as_str(), "/api/deployments/", deployment_id);
        Request {
            method: Method::Post,
            url: text::pair(head.as_str(), "/events"),
            headers: self.headers(),
            body: Some(event.to_json()),
        }
    }

    /// The request that reports telemetry.
    pub fn report_telemetry(&self, telemetry: &AgentTelemetry) -> (r: Request)
        ensures
            r.method == Method::Post,
            r.url@ == self.config.api_url@ + "/api/agent/telemetry"@,
            header_list(r.headers@) == credentials(self.config),
            r.body matches Some(b) && b@ == types::telemetry_form(*telemetry),
    {
        Request {
            method: Method::Post,
            url: text::pair(self.config.api_url.as_str(), "/api/agent/telemetry"),
            headers: self.headers(),
            body: Some(telemetry.to_json()),
        }
    }

    /// What the status of an answer to a report means: any but a success is an
    /// error, with the status line and the text of the answer in its message.
    pub fn check_report(status: u16, status_line: &str, body: &str) -> (r: Result<(), AgentError>)
        ensures
            r is Ok <==> success(status),
            r matches Err(e) ==> refusal(e, status_line@, body@),
    {
        if is_success(status) {
            Ok(())
        } else {
            Err(AgentError::ApiError(text::join(status_line, ": ", body)))
        }
    }

    /// What the status of an answer to a poll means: whether the answer holds a
    /// workload. 204 says that there is none.
    pub fn check_poll(status: u16, status_line: &str, body: &str) -> (r: Result<bool, AgentError>)
        ensures
            r is Ok <==> success(status),
            r matches Ok(work) ==> work == (status != 204),
            r matches Err(e) ==> refusal(e, status_line@, body@),
    {
        if status == 204 {
            return Ok(false);
        }
        match ConsoleClient::check_report(status, status_line, body) {
            Ok(_) => Ok(true),
            Err(e) => Err(e),
        }
    }
}

} // verus!
