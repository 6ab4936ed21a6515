//! Executing a workload: its events are replayed one by one, enriched with the
//! satellite's actual state, and reported.
//!
//! An execution decides what is to be done next; whoever drives it does that and
//! hands back the outcome.

use vstd::prelude::*;

use crate::agent::AgentError;
use crate::constellation::{self, ConstellationState, ConstellationView};
use crate::double::{self, Double};
use crate::hazard::predict::{self, fits_calendar, predict_hazards, HazardPrediction, PredictionView};
use crate::hazard::schedule::{schedule_form, schedule_json};
use crate::hazard::{hazards_form, hazards_json, TrajectoryPoint};
use crate::json::{self, Json, JsonView};
use crate::ocp;
use crate::orbit::{self, Transcendental};
use crate::sim_client::{OrbitalElements, OrbitalState, SatelliteState};
use crate::simulated::{self, pause_ms, Live, SimulatedSatellite};
use crate::text::same;
use crate::time::{self, UtcTime};
use crate::types::{self, copy_text, AgentEvent, AgentStatus, EventView, Position, WorkloadSpec};

verus! {

/// Hours that a hazard prediction looks ahead.
pub const HORIZON_HOURS: i64 = 6;

/// Bytes of computation state that a checkpoint saves.
pub const STATE_SIZE_BYTES: u64 = 50_000_000;

/// Bytes per second that flash storage takes.
pub const FLASH_BANDWIDTH_BPS: u64 = 10_000_000;

/// What an execution waits for.
#[derive(Debug, Clone, Copy, PartialEq, Eq, Structural)]
pub enum Stage {
    /// To hear whether the agent is still running
    Start,
    /// For the pause before an event to pass
    Pause,
    /// For the orbital state, to handle a constellation event
    Handle,
    /// For the events that follow from a constellation event to be reported
    Announce,
    /// For the orbital state, to check and enrich the event
    Check,
    /// For the orbital state, to complete the enrichment
    Enrich,
    /// For the event to be reported
    Report,
    /// For nothing more
    Over,
}

/// What is to be done next.
#[derive(Debug)]
pub enum Action {
    /// Say whether the agent is still running.
    AskRunning,
    /// Pause for so many milliseconds.
    Sleep(u64),
    /// Ask the simulation service for the orbital state.
    Locate,
    /// Report events that follow from a constellation event to the console, one
    /// after the other. A failure stops neither the others nor the replay.
    Announce(Vec<AgentEvent>),
    /// Report an event to the console. A failure does not stop the replay.
    Report(AgentEvent),
    /// Nothing: the workload is executed.
    Complete,
    /// Nothing: the agent was stopped.
    Stop,
}

/// What came of it.
#[derive(Debug, Clone, Copy, PartialEq, Eq, Structural)]
pub enum Reply {
    /// Whether the agent is still running
    Running(bool),
    /// The pause is over, or the events are reported.
    Done,
    /// The orbital state; `None` where it is not to be had
    Located(Option<OrbitalState>),
}

/// An execution of a workload.
#[derive(Debug)]
pub struct Execution {
    pub stage: Stage,
    pub index: usize,
    pub pending: Option<AgentEvent>,
    pub constellation: ConstellationState,
}

/// What is known of an execution.
#[verifier::ext_equal]
pub struct RunView {
    pub stage: Stage,
    pub index: nat,
    pub pending: Option<EventView>,
    pub constellation: ConstellationView,
}

/// What an optional event says.
pub open spec fn optional_event(event: Option<AgentEvent>) -> Option<EventView> {
    match event {
        Some(e) => Some(e@),
        None => None,
    }
}

impl Execution {
    pub open spec fn view(self) -> RunView {
        RunView {
            stage: self.stage,
            index: self.index as nat,
            pending: optional_event(self.pending),
            constellation: self.constellation@,
        }
    }
}

/// What is to be done next.
pub enum ActionView {
    AskRunning,
    Sleep(u64),
    Locate,
    Announce(Seq<EventView>),
    Report(EventView),
    Complete,
    Stop,
}

impl Action {
    pub open spec fn view(self) -> ActionView {
        match self {
            Action::AskRunning => ActionView::AskRunning,
            Action::Sleep(ms) => ActionView::Sleep(ms),
            Action::Locate => ActionView::Locate,
            Action::Announce(events) => ActionView::Announce(types::event_list(events@)),
            Action::Report(event) => ActionView::Report(event@),
            Action::Complete => ActionView::Complete,
            Action::Stop => ActionView::Stop,
        }
    }
}

/// What an execution goes by: the satellite's own identifier, the speed of the
/// replay, and the events of the workload.
pub struct Script {
    pub satellite_id: Option<Seq<char>>,
    pub speed: Double,
    pub events: Seq<EventView>,
}

/// What an execution goes by.
pub open spec fn script_of(satellite: SimulatedSatellite, workload: WorkloadSpec) -> Script {
    Script {
        satellite_id: types::optional(satellite.config.satellite_id),
        speed: satellite.speed_multiplier,
        events: types::event_list(workload.events@),
    }
}

/// An execution and the satellite that it changes.
pub struct Scene {
    pub run: RunView,
    pub live: Live,
}

/// The pause before an event; none before the first.
pub open spec fn pause_before(script: Script, index: nat) -> Option<u64> {
    if index == 0 {
        None
    } else {
        simulated::pause_between(
            script.events[index - 1].timestamp,
            script.events[index as int].timestamp,
            script.speed,
        )
    }
}

/// The first thing that is asked for an event: constellation events are handled
/// before they are checked.
pub open spec fn first_stage(event: EventView) -> Stage {
    if constellation::concerns_constellation(event.event_type) {
        Stage::Handle
    } else {
        Stage::Check
    }
}

/// The failover that is reported when a step is to start that cannot.
pub open spec fn failover_event(
    script: Script,
    event: EventView,
    satellite: SatelliteState,
    stamp: Seq<char>,
) -> Seq<EventView> {
    match constellation::failover_reason(satellite) {
        Some(reason) if event.event_type == "constellation.step_started"@ => seq![
            EventView {
                event_type: "constellation.failover"@,
                timestamp: stamp,
                job_id: event.job_id,
                step_id: event.step_id,
                payload: json::with_field(
                    json::with_field(
                        JsonView::Object(Map::empty()),
                        "satellite_id"@,
                        match script.satellite_id {
                            Some(id) => JsonView::Text(id),
                            None => JsonView::Null,
                        },
                    ),
                    "reason"@,
                    JsonView::Text(reason),
                ),
            },
        ],
        _ => Seq::empty(),
    }
}

/// The agent's status after a constellation event.
pub open spec fn status_after(event: EventView, status: AgentStatus) -> AgentStatus {
    if event.event_type == "isl_transfer.started"@ {
        AgentStatus::Transferring
    } else if event.event_type == "isl_transfer.completed"@ {
        AgentStatus::Executing
    } else {
        status
    }
}

/// The event with a warning where the satellite's state does not suit it, and
/// with the runtime's figures.
pub open spec fn checked_event(event: EventView, satellite: SatelliteState, in_eclipse: Option<bool>) -> EventView {
    let warned = match ocp::precondition_warning(event.event_type, satellite, in_eclipse) {
        Some(reason) => EventView {
            payload: json::with_new_field(event.payload, "ocp_warning"@, JsonView::Text(reason)),
            ..event
        },
        None => event,
    };
    ocp::enriched(warned, satellite)
}

/// Whether the satellite is in eclipse, where that is known.
pub open spec fn eclipse_in(orbital: Option<OrbitalState>) -> Option<bool> {
    match orbital {
        Some(o) => Some(o.in_eclipse),
        None => None,
    }
}

/// The reply answers what the execution waits for.
pub open spec fn answers(stage: Stage, reply: Reply) -> bool {
    match stage {
        Stage::Start => reply is Running,
        Stage::Pause | Stage::Announce | Stage::Report => reply is Done,
        Stage::Handle | Stage::Check | Stage::Enrich => reply is Located,
        Stage::Over => false,
    }
}

/// The reply answers what the execution waits for, and a warning finds an object
/// to stand in.
pub open spec fn acceptable(script: Script, scene: Scene, reply: Reply, now: UtcTime) -> bool {
    let event = script.events[scene.run.index as int];
    &&& answers(scene.run.stage, reply)
    &&& scene.run.stage is Check ==> {
        let after = simulated::located(scene.live, now, reply->Located_0);
        ocp::precondition_warning(event.event_type, after.sat_state, eclipse_in(reply->Located_0)) is Some
            ==> event.payload is Object || event.payload is Null
    }
}

/// The scene once the pause before an event is over, and what is to be done.
pub open spec fn entered(script: Script, scene: Scene) -> (Scene, ActionView) {
    let stage = first_stage(script.events[scene.run.index as int]);
    (Scene { run: RunView { stage, ..scene.run }, ..scene }, ActionView::Locate)
}

/// The scene after it is known whether the agent is running.
pub open spec fn started(script: Script, scene: Scene, running: bool) -> (Scene, ActionView) {
    if !running {
        (
            Scene {
                run: RunView { stage: Stage::Over, ..scene.run },
                live: Live { status: AgentStatus::Idle, ..scene.live },
            },
            ActionView::Stop,
        )
    } else {
        match pause_before(script, scene.run.index) {
            Some(ms) => (
                Scene { run: RunView { stage: Stage::Pause, ..scene.run }, ..scene },
                ActionView::Sleep(ms),
            ),
            None => entered(script, scene),
        }
    }
}

/// What is reported ahead of a constellation event: its failover, and what
/// follows from it.
pub open spec fn announced(
    script: Script,
    scene: Scene,
    orbital: Option<OrbitalState>,
    now: UtcTime,
    stamp: Seq<char>,
) -> Seq<EventView> {
    let event = script.events[scene.run.index as int];
    let there = simulated::located(scene.live, now, orbital);
    failover_event(script, event, there.sat_state, stamp) + constellation::follow_ups(
        event,
        scene.run.constellation,
        simulated::position_in(orbital),
        there.sat_state,
        stamp,
    )
}

/// The scene after a constellation event was handled.
pub open spec fn handled(
    script: Script,
    scene: Scene,
    orbital: Option<OrbitalState>,
    now: UtcTime,
    stamp: Seq<char>,
) -> (Scene, ActionView) {
    let event = script.events[scene.run.index as int];
    let position = simulated::position_in(orbital);
    let there = simulated::located(scene.live, now, orbital);
    (
        Scene {
            run: RunView {
                stage: Stage::Announce,
                constellation: constellation::next_state(event, scene.run.constellation, position),
                ..scene.run
            },
            live: Live { status: status_after(event, there.status), ..there },
        },
        ActionView::Announce(announced(script, scene, orbital, now, stamp)),
    )
}

/// The scene after an event was checked.
pub open spec fn checked(script: Script, scene: Scene, orbital: Option<OrbitalState>, now: UtcTime) -> (
    Scene,
    ActionView,
) {
    let event = script.events[scene.run.index as int];
    let there = simulated::located(scene.live, now, orbital);
    (
        Scene {
            run: RunView {
                stage: Stage::Enrich,
                pending: Some(checked_event(event, there.sat_state, eclipse_in(orbital))),
                ..scene.run
            },
            live: there,
        },
        ActionView::Locate,
    )
}

/// The scene after an event was enriched.
pub open spec fn completed(scene: Scene, orbital: Option<OrbitalState>, now: UtcTime) -> (Scene, ActionView) {
    let there = simulated::located(scene.live, now, orbital);
    let event = constellation::enriched(
        scene.run.pending->0,
        there.sat_state,
        simulated::position_in(orbital),
    );
    (
        Scene {
            run: RunView { stage: Stage::Report, pending: None, ..scene.run },
            live: there,
        },
        ActionView::Report(event),
    )
}

/// The scene after an event was reported: the next event's turn, or the end.
pub open spec fn reported(script: Script, scene: Scene) -> (Scene, ActionView) {
    let index = scene.run.index + 1;
    if index >= script.events.len() {
        (
            Scene {
                run: RunView { stage: Stage::Over, index, ..scene.run },
                live: Live { status: AgentStatus::Idle, ..scene.live },
            },
            ActionView::Complete,
        )
    } else {
        (
            Scene { run: RunView { stage: Stage::Start, index, ..scene.run }, ..scene },
            ActionView::AskRunning,
        )
    }
}

/// The scene after a reply, and what is to be done next.
pub open spec fn next(script: Script, scene: Scene, reply: Reply, now: UtcTime, stamp: Seq<char>) -> (
    Scene,
    ActionView,
) {
    match scene.run.stage {
        Stage::Start => started(script, scene, reply->Running_0),
        Stage::Pause => entered(script, scene),
        Stage::Handle => handled(script, scene, reply->Located_0, now, stamp),
        Stage::Announce => (
            Scene { run: RunView { stage: Stage::Check, ..scene.run }, ..scene },
            ActionView::Locate,
        ),
        Stage::Check => checked(script, scene, reply->Located_0, now),
        Stage::Enrich => completed(scene, reply->Located_0, now),
        Stage::Report => reported(script, scene),
        Stage::Over => (scene, ActionView::Complete),
    }
}

/// The execution stands at one of the events, and has one in hand exactly while
/// that is being enriched; in hand it is still the event that it was.
pub open spec fn consistent(script: Script, run: RunView) -> bool {
    &&& !(run.stage is Over) ==> run.index < script.events.len()
    &&& run.stage is Enrich <==> run.pending is Some
    &&& run.pending matches Some(e) ==> same_event(e, script.events[run.index as int])
}

/// Two events are the same but for their payload.
pub open spec fn same_event(a: EventView, b: EventView) -> bool {
    a.event_type == b.event_type && a.timestamp == b.timestamp && a.job_id == b.job_id && a.step_id == b.step_id
}

/// The state in which an execution starts.
pub open spec fn first_run(satellite: SimulatedSatellite) -> RunView {
    RunView {
        stage: Stage::Start,
        index: 0,
        pending: None,
        constellation: ConstellationView {
            steps: Map::empty(),
            transfers: Map::empty(),
            completed: Seq::empty(),
            failed_over: Seq::empty(),
            satellite_id: match satellite.config.satellite_id {
                Some(id) => id@,
                None => satellite.config.agent_id@,
            },
            total_isl_data_mb: double::integer(0),
        },
    }
}

impl Execution {
    /// The execution and its satellite.
    pub open spec fn scene(self, satellite: SimulatedSatellite) -> Scene {
        Scene { run: self@, live: satellite.live() }
    }

    /// The execution is one of this workload.
    pub open spec fn fits(self, satellite: SimulatedSatellite, workload: WorkloadSpec) -> bool {
        self.constellation.wf() && consistent(script_of(satellite, workload), self@)
    }
}

impl SimulatedSatellite {
    /// Starts to execute a workload. The execution first waits to hear whether the
    /// agent is running.
    pub fn execute(&mut self, workload: &WorkloadSpec) -> (r: Result<Execution, AgentError>)
        ensures
            ({
                let available = double::less(double::integer(15), old(self).sat_state.battery_wh);
                let busy = Live { status: AgentStatus::Executing, ..old(self).live() };
                match r {
                    Ok(run) => {
                        &&& available && workload.events@.len() > 0
                        &&& run@ == first_run(*old(self))
                        &&& run.fits(*final(self), *workload)
                        &&& *final(self) == old(self).with_live(busy)
                    },
                    Err(e) => {
                        &&& !available || workload.events@.len() == 0
                        &&& e matches AgentError::ExecutionError(m) && m@ == if !available {
                            "Compute unavailable: battery below safe threshold"@
                        } else {
                            "No events in workload"@
                        }
                        &&& *final(self) == *old(self)
                    },
                }
            }),
    {
        if !self.sat_state.compute_available() {
            return Err(
                AgentError::ExecutionError("Compute unavailable: battery below safe threshold".to_owned()),
            );
        }
        if workload.events.len() == 0 {
            return Err(AgentError::ExecutionError("No events in workload".to_owned()));
        }
        self.status = AgentStatus::Executing;
        let satellite_id = match &self.config.satellite_id {
            Some(id) => id.clone(),
            None => self.config.agent_id.clone(),
        };
        Ok(
            Execution {
                stage: Stage::Start,
                index: 0,
                pending: None,
                constellation: ConstellationState::new(satellite_id),
            },
        )
    }
}

fn as_reference(position: &Option<Position>) -> (r: Option<&Position>)
    ensures
        constellation::position_of(r) == *position,
{
    match position {
        Some(p) => Some(p),
        None => None,
    }
}

/// The failover that is reported when a step is to start that cannot.
fn announce_failover(
    satellite: &SimulatedSatellite,
    event: &AgentEvent,
    position: Option<&Position>,
    stamp: &str,
) -> (r: Vec<AgentEvent>)
    ensures
        forall|script: Script|
            script.satellite_id == types::optional(satellite.config.satellite_id) ==> types::event_list(r@)
                == #[trigger] failover_event(script, event@, satellite.sat_state, stamp@),
{
    let mut events: Vec<AgentEvent> = Vec::new();
    assert(types::event_list(events@) =~= Seq::<EventView>::empty());
    if same(event.event_type.as_str(), "constellation.step_started") {
        if let Some(reason) = constellation::check_failover_condition(&satellite.sat_state, position) {
            let mut payload = Json::object();
            payload.set("satellite_id", Json::optional_text(&satellite.config.satellite_id));
            payload.set("reason", Json::text(reason.as_str()));
            let failover = AgentEvent {
                event_type: "constellation.failover".to_owned(),
                timestamp: stamp.to_owned(),
                job_id: event.job_id.clone(),
                step_id: copy_text(&event.step_id),
                payload,
            };
            let ghost view = failover@;
            events.push(failover);
            assert(types::event_list(events@) =~= seq![view]);
        }
    }
    events
}

/// The event with a warning where the satellite's state does not suit it, and
/// with the runtime's figures.
fn check_event(event: &AgentEvent, satellite: &SatelliteState, in_eclipse: Option<bool>) -> (r: AgentEvent)
    ensures
        r@ == checked_event(event@, *satellite, in_eclipse),
{
    let mut enriched = event.clone();
    if let Some(reason) = ocp::validate_ocp_precondition(event.event_type.as_str(), satellite, in_eclipse) {
        enriched.payload.set_new("ocp_warning", Json::text(reason.as_str()));
    }
    ocp::enrich_event(&mut enriched, satellite);
    enriched
}

impl Execution {
    /// Whether the reply answers what the execution waits for, and a warning finds
    /// an object to stand in.
    pub fn accepts(&self, satellite: &SimulatedSatellite, workload: &WorkloadSpec, reply: Reply, now: UtcTime) -> (r:
        bool)
        requires
            self.fits(*satellite, *workload),
            satellite.dated(),
            now.valid(),
        ensures
            r == acceptable(script_of(*satellite, *workload), self.scene(*satellite), reply, now),
    {
        match (self.stage, reply) {
            (Stage::Start, Reply::Running(_)) => true,
            (Stage::Pause, Reply::Done) => true,
            (Stage::Announce, Reply::Done) => true,
            (Stage::Report, Reply::Done) => true,
            (Stage::Handle, Reply::Located(_)) => true,
            (Stage::Enrich, Reply::Located(_)) => true,
            (Stage::Check, Reply::Located(orbital)) => {
                let event = &workload.events[self.index];
                let mut state = satellite.sat_state;
                let mut in_eclipse: Option<bool> = None;
                if let Some(o) = orbital {
                    state.update(now, o.in_eclipse, satellite.status == AgentStatus::Executing);
                    in_eclipse = Some(o.in_eclipse);
                }
                let warning = ocp::validate_ocp_precondition(event.event_type.as_str(), &state, in_eclipse);
                warning.is_none() || event.payload.is_object() || event.payload.is_null()
            },
            _ => false,
        }
    }

    /// Takes a reply and says what is to be done next. Events that follow carry
    /// the current time.
    pub fn advance(
        &mut self,
        satellite: &mut SimulatedSatellite,
        workload: &WorkloadSpec,
        reply: Reply,
        now: UtcTime,
    ) -> (r: Action)
        requires
            old(self).fits(*old(satellite), *workload),
            old(satellite).dated(),
            now.valid(),
            acceptable(
                script_of(*old(satellite), *workload),
                old(self).scene(*old(satellite)),
                reply,
                now,
            ),
        ensures
            final(self).fits(*final(satellite), *workload),
            final(satellite).dated(),
            exists|clock: UtcTime|
                clock.valid() && steps_to(
                    *old(self),
                    *old(satellite),
                    *workload,
                    reply,
                    now,
                    #[trigger] time::stamp(clock),
                    *final(self),
                    *final(satellite),
                    r,
                ),
    {
        let clock = UtcTime::now();
        let stamp = clock.to_rfc3339();
        self.advance_at(satellite, workload, reply, now, stamp.as_str())
    }

    /// Takes a reply and says what is to be done next; events that follow carry the
    /// given stamp.
    pub fn advance_at(
        &mut self,
        satellite: &mut SimulatedSatellite,
        workload: &WorkloadSpec,
        reply: Reply,
        now: UtcTime,
        stamp: &str,
    ) -> (r: Action)
        requires
            old(self).fits(*old(satellite), *workload),
            old(satellite).dated(),
            now.valid(),
            acceptable(
                script_of(*old(satellite), *workload),
                old(self).scene(*old(satellite)),
                reply,
                now,
            ),
        ensures
            final(self).fits(*final(satellite), *workload),
            final(satellite).dated(),
            steps_to(
                *old(self),
                *old(satellite),
                *workload,
                reply,
                now,
                stamp@,
                *final(self),
                *final(satellite),
                r,
            ),
    {
        let ghost script = script_of(*satellite, *workload);
        let ghost scene = self.scene(*satellite);
        assert(script.events[self.index as int] == workload.events@[self.index as int]@);
        proof {
            replay_stays_consistent(script, scene, reply, now, stamp@);
        }
        match (self.stage, reply) {
            (Stage::Start, Reply::Running(running)) => self.start_event(satellite, workload, running),
            (Stage::Pause, _) => self.enter_event(workload),
            (Stage::Handle, Reply::Located(orbital)) => {
                self.handle_event(satellite, workload, orbital, now, stamp)
            },
            (Stage::Announce, _) => {
                self.stage = Stage::Check;
                Action::Locate
            },
            (Stage::Check, Reply::Located(orbital)) => {
                let position = satellite.update_orbital_state(now, orbital);
                let in_eclipse = match &position {
                    Some(p) => Some(p.in_eclipse),
                    None => None,
                };
                let enriched = check_event(&workload.events[self.index], &satellite.sat_state, in_eclipse);
                self.pending = Some(enriched);
                self.stage = Stage::Enrich;
                Action::Locate
            },
            (Stage::Enrich, Reply::Located(orbital)) => {
                let position = satellite.update_orbital_state(now, orbital);
                let pending = self.pending.take();
                self.stage = Stage::Report;
                match pending {
                    Some(event) => {
                        let mut event = event;
                        constellation::enrich_event(&mut event, &satellite.sat_state, as_reference(&position));
                        Action::Report(event)
                    },
                    None => Action::Complete,
                }
            },
            (Stage::Report, _) => {
                let count: usize = workload.events.len();
                self.index = self.index + 1;
                if self.index >= count {
                    self.stage = Stage::Over;
                    satellite.status = AgentStatus::Idle;
                    Action::Complete
                } else {
                    self.stage = Stage::Start;
                    Action::AskRunning
                }
            },
            _ => Action::Complete,
        }
    }

    /// Goes on to what is to be done for the event itself.
    fn enter_event(&mut self, workload: &WorkloadSpec) -> (r: Action)
        requires
            old(self).index < workload.events@.len(),
            old(self).constellation.wf(),
        ensures
            final(self).constellation.wf(),
            final(self)@ == (RunView {
                stage: first_stage(workload.events@[old(self).index as int]@),
                ..old(self)@
            }),
            r@ == ActionView::Locate,
    {
        if constellation::is_constellation_event(&workload.events[self.index]) {
            self.stage = Stage::Handle;
        } else {
            self.stage = Stage::Check;
        }
        Action::Locate
    }

    /// Starts with an event, unless the agent is no longer running.
    fn start_event(&mut self, satellite: &mut SimulatedSatellite, workload: &WorkloadSpec, running: bool) -> (r:
        Action)
        requires
            old(self).stage is Start,
            old(self).index < workload.events@.len(),
            old(self).constellation.wf(),
        ensures
            final(self).constellation.wf(),
            ({
                let (scene, action) = started(
                    script_of(*old(satellite), *workload),
                    old(self).scene(*old(satellite)),
                    running,
                );
                &&& final(self)@ == scene.run
                &&& *final(satellite) == old(satellite).with_live(scene.live)
                &&& r@ == action
            }),
    {
        let ghost script = script_of(*satellite, *workload);
        assert(script.events[self.index as int] == workload.events@[self.index as int]@);
        if !running {
            satellite.status = AgentStatus::Idle;
            self.stage = Stage::Over;
            return Action::Stop;
        }
        if self.index > 0 {
            assert(script.events[self.index - 1] == workload.events@[self.index - 1]@);
            let wait = pause_ms(
                workload.events[self.index - 1].timestamp.as_str(),
                workload.events[self.index].timestamp.as_str(),
                satellite.speed_multiplier,
            );
            if let Some(ms) = wait {
                self.stage = Stage::Pause;
                return Action::Sleep(ms);
            }
        }
        self.enter_event(workload)
    }

    /// Handles a constellation event.
    fn handle_event(
        &mut self,
        satellite: &mut SimulatedSatellite,
        workload: &WorkloadSpec,
        orbital: Option<OrbitalState>,
        now: UtcTime,
        stamp: &str,
    ) -> (r: Action)
        requires
            old(self).index < workload.events@.len(),
            old(self).constellation.wf(),
            old(satellite).dated(),
            now.valid(),
        ensures
            final(self).constellation.wf(),
            final(satellite).dated(),
            ({
                let (scene, action) = handled(
                    script_of(*old(satellite), *workload),
                    old(self).scene(*old(satellite)),
                    orbital,
                    now,
                    stamp@,
                );
                &&& final(self)@ == scene.run
                &&& *final(satellite) == old(satellite).with_live(scene.live)
                &&& r@ == action
            }),
    {
        let ghost script = script_of(*satellite, *workload);
        assert(script.events[self.index as int] == workload.events@[self.index as int]@);
        let event = &workload.events[self.index];
        let position = satellite.update_orbital_state(now, orbital);
        let mut events = announce_failover(satellite, event, as_reference(&position), stamp);
        let ghost failed_over = events@;
        assert(types::event_list(failed_over) == failover_event(script, event@, satellite.sat_state, stamp@));
        let mut extra = constellation::handle_event_at(
            event,
            &mut self.constellation,
            &satellite.sat_state,
            as_reference(&position),
            stamp,
        );
        let ghost followed = extra@;
        events.append(&mut extra);
        assert(types::event_list(events@) =~= types::event_list(failed_over) + types::event_list(followed));
        if same(event.event_type.as_str(), "isl_transfer.started") {
            satellite.status = AgentStatus::Transferring;
        } else if same(event.event_type.as_str(), "isl_transfer.completed") {
            satellite.status = AgentStatus::Executing;
        }
        self.stage = Stage::Announce;
        Action::Announce(events)
    }
}

/// An execution goes from one state to another, as `next` says.
pub open spec fn steps_to(
    run: Execution,
    satellite: SimulatedSatellite,
    workload: WorkloadSpec,
    reply: Reply,
    now: UtcTime,
    stamp: Seq<char>,
    after: Execution,
    satellite_after: SimulatedSatellite,
    action: Action,
) -> bool {
    let (scene, what) = next(script_of(satellite, workload), run.scene(satellite), reply, now, stamp);
    &&& after@ == scene.run
    &&& satellite_after == satellite.with_live(scene.live)
    &&& action@ == what
}

/// A replay stays at its events, whatever is replied.
pub proof fn replay_stays_consistent(script: Script, scene: Scene, reply: Reply, now: UtcTime, stamp: Seq<char>)
    requires
        consistent(script, scene.run),
        answers(scene.run.stage, reply),
    ensures
        consistent(script, next(script, scene, reply, now, stamp).0.run),
{
}

/// A reply, when it came, and the time that events carry which follow from it.
pub struct Input {
    pub reply: Reply,
    pub now: UtcTime,
    pub stamp: Seq<char>,
}

/// The scene after a row of replies.
pub open spec fn played(script: Script, scene: Scene, inputs: Seq<Input>) -> Scene
    decreases inputs.len(),
{
    if inputs.len() == 0 {
        scene
    } else {
        let i = inputs.last();
        next(script, played(script, scene, inputs.drop_last()), i.reply, i.now, i.stamp).0
    }
}

/// Every reply answers what the execution waits for at that point.
pub open spec fn all_answer(script: Script, scene: Scene, inputs: Seq<Input>) -> bool
    decreases inputs.len(),
{
    inputs.len() > 0 ==> {
        &&& all_answer(script, scene, inputs.drop_last())
        &&& answers(played(script, scene, inputs.drop_last()).run.stage, inputs.last().reply)
    }
}

/// What an action sends to the console.
pub open spec fn sent_by(action: ActionView) -> Seq<EventView> {
    match action {
        ActionView::Announce(events) => events,
        ActionView::Report(event) => seq![event],
        _ => Seq::empty(),
    }
}

/// What the console is sent on the way.
pub open spec fn sent(script: Script, scene: Scene, inputs: Seq<Input>) -> Seq<EventView>
    decreases inputs.len(),
{
    if inputs.len() == 0 {
        Seq::empty()
    } else {
        let i = inputs.last();
        let rest = inputs.drop_last();
        sent(script, scene, rest) + sent_by(next(script, played(script, scene, rest), i.reply, i.now, i.stamp).1)
    }
}

/// What the console is sent on the way, event by event of the workload.
pub open spec fn sent_in_turn(script: Script, scene: Scene, inputs: Seq<Input>) -> Seq<Seq<EventView>>
    decreases inputs.len(),
{
    if inputs.len() == 0 {
        seq![Seq::empty()]
    } else {
        let i = inputs.last();
        let rest = inputs.drop_last();
        let before = sent_in_turn(script, scene, rest);
        let action = next(script, played(script, scene, rest), i.reply, i.now, i.stamp).1;
        if action is AskRunning {
            before.push(Seq::empty())
        } else {
            before.drop_last().push(before.last() + sent_by(action))
        }
    }
}

/// Rows of events, one behind the other.
pub open spec fn strung(rows: Seq<Seq<EventView>>) -> Seq<EventView>
    decreases rows.len(),
{
    if rows.len() == 0 {
        Seq::empty()
    } else {
        strung(rows.drop_last()) + rows.last()
    }
}

/// `first` is what was due ahead of the event `k`: for a constellation event its
/// failover and its follow-ups as of when it was handled, else nothing.
pub open spec fn due_ahead(script: Script, scene: Scene, inputs: Seq<Input>, k: int, first: Seq<EventView>) -> bool {
    if constellation::concerns_constellation(script.events[k].event_type) {
        exists|j: int|
            0 <= j < inputs.len() && #[trigger] handled_at(script, scene, inputs, j, k) && first == announced(
                script,
                played(script, scene, inputs.take(j)),
                inputs[j].reply->Located_0,
                inputs[j].now,
                inputs[j].stamp,
            )
    } else {
        first.len() == 0
    }
}

/// The reply `j` is the one with which the event `k` is handled.
pub open spec fn handled_at(script: Script, scene: Scene, inputs: Seq<Input>, j: int, k: int) -> bool {
    let run = played(script, scene, inputs.take(j)).run;
    run.stage is Handle && run.index == k
}

/// `row` is all that is to be sent for the event `k`: what is due ahead of it, and
/// then the event, as the event that it is.
pub open spec fn sent_whole(script: Script, scene: Scene, inputs: Seq<Input>, k: int, row: Seq<EventView>) -> bool {
    &&& row.len() > 0
    &&& due_ahead(script, scene, inputs, k, row.drop_last())
    &&& same_event(row.last(), script.events[k])
}

proof fn lemma_due_ahead_stays(
    script: Script,
    scene: Scene,
    inputs: Seq<Input>,
    k: int,
    first: Seq<EventView>,
)
    requires
        inputs.len() > 0,
        due_ahead(script, scene, inputs.drop_last(), k, first),
    ensures
        due_ahead(script, scene, inputs, k, first),
{
    let rest = inputs.drop_last();
    if constellation::concerns_constellation(script.events[k].event_type) {
        let j = choose|j: int|
            0 <= j < rest.len() && #[trigger] handled_at(script, scene, rest, j, k) && first == announced(
                script,
                played(script, scene, rest.take(j)),
                rest[j].reply->Located_0,
                rest[j].now,
                rest[j].stamp,
            );
        assert(rest.take(j) =~= inputs.take(j));
        assert(handled_at(script, scene, inputs, j, k));
    }
}

/// Every event of the workload reaches the console once and in order, behind its
/// failover and its follow-ups: after any replies, what was sent is the row of
/// each finished event, and of the event that the execution stands at so much as
/// is done.
pub proof fn events_are_reported_once_and_in_order(script: Script, scene: Scene, inputs: Seq<Input>)
    requires
        scene.run.stage is Start,
        scene.run.index == 0,
        consistent(script, scene.run),
        all_answer(script, scene, inputs),
    ensures
        ({
            let now = played(script, scene, inputs).run;
            let rows = sent_in_turn(script, scene, inputs);
            let at = now.index as int;
            &&& consistent(script, now)
            &&& sent(script, scene, inputs) == strung(rows)
            &&& at <= rows.len() <= script.events.len()
            &&& forall|k: int| 0 <= k < at ==> sent_whole(script, scene, inputs, k, #[trigger] rows[k])
            &&& at < script.events.len() ==> rows.len() == at + 1
            &&& now.stage is Start || now.stage is Pause || now.stage is Handle ==> rows[at].len() == 0
            &&& now.stage is Announce || now.stage is Check || now.stage is Enrich ==> due_ahead(
                script,
                scene,
                inputs,
                at,
                rows[at],
            )
            &&& now.stage is Report ==> sent_whole(script, scene, inputs, at, rows[at])
            &&& now.stage is Over && at < script.events.len() ==> rows[at].len() == 0
        }),
    decreases inputs.len(),
{
    let rows = sent_in_turn(script, scene, inputs);
    if inputs.len() > 0 {
        let rest = inputs.drop_last();
        let i = inputs.last();
        events_are_reported_once_and_in_order(script, scene, rest);
        let there = played(script, scene, rest);
        replay_stays_consistent(script, there, i.reply, i.now, i.stamp);
        let before = sent_in_turn(script, scene, rest);
        let action = next(script, there, i.reply, i.now, i.stamp).1;
        let at = there.run.index as int;
        assert(before.len() == at + 1);
        if action is AskRunning {
            assert(rows.drop_last() =~= before);
            assert(strung(rows) =~= strung(before));
            assert(sent(script, scene, inputs) =~= sent(script, scene, rest));
        } else {
            assert(rows.drop_last() =~= before.drop_last());
            assert(rows.last() == before.last() + sent_by(action));
            assert(strung(rows) =~= strung(before) + sent_by(action));
            if !(action is Announce || action is Report) {
                assert(rows.last() =~= before.last());
            }
        }
        assert forall|k: int| 0 <= k < at implies sent_whole(script, scene, inputs, k, #[trigger] rows[k]) by {
            assert(rows[k] == before[k]);
            lemma_due_ahead_stays(script, scene, inputs, k, rows[k].drop_last());
        }
        if there.run.stage is Handle {
            assert(inputs.take(rest.len() as int) =~= rest);
            assert(handled_at(script, scene, inputs, rest.len() as int, at));
            assert(rows[at] =~= announced(script, there, i.reply->Located_0, i.now, i.stamp));
            assert(due_ahead(script, scene, inputs, at, rows[at]));
        } else if there.run.stage is Announce || there.run.stage is Check {
            lemma_due_ahead_stays(script, scene, inputs, at, before[at]);
        } else if there.run.stage is Enrich {
            lemma_due_ahead_stays(script, scene, inputs, at, before[at]);
            assert(rows[at].drop_last() =~= before[at]);
        } else if there.run.stage is Report {
            lemma_due_ahead_stays(script, scene, inputs, at, before[at].drop_last());
            assert(rows[at] == before[at]);
        }
    } else {
        assert(strung(rows.drop_last()) =~= Seq::<EventView>::empty());
        assert(strung(rows) =~= Seq::<EventView>::empty());
    }
}

/// An execution that is over leaves the satellite idle; it is over because the
/// agent was stopped before the last event was reported, or because every event
/// was.
pub proof fn executions_end_idle(script: Script, scene: Scene, reply: Reply, now: UtcTime, stamp: Seq<char>)
    requires
        consistent(script, scene.run),
        answers(scene.run.stage, reply),
    ensures
        ({
            let (after, action) = next(script, scene, reply, now, stamp);
            &&& after.run.stage is Over <==> action is Complete || action is Stop
            &&& after.run.stage is Over ==> after.live.status == AgentStatus::Idle
            &&& action is Complete ==> after.run.index == script.events.len()
            &&& action is Stop <==> scene.run.stage is Start && reply == Reply::Running(false)
            &&& action is Stop ==> after.run.index < script.events.len()
        }),
{
}

/// The figures of a prediction, as the console gets them.
#[verifier::opaque]
pub open spec fn prediction_form(p: PredictionView) -> JsonView {
    let counts = json::with_field(
        json::with_field(
            JsonView::Object(Map::empty()),
            "hazards_count"@,
            json::natural_view(p.summary.total_hazards),
        ),
        "checkpoints_count"@,
        json::natural_view(p.summary.total_checkpoints),
    );
    let figures = json::with_field(
        json::with_field(
            json::with_field(
                counts,
                "next_hazard"@,
                match p.summary.next_hazard {
                    Some(t) => JsonView::Text(t),
                    None => JsonView::Null,
                },
            ),
            "max_safe_window_s"@,
            json::number_view(p.summary.max_safe_compute_window_s),
        ),
        "overhead_fraction"@,
        json::number_view(p.summary.checkpoint_overhead_fraction),
    );
    json::with_field(
        json::with_field(
            figures,
            "hazards"@,
            hazards_form(p.hazards),
        ),
        "checkpoint_schedule"@,
        schedule_form(p.checkpoint_schedule),
    )
}

/// The announcement of the hazards ahead; none where there are no hazards.
pub open spec fn prediction_announced(p: PredictionView, job_id: Seq<char>, stamp: Seq<char>) -> Option<EventView> {
    if p.summary.total_hazards > 0 {
        Some(
            EventView {
                event_type: "checkpoint.predicted"@,
                timestamp: stamp,
                job_id,
                step_id: None,
                payload: prediction_form(p),
            },
        )
    } else {
        None
    }
}

/// The job that a workload's events belong to.
pub open spec fn job_of(workload: WorkloadSpec) -> Seq<char> {
    if workload.events@.len() > 0 {
        workload.events@[0].job_id@
    } else {
        ""@
    }
}

/// The prediction that precedes an execution, along a trajectory.
pub open spec fn prediction_for(trajectory: Seq<TrajectoryPoint>, now: UtcTime) -> PredictionView {
    predict::predicted(
        trajectory,
        now,
        double::integer(HORIZON_HOURS as int),
        STATE_SIZE_BYTES,
        FLASH_BANDWIDTH_BPS,
    )
}

/// The end of the time that a prediction looks ahead.
pub open spec fn horizon(now: UtcTime) -> UtcTime {
    predict::horizon_end(now, double::integer(HORIZON_HOURS as int))->0
}

/// The calendar has room for the prediction that precedes an execution, wherever
/// hazards are found.
pub open spec fn foreseeable(now: UtcTime) -> bool {
    predict::within_calendar(
        now,
        double::integer(HORIZON_HOURS as int),
        STATE_SIZE_BYTES,
        FLASH_BANDWIDTH_BPS,
    )
}

/// The calendar has room for the prediction that precedes an execution by a
/// satellite with the given elements.
pub open spec fn foreseeable_along<F: Fn(Transcendental) -> Double>(
    elements: OrbitalElements,
    now: UtcTime,
    f: F,
) -> bool {
    predict::foreseeable_for(
        elements,
        now,
        double::integer(HORIZON_HOURS as int),
        STATE_SIZE_BYTES,
        FLASH_BANDWIDTH_BPS,
        f,
    )
}

/// Whether the calendar has room for the prediction that precedes an execution,
/// wherever hazards are found.
pub fn can_foresee(now: UtcTime) -> (r: bool)
    ensures
        r == foreseeable(now),
{
    fits_calendar(now, Double::from_i64(HORIZON_HOURS), STATE_SIZE_BYTES, FLASH_BANDWIDTH_BPS)
}

/// An announcement of the hazards ahead of a satellite with the given elements: it
/// carries the time of its making, and goes by samples on the grid, which are those
/// that `f` gives where `f` answers as a function does.
pub open spec fn announces<F: Fn(Transcendental) -> Double>(
    r: Option<AgentEvent>,
    workload: WorkloadSpec,
    elements: OrbitalElements,
    now: UtcTime,
    f: F,
) -> bool {
    &&& exists|clock: UtcTime, points: Seq<TrajectoryPoint>|
        clock.valid() && orbit::follows_grid(now, horizon(now), points) && optional_event(r)
            == #[trigger] prediction_announced(
            prediction_for(points, now),
            job_of(workload),
            time::stamp(clock),
        )
    &&& forall|m: spec_fn(Transcendental) -> Double| #[trigger]
        orbit::follows(f, m) ==> exists|clock: UtcTime|
            clock.valid() && optional_event(r) == prediction_announced(
                prediction_for(orbit::path(elements, now, horizon(now), m), now),
                job_of(workload),
                #[trigger] time::stamp(clock),
            )
}

/// What is reported to the console ahead of the first event of a workload: the
/// hazards on the satellite's way, where its orbital elements are known and there
/// are any.
pub fn announce_ahead<F: Fn(Transcendental) -> Double>(
    satellite: &SimulatedSatellite,
    workload: &WorkloadSpec,
    now: UtcTime,
    f: &F,
) -> (r: Option<AgentEvent>)
    requires
        satellite.orbital_elements matches Some(elements) ==> foreseeable_along(elements, now, *f),
        orbit::answers_all(*f),
    ensures
        match satellite.orbital_elements {
            Some(elements) => announces(r, *workload, elements, now, *f),
            None => r is None,
        },
{
    match &satellite.orbital_elements {
        Some(elements) => announce_hazards(workload, elements, now, f),
        None => None,
    }
}

/// Predicts the hazards ahead of a satellite and announces them, where there are
/// any. The announcement carries the current time.
pub fn announce_hazards<F: Fn(Transcendental) -> Double>(
    workload: &WorkloadSpec,
    elements: &OrbitalElements,
    now: UtcTime,
    f: &F,
) -> (r: Option<AgentEvent>)
    requires
        foreseeable_along(*elements, now, *f),
        orbit::answers_all(*f),
    ensures
        announces(r, *workload, *elements, now, *f),
{
    let clock = UtcTime::now();
    let stamp = clock.to_rfc3339();
    let prediction = predict_hazards(
        elements,
        now,
        Double::from_i64(HORIZON_HOURS),
        STATE_SIZE_BYTES,
        FLASH_BANDWIDTH_BPS,
        f,
    );
    let r = announce_prediction(workload, &prediction, stamp.as_str());
    proof {
        let points = choose|points: Seq<TrajectoryPoint>| #[trigger]
            orbit::follows_grid(now, horizon(now), points) && prediction@ == prediction_for(points, now);
        assert(optional_event(r) == prediction_announced(
            prediction_for(points, now),
            job_of(*workload),
            time::stamp(clock),
        ));
    }
    r
}

/// Announces the hazards of a prediction, where there are any, with the given
/// stamp.
pub fn announce_prediction(workload: &WorkloadSpec, prediction: &HazardPrediction, stamp: &str) -> (r: Option<
    AgentEvent,
>)
    ensures
        optional_event(r) == prediction_announced(prediction@, job_of(*workload), stamp@),
{
    proof {
        reveal(prediction_form);
    }
    if prediction.summary.total_hazards == 0 {
        return None;
    }
    let mut payload = Json::object();
    payload.set("hazards_count", Json::count(prediction.summary.total_hazards));
    payload.set("checkpoints_count", Json::count(prediction.summary.total_checkpoints));
    payload.set("next_hazard", Json::optional_text(&prediction.summary.next_hazard));
    payload.set("max_safe_window_s", Json::number(prediction.summary.max_safe_compute_window_s));
    payload.set("overhead_fraction", Json::number(prediction.summary.checkpoint_overhead_fraction));
    payload.set("hazards", hazards_json(&prediction.hazards));
    payload.set("checkpoint_schedule", schedule_json(&prediction.checkpoint_schedule));
    let job_id = if workload.events.len() > 0 {
        workload.events[0].job_id.clone()
    } else {
        "".to_owned()
    };
    Some(
        AgentEvent {
            event_type: "checkpoint.predicted".to_owned(),
            timestamp: stamp.to_owned(),
            job_id,
            step_id: None,
            payload,
        },
    )
}

} // verus!
