//! What reports to the console say, member by member.

use vstd::prelude::*;

use crate::constellation::{
    failover_acknowledged, latency_sum, mean_quality, quality_report, satellite_complete, transfer_meant,
    ConstellationView,
};
use crate::double::{self, Double};
use crate::execution::{failover_event, prediction_announced, prediction_form, Script};
use crate::hazard::predict::PredictionView;
use crate::hazard::{hazards_form, schedule};
use crate::json::{self, JsonNumber, JsonView};
use crate::ocp;
use crate::sim_client::{self, OrbitalElements, SatelliteState};
use crate::simulated::{self, SimulatedSatellite};
use crate::types::{self, AgentTelemetry, EventView, Position};
use crate::{client, constellation};

verus! {

/// A finite number as JSON.
pub open spec fn finite_number(x: Double) -> JsonView {
    JsonView::Number(JsonNumber::Real(x))
}

/// A count as JSON.
pub open spec fn count(n: nat) -> JsonView {
    JsonView::Number(JsonNumber::Natural(n as u64))
}

/// The announcement that a satellite is done says which satellite it is, how many steps
/// it completed and handed over, the data that it transferred, and its charge and
/// temperature; it belongs to the job of the event.
pub proof fn completion_tells_the_state(
    event: EventView,
    state: ConstellationView,
    satellite: SatelliteState,
    stamp: Seq<char>,
)
    requires
        state.total_isl_data_mb.finite(),
        satellite.battery_wh.finite(),
        satellite.temperature_c.finite(),
    ensures
        ({
            let e = satellite_complete(event, state, satellite, stamp);
            let form = e.payload;
            &&& json::field(form, "satellite_id"@) == Some(JsonView::Text(state.satellite_id))
            &&& json::field(form, "steps_completed"@) == Some(count(state.completed.len()))
            &&& json::field(form, "steps_failed_over"@) == Some(count(state.failed_over.len()))
            &&& json::field(form, "total_isl_data_mb"@) == Some(finite_number(state.total_isl_data_mb))
            &&& json::field(form, "battery_percent"@) == Some(finite_number(satellite.battery_wh))
            &&& json::field(form, "temperature_c"@) == Some(finite_number(satellite.temperature_c))
            &&& e.event_type == "constellation.satellite_complete"@
            &&& e.timestamp == stamp
            &&& e.job_id == event.job_id
            &&& e.step_id is None
            &&& form is Object
            &&& form->Object_0.dom() == set![
                "satellite_id"@,
                "steps_completed"@,
                "steps_failed_over"@,
                "total_isl_data_mb"@,
                "battery_percent"@,
                "temperature_c"@,
            ]
        }),
{
    reveal(satellite_complete);
    reveal_strlit("satellite_id");
    reveal_strlit("steps_completed");
    reveal_strlit("steps_failed_over");
    reveal_strlit("total_isl_data_mb");
    reveal_strlit("battery_percent");
    reveal_strlit("temperature_c");
    assert("satellite_id"@.len() == 12);
    assert("steps_completed"@.len() == 15);
    assert("steps_failed_over"@.len() == 17);
    assert("total_isl_data_mb"@.len() == 17);
    assert("battery_percent"@.len() == 15);
    assert("temperature_c"@.len() == 13);
    assert("satellite_id"@ != "steps_completed"@);
    assert("satellite_id"@ != "steps_failed_over"@);
    assert("satellite_id"@ != "total_isl_data_mb"@);
    assert("satellite_id"@ != "battery_percent"@);
    assert("satellite_id"@ != "temperature_c"@);
    assert("steps_completed"@ != "steps_failed_over"@);
    assert("steps_completed"@ != "total_isl_data_mb"@);
    assert("steps_completed"@[0] != "battery_percent"@[0]);
    assert("steps_completed"@ != "battery_percent"@);
    assert("steps_completed"@ != "temperature_c"@);
    assert("steps_failed_over"@[0] != "total_isl_data_mb"@[0]);
    assert("steps_failed_over"@ != "total_isl_data_mb"@);
    assert("steps_failed_over"@ != "battery_percent"@);
    assert("steps_failed_over"@ != "temperature_c"@);
    assert("total_isl_data_mb"@ != "battery_percent"@);
    assert("total_isl_data_mb"@ != "temperature_c"@);
    assert("battery_percent"@ != "temperature_c"@);
    let e = satellite_complete(event, state, satellite, stamp);
    let form = e.payload;
    assert(form->Object_0.dom() =~= set![
        "satellite_id"@,
        "steps_completed"@,
        "steps_failed_over"@,
        "total_isl_data_mb"@,
        "battery_percent"@,
        "temperature_c"@,
    ]);
}

/// The acknowledgment of a failover says which satellite it is, why the step was handed
/// over, and how many steps are still pending or executing; it belongs to the job and
/// the step of the event.
pub proof fn acknowledgments_tell_what_remains(event: EventView, state: ConstellationView, stamp: Seq<char>)
    ensures
        ({
            let e = failover_acknowledged(event, state, stamp);
            let left = state.steps.dom().filter(
                |id: Seq<char>|
                    state.steps[id].status == constellation::StepStatus::Pending || state.steps[id].status
                        == constellation::StepStatus::Executing,
            );
            let form = e.payload;
            &&& json::field(form, "satellite_id"@) == Some(JsonView::Text(state.satellite_id))
            &&& json::field(form, "reason"@) == Some(
                JsonView::Text(
                    match json::text_field(event.payload, "reason"@) {
                        Some(t) => t,
                        None => "unknown"@,
                    },
                ),
            )
            &&& json::field(form, "steps_remaining"@) == Some(count(left.len()))
            &&& e.event_type == "constellation.failover_acknowledged"@
            &&& e.timestamp == stamp
            &&& e.job_id == event.job_id
            &&& e.step_id == event.step_id
            &&& form is Object
            &&& form->Object_0.dom() == set![
                "satellite_id"@,
                "reason"@,
                "steps_remaining"@,
            ]
        }),
{
    reveal(failover_acknowledged);
    reveal_strlit("satellite_id");
    reveal_strlit("reason");
    reveal_strlit("steps_remaining");
    assert("satellite_id"@.len() == 12);
    assert("reason"@.len() == 6);
    assert("steps_remaining"@.len() == 15);
    assert("satellite_id"@ != "reason"@);
    assert("satellite_id"@ != "steps_remaining"@);
    assert("reason"@ != "steps_remaining"@);
    let left = state.steps.dom().filter(
        |id: Seq<char>|
            state.steps[id].status == constellation::StepStatus::Pending || state.steps[id].status
                == constellation::StepStatus::Executing,
    );
    assert(left =~= state.remaining());
    let e = failover_acknowledged(event, state, stamp);
    let left = state.steps.dom().filter(
        |id: Seq<char>|
            state.steps[id].status == constellation::StepStatus::Pending || state.steps[id].status
                == constellation::StepStatus::Executing,
    );
    let form = e.payload;
    assert(form->Object_0.dom() =~= set![
        "satellite_id"@,
        "reason"@,
        "steps_remaining"@,
    ]);
}

/// The report on a transfer says which one it is, over how many links it went, how much
/// it carried, the mean quality in thousandths and the latency in tenths of its links,
/// all data that was transferred so far, and the charge.
pub proof fn quality_reports_tell_of_the_transfer(
    event: EventView,
    state: ConstellationView,
    satellite: SatelliteState,
    stamp: Seq<char>,
)
    requires
        state.transfers[transfer_meant(event)].data_mb.finite(),
        state.total_isl_data_mb.finite(),
        satellite.battery_wh.finite(),
    ensures
        ({
            let e = quality_report(event, state, satellite, stamp);
            let id = transfer_meant(event);
            let hops = state.transfers[id].hops;
            let form = e.payload;
            &&& json::field(form, "transfer_id"@) == Some(JsonView::Text(id))
            &&& json::field(form, "hops"@) == Some(count(hops.len()))
            &&& json::field(form, "data_mb"@) == Some(finite_number(state.transfers[id].data_mb))
            &&& json::field(form, "avg_link_quality"@) == Some(
                json::number_view(double::to_parts(mean_quality(hops), 1000)),
            )
            &&& json::field(form, "total_latency_ms"@) == Some(
                json::number_view(double::to_parts(latency_sum(hops), 10)),
            )
            &&& json::field(form, "total_isl_data_mb"@) == Some(finite_number(state.total_isl_data_mb))
            &&& json::field(form, "battery_after_transfer"@) == Some(finite_number(satellite.battery_wh))
            &&& e.event_type == "isl_transfer.quality_report"@
            &&& e.timestamp == stamp
            &&& e.job_id == event.job_id
            &&& e.step_id == event.step_id
            &&& form is Object
            &&& form->Object_0.dom() == set![
                "transfer_id"@,
                "hops"@,
                "data_mb"@,
                "avg_link_quality"@,
                "total_latency_ms"@,
                "total_isl_data_mb"@,
                "battery_after_transfer"@,
            ]
        }),
{
    reveal(quality_report);
    reveal_strlit("transfer_id");
    reveal_strlit("hops");
    reveal_strlit("data_mb");
    reveal_strlit("avg_link_quality");
    reveal_strlit("total_latency_ms");
    reveal_strlit("total_isl_data_mb");
    reveal_strlit("battery_after_transfer");
    assert("transfer_id"@.len() == 11);
    assert("hops"@.len() == 4);
    assert("data_mb"@.len() == 7);
    assert("avg_link_quality"@.len() == 16);
    assert("total_latency_ms"@.len() == 16);
    assert("total_isl_data_mb"@.len() == 17);
    assert("battery_after_transfer"@.len() == 22);
    assert("transfer_id"@ != "hops"@);
    assert("transfer_id"@ != "data_mb"@);
    assert("transfer_id"@ != "avg_link_quality"@);
    assert("transfer_id"@ != "total_latency_ms"@);
    assert("transfer_id"@ != "total_isl_data_mb"@);
    assert("transfer_id"@ != "battery_after_transfer"@);
    assert("hops"@ != "data_mb"@);
    assert("hops"@ != "avg_link_quality"@);
    assert("hops"@ != "total_latency_ms"@);
    assert("hops"@ != "total_isl_data_mb"@);
    assert("hops"@ != "battery_after_transfer"@);
    assert("data_mb"@ != "avg_link_quality"@);
    assert("data_mb"@ != "total_latency_ms"@);
    assert("data_mb"@ != "total_isl_data_mb"@);
    assert("data_mb"@ != "battery_after_transfer"@);
    assert("avg_link_quality"@[0] != "total_latency_ms"@[0]);
    assert("avg_link_quality"@ != "total_latency_ms"@);
    assert("avg_link_quality"@ != "total_isl_data_mb"@);
    assert("avg_link_quality"@ != "battery_after_transfer"@);
    assert("total_latency_ms"@ != "total_isl_data_mb"@);
    assert("total_latency_ms"@ != "battery_after_transfer"@);
    assert("total_isl_data_mb"@ != "battery_after_transfer"@);
    let e = quality_report(event, state, satellite, stamp);
    let id = transfer_meant(event);
    let hops = state.transfers[id].hops;
    let form = e.payload;
    assert(form->Object_0.dom() =~= set![
        "transfer_id"@,
        "hops"@,
        "data_mb"@,
        "avg_link_quality"@,
        "total_latency_ms"@,
        "total_isl_data_mb"@,
        "battery_after_transfer"@,
    ]);
}

/// The announcement of a prediction gives its figures, its hazards and its schedule.
pub proof fn predictions_are_told_in_full(p: PredictionView)
    requires
        p.summary.max_safe_compute_window_s.finite(),
        p.summary.checkpoint_overhead_fraction.finite(),
    ensures
        ({
            let form = prediction_form(p);
            &&& json::field(form, "hazards_count"@) == Some(count(p.summary.total_hazards))
            &&& json::field(form, "checkpoints_count"@) == Some(count(p.summary.total_checkpoints))
            &&& json::field(form, "next_hazard"@) == Some(
                match p.summary.next_hazard {
                    Some(t) => JsonView::Text(t),
                    None => JsonView::Null,
                },
            )
            &&& json::field(form, "max_safe_window_s"@) == Some(finite_number(p.summary.max_safe_compute_window_s))
            &&& json::field(form, "overhead_fraction"@) == Some(finite_number(p.summary.checkpoint_overhead_fraction))
            &&& json::field(form, "hazards"@) == Some(hazards_form(p.hazards))
            &&& json::field(form, "checkpoint_schedule"@) == Some(schedule::schedule_form(p.checkpoint_schedule))
            &&& form is Object
            &&& form->Object_0.dom() == set![
                "hazards_count"@,
                "checkpoints_count"@,
                "next_hazard"@,
                "max_safe_window_s"@,
                "overhead_fraction"@,
                "hazards"@,
                "checkpoint_schedule"@,
            ]
        }),
{
    reveal(prediction_form);
    reveal_strlit("hazards_count");
    reveal_strlit("checkpoints_count");
    reveal_strlit("next_hazard");
    reveal_strlit("max_safe_window_s");
    reveal_strlit("overhead_fraction");
    reveal_strlit("hazards");
    reveal_strlit("checkpoint_schedule");
    assert("hazards_count"@.len() == 13);
    assert("checkpoints_count"@.len() == 17);
    assert("next_hazard"@.len() == 11);
    assert("max_safe_window_s"@.len() == 17);
    assert("overhead_fraction"@.len() == 17);
    assert("hazards"@.len() == 7);
    assert("checkpoint_schedule"@.len() == 19);
    assert("hazards_count"@ != "checkpoints_count"@);
    assert("hazards_count"@ != "next_hazard"@);
    assert("hazards_count"@ != "max_safe_window_s"@);
    assert("hazards_count"@ != "overhead_fraction"@);
    assert("hazards_count"@ != "hazards"@);
    assert("hazards_count"@ != "checkpoint_schedule"@);
    assert("checkpoints_count"@ != "next_hazard"@);
    assert("checkpoints_count"@[0] != "max_safe_window_s"@[0]);
    assert("checkpoints_count"@ != "max_safe_window_s"@);
    assert("checkpoints_count"@[0] != "overhead_fraction"@[0]);
    assert("checkpoints_count"@ != "overhead_fraction"@);
    assert("checkpoints_count"@ != "hazards"@);
    assert("checkpoints_count"@ != "checkpoint_schedule"@);
    assert("next_hazard"@ != "max_safe_window_s"@);
    assert("next_hazard"@ != "overhead_fraction"@);
    assert("next_hazard"@ != "hazards"@);
    assert("next_hazard"@ != "checkpoint_schedule"@);
    assert("max_safe_window_s"@[0] != "overhead_fraction"@[0]);
    assert("max_safe_window_s"@ != "overhead_fraction"@);
    assert("max_safe_window_s"@ != "hazards"@);
    assert("max_safe_window_s"@ != "checkpoint_schedule"@);
    assert("overhead_fraction"@ != "hazards"@);
    assert("overhead_fraction"@ != "checkpoint_schedule"@);
    assert("hazards"@ != "checkpoint_schedule"@);
    let form = prediction_form(p);
    assert(form->Object_0.dom() =~= set![
        "hazards_count"@,
        "checkpoints_count"@,
        "next_hazard"@,
        "max_safe_window_s"@,
        "overhead_fraction"@,
        "hazards"@,
        "checkpoint_schedule"@,
    ]);
}

/// Orbital elements are sent as they are.
pub proof fn elements_are_told_as_they_are(e: OrbitalElements)
    requires
        e.altitude_km.finite() && e.inclination_deg.finite() && e.eccentricity.finite() && e.raan_deg.finite(),
        e.arg_perigee_deg.finite() && e.mean_anomaly_deg.finite() && e.mean_motion.finite(),
    ensures
        ({
            let form = sim_client::elements_form(e);
            &&& json::field(form, "altitude_km"@) == Some(finite_number(e.altitude_km))
            &&& json::field(form, "inclination_deg"@) == Some(finite_number(e.inclination_deg))
            &&& json::field(form, "eccentricity"@) == Some(finite_number(e.eccentricity))
            &&& json::field(form, "raan_deg"@) == Some(finite_number(e.raan_deg))
            &&& json::field(form, "arg_perigee_deg"@) == Some(finite_number(e.arg_perigee_deg))
            &&& json::field(form, "mean_anomaly_deg"@) == Some(finite_number(e.mean_anomaly_deg))
            &&& json::field(form, "mean_motion"@) == Some(finite_number(e.mean_motion))
            &&& json::field(form, "epoch"@) == Some(JsonView::Text(e.epoch@))
            &&& form is Object
            &&& form->Object_0.dom() == set![
                "altitude_km"@,
                "inclination_deg"@,
                "eccentricity"@,
                "raan_deg"@,
                "arg_perigee_deg"@,
                "mean_anomaly_deg"@,
                "mean_motion"@,
                "epoch"@,
            ]
        }),
{
    reveal_strlit("altitude_km");
    reveal_strlit("inclination_deg");
    reveal_strlit("eccentricity");
    reveal_strlit("raan_deg");
    reveal_strlit("arg_perigee_deg");
    reveal_strlit("mean_anomaly_deg");
    reveal_strlit("mean_motion");
    reveal_strlit("epoch");
    assert("altitude_km"@.len() == 11);
    assert("inclination_deg"@.len() == 15);
    assert("eccentricity"@.len() == 12);
    assert("raan_deg"@.len() == 8);
    assert("arg_perigee_deg"@.len() == 15);
    assert("mean_anomaly_deg"@.len() == 16);
    assert("mean_motion"@.len() == 11);
    assert("epoch"@.len() == 5);
    assert("altitude_km"@ != "inclination_deg"@);
    assert("altitude_km"@ != "eccentricity"@);
    assert("altitude_km"@ != "raan_deg"@);
    assert("altitude_km"@ != "arg_perigee_deg"@);
    assert("altitude_km"@ != "mean_anomaly_deg"@);
    assert("altitude_km"@[0] != "mean_motion"@[0]);
    assert("altitude_km"@ != "mean_motion"@);
    assert("altitude_km"@ != "epoch"@);
    assert("inclination_deg"@ != "eccentricity"@);
    assert("inclination_deg"@ != "raan_deg"@);
    assert("inclination_deg"@[0] != "arg_perigee_deg"@[0]);
    assert("inclination_deg"@ != "arg_perigee_deg"@);
    assert("inclination_deg"@ != "mean_anomaly_deg"@);
    assert("inclination_deg"@ != "mean_motion"@);
    assert("inclination_deg"@ != "epoch"@);
    assert("eccentricity"@ != "raan_deg"@);
    assert("eccentricity"@ != "arg_perigee_deg"@);
    assert("eccentricity"@ != "mean_anomaly_deg"@);
    assert("eccentricity"@ != "mean_motion"@);
    assert("eccentricity"@ != "epoch"@);
    assert("raan_deg"@ != "arg_perigee_deg"@);
    assert("raan_deg"@ != "mean_anomaly_deg"@);
    assert("raan_deg"@ != "mean_motion"@);
    assert("raan_deg"@ != "epoch"@);
    assert("arg_perigee_deg"@ != "mean_anomaly_deg"@);
    assert("arg_perigee_deg"@ != "mean_motion"@);
    assert("arg_perigee_deg"@ != "epoch"@);
    assert("mean_anomaly_deg"@ != "mean_motion"@);
    assert("mean_anomaly_deg"@ != "epoch"@);
    assert("mean_motion"@ != "epoch"@);
    let form = sim_client::elements_form(e);
    assert(form->Object_0.dom() =~= set![
        "altitude_km"@,
        "inclination_deg"@,
        "eccentricity"@,
        "raan_deg"@,
        "arg_perigee_deg"@,
        "mean_anomaly_deg"@,
        "mean_motion"@,
        "epoch"@,
    ]);
}

/// A position is sent as it is.
pub proof fn positions_are_told_as_they_are(p: Position)
    requires
        p.lat.finite() && p.lon.finite() && p.altitude_km.finite(),
    ensures
        ({
            let form = types::position_form(p);
            &&& json::field(form, "lat"@) == Some(finite_number(p.lat))
            &&& json::field(form, "lon"@) == Some(finite_number(p.lon))
            &&& json::field(form, "altitude_km"@) == Some(finite_number(p.altitude_km))
            &&& json::field(form, "in_eclipse"@) == Some(JsonView::Bool(p.in_eclipse))
            &&& form is Object
            &&& form->Object_0.dom() == set![
                "lat"@,
                "lon"@,
                "altitude_km"@,
                "in_eclipse"@,
            ]
        }),
{
    reveal_strlit("lat");
    reveal_strlit("lon");
    reveal_strlit("altitude_km");
    reveal_strlit("in_eclipse");
    assert("lat"@.len() == 3);
    assert("lon"@.len() == 3);
    assert("altitude_km"@.len() == 11);
    assert("in_eclipse"@.len() == 10);
    assert("lat"@[1] != "lon"@[1]);
    assert("lat"@ != "lon"@);
    assert("lat"@ != "altitude_km"@);
    assert("lat"@ != "in_eclipse"@);
    assert("lon"@ != "altitude_km"@);
    assert("lon"@ != "in_eclipse"@);
    assert("altitude_km"@ != "in_eclipse"@);
    let form = types::position_form(p);
    assert(form->Object_0.dom() =~= set![
        "lat"@,
        "lon"@,
        "altitude_km"@,
        "in_eclipse"@,
    ]);
}

/// A step that cannot start is handed over: with its job and its step, the satellite's
/// own name and the reason.
pub proof fn failovers_name_satellite_and_reason(
    script: Script,
    event: EventView,
    satellite: SatelliteState,
    stamp: Seq<char>,
)
    ensures
        ({
            let sent = failover_event(script, event, satellite, stamp);
            let due = event.event_type == "constellation.step_started"@ && constellation::failover_reason(
                satellite,
            ) is Some;
            &&& due ==> sent.len() == 1
            &&& !due ==> sent.len() == 0
            &&& due ==> {
                &&& sent[0].event_type == "constellation.failover"@
                &&& sent[0].timestamp == stamp
                &&& sent[0].job_id == event.job_id
                &&& sent[0].step_id == event.step_id
                &&& json::field(sent[0].payload, "satellite_id"@) == Some(
                    match script.satellite_id {
                        Some(id) => JsonView::Text(id),
                        None => JsonView::Null,
                    },
                )
                &&& json::text_field(sent[0].payload, "reason"@) == constellation::failover_reason(satellite)
            }
        }),
{
    reveal_strlit("satellite_id");
    reveal_strlit("reason");
    assert("satellite_id"@.len() == 12);
    assert("reason"@.len() == 6);
    assert("satellite_id"@ != "reason"@);
}

/// A reading as JSON, where it was taken.
pub open spec fn taken(x: Option<Double>) -> Option<JsonView> {
    match x {
        Some(d) => Some(json::number_view(d)),
        None => None,
    }
}

/// A text as JSON, where there is one.
pub open spec fn given(t: Option<Seq<char>>) -> Option<JsonView> {
    match t {
        Some(s) => Some(JsonView::Text(s)),
        None => None,
    }
}

/// Telemetry has each reading under its name, and none that was not taken.
pub proof fn telemetry_tells_what_was_read(t: AgentTelemetry)
    ensures
        ({
            let form = types::telemetry_form(t);
            &&& json::field(form, "agent_id"@) == Some(JsonView::Text(t.agent_id@))
            &&& json::field(form, "status"@) == Some(JsonView::Text(types::status_word(t.status)))
            &&& json::field(form, "timestamp"@) == Some(JsonView::Text(t.timestamp@))
            &&& json::field(form, "cpu_percent"@) == taken(t.cpu_percent)
            &&& json::field(form, "memory_mb"@) == taken(t.memory_mb)
            &&& json::field(form, "battery_percent"@) == taken(t.battery_percent)
            &&& json::field(form, "temperature_c"@) == taken(t.temperature_c)
            &&& json::field(form, "position"@) == match t.position {
                Some(p) => Some(types::position_form(p)),
                None => None,
            }
            &&& json::field(form, "compute_capacity"@) == taken(t.compute_capacity)
        }),
{
    reveal_strlit("agent_id");
    reveal_strlit("status");
    reveal_strlit("timestamp");
    reveal_strlit("cpu_percent");
    reveal_strlit("memory_mb");
    reveal_strlit("battery_percent");
    reveal_strlit("temperature_c");
    reveal_strlit("position");
    reveal_strlit("compute_capacity");
    assert("agent_id"@.len() == 8);
    assert("status"@.len() == 6);
    assert("timestamp"@.len() == 9);
    assert("cpu_percent"@.len() == 11);
    assert("memory_mb"@.len() == 9);
    assert("battery_percent"@.len() == 15);
    assert("temperature_c"@.len() == 13);
    assert("position"@.len() == 8);
    assert("compute_capacity"@.len() == 16);
    assert("agent_id"@ != "status"@);
    assert("agent_id"@ != "timestamp"@);
    assert("agent_id"@ != "cpu_percent"@);
    assert("agent_id"@ != "memory_mb"@);
    assert("agent_id"@ != "battery_percent"@);
    assert("agent_id"@ != "temperature_c"@);
    assert("agent_id"@[0] != "position"@[0]);
    assert("agent_id"@ != "position"@);
    assert("agent_id"@ != "compute_capacity"@);
    assert("status"@ != "timestamp"@);
    assert("status"@ != "cpu_percent"@);
    assert("status"@ != "memory_mb"@);
    assert("status"@ != "battery_percent"@);
    assert("status"@ != "temperature_c"@);
    assert("status"@ != "position"@);
    assert("status"@ != "compute_capacity"@);
    assert("timestamp"@ != "cpu_percent"@);
    assert("timestamp"@[0] != "memory_mb"@[0]);
    assert("timestamp"@ != "memory_mb"@);
    assert("timestamp"@ != "battery_percent"@);
    assert("timestamp"@ != "temperature_c"@);
    assert("timestamp"@ != "position"@);
    assert("timestamp"@ != "compute_capacity"@);
    assert("cpu_percent"@ != "memory_mb"@);
    assert("cpu_percent"@ != "battery_percent"@);
    assert("cpu_percent"@ != "temperature_c"@);
    assert("cpu_percent"@ != "position"@);
    assert("cpu_percent"@ != "compute_capacity"@);
    assert("memory_mb"@ != "battery_percent"@);
    assert("memory_mb"@ != "temperature_c"@);
    assert("memory_mb"@ != "position"@);
    assert("memory_mb"@ != "compute_capacity"@);
    assert("battery_percent"@ != "temperature_c"@);
    assert("battery_percent"@ != "position"@);
    assert("battery_percent"@ != "compute_capacity"@);
    assert("temperature_c"@ != "position"@);
    assert("temperature_c"@ != "compute_capacity"@);
    assert("position"@ != "compute_capacity"@);
}

/// A registration has what is known of the agent under its name, and nothing that is
/// not.
pub proof fn registrations_tell_what_is_known(
    agent_id: Seq<char>,
    satellite_id: Option<Seq<char>>,
    satellite_name: Option<Seq<char>>,
    orbit_altitude_km: Option<Double>,
    agent_version: Option<Seq<char>>,
)
    ensures
        ({
            let form = client::registration_form(
                agent_id,
                satellite_id,
                satellite_name,
                orbit_altitude_km,
                agent_version,
            );
            &&& json::field(form, "agent_id"@) == Some(JsonView::Text(agent_id))
            &&& json::field(form, "satellite_id"@) == given(satellite_id)
            &&& json::field(form, "satellite_name"@) == given(satellite_name)
            &&& json::field(form, "orbit_altitude_km"@) == taken(orbit_altitude_km)
            &&& json::field(form, "agent_version"@) == given(agent_version)
        }),
{
    reveal_strlit("agent_id");
    reveal_strlit("satellite_id");
    reveal_strlit("satellite_name");
    reveal_strlit("orbit_altitude_km");
    reveal_strlit("agent_version");
    assert("agent_id"@.len() == 8);
    assert("satellite_id"@.len() == 12);
    assert("satellite_name"@.len() == 14);
    assert("orbit_altitude_km"@.len() == 17);
    assert("agent_version"@.len() == 13);
    assert("agent_id"@ != "satellite_id"@);
    assert("agent_id"@ != "satellite_name"@);
    assert("agent_id"@ != "orbit_altitude_km"@);
    assert("agent_id"@ != "agent_version"@);
    assert("satellite_id"@ != "satellite_name"@);
    assert("satellite_id"@ != "orbit_altitude_km"@);
    assert("satellite_id"@ != "agent_version"@);
    assert("satellite_name"@ != "orbit_altitude_km"@);
    assert("satellite_name"@ != "agent_version"@);
    assert("orbit_altitude_km"@ != "agent_version"@);
}

/// An event has its type, time, job and payload, and its step where there is one.
pub proof fn events_are_told_as_they_are(e: EventView)
    ensures
        ({
            let form = types::event_form(e);
            &&& json::field(form, "type"@) == Some(JsonView::Text(e.event_type))
            &&& json::field(form, "timestamp"@) == Some(JsonView::Text(e.timestamp))
            &&& json::field(form, "job_id"@) == Some(JsonView::Text(e.job_id))
            &&& json::field(form, "payload"@) == Some(e.payload)
            &&& json::field(form, "step_id"@) == given(e.step_id)
        }),
{
    reveal_strlit("type");
    reveal_strlit("timestamp");
    reveal_strlit("job_id");
    reveal_strlit("payload");
    reveal_strlit("step_id");
    assert("type"@.len() == 4);
    assert("timestamp"@.len() == 9);
    assert("job_id"@.len() == 6);
    assert("payload"@.len() == 7);
    assert("step_id"@.len() == 7);
    assert("type"@ != "timestamp"@);
    assert("type"@ != "job_id"@);
    assert("type"@ != "payload"@);
    assert("type"@ != "step_id"@);
    assert("timestamp"@ != "job_id"@);
    assert("timestamp"@ != "payload"@);
    assert("timestamp"@ != "step_id"@);
    assert("job_id"@ != "payload"@);
    assert("job_id"@ != "step_id"@);
    assert("payload"@[0] != "step_id"@[0]);
    assert("payload"@ != "step_id"@);
}

/// Constellation events carry the actual charge and temperature and, where it is
/// known, the actual position.
pub proof fn constellation_events_carry_the_actual_state(
    event: EventView,
    satellite: SatelliteState,
    position: Option<Position>,
)
    requires
        event.payload is Object,
        "constellation."@.is_prefix_of(event.event_type) || "isl_transfer."@.is_prefix_of(event.event_type),
    ensures
        ({
            let payload = constellation::enriched(event, satellite, position).payload;
            &&& json::field(payload, "actual_battery_percent"@) == Some(json::number_view(satellite.battery_wh))
            &&& json::field(payload, "actual_temperature_c"@) == Some(json::number_view(satellite.temperature_c))
            &&& position matches Some(p) ==> {
                &&& json::field(payload, "actual_lat"@) == Some(json::number_view(p.lat))
                &&& json::field(payload, "actual_lon"@) == Some(json::number_view(p.lon))
                &&& json::field(payload, "actual_altitude_km"@) == Some(json::number_view(p.altitude_km))
                &&& json::field(payload, "actual_in_eclipse"@) == Some(JsonView::Bool(p.in_eclipse))
            }
        }),
{
    reveal_strlit("actual_battery_percent");
    reveal_strlit("actual_temperature_c");
    reveal_strlit("actual_lat");
    reveal_strlit("actual_lon");
    reveal_strlit("actual_altitude_km");
    reveal_strlit("actual_in_eclipse");
    assert("actual_battery_percent"@.len() == 22);
    assert("actual_temperature_c"@.len() == 20);
    assert("actual_lat"@.len() == 10);
    assert("actual_lon"@.len() == 10);
    assert("actual_altitude_km"@.len() == 18);
    assert("actual_in_eclipse"@.len() == 17);
    assert("actual_battery_percent"@ != "actual_temperature_c"@);
    assert("actual_battery_percent"@ != "actual_lat"@);
    assert("actual_battery_percent"@ != "actual_lon"@);
    assert("actual_battery_percent"@ != "actual_altitude_km"@);
    assert("actual_battery_percent"@ != "actual_in_eclipse"@);
    assert("actual_temperature_c"@ != "actual_lat"@);
    assert("actual_temperature_c"@ != "actual_lon"@);
    assert("actual_temperature_c"@ != "actual_altitude_km"@);
    assert("actual_temperature_c"@ != "actual_in_eclipse"@);
    assert("actual_lat"@[8] != "actual_lon"@[8]);
    assert("actual_lat"@ != "actual_lon"@);
    assert("actual_lat"@ != "actual_altitude_km"@);
    assert("actual_lat"@ != "actual_in_eclipse"@);
    assert("actual_lon"@ != "actual_altitude_km"@);
    assert("actual_lon"@ != "actual_in_eclipse"@);
    assert("actual_altitude_km"@ != "actual_in_eclipse"@);
}

/// Events of steps that run in eclipse carry charge and temperature, those of steps
/// in a window charge and capacity, those of steps during a pass the charge; the
/// start of a step in eclipse also says how much energy it may take, a quarter of the
/// charge.
pub proof fn step_events_carry_the_actual_state(event: EventView, state: SatelliteState)
    requires
        event.payload is Object,
    ensures
        ({
            let payload = ocp::enriched(event, state).payload;
            let charge = json::number_view(double::to_parts(state.battery_wh, 100));
            let eclipse = "eclipse_step."@.is_prefix_of(event.event_type);
            let window = "window_step."@.is_prefix_of(event.event_type);
            let pass = "pass_step."@.is_prefix_of(event.event_type);
            &&& eclipse || window || pass ==> json::field(payload, "actual_battery_percent"@) == Some(charge)
            &&& eclipse ==> {
                &&& json::field(payload, "actual_battery_wh"@) == Some(charge)
                &&& json::field(payload, "actual_temperature_c"@) == Some(
                    json::number_view(double::to_parts(state.temperature_c, 100)),
                )
            }
            &&& event.event_type == "eclipse_step.started"@ ==> json::field(payload, "max_available_energy_j"@) == Some(
                json::number_view(
                    double::to_parts(
                        double::product(
                            double::product(state.battery_wh, double::ratio(1, 4)),
                            double::integer(3600),
                        ),
                        100,
                    ),
                ),
            )
            &&& window ==> json::field(payload, "compute_capacity"@) == Some(
                json::number_view(sim_client::capacity_at(state.battery_wh)),
            )
        }),
{
    reveal_strlit("actual_battery_percent");
    reveal_strlit("actual_battery_wh");
    reveal_strlit("actual_temperature_c");
    reveal_strlit("max_available_energy_j");
    reveal_strlit("compute_capacity");
    assert("actual_battery_percent"@.len() == 22);
    assert("actual_battery_wh"@.len() == 17);
    assert("actual_temperature_c"@.len() == 20);
    assert("max_available_energy_j"@.len() == 22);
    assert("compute_capacity"@.len() == 16);
    assert("actual_battery_percent"@ != "actual_battery_wh"@);
    assert("actual_battery_percent"@ != "actual_temperature_c"@);
    assert("actual_battery_percent"@[0] != "max_available_energy_j"@[0]);
    assert("actual_battery_percent"@ != "max_available_energy_j"@);
    assert("actual_battery_percent"@ != "compute_capacity"@);
    assert("actual_battery_wh"@ != "actual_temperature_c"@);
    assert("actual_battery_wh"@ != "max_available_energy_j"@);
    assert("actual_battery_wh"@ != "compute_capacity"@);
    assert("actual_temperature_c"@ != "max_available_energy_j"@);
    assert("actual_temperature_c"@ != "compute_capacity"@);
    assert("max_available_energy_j"@ != "compute_capacity"@);
    reveal_strlit("eclipse_step.");
    reveal_strlit("window_step.");
    reveal_strlit("pass_step.");
    reveal_strlit("eclipse_step.started");
    assert("eclipse_step."@.is_prefix_of("eclipse_step.started"@));
    let t = event.event_type;
    if "eclipse_step."@.is_prefix_of(t) {
        assert("eclipse_step."@[0] == t.subrange(0, 13)[0]);
        assert(t[0] == 'e');
        assert("window_step."@[0] == 'w' && "pass_step."@[0] == 'p');
    }
    if "window_step."@.is_prefix_of(t) {
        assert("window_step."@[0] == t.subrange(0, 12)[0]);
        assert(t[0] == 'w');
        assert("eclipse_step."@[0] == 'e' && "pass_step."@[0] == 'p');
    }
    if "pass_step."@.is_prefix_of(t) {
        assert("pass_step."@[0] == t.subrange(0, 10)[0]);
        assert(t[0] == 'p');
        assert("eclipse_step."@[0] == 'e' && "window_step."@[0] == 'w');
    }
}

/// A prediction is announced exactly if there are hazards: as an event of no step, with
/// the job of the workload.
pub proof fn predictions_are_announced_where_there_are_hazards(p: PredictionView, job_id: Seq<char>, stamp: Seq<char>)
    ensures
        ({
            let event = prediction_announced(p, job_id, stamp);
            &&& event is Some <==> p.summary.total_hazards > 0
            &&& event matches Some(e) ==> {
                &&& e.event_type == "checkpoint.predicted"@
                &&& e.timestamp == stamp
                &&& e.job_id == job_id
                &&& e.step_id is None
                &&& e.payload == prediction_form(p)
            }
        }),
{
}

/// A satellite registers with its own names, the altitude of its elements and the version
/// of the agent.
pub proof fn satellites_register_as_they_are(sat: SimulatedSatellite)
    ensures
        simulated::registration(sat) == client::registration_form(
            sat.client.config.agent_id@,
            types::optional(sat.config.satellite_id),
            types::optional(sat.config.satellite_name),
            match sat.orbital_elements {
                Some(e) => Some(e.altitude_km),
                None => None,
            },
            Some(client::AGENT_VERSION@),
        ),
{
}

} // verus!
