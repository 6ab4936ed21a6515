//! Orbital hazards ahead of a satellite, and the checkpoints that preserve the
//! state of a computation across them.

pub mod detect;
pub mod findings;
pub mod follow_up;
pub mod geometry;
pub mod opposition;
pub mod order;
pub mod outline;
pub mod predict;
pub mod schedule;
pub mod shadow;
pub mod stretches;
pub mod timing;
pub mod windows;

pub use geometry::{is_in_eclipse, point_in_polygon, saa_boundary};
pub use predict::{fits_calendar, predict_along, predict_hazards, HazardPrediction, HazardSummary};
pub use schedule::{merge_overlapping_hazards, CheckpointEntry};

use vstd::prelude::*;

use crate::double::Double;
use crate::json::{self, Json, JsonView};
use crate::time::UtcTime;

verus! {

#[derive(Debug, Clone, Copy, PartialEq, Eq, Structural)]
pub enum HazardType {
    Eclipse,
    SaaTransit,
    ThermalPeak,
    Conjunction,
}

/// How grave a hazard or how urgent a checkpoint is, in rising order.
#[derive(Debug, Clone, Copy, PartialEq, Eq, PartialOrd, Ord, Structural)]
pub enum Severity {
    Low,
    Moderate,
    High,
    Critical,
}

#[derive(Debug, Clone, Copy, PartialEq, Eq, Structural)]
pub enum RecommendedAction {
    CheckpointBeforeAndResumeAfter,
    CheckpointAndEnableEcc,
    ThrottleAndCheckpointIfCritical,
    CheckpointAndPrepareForManeuver,
}

#[derive(Debug, Clone, Copy, PartialEq, Eq, Structural)]
pub enum CheckpointType {
    Save,
    Restore,
    Validate,
}

/// The name of a hazard type in prose.
pub open spec fn hazard_name(t: HazardType) -> Seq<char> {
    match t {
        HazardType::Eclipse => "Eclipse"@,
        HazardType::SaaTransit => "SaaTransit"@,
        HazardType::ThermalPeak => "ThermalPeak"@,
        HazardType::Conjunction => "Conjunction"@,
    }
}

/// The word that JSON has for a hazard type.
pub open spec fn hazard_word(t: HazardType) -> Seq<char> {
    match t {
        HazardType::Eclipse => "ECLIPSE"@,
        HazardType::SaaTransit => "SAA_TRANSIT"@,
        HazardType::ThermalPeak => "THERMAL_PEAK"@,
        HazardType::Conjunction => "CONJUNCTION"@,
    }
}

impl HazardType {
    /// The name of the hazard type in prose.
    pub fn name(self) -> (r: &'static str)
        ensures
            r@ == hazard_name(self),
    {
        match self {
            HazardType::Eclipse => "Eclipse",
            HazardType::SaaTransit => "SaaTransit",
            HazardType::ThermalPeak => "ThermalPeak",
            HazardType::Conjunction => "Conjunction",
        }
    }

    /// The word that JSON has for the hazard type.
    pub fn word(self) -> (r: &'static str)
        ensures
            r@ == hazard_word(self),
    {
        match self {
            HazardType::Eclipse => "ECLIPSE",
            HazardType::SaaTransit => "SAA_TRANSIT",
            HazardType::ThermalPeak => "THERMAL_PEAK",
            HazardType::Conjunction => "CONJUNCTION",
        }
    }
}

/// Severities count from one.
pub open spec fn severity_rank(s: Severity) -> int {
    match s {
        Severity::Low => 1,
        Severity::Moderate => 2,
        Severity::High => 3,
        Severity::Critical => 4,
    }
}

/// The word that JSON has for a severity.
pub open spec fn severity_word(s: Severity) -> Seq<char> {
    match s {
        Severity::Low => "LOW"@,
        Severity::Moderate => "MODERATE"@,
        Severity::High => "HIGH"@,
        Severity::Critical => "CRITICAL"@,
    }
}

impl Severity {
    /// The severity as a number.
    pub fn rank(self) -> (r: u8)
        ensures
            r == severity_rank(self),
    {
        match self {
            Severity::Low => 1,
            Severity::Moderate => 2,
            Severity::High => 3,
            Severity::Critical => 4,
        }
    }

    /// The word that JSON has for the severity.
    pub fn word(self) -> (r: &'static str)
        ensures
            r@ == severity_word(self),
    {
        match self {
            Severity::Low => "LOW",
            Severity::Moderate => "MODERATE",
            Severity::High => "HIGH",
            Severity::Critical => "CRITICAL",
        }
    }
}

/// The word that JSON has for an action.
pub open spec fn action_word(a: RecommendedAction) -> Seq<char> {
    match a {
        RecommendedAction::CheckpointBeforeAndResumeAfter => "CHECKPOINT_BEFORE_AND_RESUME_AFTER"@,
        RecommendedAction::CheckpointAndEnableEcc => "CHECKPOINT_AND_ENABLE_ECC"@,
        RecommendedAction::ThrottleAndCheckpointIfCritical => "THROTTLE_AND_CHECKPOINT_IF_CRITICAL"@,
        RecommendedAction::CheckpointAndPrepareForManeuver => "CHECKPOINT_AND_PREPARE_FOR_MANEUVER"@,
    }
}

impl RecommendedAction {
    /// The word that JSON has for the action.
    pub fn word(self) -> (r: &'static str)
        ensures
            r@ == action_word(self),
    {
        match self {
            RecommendedAction::CheckpointBeforeAndResumeAfter => "CHECKPOINT_BEFORE_AND_RESUME_AFTER",
            RecommendedAction::CheckpointAndEnableEcc => "CHECKPOINT_AND_ENABLE_ECC",
            RecommendedAction::ThrottleAndCheckpointIfCritical => "THROTTLE_AND_CHECKPOINT_IF_CRITICAL",
            RecommendedAction::CheckpointAndPrepareForManeuver => "CHECKPOINT_AND_PREPARE_FOR_MANEUVER",
        }
    }
}

/// The word that JSON has for a checkpoint type.
pub open spec fn checkpoint_word(c: CheckpointType) -> Seq<char> {
    match c {
        CheckpointType::Save => "SAVE"@,
        CheckpointType::Restore => "RESTORE"@,
        CheckpointType::Validate => "VALIDATE"@,
    }
}

impl CheckpointType {
    /// The word that JSON has for the checkpoint type.
    pub fn word(self) -> (r: &'static str)
        ensures
            r@ == checkpoint_word(self),
    {
        match self {
            CheckpointType::Save => "SAVE",
            CheckpointType::Restore => "RESTORE",
            CheckpointType::Validate => "VALIDATE",
        }
    }
}

/// A hazard on the satellite's way.
#[derive(Debug, Clone)]
pub struct Hazard {
    pub hazard_type: HazardType,
    pub start_time: String,
    pub end_time: String,
    pub duration_s: Double,
    pub severity: Severity,
    pub recommended_action: RecommendedAction,
    pub prediction_confidence: Double,
    pub metadata: Json,
}

/// What a hazard says.
pub struct HazardView {
    pub hazard_type: HazardType,
    pub start_time: Seq<char>,
    pub end_time: Seq<char>,
    pub duration_s: Double,
    pub severity: Severity,
    pub recommended_action: RecommendedAction,
    pub prediction_confidence: Double,
    pub metadata: JsonView,
}

impl Hazard {
    pub open spec fn view(self) -> HazardView {
        HazardView {
            hazard_type: self.hazard_type,
            start_time: self.start_time@,
            end_time: self.end_time@,
            duration_s: self.duration_s,
            severity: self.severity,
            recommended_action: self.recommended_action,
            prediction_confidence: self.prediction_confidence,
            metadata: self.metadata@,
        }
    }
}

/// What a list of hazards says.
pub open spec fn hazard_list(hazards: Seq<Hazard>) -> Seq<HazardView> {
    hazards.map_values(|h: Hazard| h@)
}

/// One sample of the satellite's way: when, where above the ground, where among
/// the stars, where the sun stands, and how strong the South Atlantic Anomaly is
/// at this altitude.
#[derive(Debug, Clone, Copy, PartialEq, Eq, Structural)]
pub struct TrajectoryPoint {
    pub time: UtcTime,
    pub lat: Double,
    pub lon: Double,
    pub alt_km: Double,
    pub eci_x: Double,
    pub eci_y: Double,
    pub eci_z: Double,
    pub sun_x: Double,
    pub sun_y: Double,
    pub sun_z: Double,
    pub saa_intensity: Double,
}

/// The JSON form of a hazard.
pub open spec fn hazard_form(h: HazardView) -> JsonView {
    let when = json::with_field(
        json::with_field(
            json::with_field(
                json::with_field(
                    JsonView::Object(Map::empty()),
                    "hazard_type"@,
                    JsonView::Text(hazard_word(h.hazard_type)),
                ),
                "start_time"@,
                JsonView::Text(h.start_time),
            ),
            "end_time"@,
            JsonView::Text(h.end_time),
        ),
        "duration_s"@,
        json::number_view(h.duration_s),
    );
    json::with_field(
        json::with_field(
            json::with_field(
                json::with_field(when, "severity"@, JsonView::Text(severity_word(h.severity))),
                "recommended_action"@,
                JsonView::Text(action_word(h.recommended_action)),
            ),
            "prediction_confidence"@,
            json::number_view(h.prediction_confidence),
        ),
        "metadata"@,
        h.metadata,
    )
}

impl Hazard {
    /// The hazard as JSON.
    pub fn to_json(&self) -> (r: Json)
        ensures
            r@ == hazard_form(self@),
    {
        let mut form = Json::object();
        form.set("hazard_type", Json::text(self.hazard_type.word()));
        form.set("start_time", Json::text(self.start_time.as_str()));
        form.set("end_time", Json::text(self.end_time.as_str()));
        form.set("duration_s", Json::number(self.duration_s));
        form.set("severity", Json::text(self.severity.word()));
        form.set("recommended_action", Json::text(self.recommended_action.word()));
        form.set("prediction_confidence", Json::number(self.prediction_confidence));
        form.set("metadata", self.metadata.copy());
        form
    }

    /// A copy of the hazard.
    pub fn copy(&self) -> (r: Hazard)
        ensures
            r@ == self@,
    {
        Hazard {
            hazard_type: self.hazard_type,
            start_time: self.start_time.clone(),
            end_time: self.end_time.clone(),
            duration_s: self.duration_s,
            severity: self.severity,
            recommended_action: self.recommended_action,
            prediction_confidence: self.prediction_confidence,
            metadata: self.metadata.copy(),
        }
    }
}

/// The JSON form of a list of hazards.
pub open spec fn hazards_form(hazards: Seq<HazardView>) -> JsonView {
    JsonView::Array(hazards.map_values(|h: HazardView| hazard_form(h)))
}

/// A list of hazards as JSON.
pub(crate) fn hazards_json(hazards: &Vec<Hazard>) -> (r: Json)
    ensures
        r@ == hazards_form(hazard_list(hazards@)),
{
    let ghost forms = hazard_list(hazards@).map_values(|h: HazardView| hazard_form(h));
    let mut items: Vec<Json> = Vec::new();
    let mut i: usize = 0;
    assert(json::array_view(items@) =~= forms.take(0));
    while i < hazards.len()
        invariant
            i <= hazards@.len(),
            forms == hazard_list(hazards@).map_values(|h: HazardView| hazard_form(h)),
            json::array_view(items@) == forms.take(i as int),
        decreases hazards@.len() - i,
    {
        let item = hazards[i].to_json();
        proof {
            json::lemma_array_push(items@, item);
            assert(forms.take(i + 1) =~= forms.take(i as int).push(item@));
        }
        items.push(item);
        i = i + 1;
    }
    assert(forms.take(i as int) =~= forms);
    Json::list(items)
}

} // verus!
