//! The hazards ahead of a satellite, with the checkpoints for them and what they
//! leave of the time.

use vstd::prelude::*;

use super::detect::{
    dated, detect_eclipses, detect_saa_transits, detect_thermal_peaks, hazards_of, legible, lemma_spans_in_range, spans,
};
use super::findings::{by_type, predicted_hazards_are_by_type};
use super::follow_up::{followed_up, nothing_idle};
use super::order::{self, sort_by_time, Timed};
use super::schedule::{
    self, all_leave_room, compute_checkpoint_schedule, entry_list, framed_with_room, leaves_room,
    merge_overlapping_hazards, parted, preserves_state, room_after, room_before, safety_margin,
    schedule_form, schedule_json, times_within, to_millis, CheckpointEntry, EntryView,
};
use super::{hazard_list, hazards_form, hazards_json, Hazard, HazardType, HazardView, TrajectoryPoint};
use crate::double::growth;
use crate::double::{self, Double};
use crate::json::{self, Json, JsonView};
use crate::orbit::{self, propagate_trajectory, sample_times, Transcendental};
use crate::sim_client::OrbitalElements;
use crate::time::{self, UtcTime};
use crate::types;

verus! {

#[derive(Debug, Clone)]
pub struct HazardSummary {
    pub total_hazards: usize,
    pub total_checkpoints: usize,
    pub next_hazard: Option<String>,
    pub max_safe_compute_window_s: Double,
    pub checkpoint_overhead_fraction: Double,
}

/// What a summary says.
pub struct SummaryView {
    pub total_hazards: nat,
    pub total_checkpoints: nat,
    pub next_hazard: Option<Seq<char>>,
    pub max_safe_compute_window_s: Double,
    pub checkpoint_overhead_fraction: Double,
}

impl HazardSummary {
    pub open spec fn view(self) -> SummaryView {
        SummaryView {
            total_hazards: self.total_hazards as nat,
            total_checkpoints: self.total_checkpoints as nat,
            next_hazard: types::optional(self.next_hazard),
            max_safe_compute_window_s: self.max_safe_compute_window_s,
            checkpoint_overhead_fraction: self.checkpoint_overhead_fraction,
        }
    }
}

#[derive(Debug, Clone)]
pub struct HazardPrediction {
    pub hazards: Vec<Hazard>,
    pub checkpoint_schedule: Vec<CheckpointEntry>,
    pub summary: HazardSummary,
}

/// What a prediction says.
pub struct PredictionView {
    pub hazards: Seq<HazardView>,
    pub checkpoint_schedule: Seq<EntryView>,
    pub summary: SummaryView,
}

impl HazardPrediction {
    pub open spec fn view(self) -> PredictionView {
        PredictionView {
            hazards: hazard_list(self.hazards@),
            checkpoint_schedule: entry_list(self.checkpoint_schedule@),
            summary: self.summary@,
        }
    }
}

/// The JSON form of a summary: a next hazard only where there is one.
pub open spec fn summary_form(s: SummaryView) -> JsonView {
    let counts = json::with_field(
        json::with_field(
            JsonView::Object(Map::empty()),
            "total_hazards"@,
            json::natural_view(s.total_hazards),
        ),
        "total_checkpoints"@,
        json::natural_view(s.total_checkpoints),
    );
    let ahead = match s.next_hazard {
        Some(t) => json::with_field(counts, "next_hazard"@, JsonView::Text(t)),
        None => counts,
    };
    json::with_field(
        json::with_field(
            ahead,
            "max_safe_compute_window_s"@,
            json::number_view(s.max_safe_compute_window_s),
        ),
        "checkpoint_overhead_fraction"@,
        json::number_view(s.checkpoint_overhead_fraction),
    )
}

impl HazardSummary {
    /// The summary as JSON.
    pub fn to_json(&self) -> (r: Json)
        ensures
            r@ == summary_form(self@),
    {
        let mut form = Json::object();
        form.set("total_hazards", Json::count(self.total_hazards));
        form.set("total_checkpoints", Json::count(self.total_checkpoints));
        if let Some(t) = &self.next_hazard {
            form.set("next_hazard", Json::text(t.as_str()));
        }
        form.set("max_safe_compute_window_s", Json::number(self.max_safe_compute_window_s));
        form.set("checkpoint_overhead_fraction", Json::number(self.checkpoint_overhead_fraction));
        form
    }
}

/// The JSON form of a prediction.
pub open spec fn full_form(p: PredictionView) -> JsonView {
    json::with_field(
        json::with_field(
            json::with_field(JsonView::Object(Map::empty()), "hazards"@, hazards_form(p.hazards)),
            "checkpoint_schedule"@,
            schedule_form(p.checkpoint_schedule),
        ),
        "summary"@,
        summary_form(p.summary),
    )
}

impl HazardPrediction {
    /// The prediction as JSON.
    pub fn to_json(&self) -> (r: Json)
        ensures
            r@ == full_form(self@),
    {
        let mut form = Json::object();
        form.set("hazards", hazards_json(&self.hazards));
        form.set("checkpoint_schedule", schedule_json(&self.checkpoint_schedule));
        form.set("summary", self.summary.to_json());
        form
    }
}

/// The end of the horizon, where the calendar reaches it.
pub open spec fn horizon_end(now: UtcTime, horizon_hours: Double) -> Option<UtcTime> {
    let seconds = double::truncated(
        double::product(horizon_hours, double::integer(3600)),
        i64::MIN as int,
        i64::MAX as int,
    );
    time::shifted(now, seconds * 1000)
}

/// When computation can go on after the first `n` hazards.
pub open spec fn free_from(
    hazards: Seq<HazardView>,
    now: UtcTime,
    t_serialize: Double,
    t_validate: Double,
    n: int,
) -> UtcTime
    decreases n,
{
    if n <= 0 {
        now
    } else {
        match time::reading(hazards[n - 1].end_time) {
            Some(end) => time::shifted(end, schedule::pause_millis(t_serialize, t_validate))->0,
            None => free_from(hazards, now, t_serialize, t_validate, n - 1),
        }
    }
}

/// The longest stretch of undisturbed computation before one of the first `n`
/// hazards, in seconds; each ends early enough to save the state.
pub open spec fn longest_stretch(
    hazards: Seq<HazardView>,
    now: UtcTime,
    t_serialize: Double,
    t_validate: Double,
    n: int,
) -> Double
    decreases n,
{
    if n <= 0 {
        double::integer(0)
    } else {
        let so_far = longest_stretch(hazards, now, t_serialize, t_validate, n - 1);
        match time::reading(hazards[n - 1].start_time) {
            Some(start) => {
                let free = free_from(hazards, now, t_serialize, t_validate, n - 1);
                let stretch = double::difference(
                    double::difference(double::integer(time::seconds_between(start, free)), t_serialize),
                    schedule::safety_margin_s(),
                );
                if double::less(so_far, stretch) {
                    stretch
                } else {
                    so_far
                }
            },
            None => so_far,
        }
    }
}

/// The summary of a prediction: the longest undisturbed stretch, that after the
/// last hazard counted, and the share of the horizon that checkpoints take.
pub open spec fn summarized(
    hazards: Seq<HazardView>,
    schedule: Seq<EntryView>,
    now: UtcTime,
    end: UtcTime,
    t_serialize: Double,
    t_validate: Double,
    horizon_hours: Double,
) -> SummaryView {
    let n = hazards.len() as int;
    let before = longest_stretch(hazards, now, t_serialize, t_validate, n);
    let trailing = double::integer(
        time::seconds_between(end, free_from(hazards, now, t_serialize, t_validate, n)),
    );
    let longest = if double::less(before, trailing) { trailing } else { before };
    let horizon_s = double::product(horizon_hours, double::integer(3600));
    let overhead = if double::less(double::integer(0), horizon_s) {
        double::quotient(
            double::product(double::integer(schedule.len() as int), double::sum(t_serialize, t_validate)),
            horizon_s,
        )
    } else {
        double::integer(0)
    };
    SummaryView {
        total_hazards: hazards.len(),
        total_checkpoints: schedule.len(),
        next_hazard: if n > 0 { Some(hazards[0].start_time) } else { None },
        max_safe_compute_window_s: double::nearest_whole(double::larger(longest, double::integer(0))),
        checkpoint_overhead_fraction: double::to_parts(overhead, 10_000),
    }
}

/// Seconds to write the state; one where the bandwidth is not known.
pub open spec fn serialize_s(state_size_bytes: u64, flash_bandwidth_bps: u64) -> Double {
    if flash_bandwidth_bps > 0 {
        double::quotient(
            double::integer(state_size_bytes as int),
            double::integer(flash_bandwidth_bps as int),
        )
    } else {
        double::integer(1)
    }
}

/// Seconds to validate the state: a tenth of the time to write it.
pub open spec fn validate_s(state_size_bytes: u64, flash_bandwidth_bps: u64) -> Double {
    double::quotient(serialize_s(state_size_bytes, flash_bandwidth_bps), double::integer(10))
}

/// The hazards along a trajectory, in order of time, overlapping ones merged.
pub open spec fn hazards_ahead(trajectory: Seq<TrajectoryPoint>) -> Seq<HazardView> {
    schedule::merged(
        order::ordered(
            hazards_of(HazardType::Eclipse, trajectory) + hazards_of(HazardType::SaaTransit, trajectory) + hazards_of(
                HazardType::ThermalPeak,
                trajectory,
            ),
            schedule::by_start(),
        ),
    )
}

/// The prediction for a trajectory.
#[verifier::opaque]
pub open spec fn predicted(
    trajectory: Seq<TrajectoryPoint>,
    now: UtcTime,
    horizon_hours: Double,
    state_size_bytes: u64,
    flash_bandwidth_bps: u64,
) -> PredictionView {
    let t_serialize = serialize_s(state_size_bytes, flash_bandwidth_bps);
    let t_validate = validate_s(state_size_bytes, flash_bandwidth_bps);
    let hazards = hazards_ahead(trajectory);
    let checkpoints = schedule::schedule_for(hazards, now, t_serialize, t_validate);
    PredictionView {
        hazards,
        checkpoint_schedule: checkpoints,
        summary: summarized(
            hazards,
            checkpoints,
            now,
            horizon_end(now, horizon_hours)->0,
            t_serialize,
            t_validate,
            horizon_hours,
        ),
    }
}

/// The calendar has room for a prediction along a trajectory: for the horizon, and
/// around every hazard along it for the checkpoints.
pub open spec fn room_along(
    trajectory: Seq<TrajectoryPoint>,
    now: UtcTime,
    horizon_hours: Double,
    state_size_bytes: u64,
    flash_bandwidth_bps: u64,
) -> bool {
    &&& dated(trajectory)
    &&& now.valid()
    &&& horizon_end(now, horizon_hours) is Some
    &&& forall|kind: HazardType, start: int, end: int| #[trigger]
        spans(kind, trajectory, start, end) && !(kind is Conjunction) ==> {
            &&& room_before(
                trajectory[start].time,
                serialize_s(state_size_bytes, flash_bandwidth_bps),
            )
            &&& room_after(
                trajectory[end].time,
                serialize_s(state_size_bytes, flash_bandwidth_bps),
                validate_s(state_size_bytes, flash_bandwidth_bps),
            )
        }
}

/// The calendar reaches the horizon and the samples up to it.
pub open spec fn reaches_horizon(now: UtcTime, horizon_hours: Double) -> bool {
    let end = horizon_end(now, horizon_hours);
    &&& now.valid()
    &&& end is Some
    &&& !orbit::cut_short(now, end->0)
}

/// The calendar has room for a prediction wherever hazards are found: for the
/// horizon, for the samples up to it, and around every sample for the checkpoints
/// of a hazard.
pub open spec fn within_calendar(
    now: UtcTime,
    horizon_hours: Double,
    state_size_bytes: u64,
    flash_bandwidth_bps: u64,
) -> bool {
    let end = horizon_end(now, horizon_hours);
    &&& reaches_horizon(now, horizon_hours)
    &&& forall|k: nat| #[trigger]
        orbit::on_grid(now, end->0, k) ==> leaves_room(
            orbit::grid(now, k)->0,
            serialize_s(state_size_bytes, flash_bandwidth_bps),
            validate_s(state_size_bytes, flash_bandwidth_bps),
        )
}

/// The calendar has room for the prediction for a satellite: wherever hazards are
/// found, or around those along the path that `f` gives it.
pub open spec fn foreseeable_for<F: Fn(Transcendental) -> Double>(
    elements: OrbitalElements,
    now: UtcTime,
    horizon_hours: Double,
    state_size_bytes: u64,
    flash_bandwidth_bps: u64,
    f: F,
) -> bool {
    ||| within_calendar(now, horizon_hours, state_size_bytes, flash_bandwidth_bps)
    ||| {
        &&& reaches_horizon(now, horizon_hours)
        &&& exists|m: spec_fn(Transcendental) -> Double| #[trigger]
            orbit::follows(f, m) && room_along(
                orbit::path(elements, now, horizon_end(now, horizon_hours)->0, m),
                now,
                horizon_hours,
                state_size_bytes,
                flash_bandwidth_bps,
            )
    }
}

/// The predicted hazards stand in order of their start, and no two of the same
/// type that follow each other overlap.
pub proof fn prediction_is_in_order(trajectory: Seq<TrajectoryPoint>)
    ensures
        order::is_ordered(hazards_ahead(trajectory), schedule::by_start()),
        forall|i: int, j: int|
            0 <= i && j == i + 1 && j < hazards_ahead(trajectory).len() ==> !schedule::overlaps(
                #[trigger] hazards_ahead(trajectory)[i],
                #[trigger] hazards_ahead(trajectory)[j],
            ),
{
    let found = hazards_of(HazardType::Eclipse, trajectory) + hazards_of(HazardType::SaaTransit, trajectory)
        + hazards_of(HazardType::ThermalPeak, trajectory);
    schedule::lemma_by_start();
    order::ordering_sorts(found, schedule::by_start());
    schedule::merging_keeps_order(order::ordered(found, schedule::by_start()));
    schedule::merging_parts_neighbours(order::ordered(found, schedule::by_start()));
}

/// Every hazard that is found along a trajectory is taken in by one of the
/// predicted ones.
pub proof fn prediction_loses_no_hazard(trajectory: Seq<TrajectoryPoint>, kind: HazardType, i: int)
    requires
        !(kind is Conjunction),
        0 <= i < hazards_of(kind, trajectory).len(),
    ensures
        exists|k: int|
            0 <= k < hazards_ahead(trajectory).len() && schedule::takes_in(
                #[trigger] hazards_ahead(trajectory)[k],
                hazards_of(kind, trajectory)[i],
            ),
{
    let eclipses = hazards_of(HazardType::Eclipse, trajectory);
    let transits = hazards_of(HazardType::SaaTransit, trajectory);
    let peaks = hazards_of(HazardType::ThermalPeak, trajectory);
    let at = match kind {
        HazardType::Eclipse => i,
        HazardType::SaaTransit => eclipses.len() + i,
        _ => eclipses.len() + transits.len() + i,
    };
    assert((eclipses + transits + peaks)[at] == hazards_of(kind, trajectory)[i]);
    let found = eclipses + transits + peaks;
    lemma_found_is_kept(found, at);
    let kept = schedule::merged(order::ordered(found, schedule::by_start()));
    assert(kept == hazards_ahead(trajectory));
    let k = choose|k: int| 0 <= k < kept.len() && schedule::takes_in(#[trigger] kept[k], found[at]);
    assert(schedule::takes_in(hazards_ahead(trajectory)[k], hazards_of(kind, trajectory)[i]));
}

proof fn lemma_found_is_kept(found: Seq<HazardView>, at: int)
    requires
        0 <= at < found.len(),
    ensures
        ({
            let kept = schedule::merged(order::ordered(found, schedule::by_start()));
            exists|k: int| 0 <= k < kept.len() && schedule::takes_in(#[trigger] kept[k], found[at])
        }),
{
    let sorted = order::ordered(found, schedule::by_start());
    schedule::lemma_by_start();
    order::ordering_sorts(found, schedule::by_start());
    order::ordering_loses_nothing(found, schedule::by_start(), at);
    let j = choose|j: int| 0 <= j < sorted.len() && sorted[j] == found[at];
    schedule::merging_loses_nothing(sorted, j);
}

/// The end of the horizon.
fn find_horizon(now: UtcTime, horizon_hours: Double) -> (r: Option<UtcTime>)
    requires
        now.valid(),
    ensures
        r == horizon_end(now, horizon_hours),
        r matches Some(t) ==> t.valid(),
{
    let seconds: i64 = horizon_hours.times(Double::from_i64(3600)).to_i64();
    if seconds < -20_000_000_000_000 || seconds > 20_000_000_000_000 {
        assert(horizon_end(now, horizon_hours) is None);
        return None;
    }
    now.shift_millis(seconds * 1000)
}

fn compute_summary(
    hazards: &Vec<Hazard>,
    checkpoints: &Vec<CheckpointEntry>,
    t_start: UtcTime,
    t_end: UtcTime,
    t_serialize: Double,
    t_validate: Double,
    horizon_hours: Double,
) -> (r: HazardSummary)
    requires
        t_start.valid(),
        t_end.valid(),
        all_leave_room(hazard_list(hazards@), t_serialize, t_validate),
    ensures
        r@ == summarized(
            hazard_list(hazards@),
            entry_list(checkpoints@),
            t_start,
            t_end,
            t_serialize,
            t_validate,
            horizon_hours,
        ),
{
    let ghost all = hazard_list(hazards@);
    let mut max_safe_s = Double::from_i64(0);
    let mut prev_end = t_start;
    let pause: i64 = to_millis(t_validate.plus(t_serialize));
    let mut i: usize = 0;
    while i < hazards.len()
        invariant
            i <= hazards@.len(),
            all == hazard_list(hazards@),
            all_leave_room(all, t_serialize, t_validate),
            prev_end.valid(),
            pause == schedule::pause_millis(t_serialize, t_validate),
            max_safe_s == longest_stretch(all, t_start, t_serialize, t_validate, i as int),
            prev_end == free_from(all, t_start, t_serialize, t_validate, i as int),
        decreases hazards@.len() - i,
    {
        let hazard = &hazards[i];
        assert(all[i as int] == hazard@);
        assert(framed_with_room(all[i as int], t_serialize, t_validate));
        if let Some(h_start) = UtcTime::parse(hazard.start_time.as_str()) {
            let secs: i64 = h_start.seconds_since(prev_end);
            let safe_s = Double::from_i64(secs).minus(t_serialize).minus(safety_margin());
            if max_safe_s.is_less(safe_s) {
                max_safe_s = safe_s;
            }
        }
        if let Some(h_end) = UtcTime::parse(hazard.end_time.as_str()) {
            assert(room_after(h_end, t_serialize, t_validate));
            if let Some(t) = h_end.shift_millis(pause) {
                prev_end = t;
            }
        }
        i = i + 1;
    }
    // Trailing safe window
    let secs: i64 = t_end.seconds_since(prev_end);
    let trailing = Double::from_i64(secs);
    if max_safe_s.is_less(trailing) {
        max_safe_s = trailing;
    }
    let total_checkpoint_time = Double::from_u64(checkpoints.len() as u64).times(t_serialize.plus(t_validate));
    let total_horizon_s = horizon_hours.times(Double::from_i64(3600));
    let overhead = if Double::from_i64(0).is_less(total_horizon_s) {
        total_checkpoint_time.over(total_horizon_s)
    } else {
        Double::from_i64(0)
    };
    let next_hazard = if hazards.len() > 0 {
        assert(all[0] == hazards@[0]@);
        Some(hazards[0].start_time.clone())
    } else {
        None
    };
    HazardSummary {
        total_hazards: hazards.len(),
        total_checkpoints: checkpoints.len(),
        next_hazard,
        max_safe_compute_window_s: max_safe_s.max(Double::from_i64(0)).round(),
        checkpoint_overhead_fraction: overhead.round_to(10_000),
    }
}

/// Whether the calendar has room for a prediction.
pub fn fits_calendar(
    current_time: UtcTime,
    horizon_hours: Double,
    state_size_bytes: u64,
    flash_bandwidth_bps: u64,
) -> (r: bool)
    ensures
        r == within_calendar(current_time, horizon_hours, state_size_bytes, flash_bandwidth_bps),
{
    if !current_time.is_valid() {
        return false;
    }
    let end = match find_horizon(current_time, horizon_hours) {
        Some(t) => t,
        None => {
            return false;
        },
    };
    let times = match sample_times(current_time, end) {
        Some(t) => t,
        None => {
            return false;
        },
    };
    let (t_serialize, t_validate) = times_needed(state_size_bytes, flash_bandwidth_bps);
    let lead: i64 = to_millis(t_serialize.plus(safety_margin()));
    let wait: i64 = to_millis(t_validate);
    let pause: i64 = to_millis(t_validate.plus(t_serialize));
    let ghost count = times@.len();
    proof {
        orbit::lemma_sampled(current_time, end, times@);
    }
    let mut i: usize = 0;
    while i < times.len()
        invariant
            i <= times@.len(),
            count == times@.len(),
            orbit::sampled(current_time, end, times@),
            orbit::passes(current_time, end, count),
            horizon_end(current_time, horizon_hours) == Some(end),
            lead == schedule::lead_millis(t_serialize),
            wait == schedule::as_millis(t_validate),
            pause == schedule::pause_millis(t_serialize, t_validate),
            t_serialize == serialize_s(state_size_bytes, flash_bandwidth_bps),
            t_validate == validate_s(state_size_bytes, flash_bandwidth_bps),
            forall|j: int| 0 <= j < i ==> leaves_room(#[trigger] times@[j], t_serialize, t_validate),
        decreases times@.len() - i,
    {
        let t: UtcTime = times[i];
        assert(orbit::on_grid(current_time, end, i as nat) && orbit::grid(current_time, i as nat) == Some(
            times@[i as int],
        ));
        if lead == i64::MIN {
            return false;
        }
        if t.shift_millis(-lead).is_none() || t.shift_millis(wait).is_none() || t.shift_millis(pause).is_none() {
            return false;
        }
        i = i + 1;
    }
    assert forall|k: nat| #[trigger] orbit::on_grid(current_time, end, k) implies leaves_room(
        orbit::grid(current_time, k)->0,
        t_serialize,
        t_validate,
    ) by {
        orbit::lemma_samples_before(current_time, end, count, k);
        assert(leaves_room(times@[k as int], t_serialize, t_validate));
    }
    true
}

/// Seconds to write and to validate the state.
fn times_needed(state_size_bytes: u64, flash_bandwidth_bps: u64) -> (r: (Double, Double))
    ensures
        r.0 == serialize_s(state_size_bytes, flash_bandwidth_bps),
        r.1 == validate_s(state_size_bytes, flash_bandwidth_bps),
{
    let t_serialize = if flash_bandwidth_bps > 0 {
        Double::from_u64(state_size_bytes).over(Double::from_u64(flash_bandwidth_bps))
    } else {
        Double::from_i64(1)
    };
    (t_serialize, t_serialize.over(Double::from_i64(10)))
}

/// Writing the state takes no negative time.
proof fn lemma_serialize_takes_time(state_size_bytes: u64, flash_bandwidth_bps: u64)
    ensures
        !double::less(serialize_s(state_size_bytes, flash_bandwidth_bps), double::integer(0)),
{
    reveal(double::less);
    double::integer_zero();
    double::integers_are_finite(1);
    double::integers_are_finite(state_size_bytes as int);
    double::integers_are_finite(flash_bandwidth_bps as int);
    if flash_bandwidth_bps > 0 {
        growth::lemma_quotient_rank(
            double::integer(state_size_bytes as int),
            double::integer(flash_bandwidth_bps as int),
        );
    }
}

/// Room around every sample is room around every hazard.
proof fn lemma_room_everywhere(
    points: Seq<TrajectoryPoint>,
    now: UtcTime,
    horizon_hours: Double,
    state_size_bytes: u64,
    flash_bandwidth_bps: u64,
)
    requires
        within_calendar(now, horizon_hours, state_size_bytes, flash_bandwidth_bps),
        orbit::follows_grid(now, horizon_end(now, horizon_hours)->0, points),
        dated(points),
    ensures
        room_along(points, now, horizon_hours, state_size_bytes, flash_bandwidth_bps),
{
    let end = horizon_end(now, horizon_hours)->0;
    assert forall|i: int| 0 <= i < points.len() implies leaves_room(
        (#[trigger] points[i]).time,
        serialize_s(state_size_bytes, flash_bandwidth_bps),
        validate_s(state_size_bytes, flash_bandwidth_bps),
    ) by {
        assert(orbit::grid(now, i as nat) == Some(points[i].time));
        assert(orbit::on_grid(now, end, i as nat));
    }
    assert forall|kind: HazardType, first: int, last: int| #[trigger]
        spans(kind, points, first, last) && !(kind is Conjunction) implies room_before(
        points[first].time,
        serialize_s(state_size_bytes, flash_bandwidth_bps),
    ) && room_after(
        points[last].time,
        serialize_s(state_size_bytes, flash_bandwidth_bps),
        validate_s(state_size_bytes, flash_bandwidth_bps),
    ) by {
        lemma_spans_in_range(kind, points, first, last);
    }
}

/// Propagates the satellite's trajectory, detects the hazards along it, plans the
/// checkpoints for them and sums up what they leave of the time.
pub fn predict_hazards<F: Fn(Transcendental) -> Double>(
    elements: &OrbitalElements,
    current_time: UtcTime,
    horizon_hours: Double,
    state_size_bytes: u64,
    flash_bandwidth_bps: u64,
    f: &F,
) -> (r: HazardPrediction)
    requires
        foreseeable_for(
            *elements,
            current_time,
            horizon_hours,
            state_size_bytes,
            flash_bandwidth_bps,
            *f,
        ),
        orbit::answers_all(*f),
    ensures
        forall|m: spec_fn(Transcendental) -> Double| #[trigger]
            orbit::follows(*f, m) ==> r@ == predicted(
                orbit::path(*elements, current_time, horizon_end(current_time, horizon_hours)->0, m),
                current_time,
                horizon_hours,
                state_size_bytes,
                flash_bandwidth_bps,
            ),
        exists|points: Seq<TrajectoryPoint>| #[trigger]
            orbit::follows_grid(current_time, horizon_end(current_time, horizon_hours)->0, points) && r@ == predicted(
                points,
                current_time,
                horizon_hours,
                state_size_bytes,
                flash_bandwidth_bps,
            ),
        preserves_state(
            r@.checkpoint_schedule,
            r@.hazards,
            current_time,
            serialize_s(state_size_bytes, flash_bandwidth_bps),
        ),
        parted(
            r@.checkpoint_schedule,
            double::product(serialize_s(state_size_bytes, flash_bandwidth_bps), double::ratio(5, 2)),
        ),
        followed_up(
            r@.checkpoint_schedule,
            r@.hazards,
            serialize_s(state_size_bytes, flash_bandwidth_bps),
            validate_s(state_size_bytes, flash_bandwidth_bps),
        ),
        nothing_idle(
            r@.checkpoint_schedule,
            r@.hazards,
            current_time,
            serialize_s(state_size_bytes, flash_bandwidth_bps),
            validate_s(state_size_bytes, flash_bandwidth_bps),
        ),
        forall|i: int| 0 <= i < r@.hazards.len() ==> by_type(#[trigger] r@.hazards[i]),
{
    let t_end = match find_horizon(current_time, horizon_hours) {
        Some(t) => t,
        None => current_time,
    };
    let trajectory = match propagate_trajectory(elements, current_time, t_end, f) {
        Some(points) => points,
        None => Vec::new(),
    };
    assert(orbit::follows_grid(current_time, t_end, trajectory@));
    proof {
        if within_calendar(current_time, horizon_hours, state_size_bytes, flash_bandwidth_bps) {
            lemma_room_everywhere(trajectory@, current_time, horizon_hours, state_size_bytes, flash_bandwidth_bps);
        } else {
            let m = choose|m: spec_fn(Transcendental) -> Double| #[trigger]
                orbit::follows(*f, m) && room_along(
                    orbit::path(*elements, current_time, t_end, m),
                    current_time,
                    horizon_hours,
                    state_size_bytes,
                    flash_bandwidth_bps,
                );
            assert(trajectory@ == orbit::path(*elements, current_time, t_end, m));
        }
    }
    predict_along(
        trajectory.as_slice(),
        current_time,
        horizon_hours,
        state_size_bytes,
        flash_bandwidth_bps,
    )
}

/// Detects the hazards along a trajectory, plans the checkpoints for them and
/// sums up what they leave of the time.
pub fn predict_along(
    trajectory: &[TrajectoryPoint],
    current_time: UtcTime,
    horizon_hours: Double,
    state_size_bytes: u64,
    flash_bandwidth_bps: u64,
) -> (r: HazardPrediction)
    requires
        room_along(
            trajectory@,
            current_time,
            horizon_hours,
            state_size_bytes,
            flash_bandwidth_bps,
        ),
    ensures
        r@ == predicted(
            trajectory@,
            current_time,
            horizon_hours,
            state_size_bytes,
            flash_bandwidth_bps,
        ),
        preserves_state(
            r@.checkpoint_schedule,
            r@.hazards,
            current_time,
            serialize_s(state_size_bytes, flash_bandwidth_bps),
        ),
        parted(
            r@.checkpoint_schedule,
            double::product(serialize_s(state_size_bytes, flash_bandwidth_bps), double::ratio(5, 2)),
        ),
        followed_up(
            r@.checkpoint_schedule,
            r@.hazards,
            serialize_s(state_size_bytes, flash_bandwidth_bps),
            validate_s(state_size_bytes, flash_bandwidth_bps),
        ),
        nothing_idle(
            r@.checkpoint_schedule,
            r@.hazards,
            current_time,
            serialize_s(state_size_bytes, flash_bandwidth_bps),
            validate_s(state_size_bytes, flash_bandwidth_bps),
        ),
        forall|i: int| 0 <= i < r@.hazards.len() ==> by_type(#[trigger] r@.hazards[i]),
{
    proof {
        reveal(predicted);
        lemma_serialize_takes_time(state_size_bytes, flash_bandwidth_bps);
    }
    let (t_serialize, t_validate) = times_needed(state_size_bytes, flash_bandwidth_bps);
    let ghost start_ok = |t: UtcTime| room_before(t, t_serialize);
    let ghost end_ok = |t: UtcTime| room_after(t, t_serialize, t_validate);

    let mut hazards = detect_eclipses(trajectory);
    let ghost eclipses = hazards@;
    let mut transits = detect_saa_transits(trajectory);
    let ghost passes = transits@;
    let mut peaks = detect_thermal_peaks(trajectory);
    let ghost heats = peaks@;
    hazards.append(&mut transits);
    hazards.append(&mut peaks);
    let ghost found = hazards@;
    proof {
        assert(hazard_list(found) =~= hazard_list(eclipses) + hazard_list(passes) + hazard_list(heats));
        assert forall|i: int| 0 <= i < found.len() implies times_within(
            #[trigger] hazard_list(found)[i],
            start_ok,
            end_ok,
        ) by {
            let kind = if i < eclipses.len() {
                assert(found[i] == eclipses[i]);
                HazardType::Eclipse
            } else if i < eclipses.len() + passes.len() {
                assert(found[i] == passes[i - eclipses.len()]);
                HazardType::SaaTransit
            } else {
                assert(found[i] == heats[i - eclipses.len() - passes.len()]);
                HazardType::ThermalPeak
            };
            assert(legible(found[i]@, kind, trajectory@));
            assert(times_within(found[i]@, start_ok, end_ok));
        }
    }

    let sorted = sort_by_time(hazards);
    proof {
        let before = |a: Hazard, b: Hazard| a.no_later(b);
        order::lemma_ordered_mapped(found, before, |h: Hazard| h@, schedule::by_start());
        schedule::lemma_by_start();
        let views = hazard_list(found);
        let list = order::ordered(views, schedule::by_start());
        assert(hazard_list(sorted@) == list);
        order::ordering_sorts(views, schedule::by_start());
        assert forall|i: int| 0 <= i < list.len() implies times_within(#[trigger] list[i], start_ok, end_ok) by {
            assert(views.contains(list[i]));
            let j = choose|j: int| 0 <= j < views.len() && views[j] == list[i];
            assert(times_within(views[j], start_ok, end_ok));
        }
        schedule::lemma_merged_times(list, start_ok, end_ok);
    }
    let hazards = merge_overlapping_hazards(sorted);
    assert(all_leave_room(hazard_list(hazards@), t_serialize, t_validate)) by {
        assert forall|i: int| 0 <= i < hazard_list(hazards@).len() implies framed_with_room(
            #[trigger] hazard_list(hazards@)[i],
            t_serialize,
            t_validate,
        ) by {
            assert(times_within(hazard_list(hazards@)[i], start_ok, end_ok));
        }
    }

    let checkpoint_schedule = compute_checkpoint_schedule(&hazards, current_time, t_serialize, t_validate);
    let t_end = match find_horizon(current_time, horizon_hours) {
        Some(t) => t,
        None => current_time,
    };
    let summary = compute_summary(
        &hazards,
        &checkpoint_schedule,
        current_time,
        t_end,
        t_serialize,
        t_validate,
        horizon_hours,
    );
    proof {
        let ahead = hazards_ahead(trajectory@);
        assert forall|i: int| 0 <= i < ahead.len() implies by_type(#[trigger] ahead[i]) by {
            predicted_hazards_are_by_type(trajectory@, i);
        }
    }
    HazardPrediction { hazards, checkpoint_schedule, summary }
}

} // verus!
