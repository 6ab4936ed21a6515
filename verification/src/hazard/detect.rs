//! Finding hazards along a trajectory.

use vstd::prelude::*;

use super::geometry::{self, is_in_eclipse, point_in_polygon, saa_boundary, Corner, Vector};
use super::windows::{self, scan, Run, Signal};
use super::{hazard_list, Hazard, HazardType, HazardView, RecommendedAction, Severity, TrajectoryPoint};
use crate::double::{self, Double};
use crate::json::{self, Json, JsonView};
use crate::sim_client;
use crate::time::{self, UtcTime};

verus! {

/// Seconds between two samples of a trajectory.
pub const PROPAGATION_STEP_S: i64 = 30;

/// Seconds that a hazard must last to count, unless the horizon cuts it off.
pub const MIN_HAZARD_DURATION_S: i64 = 30;

/// Degrees above which the computer throttles.
pub const THERMAL_THROTTLE_C: i64 = 65;

/// Degrees above which the computer shuts down.
pub const THERMAL_SHUTDOWN_C: i64 = 80;

/// The satellite is in the Earth's shadow.
pub open spec fn eclipsed(p: TrajectoryPoint) -> bool {
    geometry::in_shadow(
        Vector { x: p.eci_x, y: p.eci_y, z: p.eci_z },
        Vector { x: p.sun_x, y: p.sun_y, z: p.sun_z },
    )
}

/// The satellite is in the South Atlantic Anomaly.
pub open spec fn in_saa(p: TrajectoryPoint) -> bool {
    geometry::inside(p.lat, p.lon, geometry::saa_outline())
}

/// The temperature after one more sample: it nears -20 in eclipse and 40 in
/// sunlight.
pub open spec fn next_temperature(temp_c: Double, in_eclipse: bool) -> Double {
    let target = double::integer(if in_eclipse { -20 } else { 40 });
    double::sum(
        temp_c,
        double::product(
            double::difference(target, temp_c),
            sim_client::thermal_share(double::integer(PROPAGATION_STEP_S as int)),
        ),
    )
}

/// The temperature after the first `n` samples; it starts at 25.
pub open spec fn temperature(points: Seq<TrajectoryPoint>, n: int) -> Double
    decreases n,
{
    if n <= 0 {
        double::integer(25)
    } else {
        next_temperature(temperature(points, n - 1), eclipsed(points[n - 1]))
    }
}

/// What a sample says of a hazard.
pub open spec fn signal(kind: HazardType, points: Seq<TrajectoryPoint>, i: int) -> Signal {
    match kind {
        HazardType::Eclipse => if eclipsed(points[i]) {
            Signal::Opens
        } else {
            Signal::Closes
        },
        HazardType::SaaTransit => if in_saa(points[i]) {
            Signal::Opens
        } else {
            Signal::Closes
        },
        HazardType::ThermalPeak => if double::less(
            double::integer(THERMAL_THROTTLE_C as int),
            temperature(points, i + 1),
        ) {
            Signal::Opens
        } else if double::at_most(temperature(points, i + 1), double::integer(THERMAL_THROTTLE_C as int)) {
            Signal::Closes
        } else {
            Signal::Neither
        },
        HazardType::Conjunction => Signal::Neither,
    }
}

/// What the samples say of a hazard.
pub open spec fn signals(kind: HazardType, points: Seq<TrajectoryPoint>) -> Seq<Signal> {
    Seq::new(points.len(), |i: int| signal(kind, points, i))
}

/// The figure of which a hazard reports the peak.
pub open spec fn figure(kind: HazardType, points: Seq<TrajectoryPoint>, i: int) -> Double {
    match kind {
        HazardType::ThermalPeak => temperature(points, i + 1),
        _ => points[i].saa_intensity,
    }
}

/// The largest figure from sample `start` up to, but not with, sample `end`.
pub open spec fn peak(kind: HazardType, points: Seq<TrajectoryPoint>, start: int, end: int) -> Double
    decreases end - start,
{
    if end <= start + 1 {
        figure(kind, points, start)
    } else {
        double::larger(peak(kind, points, start, end - 1), figure(kind, points, end - 1))
    }
}

/// Seconds from one sample to another.
pub open spec fn duration(points: Seq<TrajectoryPoint>, start: int, end: int) -> Double {
    double::integer(time::seconds_between(points[end].time, points[start].time))
}

/// The hazard lasts long enough to count.
pub open spec fn lasting(points: Seq<TrajectoryPoint>, start: int, end: int) -> bool {
    double::at_most(double::integer(MIN_HAZARD_DURATION_S as int), duration(points, start, end))
}

/// How grave a hazard is. One that the horizon cuts off counts as it would if
/// nothing more were known of it.
pub open spec fn gravity(kind: HazardType, top: Double, cut_off: bool) -> Severity {
    match kind {
        HazardType::Eclipse => Severity::Critical,
        HazardType::SaaTransit => if cut_off || double::less(double::ratio(7, 10), top) {
            Severity::High
        } else {
            Severity::Moderate
        },
        _ => if !cut_off && double::less(double::integer(THERMAL_SHUTDOWN_C as int), top) {
            Severity::High
        } else {
            Severity::Moderate
        },
    }
}

pub open spec fn action(kind: HazardType) -> RecommendedAction {
    match kind {
        HazardType::Eclipse => RecommendedAction::CheckpointBeforeAndResumeAfter,
        HazardType::SaaTransit => RecommendedAction::CheckpointAndEnableEcc,
        HazardType::ThermalPeak => RecommendedAction::ThrottleAndCheckpointIfCritical,
        HazardType::Conjunction => RecommendedAction::CheckpointAndPrepareForManeuver,
    }
}

/// How sure the prediction is.
pub open spec fn confidence(kind: HazardType) -> Double {
    match kind {
        HazardType::Eclipse => double::ratio(997, 1000),
        HazardType::SaaTransit => double::ratio(95, 100),
        _ => double::ratio(90, 100),
    }
}

/// What else is said of a hazard.
pub open spec fn details(kind: HazardType, top: Double, cut_off: bool) -> JsonView {
    let none = JsonView::Object(Map::empty());
    match kind {
        HazardType::Eclipse => none,
        HazardType::SaaTransit => json::with_field(
            none,
            "peak_intensity"@,
            json::number_view(double::to_parts(top, 100)),
        ),
        _ => {
            let estimated = json::with_field(
                none,
                "estimated_peak_c"@,
                json::number_view(double::to_parts(top, 10)),
            );
            if cut_off {
                estimated
            } else {
                json::with_field(
                    estimated,
                    "throttle_threshold_c"@,
                    json::number_view(double::integer(THERMAL_THROTTLE_C as int)),
                )
            }
        },
    }
}

/// The hazard from sample `start` to sample `end`, with the given peak.
pub open spec fn described(
    kind: HazardType,
    points: Seq<TrajectoryPoint>,
    start: int,
    end: int,
    top: Double,
    cut_off: bool,
) -> HazardView {
    HazardView {
        hazard_type: kind,
        start_time: time::stamp(points[start].time),
        end_time: time::stamp(points[end].time),
        duration_s: duration(points, start, end),
        severity: gravity(kind, top, cut_off),
        recommended_action: action(kind),
        prediction_confidence: confidence(kind),
        metadata: details(kind, top, cut_off),
    }
}

/// The peak of a hazard that sample `end` closed. The sample that ends a thermal
/// peak still counts.
pub open spec fn closed_peak(kind: HazardType, points: Seq<TrajectoryPoint>, start: int, end: int) -> Double {
    peak(kind, points, start, if kind == HazardType::ThermalPeak { end + 1 } else { end })
}

/// The hazards of the windows that closed, but for those too short to count.
pub open spec fn closed_hazards(
    kind: HazardType,
    points: Seq<TrajectoryPoint>,
    runs: Seq<(int, int)>,
) -> Seq<HazardView>
    decreases runs.len(),
{
    if runs.len() == 0 {
        Seq::empty()
    } else {
        let before = closed_hazards(kind, points, runs.drop_last());
        let (start, end) = runs.last();
        if lasting(points, start, end) {
            before.push(described(kind, points, start, end, closed_peak(kind, points, start, end), false))
        } else {
            before
        }
    }
}

/// The hazards of one kind along a trajectory, in order of time. One that is
/// still open ends with the last sample.
#[verifier::opaque]
pub open spec fn hazards_of(kind: HazardType, points: Seq<TrajectoryPoint>) -> Seq<HazardView> {
    let n = points.len() as int;
    let closed = closed_hazards(kind, points, windows::closed_runs(signals(kind, points), n));
    match windows::open_run(signals(kind, points), n) {
        Some(start) => closed.push(
            described(kind, points, start, n - 1, peak(kind, points, start, n), true),
        ),
        None => closed,
    }
}

/// The windows of an eclipse, or of a pass through the South Atlantic Anomaly,
/// cover exactly the samples at which the satellite is in it.
pub proof fn windows_match_the_samples(points: Seq<TrajectoryPoint>, i: int)
    requires
        0 <= i < points.len(),
    ensures
        eclipsed(points[i]) <==> windows::covered(
            signals(HazardType::Eclipse, points),
            points.len() as int,
            i,
        ),
        in_saa(points[i]) <==> windows::covered(
            signals(HazardType::SaaTransit, points),
            points.len() as int,
            i,
        ),
{
    windows::windows_cover_exactly(signals(HazardType::Eclipse, points), points.len() as int, i);
    windows::windows_cover_exactly(signals(HazardType::SaaTransit, points), points.len() as int, i);
}

/// A hazard of the kind begins with sample `start` and ends with sample `end`.
pub open spec fn spans(kind: HazardType, points: Seq<TrajectoryPoint>, start: int, end: int) -> bool {
    let n = points.len() as int;
    ||| windows::closed_runs(signals(kind, points), n).contains((start, end)) && lasting(points, start, end)
    ||| windows::open_run(signals(kind, points), n) == Some(start) && end == n - 1
}

pub proof fn lemma_spans_in_range(kind: HazardType, points: Seq<TrajectoryPoint>, start: int, end: int)
    requires
        spans(kind, points, start, end),
    ensures
        0 <= start < points.len(),
        0 <= end < points.len(),
{
    let n = points.len() as int;
    windows::lemma_runs_in_range(signals(kind, points), n);
    let runs = windows::closed_runs(signals(kind, points), n);
    if runs.contains((start, end)) {
        let k = choose|k: int| 0 <= k < runs.len() && runs[k] == (start, end);
        assert(runs[k] == (start, end));
    }
}

/// The hazard's times can be read, and are those of the samples that it spans.
pub open spec fn legible(h: HazardView, kind: HazardType, points: Seq<TrajectoryPoint>) -> bool {
    exists|start: int, end: int| #[trigger]
        spans(kind, points, start, end) && read_from(h, points, start, end)
}

/// The hazard's times read as those of two samples.
pub open spec fn read_from(h: HazardView, points: Seq<TrajectoryPoint>, start: int, end: int) -> bool {
    &&& 0 <= start < points.len()
    &&& 0 <= end < points.len()
    &&& time::reading(h.start_time) == Some(points[start].time)
    &&& time::reading(h.end_time) == Some(points[end].time)
}

/// Every time of the trajectory is within the calendar.
pub open spec fn dated(points: Seq<TrajectoryPoint>) -> bool {
    forall|i: int| 0 <= i < points.len() ==> (#[trigger] points[i]).time.valid()
}

fn is_eclipsed(p: &TrajectoryPoint) -> (r: bool)
    ensures
        r == eclipsed(*p),
{
    is_in_eclipse(p.eci_x, p.eci_y, p.eci_z, p.sun_x, p.sun_y, p.sun_z)
}

/// The temperatures after each sample.
fn temperatures(points: &[TrajectoryPoint]) -> (r: Vec<Double>)
    ensures
        r@.len() == points@.len(),
        forall|i: int| 0 <= i < points@.len() ==> #[trigger] r@[i] == temperature(points@, i + 1),
{
    let mut temps: Vec<Double> = Vec::new();
    let mut temp_c = Double::from_i64(25);
    let rate = Double::decimal(1, 2);
    let dt_min = Double::from_i64(PROPAGATION_STEP_S).over(Double::from_i64(60));
    let share = rate.times(dt_min).over(Double::from_i64(60)).min(Double::from_i64(1));
    let mut i: usize = 0;
    while i < points.len()
        invariant
            i <= points@.len(),
            temps@.len() == i,
            temp_c == temperature(points@, i as int),
            share == sim_client::thermal_share(double::integer(PROPAGATION_STEP_S as int)),
            forall|j: int| 0 <= j < i ==> #[trigger] temps@[j] == temperature(points@, j + 1),
        decreases points@.len() - i,
    {
        let target = Double::from_i64(if is_eclipsed(&points[i]) { -20 } else { 40 });
        temp_c = temp_c.plus(target.minus(temp_c).times(share));
        temps.push(temp_c);
        i = i + 1;
    }
    temps
}

/// The figures of which a hazard reports the peak, one per sample.
fn figures(kind: HazardType, points: &[TrajectoryPoint]) -> (r: Vec<Double>)
    ensures
        r@.len() == points@.len(),
        forall|i: int| 0 <= i < points@.len() ==> #[trigger] r@[i] == figure(kind, points@, i),
{
    match kind {
        HazardType::ThermalPeak => temperatures(points),
        _ => {
            let mut out: Vec<Double> = Vec::new();
            let mut i: usize = 0;
            while i < points.len()
                invariant
                    i <= points@.len(),
                    out@.len() == i,
                    !(kind is ThermalPeak),
                    forall|j: int| 0 <= j < i ==> #[trigger] out@[j] == figure(kind, points@, j),
                decreases points@.len() - i,
            {
                out.push(points[i].saa_intensity);
                i = i + 1;
            }
            out
        },
    }
}

/// What the samples say of a hazard.
fn read_signals(kind: HazardType, points: &[TrajectoryPoint], figures: &Vec<Double>) -> (r: Vec<Signal>)
    requires
        figures@.len() == points@.len(),
        forall|i: int| 0 <= i < points@.len() ==> #[trigger] figures@[i] == figure(kind, points@, i),
    ensures
        r@ == signals(kind, points@),
{
    let boundary: Vec<Corner> = saa_boundary();
    let throttle = Double::from_i64(THERMAL_THROTTLE_C);
    let mut out: Vec<Signal> = Vec::new();
    let mut i: usize = 0;
    while i < points.len()
        invariant
            i <= points@.len(),
            out@.len() == i,
            boundary@ == geometry::saa_outline(),
            throttle == double::integer(THERMAL_THROTTLE_C as int),
            figures@.len() == points@.len(),
            forall|j: int| 0 <= j < points@.len() ==> #[trigger] figures@[j] == figure(kind, points@, j),
            forall|j: int| 0 <= j < i ==> #[trigger] out@[j] == signal(kind, points@, j),
        decreases points@.len() - i,
    {
        let p = &points[i];
        let s = match kind {
            HazardType::Eclipse => if is_eclipsed(p) {
                Signal::Opens
            } else {
                Signal::Closes
            },
            HazardType::SaaTransit => if point_in_polygon(p.lat, p.lon, boundary.as_slice()) {
                Signal::Opens
            } else {
                Signal::Closes
            },
            HazardType::ThermalPeak => {
                let temp_c = figures[i];
                if throttle.is_less(temp_c) {
                    Signal::Opens
                } else if temp_c.is_at_most(throttle) {
                    Signal::Closes
                } else {
                    Signal::Neither
                }
            },
            HazardType::Conjunction => Signal::Neither,
        };
        out.push(s);
        i = i + 1;
    }
    assert(out@ =~= signals(kind, points@));
    out
}

/// The largest of the figures from `start` up to, but not with, `end`.
fn find_peak(
    kind: HazardType,
    points: &[TrajectoryPoint],
    figures: &Vec<Double>,
    start: usize,
    end: usize,
) -> (r: Double)
    requires
        start < end <= points@.len(),
        figures@.len() == points@.len(),
        forall|i: int| 0 <= i < points@.len() ==> #[trigger] figures@[i] == figure(kind, points@, i),
    ensures
        r == peak(kind, points@, start as int, end as int),
{
    let mut top = figures[start];
    let mut i: usize = start + 1;
    while i < end
        invariant
            start < i <= end <= points@.len(),
            figures@.len() == points@.len(),
            forall|j: int| 0 <= j < points@.len() ==> #[trigger] figures@[j] == figure(kind, points@, j),
            top == peak(kind, points@, start as int, i as int),
        decreases end - i,
    {
        top = top.max(figures[i]);
        i = i + 1;
    }
    top
}

/// The hazard from sample `start` to sample `end`.
fn describe(
    kind: HazardType,
    points: &[TrajectoryPoint],
    start: usize,
    end: usize,
    top: Double,
    cut_off: bool,
) -> (r: Hazard)
    requires
        dated(points@),
        start < points@.len(),
        end < points@.len(),
    ensures
        r@ == described(kind, points@, start as int, end as int, top, cut_off),
        read_from(r@, points@, start as int, end as int),
{
    let from: UtcTime = points[start].time;
    let to: UtcTime = points[end].time;
    let secs: i64 = to.seconds_since(from);
    let severity = match kind {
        HazardType::Eclipse => Severity::Critical,
        HazardType::SaaTransit => if cut_off || Double::decimal(7, 10).is_less(top) {
            Severity::High
        } else {
            Severity::Moderate
        },
        _ => if !cut_off && Double::from_i64(THERMAL_SHUTDOWN_C).is_less(top) {
            Severity::High
        } else {
            Severity::Moderate
        },
    };
    let recommended_action = match kind {
        HazardType::Eclipse => RecommendedAction::CheckpointBeforeAndResumeAfter,
        HazardType::SaaTransit => RecommendedAction::CheckpointAndEnableEcc,
        HazardType::ThermalPeak => RecommendedAction::ThrottleAndCheckpointIfCritical,
        HazardType::Conjunction => RecommendedAction::CheckpointAndPrepareForManeuver,
    };
    let prediction_confidence = match kind {
        HazardType::Eclipse => Double::decimal(997, 1000),
        HazardType::SaaTransit => Double::decimal(95, 100),
        _ => Double::decimal(90, 100),
    };
    let mut metadata = Json::object();
    match kind {
        HazardType::Eclipse => {},
        HazardType::SaaTransit => {
            metadata.set("peak_intensity", Json::number(top.round_to(100)));
        },
        _ => {
            metadata.set("estimated_peak_c", Json::number(top.round_to(10)));
            if !cut_off {
                metadata.set("throttle_threshold_c", Json::number(Double::from_i64(THERMAL_THROTTLE_C)));
            }
        },
    }
    let start_time = from.to_rfc3339();
    let end_time = to.to_rfc3339();
    assert(time::reading(start_time@) == Some(points@[start as int].time));
    assert(time::reading(end_time@) == Some(points@[end as int].time));
    Hazard {
        hazard_type: kind,
        start_time,
        end_time,
        duration_s: Double::from_i64(secs),
        severity,
        recommended_action,
        prediction_confidence,
        metadata,
    }
}

fn detect(kind: HazardType, points: &[TrajectoryPoint]) -> (r: Vec<Hazard>)
    requires
        dated(points@),
    ensures
        hazard_list(r@) == hazards_of(kind, points@),
        forall|k: int| 0 <= k < r@.len() ==> legible(#[trigger] r@[k]@, kind, points@),
{
    proof {
        reveal(hazards_of);
    }
    let values = figures(kind, points);
    let found = read_signals(kind, points, &values);
    let (runs, open): (Vec<Run>, Option<usize>) = scan(&found);
    let ghost all = windows::closed_runs(signals(kind, points@), points@.len() as int);
    let mut hazards: Vec<Hazard> = Vec::new();
    let mut i: usize = 0;
    proof {
        assert(all.take(0) =~= Seq::<(int, int)>::empty());
        assert(hazard_list(hazards@) =~= Seq::<HazardView>::empty());
    }
    while i < runs.len()
        invariant
            i <= runs@.len(),
            dated(points@),
            values@.len() == points@.len(),
            forall|j: int| 0 <= j < points@.len() ==> #[trigger] values@[j] == figure(kind, points@, j),
            all == windows::closed_runs(signals(kind, points@), points@.len() as int),
            windows::run_list(runs@) == all,
            forall|k: int| 0 <= k < runs@.len() ==> (#[trigger] runs@[k]).start < runs@[k].end < points@.len(),
            hazard_list(hazards@) == closed_hazards(kind, points@, all.take(i as int)),
            forall|k: int| 0 <= k < hazards@.len() ==> legible(#[trigger] hazards@[k]@, kind, points@),
        decreases runs@.len() - i,
    {
        let Run { start, end } = runs[i];
        let secs: i64 = points[end].time.seconds_since(points[start].time);
        proof {
            assert(all.take(i + 1).drop_last() =~= all.take(i as int));
            assert(all.take(i + 1).last() == (start as int, end as int));
        }
        if Double::from_i64(MIN_HAZARD_DURATION_S).is_at_most(Double::from_i64(secs)) {
            let last: usize = match kind {
                HazardType::ThermalPeak => end + 1,
                _ => end,
            };
            let top = find_peak(kind, points, &values, start, last);
            let hazard = describe(kind, points, start, end, top, false);
            assert(all[i as int] == (start as int, end as int));
            assert(spans(kind, points@, start as int, end as int));
            let ghost before = hazards@;
            let ghost view = hazard@;
            hazards.push(hazard);
            assert(hazard_list(hazards@) =~= hazard_list(before).push(view));
        }
        i = i + 1;
    }
    assert(all.take(i as int) =~= all);
    if let Some(start) = open {
        let n: usize = points.len();
        let top = find_peak(kind, points, &values, start, n);
        let hazard = describe(kind, points, start, n - 1, top, true);
        assert(spans(kind, points@, start as int, n - 1));
        let ghost before = hazards@;
        let ghost view = hazard@;
        hazards.push(hazard);
        assert(hazard_list(hazards@) =~= hazard_list(before).push(view));
    }
    hazards
}

/// Eclipses along a trajectory.
pub fn detect_eclipses(trajectory: &[TrajectoryPoint]) -> (r: Vec<Hazard>)
    requires
        dated(trajectory@),
    ensures
        hazard_list(r@) == hazards_of(HazardType::Eclipse, trajectory@),
        forall|k: int| 0 <= k < r@.len() ==> legible(#[trigger] r@[k]@, HazardType::Eclipse, trajectory@),
{
    detect(HazardType::Eclipse, trajectory)
}

/// Passes through the South Atlantic Anomaly along a trajectory.
pub fn detect_saa_transits(trajectory: &[TrajectoryPoint]) -> (r: Vec<Hazard>)
    requires
        dated(trajectory@),
    ensures
        hazard_list(r@) == hazards_of(HazardType::SaaTransit, trajectory@),
        forall|k: int| 0 <= k < r@.len() ==> legible(#[trigger] r@[k]@, HazardType::SaaTransit, trajectory@),
{
    detect(HazardType::SaaTransit, trajectory)
}

/// Thermal peaks along a trajectory.
pub fn detect_thermal_peaks(trajectory: &[TrajectoryPoint]) -> (r: Vec<Hazard>)
    requires
        dated(trajectory@),
    ensures
        hazard_list(r@) == hazards_of(HazardType::ThermalPeak, trajectory@),
        forall|k: int| 0 <= k < r@.len() ==> legible(#[trigger] r@[k]@, HazardType::ThermalPeak, trajectory@),
{
    detect(HazardType::ThermalPeak, trajectory)
}

} // verus!
