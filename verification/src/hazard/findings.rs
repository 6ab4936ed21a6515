//! What the hazards that are found have to do with the samples.

use vstd::prelude::*;

use super::detect::{
    closed_hazards, closed_peak, dated, described, eclipsed, hazards_of, in_saa, lasting, peak, signals, temperature,
};
use super::predict::hazards_ahead;
use super::windows::{self, Signal};
use super::{order, schedule};
use super::{HazardType, HazardView, RecommendedAction, Severity, TrajectoryPoint};
use crate::double::growth;
use crate::double::model::{size, UNIT_EXPONENT};
use crate::double::{self, Double};
use crate::sim_client::{self, SatelliteState};
use crate::time::{self, UtcTime};

verus! {

/// The sample is one of the hazard: it is in eclipse, in the South Atlantic Anomaly,
/// or hotter than 65 degrees.
pub open spec fn flagged(kind: HazardType, points: Seq<TrajectoryPoint>, i: int) -> bool {
    match kind {
        HazardType::Eclipse => eclipsed(points[i]),
        HazardType::SaaTransit => in_saa(points[i]),
        HazardType::ThermalPeak => double::less(double::integer(65), temperature(points, i + 1)),
        HazardType::Conjunction => false,
    }
}

/// Samples `start` up to, but not with, `end` are flagged, and the one before them is
/// not; nor is `end`, unless the horizon cuts them off there.
pub open spec fn stretch(
    kind: HazardType,
    points: Seq<TrajectoryPoint>,
    start: int,
    end: int,
    cut_off: bool,
) -> bool {
    &&& 0 <= start <= end < points.len()
    &&& forall|i: int| start <= i < end ==> #[trigger] flagged(kind, points, i)
    &&& start > 0 ==> !flagged(kind, points, start - 1)
    &&& if cut_off {
        end == points.len() - 1 && flagged(kind, points, end)
    } else {
        start < end && !flagged(kind, points, end)
    }
}

/// The hazard is that of the stretch: it starts and ends with it, and lasts as long.
pub open spec fn tells_of(h: HazardView, kind: HazardType, points: Seq<TrajectoryPoint>, start: int, end: int) -> bool {
    &&& h.hazard_type == kind
    &&& h.start_time == time::stamp(points[start].time)
    &&& h.end_time == time::stamp(points[end].time)
    &&& h.duration_s == double::integer(time::seconds_between(points[end].time, points[start].time))
}

/// The hazard has the action, the confidence and a severity of its type.
pub open spec fn by_type(h: HazardView) -> bool {
    match h.hazard_type {
        HazardType::Eclipse => {
            &&& h.severity == Severity::Critical
            &&& h.recommended_action == RecommendedAction::CheckpointBeforeAndResumeAfter
            &&& h.prediction_confidence == double::ratio(997, 1000)
        },
        HazardType::SaaTransit => {
            &&& h.severity == Severity::High || h.severity == Severity::Moderate
            &&& h.recommended_action == RecommendedAction::CheckpointAndEnableEcc
            &&& h.prediction_confidence == double::ratio(95, 100)
        },
        HazardType::ThermalPeak => {
            &&& h.severity == Severity::High || h.severity == Severity::Moderate
            &&& h.recommended_action == RecommendedAction::ThrottleAndCheckpointIfCritical
            &&& h.prediction_confidence == double::ratio(9, 10) || h.prediction_confidence == double::ratio(90, 100)
        },
        HazardType::Conjunction => false,
    }
}

/// The samples tell yes or no.
spec fn decisive(signals: Seq<Signal>) -> bool {
    forall|i: int| 0 <= i < signals.len() ==> (#[trigger] signals[i]) is Opens || signals[i] is Closes
}

spec fn opens(signals: Seq<Signal>, i: int) -> bool {
    signals[i] is Opens
}

proof fn lemma_runs(s: Seq<Signal>, n: int)
    requires
        decisive(s),
        0 <= n <= s.len(),
    ensures
        windows::open_run(s, n) matches Some(a) ==> {
            &&& 0 <= a < n
            &&& forall|i: int| a <= i < n ==> #[trigger] opens(s, i)
            &&& a > 0 ==> !opens(s, a - 1)
        },
        windows::open_run(s, n) is None ==> n == 0 || !opens(s, n - 1),
        forall|k: int|
            0 <= k < windows::closed_runs(s, n).len() ==> {
                let (a, b) = #[trigger] windows::closed_runs(s, n)[k];
                &&& 0 <= a < b < n
                &&& forall|i: int| a <= i < b ==> #[trigger] opens(s, i)
                &&& a > 0 ==> !opens(s, a - 1)
                &&& !opens(s, b)
            },
    decreases n,
{
    if n > 0 {
        lemma_runs(s, n - 1);
        assert(s[n - 1] is Opens || s[n - 1] is Closes);
        let before = windows::closed_runs(s, n - 1);
        let after = windows::closed_runs(s, n);
        assert forall|k: int| 0 <= k < after.len() implies {
            let (a, b) = #[trigger] after[k];
            &&& 0 <= a < b < n
            &&& forall|i: int| a <= i < b ==> #[trigger] opens(s, i)
            &&& a > 0 ==> !opens(s, a - 1)
            &&& !opens(s, b)
        } by {
            if k < before.len() {
                assert(after[k] == before[k]);
            }
        }
    }
}

proof fn lemma_signals(kind: HazardType, points: Seq<TrajectoryPoint>)
    requires
        kind is Eclipse || kind is SaaTransit,
    ensures
        decisive(signals(kind, points)),
        forall|i: int|
            0 <= i < points.len() ==> (#[trigger] opens(signals(kind, points), i) <==> flagged(kind, points, i)),
{
}

/// Each hazard of the windows that closed is that of one of them which lasts.
proof fn lemma_closed_hazard(kind: HazardType, points: Seq<TrajectoryPoint>, runs: Seq<(int, int)>, k: int) -> (r: int)
    requires
        0 <= k < closed_hazards(kind, points, runs).len(),
    ensures
        0 <= r < runs.len(),
        lasting(points, runs[r].0, runs[r].1),
        closed_hazards(kind, points, runs)[k] == described(
            kind,
            points,
            runs[r].0,
            runs[r].1,
            closed_peak(kind, points, runs[r].0, runs[r].1),
            false,
        ),
    decreases runs.len(),
{
    let rest = runs.drop_last();
    let before = closed_hazards(kind, points, rest);
    if k < before.len() {
        let r = lemma_closed_hazard(kind, points, rest, k);
        assert(runs[r] == rest[r]);
        r
    } else {
        runs.len() - 1
    }
}

/// Each window that closed and lasts has its hazard.
proof fn lemma_closed_window(kind: HazardType, points: Seq<TrajectoryPoint>, runs: Seq<(int, int)>, r: int) -> (k: int)
    requires
        0 <= r < runs.len(),
        lasting(points, runs[r].0, runs[r].1),
    ensures
        0 <= k < closed_hazards(kind, points, runs).len(),
        closed_hazards(kind, points, runs)[k] == described(
            kind,
            points,
            runs[r].0,
            runs[r].1,
            closed_peak(kind, points, runs[r].0, runs[r].1),
            false,
        ),
    decreases runs.len(),
{
    let rest = runs.drop_last();
    let before = closed_hazards(kind, points, rest);
    if r < rest.len() {
        assert(runs[r] == rest[r]);
        lemma_closed_window(kind, points, rest, r)
    } else {
        before.len() as int
    }
}

/// Every eclipse and every pass through the anomaly that is found is that of a
/// stretch of samples, one of half a minute or more unless the horizon cuts it off,
/// and has the action, the confidence and a severity of its type.
pub proof fn hazards_tell_of_stretches(kind: HazardType, points: Seq<TrajectoryPoint>, k: int)
    requires
        kind is Eclipse || kind is SaaTransit,
        dated(points),
        forall|i: int| 0 <= i < points.len() ==> !(#[trigger] points[i]).saa_intensity.nan(),
        0 <= k < hazards_of(kind, points).len(),
    ensures
        by_type(hazards_of(kind, points)[k]),
        exists|start: int, end: int, cut_off: bool| #[trigger]
            stretch(kind, points, start, end, cut_off) && tells_of(
                hazards_of(kind, points)[k],
                kind,
                points,
                start,
                end,
            ) && (cut_off || time::seconds_between(points[end].time, points[start].time) >= 30) && (kind is SaaTransit
                ==> (hazards_of(kind, points)[k].severity == Severity::High <==> cut_off || strong(
                points,
                start,
                end,
            ))),
{
    reveal(hazards_of);
    let n = points.len() as int;
    let s = signals(kind, points);
    lemma_signals(kind, points);
    lemma_runs(s, n);
    let runs = windows::closed_runs(s, n);
    let closed = closed_hazards(kind, points, runs);
    if k < closed.len() {
        let r = lemma_closed_hazard(kind, points, runs, k);
        let (a, b) = runs[r];
        lemma_flags(kind, points, a, b);
        lemma_lasting(points, a, b);
        assert(stretch(kind, points, a, b, false));
        assert(points[a].time.valid() && points[b].time.valid());
        if kind is SaaTransit {
            lemma_strong(points, a, b);
        }
    } else {
        let a = windows::open_run(s, n)->0;
        lemma_flags(kind, points, a, n - 1);
        assert(opens(s, n - 1));
        assert(stretch(kind, points, a, n - 1, true));
    }
}

/// The anomaly is stronger than 0.7 at some sample of the stretch.
pub open spec fn strong(points: Seq<TrajectoryPoint>, start: int, end: int) -> bool {
    exists|i: int| start <= i < end && double::less(double::ratio(7, 10), (#[trigger] points[i]).saa_intensity)
}

proof fn lemma_flags(kind: HazardType, points: Seq<TrajectoryPoint>, a: int, b: int)
    requires
        kind is Eclipse || kind is SaaTransit,
        0 <= a <= b < points.len(),
        forall|i: int| a <= i < b ==> #[trigger] opens(signals(kind, points), i),
    ensures
        forall|i: int| a <= i < b ==> #[trigger] flagged(kind, points, i),
{
    lemma_signals(kind, points);
    assert forall|i: int| a <= i < b implies #[trigger] flagged(kind, points, i) by {
        assert(opens(signals(kind, points), i));
    }
}

proof fn lemma_lasting(points: Seq<TrajectoryPoint>, a: int, b: int)
    ensures
        ({
            let s = time::seconds_between(points[b].time, points[a].time);
            -0x20_0000_0000_0000 <= s <= 0x20_0000_0000_0000 ==> (lasting(points, a, b) <==> s >= 30)
        }),
{
    let s = time::seconds_between(points[b].time, points[a].time);
    if -0x20_0000_0000_0000 <= s <= 0x20_0000_0000_0000 {
        double::integers_are_exact(s);
        double::integers_are_exact(30);
        growth::less_by_value(double::integer(30), double::integer(s));
        let o = double::one() as int;
        vstd::arithmetic::power2::lemma_pow2_pos(UNIT_EXPONENT as nat);
        assert(30 * o <= s * o <==> s >= 30) by (nonlinear_arith)
            requires
                o > 0,
        ;
    }
}

proof fn lemma_strong(points: Seq<TrajectoryPoint>, a: int, b: int)
    requires
        0 <= a < b <= points.len(),
        forall|i: int| 0 <= i < points.len() ==> !(#[trigger] points[i]).saa_intensity.nan(),
    ensures
        double::less(double::ratio(7, 10), closed_peak(HazardType::SaaTransit, points, a, b)) <==> strong(points, a, b),
{
    reveal(double::less);
    reveal(double::at_most);
    peaks_are_the_largest_figures(points, a, b);
    let top = peak(HazardType::SaaTransit, points, a, b);
    assert(closed_peak(HazardType::SaaTransit, points, a, b) == top);
    if strong(points, a, b) {
        let i = choose|i: int|
            a <= i < b && double::less(double::ratio(7, 10), (#[trigger] points[i]).saa_intensity);
        assert(double::at_most(points[i].saa_intensity, top));
    }
}

/// The peak of a stretch is the figure of one of its samples, and no other has a
/// larger one.
pub proof fn peaks_are_the_largest_figures(points: Seq<TrajectoryPoint>, start: int, end: int)
    requires
        0 <= start < end <= points.len(),
        forall|i: int| start <= i < end ==> !(#[trigger] points[i]).saa_intensity.nan(),
    ensures
        ({
            let top = peak(HazardType::SaaTransit, points, start, end);
            &&& !top.nan()
            &&& exists|i: int| start <= i < end && top == (#[trigger] points[i]).saa_intensity
            &&& forall|i: int| start <= i < end ==> double::at_most((#[trigger] points[i]).saa_intensity, top)
        }),
    decreases end - start,
{
    reveal(double::less);
    reveal(double::at_most);
    if end > start + 1 {
        peaks_are_the_largest_figures(points, start, end - 1);
        assert(!points[end - 1].saa_intensity.nan());
    } else {
        assert(peak(HazardType::SaaTransit, points, start, end) == points[start].saa_intensity);
    }
}

/// Every sample in eclipse or in the anomaly belongs to a hazard that is found,
/// unless its stretch is over within half a minute.
pub proof fn no_stretch_is_missed(kind: HazardType, points: Seq<TrajectoryPoint>, i: int)
    requires
        kind is Eclipse || kind is SaaTransit,
        dated(points),
        0 <= i < points.len(),
        flagged(kind, points, i),
    ensures
        exists|start: int, end: int, cut_off: bool| #[trigger]
            stretch(kind, points, start, end, cut_off) && start <= i <= end && (cut_off || time::seconds_between(
                points[end].time,
                points[start].time,
            ) >= 30 ==> exists|k: int|
                0 <= k < hazards_of(kind, points).len() && tells_of(
                    #[trigger] hazards_of(kind, points)[k],
                    kind,
                    points,
                    start,
                    end,
                )),
{
    reveal(hazards_of);
    let n = points.len() as int;
    let s = signals(kind, points);
    lemma_signals(kind, points);
    assert(opens(s, i));
    lemma_runs(s, n);
    windows::windows_cover_exactly(s, n, i);
    let runs = windows::closed_runs(s, n);
    let closed = closed_hazards(kind, points, runs);
    let all = hazards_of(kind, points);
    if exists|k: int| 0 <= k < runs.len() && (#[trigger] runs[k]).0 <= i && i < runs[k].1 {
        let r = choose|k: int| 0 <= k < runs.len() && (#[trigger] runs[k]).0 <= i && i < runs[k].1;
        let (a, b) = runs[r];
        lemma_flags(kind, points, a, b);
        assert(stretch(kind, points, a, b, false));
        assert(points[a].time.valid() && points[b].time.valid());
        lemma_lasting(points, a, b);
        if lasting(points, a, b) {
            let k = lemma_closed_window(kind, points, runs, r);
            assert(all[k] == closed[k]);
            assert(tells_of(all[k], kind, points, a, b));
        }
    } else {
        let a = windows::open_run(s, n)->0;
        lemma_flags(kind, points, a, n - 1);
        assert(opens(s, n - 1));
        assert(stretch(kind, points, a, n - 1, true));
        let k = closed.len() as int;
        assert(tells_of(all[k], kind, points, a, n - 1));
    }
}

/// The temperature along a trajectory is that of the power and thermal model, from
/// 25 degrees on, half a minute at a time and without computing.
pub proof fn temperatures_are_those_of_the_model(points: Seq<TrajectoryPoint>, i: int)
    requires
        0 <= i < points.len(),
    ensures
        temperature(points, 0) == double::integer(25),
        temperature(points, i + 1) == sim_client::temperature_after(
            temperature(points, i),
            double::integer(30),
            eclipsed(points[i]),
            false,
        ),
{
    double::integers_add_up(-20, 0);
    double::integers_add_up(40, 0);
}

/// Merging keeps what goes with the type.
proof fn lemma_merged_by_type(hazards: Seq<HazardView>)
    requires
        forall|i: int| 0 <= i < hazards.len() ==> by_type(#[trigger] hazards[i]),
    ensures
        forall|k: int| 0 <= k < schedule::merged(hazards).len() ==> by_type(#[trigger] schedule::merged(hazards)[k]),
    decreases hazards.len(),
{
    if hazards.len() > 0 {
        let rest = hazards.drop_last();
        assert forall|i: int| 0 <= i < rest.len() implies by_type(#[trigger] rest[i]) by {
            assert(rest[i] == hazards[i]);
        }
        lemma_merged_by_type(rest);
        let before = schedule::merged(rest);
        let after = schedule::merged(hazards);
        assert(by_type(hazards[hazards.len() - 1]));
        assert forall|k: int| 0 <= k < after.len() implies by_type(#[trigger] after[k]) by {
            if k < before.len() {
                assert(by_type(before[k]));
            }
        }
    }
}

proof fn lemma_found_by_type(kind: HazardType, points: Seq<TrajectoryPoint>, k: int)
    requires
        !(kind is Conjunction),
        0 <= k < hazards_of(kind, points).len(),
    ensures
        by_type(hazards_of(kind, points)[k]),
{
    reveal(hazards_of);
    let n = points.len() as int;
    let runs = windows::closed_runs(signals(kind, points), n);
    if k < closed_hazards(kind, points, runs).len() {
        let r = lemma_closed_hazard(kind, points, runs, k);
    }
}

/// Every predicted hazard has the action, the confidence and a severity of its type:
/// an eclipse is critical, and computation stops for it and resumes after; in the
/// anomaly it goes on with error correction.
pub proof fn predicted_hazards_are_by_type(trajectory: Seq<TrajectoryPoint>, k: int)
    requires
        0 <= k < hazards_ahead(trajectory).len(),
    ensures
        by_type(hazards_ahead(trajectory)[k]),
{
    let (a, b, c) = (
        hazards_of(HazardType::Eclipse, trajectory),
        hazards_of(HazardType::SaaTransit, trajectory),
        hazards_of(HazardType::ThermalPeak, trajectory),
    );
    let found = a + b + c;
    assert forall|i: int| 0 <= i < found.len() implies by_type(#[trigger] found[i]) by {
        if i < a.len() {
            lemma_found_by_type(HazardType::Eclipse, trajectory, i);
        } else if i < a.len() + b.len() {
            lemma_found_by_type(HazardType::SaaTransit, trajectory, i - a.len());
        } else {
            lemma_found_by_type(HazardType::ThermalPeak, trajectory, i - a.len() - b.len());
        }
    }
    schedule::lemma_by_start();
    let sorted = order::ordered(found, schedule::by_start());
    order::ordering_sorts(found, schedule::by_start());
    assert forall|i: int| 0 <= i < sorted.len() implies by_type(#[trigger] sorted[i]) by {
        assert(found.contains(sorted[i]));
        let j = choose|j: int| 0 <= j < found.len() && found[j] == sorted[i];
        assert(by_type(found[j]));
    }
    lemma_merged_by_type(sorted);
}

/// A hazard that two were joined to lasts from the start of the first to the later
/// end.
pub proof fn joined_hazards_last_from_first_to_last(a: HazardView, b: HazardView)
    ensures
        ({
            let h = schedule::joined(a, b);
            &&& h.start_time == a.start_time
            &&& h.end_time == a.end_time || h.end_time == b.end_time
            &&& crate::text::text_at_most(a.end_time, h.end_time)
            &&& crate::text::text_at_most(b.end_time, h.end_time)
            &&& time::reading(h.start_time) is Some && time::reading(h.end_time) is Some ==> h.duration_s
                == double::integer(
                time::seconds_between(time::reading(h.end_time)->0, time::reading(h.start_time)->0),
            )
            &&& h.severity == a.severity || h.severity == b.severity
            &&& h.recommended_action == a.recommended_action
            &&& h.prediction_confidence == a.prediction_confidence
            &&& h.hazard_type == a.hazard_type
        }),
{
    crate::text::text_order_total(a.end_time, b.end_time);
    crate::text::text_order_reflexive(a.end_time);
    crate::text::text_order_reflexive(b.end_time);
}

/// Predicted hazards stand in order of their start; of two neighbours of one type the
/// second starts behind the end of the first.
pub proof fn predicted_hazards_follow_each_other(trajectory: Seq<TrajectoryPoint>)
    ensures
        ({
            let h = hazards_ahead(trajectory);
            &&& forall|i: int, j: int|
                0 <= i <= j < h.len() ==> crate::text::text_at_most(
                    (#[trigger] h[i]).start_time,
                    (#[trigger] h[j]).start_time,
                )
            &&& forall|i: int, j: int|
                0 <= i && j == i + 1 && j < h.len() && (#[trigger] h[i]).hazard_type == (#[trigger] h[j]).hazard_type
                    ==> !crate::text::text_at_most(h[j].start_time, h[i].end_time)
        }),
{
    super::predict::prediction_is_in_order(trajectory);
    let h = hazards_ahead(trajectory);
    assert forall|i: int, j: int| 0 <= i <= j < h.len() implies crate::text::text_at_most(
        (#[trigger] h[i]).start_time,
        (#[trigger] h[j]).start_time,
    ) by {
        assert(schedule::by_start()(h[i], h[j]));
    }
    assert forall|i: int, j: int|
        0 <= i && j == i + 1 && j < h.len() && (#[trigger] h[i]).hazard_type == (#[trigger] h[j]).hazard_type
            implies !crate::text::text_at_most(h[j].start_time, h[i].end_time) by {
        assert(!schedule::overlaps(h[i], h[j]));
    }
}

/// Hazards of which no two neighbours of one type overlap or touch stay as they are.
pub proof fn merging_leaves_what_lies_apart(hazards: Seq<HazardView>)
    requires
        forall|i: int, j: int|
            0 <= i && j == i + 1 && j < hazards.len() && (#[trigger] hazards[i]).hazard_type == (
            #[trigger] hazards[j]).hazard_type ==> !crate::text::text_at_most(
                hazards[j].start_time,
                hazards[i].end_time,
            ),
    ensures
        schedule::merged(hazards) == hazards,
    decreases hazards.len(),
{
    if hazards.len() > 0 {
        let rest = hazards.drop_last();
        let n = hazards.len() - 1;
        assert forall|i: int, j: int|
            0 <= i && j == i + 1 && j < rest.len() && (#[trigger] rest[i]).hazard_type == (
            #[trigger] rest[j]).hazard_type implies !crate::text::text_at_most(
            rest[j].start_time,
            rest[i].end_time,
        ) by {
            assert(rest[i] == hazards[i] && rest[j] == hazards[j]);
        }
        merging_leaves_what_lies_apart(rest);
        if n > 0 {
            assert(rest.last() == hazards[n - 1]);
            assert(hazards.last() == hazards[n]);
        }
        assert(rest.push(hazards.last()) =~= hazards);
    } else {
        assert(schedule::merged(hazards) =~= hazards);
    }
}

/// The temperature along a trajectory stays between -20 and 40 degrees, but for a
/// billionth.
pub proof fn temperatures_stay_between_their_targets(points: Seq<TrajectoryPoint>, n: int)
    requires
        0 <= n <= points.len(),
    ensures
        ({
            let (t, o) = (temperature(points, n), double::one() as int);
            &&& t.finite()
            &&& 1_000_000_000 * (t.units() - 40 * o) <= o
            &&& 1_000_000_000 * (t.units() + 20 * o) >= -o
        }),
    decreases n,
{
    let o = double::one() as int;
    vstd::arithmetic::power2::lemma_pow2_pos(UNIT_EXPONENT as nat);
    if n == 0 {
        double::integers_are_exact(25);
    } else {
        temperatures_stay_between_their_targets(points, n - 1);
        temperatures_are_those_of_the_model(points, n - 1);
        let (old, dark) = (temperature(points, n - 1), eclipsed(points[n - 1]));
        let then = UtcTime { secs: 0, nanos: 0 };
        let now = UtcTime { secs: 30, nanos: 0 };
        let state = SatelliteState {
            battery_wh: double::integer(80),
            temperature_c: old,
            last_update: then,
        };
        assert(time::millis_between(now, then) == 30_000);
        lemma_half_a_minute();
        double::integers_are_exact(0);
        double::integers_are_exact(30);
        growth::less_by_value(double::integer(30), double::integer(0));
        assert(sim_client::elapsed_s(state, now) == double::integer(30));
        let after = sim_client::state_at(state, now, dark, false);
        assert(after.temperature_c == temperature(points, n));
        sim_client::temperature_hardly_passes_its_target(state, now, dark, false);
        sim_client::temperature_nears_its_target(state, now, dark, false);
        double::integers_add_up(-20, 0);
        double::integers_add_up(40, 0);
        double::integers_are_exact(-20);
        double::integers_are_exact(40);
        double::integers_are_exact(1000);
        double::integers_are_exact(-1000);
        let target = sim_client::target_c(dark, false);
        growth::less_by_value(old, target);
        growth::less_by_value(target, old);
        growth::less_by_value(double::integer(-1000), old);
        growth::less_by_value(old, double::integer(1000));
        let new = after.temperature_c;
        lemma_between_is_finite(old, new, sim_client::full_step(old, target), target);
        growth::less_by_value(old, new);
        growth::less_by_value(new, old);
    }
}

proof fn lemma_between_is_finite(old: Double, new: Double, full: Double, target: Double)
    requires
        old.finite(),
        target.finite(),
        size(target.unsigned()) <= 1000 * double::one(),
        full == sim_client::full_step(old, target),
        double::at_most(old, target) ==> double::at_most(old, new) && double::at_most(new, full),
        double::at_most(target, old) ==> double::at_most(new, old) && double::at_most(full, new),
    ensures
        new.finite(),
{
    growth::steps_land_near(old, target);
    reveal(double::at_most);
}

proof fn lemma_half_a_minute()
    ensures
        double::quotient(double::integer(30_000), double::integer(1000)) == double::integer(30),
{
    let o = double::one();
    vstd::arithmetic::power2::lemma_pow2_pos(UNIT_EXPONENT as nat);
    double::integers_are_exact(30_000);
    double::integers_are_exact(1000);
    double::integers_are_exact(30);
    double::integers_are_finite(30_000);
    double::integers_are_finite(1000);
    double::integers_are_finite(30);
    let (a, b, c) = (double::integer(30_000), double::integer(1000), double::integer(30));
    growth::lemma_quotient_rank(a, b);
    let (x, y, z) = (
        size(a.unsigned()),
        size(b.unsigned()),
        size(c.unsigned()),
    );
    assert((x * o) * 1 == z * y) by (nonlinear_arith)
        requires
            x == 30_000 * o,
            y == 1000 * o,
            z == 30 * o,
    ;
    growth::rounding_keeps_order(x * o, y, z, 1);
    growth::rounding_keeps_order(z, 1, x * o, y);
    growth::lemma_nearest_to_itself(c.unsigned());
}

/// A satellite that does not compute never gets as hot as 65 degrees, so that no thermal
/// peak is found.
pub proof fn heat_never_peaks(points: Seq<TrajectoryPoint>)
    ensures
        hazards_of(HazardType::ThermalPeak, points).len() == 0,
{
    reveal(hazards_of);
    let s = signals(HazardType::ThermalPeak, points);
    assert forall|i: int| 0 <= i < points.len() implies (#[trigger] s[i]) is Closes by {
        temperatures_stay_between_their_targets(points, i + 1);
        double::integers_are_exact(65);
        growth::less_by_value(double::integer(65), temperature(points, i + 1));
        growth::less_by_value(temperature(points, i + 1), double::integer(65));
        vstd::arithmetic::power2::lemma_pow2_pos(UNIT_EXPONENT as nat);
    }
    lemma_nothing_opens(s, points.len() as int);
    assert(closed_hazards(HazardType::ThermalPeak, points, Seq::empty()).len() == 0);
}

proof fn lemma_nothing_opens(s: Seq<Signal>, n: int)
    requires
        forall|i: int| 0 <= i < s.len() ==> (#[trigger] s[i]) is Closes,
        0 <= n <= s.len(),
    ensures
        windows::open_run(s, n) is None,
        windows::closed_runs(s, n) == Seq::<(int, int)>::empty(),
    decreases n,
{
    if n > 0 {
        lemma_nothing_opens(s, n - 1);
        assert(s[n - 1] is Closes);
    }
}

} // verus!
