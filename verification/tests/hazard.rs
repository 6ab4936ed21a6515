//! Hazards along a trajectory and the checkpoints around them.

use rotastellar_agent::double::Double;
use rotastellar_agent::hazard::detect::{detect_eclipses, detect_saa_transits, detect_thermal_peaks};
use rotastellar_agent::hazard::order::sort_by_time;
use rotastellar_agent::hazard::{
    fits_calendar, is_in_eclipse, merge_overlapping_hazards, point_in_polygon, predict_along, predict_hazards,
    saa_boundary, CheckpointType, Hazard, HazardPrediction, HazardType, RecommendedAction, Severity, TrajectoryPoint,
};
use rotastellar_agent::json::Json;
use rotastellar_agent::orbit::{
    self, greenwich_sidereal_time, julian_date, sample_times, to_degrees, to_radians, Orbit, Transcendental,
};
use rotastellar_agent::time::UtcTime;
use rotastellar_agent::OrbitalElements;

const AU_KM: f64 = 149597870.7;

fn d(x: f64) -> Double {
    Double::from_bits(x.to_bits())
}

fn f(x: Double) -> f64 {
    f64::from_bits(x.to_bits())
}

/// Values from the machine.
fn machine(q: Transcendental) -> Double {
    d(match q {
        Transcendental::Sine(x) => f(x).sin(),
        Transcendental::Cosine(x) => f(x).cos(),
        Transcendental::Angle(y, x) => f(y).atan2(f(x)),
        Transcendental::ArcSine(x) => f(x).asin(),
        Transcendental::Exponential(x) => f(x).exp(),
    })
}

fn saa_intensity(alt_km: f64) -> f64 {
    f(orbit::saa_intensity(d(alt_km), &machine))
}

fn solve_kepler(m: f64, ecc: f64) -> f64 {
    f(orbit::solve_kepler(d(m), d(ecc), &machine))
}

fn propagate(elements: &OrbitalElements, start: UtcTime, end: UtcTime) -> Vec<TrajectoryPoint> {
    orbit::propagate_trajectory(elements, start, end, &machine).unwrap()
}

fn parse(text: &str) -> UtcTime {
    UtcTime::parse(text).unwrap()
}

fn predict(elements: &OrbitalElements, t: UtcTime, horizon_hours: f64, size: u64, bandwidth: u64) -> HazardPrediction {
    assert!(fits_calendar(t, d(horizon_hours), size, bandwidth));
    predict_hazards(elements, t, d(horizon_hours), size, bandwidth, &machine)
}

fn iss_elements() -> OrbitalElements {
    OrbitalElements {
        altitude_km: d(408.0),
        inclination_deg: d(51.6),
        eccentricity: d(0.0001),
        raan_deg: d(0.0),
        arg_perigee_deg: d(90.0),
        mean_anomaly_deg: d(0.0),
        mean_motion: d(15.49),
        epoch: "2026-03-09T00:00:00Z".into(),
    }
}

fn sso_elements() -> OrbitalElements {
    OrbitalElements {
        altitude_km: d(786.0),
        inclination_deg: d(98.6),
        eccentricity: d(0.0001),
        raan_deg: d(0.0),
        arg_perigee_deg: d(90.0),
        mean_anomaly_deg: d(0.0),
        mean_motion: d(14.3),
        epoch: "2026-03-09T00:00:00Z".into(),
    }
}

fn of_type(prediction: &HazardPrediction, t: HazardType) -> Vec<&Hazard> {
    prediction.hazards.iter().filter(|h| h.hazard_type == t).collect()
}

#[test]
fn test_predict_hazards_iss_6h() {
    let t = parse("2026-03-09T12:00:00Z");
    let pred = predict(&iss_elements(), t, 6.0, 50_000_000, 10_000_000);

    // ISS at 408 km, 51.6° inc, ~92 min period → ~4 eclipses in 6h
    assert!(pred.hazards.len() >= 2, "Should detect multiple hazards");

    let eclipses = of_type(&pred, HazardType::Eclipse);
    assert!(eclipses.len() >= 2, "ISS should have ~4 eclipses in 6h, got {}", eclipses.len());

    for ec in &eclipses {
        assert_eq!(ec.severity, Severity::Critical);
        assert_eq!(f(ec.prediction_confidence), 0.997);
        assert!(f(ec.duration_s) >= 60.0, "Eclipse should be at least 1 min");
        assert!(f(ec.duration_s) <= 2400.0, "Eclipse should be at most 40 min");
    }

    // Checkpoint schedule should have entries
    assert!(!pred.checkpoint_schedule.is_empty());
    // Summary should be reasonable
    assert!(pred.summary.total_hazards >= 2);
    assert!(f(pred.summary.max_safe_compute_window_s) > 0.0);
    assert!(f(pred.summary.checkpoint_overhead_fraction) < 0.1);
}

#[test]
fn test_predict_hazards_sso_12h() {
    let t = parse("2026-03-09T12:00:00Z");
    let pred = predict(&sso_elements(), t, 12.0, 50_000_000, 10_000_000);

    // SSO should have eclipses
    let eclipses = of_type(&pred, HazardType::Eclipse);
    assert!(!eclipses.is_empty(), "SSO should have eclipses");

    // High-inclination SSO should have fewer/no SAA transits
    let saa = of_type(&pred, HazardType::SaaTransit);
    // SSO at 98.6° may still cross SAA occasionally
    assert!(saa.len() <= eclipses.len(), "SSO should have fewer SAA transits than eclipses");
}

#[test]
fn test_predict_hazards_short_horizon() {
    let t = parse("2026-03-09T12:00:00Z");
    let pred = predict(&iss_elements(), t, 0.5, 50_000_000, 10_000_000);

    // 30 min may catch 0 or 1 eclipse boundary
    assert!(pred.summary.total_hazards <= 2);
    assert!(f(pred.summary.checkpoint_overhead_fraction) < 0.5);
}

#[test]
fn test_predict_hazards_no_horizon() {
    let t = parse("2026-03-09T12:00:00Z");
    let pred = predict(&iss_elements(), t, 0.0, 50_000_000, 10_000_000);

    assert_eq!(pred.hazards.len(), 0);
    assert_eq!(pred.checkpoint_schedule.len(), 0);
}

#[test]
fn test_point_in_polygon_saa() {
    let boundary = saa_boundary();
    // Center of SAA
    assert!(point_in_polygon(d(-30.0), d(-45.0), &boundary));
    // Far from SAA
    assert!(!point_in_polygon(d(45.0), d(10.0), &boundary));
    // North pole
    assert!(!point_in_polygon(d(90.0), d(0.0), &boundary));
}

#[test]
fn a_polygon_without_corners_holds_nothing() {
    assert!(!point_in_polygon(d(0.0), d(0.0), &[]));
}

#[test]
fn test_saa_intensity() {
    let peak = saa_intensity(400.0);
    assert!((peak - 1.0).abs() < 0.01, "Peak should be ~1.0 at 400 km");

    let low = saa_intensity(800.0);
    assert!(low < peak, "Intensity should decrease away from 400 km");

    let very_low = saa_intensity(1200.0);
    assert!(very_low < 0.1, "Intensity should be very low at 1200 km");
}

#[test]
fn intensities_are_those_of_native_arithmetic() {
    for alt_km in [0.0, 399.9, 408.0, 550.5, 1200.0, -3.0] {
        let expected = (-f64::powi(alt_km - 400.0, 2) / (2.0 * 150.0_f64.powi(2))).exp();
        assert_eq!(saa_intensity(alt_km), expected);
    }
}

#[test]
fn test_solve_kepler() {
    // Circular orbit: E should equal M
    let e = solve_kepler(1.0, 0.0);
    assert!((e - 1.0).abs() < 1e-10);

    // Low eccentricity
    let e = solve_kepler(1.0, 0.01);
    assert!((e - 1.0).abs() < 0.02);
}

#[test]
fn test_eclipse_detection() {
    let shaded = |x: f64, y: f64, z: f64| is_in_eclipse(d(x), d(y), d(z), d(AU_KM), d(0.0), d(0.0));
    // Satellite on anti-sun side, within Earth radius → eclipsed
    assert!(shaded(-7000.0, 0.0, 0.0));
    // Satellite on sun side → not eclipsed
    assert!(!shaded(7000.0, 0.0, 0.0));
    // Satellite far from Earth-Sun line → not eclipsed even on anti-sun side
    assert!(!shaded(-7000.0, 8000.0, 0.0));
}

#[test]
fn without_a_sun_there_is_no_shadow() {
    assert!(!is_in_eclipse(d(-7000.0), d(0.0), d(0.0), d(0.5), d(0.0), d(0.0)));
}

fn hazard(t: HazardType, start: &str, end: &str, duration_s: f64, severity: Severity) -> Hazard {
    Hazard {
        hazard_type: t,
        start_time: start.into(),
        end_time: end.into(),
        duration_s: d(duration_s),
        severity,
        recommended_action: RecommendedAction::CheckpointBeforeAndResumeAfter,
        prediction_confidence: d(0.997),
        metadata: Json::object(),
    }
}

#[test]
fn test_merge_overlapping_hazards() {
    let h1 = hazard(
        HazardType::Eclipse,
        "2026-03-09T12:00:00Z",
        "2026-03-09T12:30:00Z",
        1800.0,
        Severity::Critical,
    );
    let h2 = hazard(
        HazardType::Eclipse,
        "2026-03-09T12:25:00Z",
        "2026-03-09T12:35:00Z",
        600.0,
        Severity::Critical,
    );
    // Different type — not merged
    let h3 = Hazard {
        recommended_action: RecommendedAction::CheckpointAndEnableEcc,
        prediction_confidence: d(0.95),
        ..hazard(
            HazardType::SaaTransit,
            "2026-03-09T12:28:00Z",
            "2026-03-09T12:45:00Z",
            1020.0,
            Severity::High,
        )
    };

    let merged = merge_overlapping_hazards(vec![h1, h2, h3]);
    assert_eq!(merged.len(), 2, "Overlapping eclipses should merge, SAA stays separate");
    assert_eq!(merged[0].hazard_type, HazardType::Eclipse);
    assert_eq!(merged[0].end_time, "2026-03-09T12:35:00Z");
    assert_eq!(merged[1].hazard_type, HazardType::SaaTransit);
}

#[test]
fn merging_keeps_the_longer_the_later_and_the_graver() {
    let whole = hazard(HazardType::SaaTransit, "2026-03-09T12:00:00Z", "2026-03-09T13:00:00Z", 1.0, Severity::Moderate);
    let part = hazard(HazardType::SaaTransit, "2026-03-09T12:10:00Z", "2026-03-09T12:20:00Z", 600.0, Severity::High);
    let merged = merge_overlapping_hazards(vec![whole, part]);
    assert_eq!(merged.len(), 1);
    assert_eq!(merged[0].start_time, "2026-03-09T12:00:00Z");
    assert_eq!(merged[0].end_time, "2026-03-09T13:00:00Z");
    assert_eq!(f(merged[0].duration_s), 3600.0);
    assert_eq!(merged[0].severity, Severity::High);
    assert!(merge_overlapping_hazards(vec![]).is_empty());
}

#[test]
fn a_merged_duration_stays_where_times_cannot_be_read() {
    let a = hazard(HazardType::Eclipse, "a", "c", 7.0, Severity::Low);
    let b = hazard(HazardType::Eclipse, "b", "d", 9.0, Severity::Low);
    let merged = merge_overlapping_hazards(vec![a, b]);
    assert_eq!(merged.len(), 1);
    assert_eq!(merged[0].end_time, "d");
    assert_eq!(f(merged[0].duration_s), 7.0);
}

#[test]
fn hazards_of_other_types_keep_overlapping_ones_apart() {
    let e1 = hazard(HazardType::Eclipse, "a", "z", 1.0, Severity::Low);
    let s = hazard(HazardType::SaaTransit, "b", "y", 1.0, Severity::Low);
    let e2 = hazard(HazardType::Eclipse, "c", "z", 1.0, Severity::Low);
    assert_eq!(merge_overlapping_hazards(vec![e1, s, e2]).len(), 3);
}

#[test]
fn test_checkpoint_schedule_structure() {
    let t = parse("2026-03-09T12:00:00Z");
    let pred = predict(&iss_elements(), t, 6.0, 50_000_000, 10_000_000);

    // Each eclipse should produce at least SAVE + VALIDATE + RESTORE
    for entry in &pred.checkpoint_schedule {
        assert!(!entry.reason.is_empty());
        assert!(f(entry.estimated_duration_s) > 0.0);
    }

    // Check ordering
    for i in 1..pred.checkpoint_schedule.len() {
        assert!(
            pred.checkpoint_schedule[i].time >= pred.checkpoint_schedule[i - 1].time,
            "Schedule should be time-ordered"
        );
    }
}

/// A trajectory with a sample every 30 seconds, in the shadow where the flag is
/// set.
fn shadows(flags: &[bool]) -> Vec<TrajectoryPoint> {
    let start = parse("2026-03-09T12:00:00Z");
    let mut points = Vec::new();
    for (i, dark) in flags.iter().enumerate() {
        points.push(TrajectoryPoint {
            time: start.shift_millis(30_000 * i as i64).unwrap(),
            lat: d(60.0),
            lon: d(0.0),
            alt_km: d(400.0),
            eci_x: d(if *dark { -7000.0 } else { 7000.0 }),
            eci_y: d(0.0),
            eci_z: d(0.0),
            sun_x: d(AU_KM),
            sun_y: d(0.0),
            sun_z: d(0.0),
            saa_intensity: d(1.0),
        });
    }
    points
}

#[test]
fn eclipses_are_the_stretches_in_the_shadow() {
    let points = shadows(&[false, true, true, false, true, false, false, true]);
    let eclipses = detect_eclipses(&points);
    assert_eq!(eclipses.len(), 3);
    assert_eq!(eclipses[0].start_time, "2026-03-09T12:00:30+00:00");
    assert_eq!(eclipses[0].end_time, "2026-03-09T12:01:30+00:00");
    assert_eq!(f(eclipses[0].duration_s), 60.0);
    assert_eq!(eclipses[1].start_time, "2026-03-09T12:02:00+00:00");
    assert_eq!(f(eclipses[1].duration_s), 30.0);
    // Cut off by the horizon
    assert_eq!(eclipses[2].start_time, "2026-03-09T12:03:30+00:00");
    assert_eq!(eclipses[2].end_time, "2026-03-09T12:03:30+00:00");
    assert_eq!(f(eclipses[2].duration_s), 0.0);
    assert!(detect_saa_transits(&points).is_empty());
    assert!(detect_thermal_peaks(&points).is_empty());
}

#[test]
fn short_hazards_do_not_count() {
    let mut points = shadows(&[true, false]);
    points[1].time = points[0].time.shift_millis(29_999).unwrap();
    assert!(detect_eclipses(&points).is_empty());
    points[1].time = points[0].time.shift_millis(30_000).unwrap();
    assert_eq!(detect_eclipses(&points).len(), 1);
}

#[test]
fn transits_report_their_peak() {
    let mut points = shadows(&[false, false, false, false, false]);
    for (i, intensity) in [(1, 0.5), (2, 0.6666), (4, 0.1)] {
        points[i].lat = d(-30.0);
        points[i].lon = d(-45.0);
        points[i].saa_intensity = d(intensity);
    }
    let transits = detect_saa_transits(&points);
    assert_eq!(transits.len(), 2);
    assert_eq!(transits[0].severity, Severity::Moderate);
    assert_eq!(transits[0].recommended_action, RecommendedAction::CheckpointAndEnableEcc);
    assert_eq!(f(transits[0].prediction_confidence), 0.95);
    assert_eq!(f(transits[0].metadata.number_at("peak_intensity").unwrap()), 0.67);
    assert_eq!(f(transits[0].duration_s), 60.0);
    // Cut off by the horizon
    assert_eq!(transits[1].severity, Severity::High);
    assert_eq!(f(transits[1].metadata.number_at("peak_intensity").unwrap()), 0.1);

    points[2].saa_intensity = d(0.71);
    assert_eq!(detect_saa_transits(&points)[0].severity, Severity::High);
}

#[test]
fn checkpoints_around_one_eclipse() {
    let mut flags = vec![false; 40];
    for flag in flags.iter_mut().take(20).skip(10) {
        *flag = true;
    }
    let points = shadows(&flags);
    let now = points[0].time;
    let pred = predict_along(&points, now, d(0.325), 50_000_000, 10_000_000);
    assert_eq!(pred.hazards.len(), 1);
    let schedule = &pred.checkpoint_schedule;
    assert_eq!(schedule.len(), 3);
    // 5 s to write the state and 4.5 s of margin before 12:05:00
    assert_eq!(schedule[0].time, "2026-03-09T12:04:50.500+00:00");
    assert_eq!(schedule[0].checkpoint_type, CheckpointType::Save);
    assert_eq!(schedule[0].urgency, Severity::Critical);
    assert_eq!(schedule[0].reason, "Pre-Eclipse checkpoint");
    assert_eq!(schedule[0].deadline.as_deref(), Some("2026-03-09T12:05:00+00:00"));
    assert_eq!(f(schedule[0].estimated_duration_s), 5.0);
    assert_eq!(schedule[1].time, "2026-03-09T12:10:00+00:00");
    assert_eq!(schedule[1].checkpoint_type, CheckpointType::Validate);
    assert_eq!(schedule[1].urgency, Severity::Low);
    assert_eq!(schedule[1].reason, "Post-Eclipse state validation");
    assert!(schedule[1].deadline.is_none());
    assert_eq!(f(schedule[1].estimated_duration_s), 0.5);
    assert_eq!(schedule[2].time, "2026-03-09T12:10:00.500+00:00");
    assert_eq!(schedule[2].checkpoint_type, CheckpointType::Restore);
    assert_eq!(schedule[2].urgency, Severity::Moderate);
    assert_eq!(schedule[2].reason, "Post-Eclipse state restoration");
    assert_eq!(f(schedule[2].estimated_duration_s), 5.0);

    assert_eq!(pred.summary.total_hazards, 1);
    assert_eq!(pred.summary.total_checkpoints, 3);
    assert_eq!(pred.summary.next_hazard.as_deref(), Some("2026-03-09T12:05:00+00:00"));
    // 1170 s of horizon; free again at 12:10:05.5, so 564 whole seconds are left
    assert_eq!(f(pred.summary.max_safe_compute_window_s), 564.0);
    let overhead: f64 = (3.0 * (5.0 + 0.5)) / (0.325 * 3600.0);
    assert_eq!(f(pred.summary.checkpoint_overhead_fraction), (overhead * 10000.0).round() / 10000.0);
}

#[test]
fn a_save_that_comes_too_late_is_left_out() {
    let points = shadows(&[true, true, false, false]);
    let pred = predict_along(&points, points[0].time, d(0.025), 50_000_000, 0);
    assert_eq!(pred.checkpoint_schedule.len(), 2);
    assert_eq!(pred.checkpoint_schedule[0].checkpoint_type, CheckpointType::Validate);
    assert_eq!(pred.checkpoint_schedule[1].checkpoint_type, CheckpointType::Restore);
    // Without a known bandwidth a second is reckoned with
    assert_eq!(f(pred.checkpoint_schedule[1].estimated_duration_s), 1.0);
}

#[test]
fn crowded_checkpoints_are_thinned() {
    // Two eclipses half a minute apart, with a state that takes 100 s to write:
    // the second save follows the first and is left out; the others have a
    // checkpoint of another type between them.
    let points = shadows(&[false, false, false, false, false, false, false, true, false, true, false]);
    let now = points[0].time;
    let pred = predict_along(&points, now, d(0.1), 1000, 10);
    assert_eq!(pred.hazards.len(), 2);
    let entries: Vec<(CheckpointType, &str)> =
        pred.checkpoint_schedule.iter().map(|c| (c.checkpoint_type, c.time.as_str())).collect();
    assert_eq!(
        entries,
        vec![
            (CheckpointType::Save, "2026-03-09T12:01:45.500+00:00"),
            (CheckpointType::Validate, "2026-03-09T12:04:00+00:00"),
            (CheckpointType::Restore, "2026-03-09T12:04:10+00:00"),
            (CheckpointType::Validate, "2026-03-09T12:05:00+00:00"),
            (CheckpointType::Restore, "2026-03-09T12:05:10+00:00"),
        ]
    );
}

#[test]
fn the_state_is_saved_before_each_of_two_close_hazards() {
    // A pass through the anomaly, and half a minute later an eclipse, which is
    // graver; writing the state takes 50 s.
    let mut points = shadows(&[false, false, false, false, false, false, false, false, true, true, false]);
    for p in points.iter_mut().skip(7).take(2) {
        p.lat = d(-30.0);
        p.lon = d(-45.0);
        p.saa_intensity = d(0.5);
    }
    let now = points[0].time;
    let pred = predict_along(&points, now, d(0.1), 500, 10);
    assert_eq!(pred.hazards.len(), 2);
    assert_eq!(pred.hazards[0].start_time, "2026-03-09T12:03:30+00:00");
    assert_eq!(pred.hazards[1].start_time, "2026-03-09T12:04:00+00:00");
    let saves: Vec<_> =
        pred.checkpoint_schedule.iter().filter(|c| c.checkpoint_type == CheckpointType::Save).collect();
    assert_eq!(saves.len(), 1);
    // The earlier time and deadline, with the urgency and the reason of the graver
    assert_eq!(saves[0].time, "2026-03-09T12:02:35.500+00:00");
    assert_eq!(saves[0].deadline.as_deref(), Some("2026-03-09T12:03:30+00:00"));
    assert_eq!(saves[0].urgency, Severity::Critical);
    assert_eq!(saves[0].reason, "Pre-Eclipse checkpoint");
    assert_eq!(f(saves[0].estimated_duration_s), 50.0);
}

/// A pass through the anomaly that starts two minutes on, and an eclipse that
/// starts `apart_ms` later.
fn close_hazards(apart_ms: i64) -> Vec<TrajectoryPoint> {
    let mut points = shadows(&[false, false, true, false]);
    let start = points[0].time;
    for (i, ms) in [0, 120_000, 120_000 + apart_ms, 180_000].iter().enumerate() {
        points[i].time = start.shift_millis(*ms).unwrap();
    }
    for p in points.iter_mut().skip(1).take(2) {
        p.lat = d(-30.0);
        p.lon = d(-45.0);
        p.saa_intensity = d(0.5);
    }
    points
}

#[test]
fn the_more_urgent_save_stays_whole_while_it_is_in_time() {
    for (apart_ms, time, deadline) in [
        (4000, "2026-03-09T12:01:09.500+00:00", "2026-03-09T12:02:04+00:00"),
        (4500, "2026-03-09T12:01:10+00:00", "2026-03-09T12:02:04.500+00:00"),
        (4501, "2026-03-09T12:01:05.500+00:00", "2026-03-09T12:02:00+00:00"),
        (5000, "2026-03-09T12:01:05.500+00:00", "2026-03-09T12:02:00+00:00"),
    ] {
        let points = close_hazards(apart_ms);
        let pred = predict_along(&points, points[0].time, d(0.05), 500, 10);
        assert_eq!(pred.hazards.len(), 2);
        let save = &pred.checkpoint_schedule[0];
        assert_eq!(save.checkpoint_type, CheckpointType::Save);
        assert_eq!(save.time, time);
        assert_eq!(save.deadline.as_deref(), Some(deadline));
        assert_eq!(save.urgency, Severity::Critical);
        assert_eq!(save.reason, "Pre-Eclipse checkpoint");
        assert_eq!(pred.checkpoint_schedule[1].checkpoint_type, CheckpointType::Validate);
    }
}

#[test]
fn every_predicted_hazard_is_saved_for() {
    let t = parse("2026-03-09T12:00:00Z");
    for size in [0u64, 50_000_000, 500_000_000, 3_000_000_000] {
        let pred = predict(&iss_elements(), t, 12.0, size, 10_000_000);
        let write_ms = (size as f64 / 10_000_000.0 * 1000.0) as i64;
        let mut prepared = 0;
        for h in &pred.hazards {
            let start = parse(&h.start_time);
            if !start.shift_millis(-write_ms - 4500).unwrap().is_after(t) {
                continue;
            }
            prepared += 1;
            assert!(pred.checkpoint_schedule.iter().any(|c| {
                let begin = parse(&c.time);
                c.checkpoint_type == CheckpointType::Save
                    && begin.is_after(t)
                    && !begin.shift_millis(write_ms).unwrap().is_after(start)
                    && c.urgency.rank() >= h.severity.rank()
            }));
        }
        assert!(prepared > 0);
        // Nor do checkpoints of one type crowd each other
        for pair in pred.checkpoint_schedule.windows(2) {
            if pair[0].checkpoint_type == pair[1].checkpoint_type {
                let gap_ms = parse(&pair[1].time).millis_since(parse(&pair[0].time));
                assert!(gap_ms as f64 / 1000.0 >= size as f64 / 10_000_000.0 * 2.5);
            }
        }
    }
}

#[test]
fn without_hazards_any_state_can_be_foreseen() {
    let points = shadows(&[false, false, false]);
    let pred = predict_along(&points, points[0].time, d(2.0), u64::MAX, 1);
    assert!(pred.checkpoint_schedule.is_empty());
    assert_eq!(f(pred.summary.max_safe_compute_window_s), 7200.0);
}

#[test]
fn the_anomaly_weakens_with_the_distance_from_its_peak() {
    assert_eq!(saa_intensity(400.0), 1.0);
    let mut last = 1.0;
    for off in [0.0, 0.001, 1.0, 150.0, 400.0, 800.0, 1e6, 1e300] {
        let above = saa_intensity(400.0 + off);
        let below = saa_intensity(400.0 - off);
        assert_eq!(above, below);
        assert!(0.0 <= above && above <= last);
        last = above;
    }
    assert_eq!(last, 0.0);
}

#[test]
fn without_hazards_the_whole_horizon_is_free() {
    let points = shadows(&[false, false, false]);
    let pred = predict_along(&points, points[0].time, d(2.0), 50_000_000, 10_000_000);
    assert!(pred.hazards.is_empty());
    assert!(pred.checkpoint_schedule.is_empty());
    assert!(pred.summary.next_hazard.is_none());
    assert_eq!(f(pred.summary.max_safe_compute_window_s), 7200.0);
    assert_eq!(f(pred.summary.checkpoint_overhead_fraction), 0.0);
}

#[test]
fn the_calendar_has_an_end() {
    let now = parse("2026-03-09T12:00:00Z");
    assert!(fits_calendar(now, d(6.0), 50_000_000, 10_000_000));
    assert!(fits_calendar(now, d(-6.0), 50_000_000, 10_000_000));
    assert!(!fits_calendar(now, d(1e300), 50_000_000, 10_000_000));
    assert!(!fits_calendar(now, d(6.0), u64::MAX, 1));
    let last = UtcTime { secs: 8_210_266_876_799, nanos: 0 };
    assert!(!fits_calendar(last, d(0.0), 50_000_000, 10_000_000));
}

#[test]
fn equally_late_hazards_keep_their_order() {
    let a = hazard(HazardType::SaaTransit, "t2", "x", 1.0, Severity::Low);
    let b = hazard(HazardType::Eclipse, "t1", "x", 2.0, Severity::Low);
    let c = hazard(HazardType::ThermalPeak, "t2", "x", 3.0, Severity::Low);
    let e = hazard(HazardType::Eclipse, "t0", "x", 4.0, Severity::Low);
    let sorted = sort_by_time(vec![a, b, c, e]);
    let order: Vec<f64> = sorted.iter().map(|h| f(h.duration_s)).collect();
    assert_eq!(order, vec![4.0, 2.0, 1.0, 3.0]);
}

#[test]
fn json_forms_of_hazards_and_checkpoints() {
    let mut flags = vec![false; 12];
    flags[10] = true;
    let points = shadows(&flags);
    let pred = predict_along(&points, points[0].time, d(0.1), 50_000_000, 10_000_000);
    let form = pred.hazards[0].to_json();
    assert_eq!(form.text_at("hazard_type"), Some("ECLIPSE"));
    assert_eq!(form.text_at("severity"), Some("CRITICAL"));
    assert_eq!(form.text_at("recommended_action"), Some("CHECKPOINT_BEFORE_AND_RESUME_AFTER"));
    assert_eq!(form.text_at("start_time"), Some("2026-03-09T12:05:00+00:00"));
    assert_eq!(form.text_at("end_time"), Some("2026-03-09T12:05:30+00:00"));
    assert_eq!(f(form.number_at("duration_s").unwrap()), 30.0);
    assert_eq!(f(form.number_at("prediction_confidence").unwrap()), 0.997);
    assert!(form.get("metadata").unwrap().is_object());
    let save = pred.checkpoint_schedule[0].to_json();
    assert_eq!(save.text_at("checkpoint_type"), Some("SAVE"));
    assert_eq!(save.text_at("urgency"), Some("CRITICAL"));
    assert_eq!(save.text_at("deadline"), Some("2026-03-09T12:05:00+00:00"));
    assert_eq!(save.text_at("reason"), Some("Pre-Eclipse checkpoint"));
    assert_eq!(f(save.number_at("estimated_duration_s").unwrap()), 5.0);
    assert!(pred.checkpoint_schedule[1].to_json().get("deadline").is_none());
}

#[test]
fn json_form_of_a_prediction() {
    let mut flags = vec![false; 12];
    flags[10] = true;
    let points = shadows(&flags);
    let form = predict_along(&points, points[0].time, d(0.1), 50_000_000, 10_000_000).to_json();
    match form.get("hazards").unwrap() {
        Json::Array(items) => assert_eq!(items[0].text_at("hazard_type"), Some("ECLIPSE")),
        other => panic!("{:?}", other),
    }
    match form.get("checkpoint_schedule").unwrap() {
        Json::Array(items) => assert_eq!(items.len(), 3),
        other => panic!("{:?}", other),
    }
    let summary = form.get("summary").unwrap();
    assert_eq!(f(summary.number_at("total_hazards").unwrap()), 1.0);
    assert_eq!(f(summary.number_at("total_checkpoints").unwrap()), 3.0);
    assert_eq!(summary.text_at("next_hazard"), Some("2026-03-09T12:05:00+00:00"));
    assert!(summary.number_at("max_safe_compute_window_s").is_some());
    assert!(summary.number_at("checkpoint_overhead_fraction").is_some());

    let calm = shadows(&[false, false]);
    let form = predict_along(&calm, calm[0].time, d(0.1), 1, 1).to_json();
    assert!(form.get("summary").unwrap().get("next_hazard").is_none());
}

#[test]
fn words_and_ranks() {
    assert_eq!(HazardType::SaaTransit.word(), "SAA_TRANSIT");
    assert_eq!(HazardType::ThermalPeak.word(), "THERMAL_PEAK");
    assert_eq!(HazardType::Conjunction.word(), "CONJUNCTION");
    assert_eq!(HazardType::SaaTransit.name(), format!("{:?}", HazardType::SaaTransit));
    assert_eq!(HazardType::ThermalPeak.name(), format!("{:?}", HazardType::ThermalPeak));
    assert_eq!(HazardType::Conjunction.name(), format!("{:?}", HazardType::Conjunction));
    assert_eq!(HazardType::Eclipse.name(), format!("{:?}", HazardType::Eclipse));
    assert_eq!(RecommendedAction::CheckpointAndEnableEcc.word(), "CHECKPOINT_AND_ENABLE_ECC");
    assert_eq!(
        RecommendedAction::ThrottleAndCheckpointIfCritical.word(),
        "THROTTLE_AND_CHECKPOINT_IF_CRITICAL"
    );
    assert_eq!(
        RecommendedAction::CheckpointAndPrepareForManeuver.word(),
        "CHECKPOINT_AND_PREPARE_FOR_MANEUVER"
    );
    assert_eq!(CheckpointType::Restore.word(), "RESTORE");
    assert_eq!(CheckpointType::Validate.word(), "VALIDATE");
    assert_eq!(Severity::Low.word(), "LOW");
    assert_eq!(Severity::Moderate.word(), "MODERATE");
    assert_eq!(Severity::High.word(), "HIGH");
    let ranks = [Severity::Low, Severity::Moderate, Severity::High, Severity::Critical];
    for (i, s) in ranks.iter().enumerate() {
        assert_eq!(s.rank() as usize, i + 1);
    }
    assert!(Severity::Low < Severity::Critical);
}

// The same orbit in native arithmetic.

fn native_julian_date(y: f64, m: f64, day: f64, h: f64, min: f64, sec: f64) -> f64 {
    let day_frac = day + (h + min / 60.0 + sec / 3600.0) / 24.0;
    let (y2, m2) = if m <= 2.0 { (y - 1.0, m + 12.0) } else { (y, m) };
    let a = (y2 / 100.0).floor();
    let b = 2.0 - a + (a / 4.0).floor();
    (365.25 * (y2 + 4716.0)).floor() + (30.6001 * (m2 + 1.0)).floor() + day_frac + b - 1524.5
}

#[test]
fn julian_dates_are_those_of_native_arithmetic() {
    assert_eq!(
        f(julian_date(parse("2026-03-09T12:34:56Z"))),
        native_julian_date(2026.0, 3.0, 9.0, 12.0, 34.0, 56.0)
    );
    assert_eq!(
        f(julian_date(parse("1999-01-31T23:59:60Z"))),
        native_julian_date(1999.0, 1.0, 31.0, 23.0, 59.0, 60.0)
    );
    assert_eq!(
        f(julian_date(parse("1912-02-29T00:00:01Z"))),
        native_julian_date(1912.0, 2.0, 29.0, 0.0, 0.0, 1.0)
    );
    // Noon of the first day of 2000
    assert_eq!(f(julian_date(parse("2000-01-01T12:00:00Z"))), 2451545.0);
}

#[test]
fn sidereal_time_is_that_of_native_arithmetic() {
    for (text, jd) in [
        ("2026-03-09T12:34:56Z", native_julian_date(2026.0, 3.0, 9.0, 12.0, 34.0, 56.0)),
        ("1950-07-01T01:02:03Z", native_julian_date(1950.0, 7.0, 1.0, 1.0, 2.0, 3.0)),
    ] {
        let t_centuries = (jd - 2451545.0) / 36525.0;
        let gmst_deg: f64 =
            280.46061837 + 360.98564736629 * (jd - 2451545.0) + 0.000387933 * t_centuries * t_centuries;
        assert_eq!(f(greenwich_sidereal_time(parse(text))), (gmst_deg % 360.0).to_radians());
    }
}

#[test]
fn angles_convert_as_in_native_arithmetic() {
    for x in [0.0, 1.0, -90.0, 51.6, 123.456, 1e-300, 1e300] {
        let x: f64 = x;
        assert_eq!(f(to_radians(d(x))), x.to_radians());
        assert_eq!(f(to_degrees(d(x))), x.to_degrees());
    }
}

#[test]
fn the_sun_stands_where_native_arithmetic_puts_it() {
    let jd = native_julian_date(2026.0, 3.0, 9.0, 12.0, 34.0, 56.0);
    let n = jd - 2451545.0;
    let l = (280.460_f64 + 0.9856474 * n).to_radians();
    let g = (357.528_f64 + 0.9856003 * n).to_radians();
    let lambda = l + (1.915 * g.sin() + 0.020 * (2.0 * g).sin()).to_radians();
    let epsilon = 23.439_f64.to_radians();
    let sun = orbit::sun_position_eci(parse("2026-03-09T12:34:56Z"), &machine);
    assert_eq!(f(sun.x), AU_KM * lambda.cos());
    assert_eq!(f(sun.y), AU_KM * lambda.sin() * epsilon.cos());
    assert_eq!(f(sun.z), AU_KM * lambda.sin() * epsilon.sin());
}

fn native_kepler(m: f64, ecc: f64) -> f64 {
    let m_norm = m.rem_euclid(2.0 * std::f64::consts::PI);
    let mut e = m_norm;
    for _ in 0..15 {
        let de = (e - ecc * e.sin() - m_norm) / (1.0 - ecc * e.cos());
        e -= de;
        if de.abs() < 1e-12 {
            break;
        }
    }
    e
}

#[test]
fn anomalies_are_those_of_native_arithmetic() {
    for m in [-7.0, -1.0, 0.0, 0.3, 3.0, 100.0, 12345.678] {
        for ecc in [0.0, 0.0001, 0.2, 0.9, 0.999] {
            assert_eq!(solve_kepler(m, ecc), native_kepler(m, ecc));
        }
    }
}

#[test]
fn trajectories_are_those_of_native_arithmetic() {
    let mut elements = iss_elements();
    elements.eccentricity = d(0.01);
    elements.raan_deg = d(33.3);
    elements.mean_anomaly_deg = d(12.0);
    let start = parse("2026-03-09T12:00:00Z");
    let end = start.shift_millis(3 * 3600 * 1000).unwrap();
    let points = propagate(&elements, start, end);
    assert_eq!(points.len(), 361);

    let a_km = 6378.137 + 408.0;
    let n = (398600.4418_f64 / (a_km * a_km * a_km)).sqrt();
    let inc = 51.6_f64.to_radians();
    let ecc = 0.01_f64;
    let p = a_km * (1.0 - ecc * ecc);
    let ratio = 6378.137 / p;
    let j2 = 1.08263e-3;
    let raan_rate = -1.5 * n * j2 * f64::powi(ratio, 2) * inc.cos();
    let argp_rate = 1.5 * n * j2 * f64::powi(ratio, 2) * (2.0 - 2.5 * inc.sin().powi(2));
    for (i, point) in points.iter().enumerate() {
        let dt_s = (12.0 * 3600.0 + 30.0 * i as f64) * 1000.0 / 1000.0;
        let e = native_kepler(12.0_f64.to_radians() + n * dt_s, ecc);
        let nu = ((1.0 - ecc * ecc).sqrt() * e.sin()).atan2(e.cos() - ecc);
        let r = a_km * (1.0 - ecc * e.cos());
        let raan = 33.3_f64.to_radians() + raan_rate * dt_s;
        let u = (90.0_f64.to_radians() + argp_rate * dt_s) + nu;
        let x = r * (raan.cos() * u.cos() - raan.sin() * u.sin() * inc.cos());
        let y = r * (raan.sin() * u.cos() + raan.cos() * u.sin() * inc.cos());
        let z = r * u.sin() * inc.sin();
        assert_eq!(f(point.eci_x), x);
        assert_eq!(f(point.eci_y), y);
        assert_eq!(f(point.eci_z), z);
        assert_eq!(f(point.lat), (z / r).asin().to_degrees());
        assert_eq!(f(point.alt_km), r - 6378.137);
        assert!(f(point.lon) >= -180.0 && f(point.lon) <= 180.0);
        let mut lon = (y.atan2(x) - f(greenwich_sidereal_time(point.time))).to_degrees();
        if lon > 180.0 {
            lon -= 360.0;
        }
        if lon < -180.0 {
            lon += 360.0;
        }
        assert_eq!(f(point.lon), lon);
    }
}

#[test]
fn an_epoch_that_cannot_be_read_is_the_start() {
    let mut elements = iss_elements();
    elements.epoch = "long ago".into();
    let start = parse("2026-03-09T12:00:00Z");
    let orbit = Orbit::new(&elements, d(0.5), d(0.5), start);
    assert_eq!(orbit.epoch, start);
    assert_eq!(Orbit::new(&iss_elements(), d(0.5), d(0.5), start).epoch, parse("2026-03-09T00:00:00Z"));
}

#[test]
fn samples_are_half_a_minute_apart() {
    let start = parse("2026-03-09T12:00:00Z");
    let times = sample_times(start, start.shift_millis(60_000).unwrap()).unwrap();
    assert_eq!(times.len(), 3);
    assert_eq!(times[2].seconds_since(times[0]), 60);
    assert!(sample_times(start, start.shift_millis(-1).unwrap()).unwrap().is_empty());
}

#[test]
fn samples_end_with_the_calendar() {
    let last = UtcTime { secs: 8_210_266_876_799, nanos: 0 };
    assert!(sample_times(last, last).is_none());
    assert!(orbit::propagate_trajectory(&iss_elements(), last, last, &machine).is_none());
}

#[test]
fn predicted_hazards_stand_in_order_and_apart() {
    let t = parse("2026-03-09T12:00:00Z");
    let pred = predict(&iss_elements(), t, 12.0, 50_000_000, 10_000_000);
    for pair in pred.hazards.windows(2) {
        assert!(pair[0].start_time <= pair[1].start_time);
        assert!(pair[0].hazard_type != pair[1].hazard_type || pair[1].start_time > pair[0].end_time);
    }
    // None of the hazards that were found is lost
    let trajectory = propagate(&iss_elements(), t, t.shift_millis(12 * 3_600_000).unwrap());
    let mut found = detect_eclipses(&trajectory);
    found.extend(detect_saa_transits(&trajectory));
    for h in &found {
        assert!(pred.hazards.iter().any(|p| {
            p.hazard_type == h.hazard_type
                && p.start_time <= h.start_time
                && p.end_time >= h.end_time
                && p.severity >= h.severity
        }));
    }
}
