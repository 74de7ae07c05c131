use rp::binary64::Binary64;
use rp::planner::decision::{
    next_target, signed_hour_angle, sun_trend_time, NextTargetReason, NextTargetRecommendation,
    SkyReading, SUN_TREND_SAMPLE_SECS,
};
use rp::planner::progress::PlanProgress;
use rp::planner::progress_scan::GoalProgress;
use rp::planner::targets::{
    AcquisitionGoal, Binning, ExposureSpec, IcrsCoord, PlannerTarget, SchedulingConstraints, Span,
    Target,
};
use rp::time::{UtcTime, FIRST_SECS, LAST_SECS};

fn b(v: f64) -> Binary64 {
    Binary64 { bits: v.to_bits() }
}

fn f(v: Binary64) -> f64 {
    f64::from_bits(v.bits)
}

fn coord(ra: f64, dec: f64) -> IcrsCoord {
    IcrsCoord::try_new(b(ra), b(dec)).unwrap()
}

/// Counts with every frame good, one for each plan entry.
fn met(entries: &[(&str, &[u32])]) -> PlanProgress {
    let mut p = PlanProgress::default();
    for (name, counts) in entries {
        p.insert(
            name,
            counts
                .iter()
                .map(|&n| GoalProgress { good: n, total: n })
                .collect(),
        );
    }
    p
}

/// A sky with fixed altitudes by coordinate.
struct Sky {
    alt_overrides: Vec<((f64, f64), f64)>,
    sun_alt: f64,
    sun_alt_rate_deg_per_min: f64,
    lst_hours: f64,
}

impl Sky {
    fn plain() -> Sky {
        Sky {
            alt_overrides: vec![],
            sun_alt: 0.0,
            sun_alt_rate_deg_per_min: 0.0,
            lst_hours: 0.0,
        }
    }

    fn read(&self, targets: &[PlannerTarget]) -> SkyReading {
        let altitudes = targets
            .iter()
            .map(|t| {
                let (ra, dec) = (f(t.coord.ra_hours()), f(t.coord.dec_degrees()));
                let alt = self
                    .alt_overrides
                    .iter()
                    .find(|((r, d), _)| (r - ra).abs() < 1e-9 && (d - dec).abs() < 1e-9)
                    .map_or(0.0, |(_, alt)| *alt);
                Some(b(alt))
            })
            .collect();
        let minutes = SUN_TREND_SAMPLE_SECS as f64 / 60.0;
        SkyReading {
            altitudes,
            lst_hours: b(self.lst_hours),
            sun_altitude: b(self.sun_alt),
            sun_altitude_later: b(self.sun_alt + self.sun_alt_rate_deg_per_min * minutes),
        }
    }
}

fn decide(
    sky: &Sky,
    targets: &[PlannerTarget],
    floor: f64,
    train: Option<f64>,
    progress: &PlanProgress,
) -> NextTargetRecommendation {
    next_target(&sky.read(targets), targets, b(floor), train.map(b), progress)
}

fn m31_low() -> Vec<PlannerTarget> {
    vec![PlannerTarget {
        name: "M31".to_string(),
        coord: coord(0.7123, 41.27),
        min_altitude_degrees: None,
        position_angle_degrees: None,
        exposures: Vec::new(),
    }]
}

fn twilight_sky(sun_alt: f64, rate: f64) -> Sky {
    Sky {
        alt_overrides: vec![((0.7123, 41.27), 10.0)],
        sun_alt,
        sun_alt_rate_deg_per_min: rate,
        lst_hours: 12.0,
    }
}

#[test]
fn empty_targets_return_no_targets_configured() {
    let rec = decide(&Sky::plain(), &[], 20.0, None, &PlanProgress::default());
    assert!(rec.target.is_none());
    assert_eq!(rec.reason, NextTargetReason::NoTargetsConfigured);
}

#[test]
fn target_below_min_alt_is_eliminated() {
    let rec = decide(
        &twilight_sky(-25.0, 0.0),
        &m31_low(),
        30.0,
        None,
        &PlanProgress::default(),
    );
    assert!(rec.target.is_none());
    assert_eq!(rec.reason, NextTargetReason::AllBelowMinAltitude);
}

#[test]
fn a_level_daytime_sun_is_wait_for_twilight() {
    let rec = decide(
        &twilight_sky(30.0, 0.0),
        &m31_low(),
        30.0,
        None,
        &PlanProgress::default(),
    );
    assert!(rec.target.is_none());
    assert_eq!(rec.reason, NextTargetReason::WaitForTwilight);
}

#[test]
fn nautical_twilight_returns_wait_for_twilight_not_all_below_min_altitude() {
    let rec = decide(
        &twilight_sky(-10.0, 0.0),
        &m31_low(),
        30.0,
        None,
        &PlanProgress::default(),
    );
    assert_eq!(rec.reason, NextTargetReason::WaitForTwilight);
}

#[test]
fn a_descending_twilight_sun_is_wait_for_twilight() {
    let rec = decide(
        &twilight_sky(-10.0, -0.2),
        &m31_low(),
        30.0,
        None,
        &PlanProgress::default(),
    );
    assert_eq!(rec.reason, NextTargetReason::WaitForTwilight);
}

#[test]
fn a_climbing_twilight_sun_is_end_of_session() {
    let rec = decide(
        &twilight_sky(-10.0, 0.2),
        &m31_low(),
        30.0,
        None,
        &PlanProgress::default(),
    );
    assert!(rec.target.is_none());
    assert_eq!(rec.reason, NextTargetReason::EndOfSession);
}

#[test]
fn a_climbing_daytime_sun_is_end_of_session() {
    let rec = decide(
        &twilight_sky(30.0, 0.2),
        &m31_low(),
        30.0,
        None,
        &PlanProgress::default(),
    );
    assert_eq!(rec.reason, NextTargetReason::EndOfSession);
}

#[test]
fn a_climbing_sun_still_below_astronomical_dusk_is_all_below_min_altitude() {
    let rec = decide(
        &twilight_sky(-25.0, 0.2),
        &m31_low(),
        30.0,
        None,
        &PlanProgress::default(),
    );
    assert_eq!(rec.reason, NextTargetReason::AllBelowMinAltitude);
}

#[test]
fn full_astronomical_night_with_no_targets_above_floor_is_all_below_min() {
    let rec = decide(
        &twilight_sky(-25.0, 0.0),
        &m31_low(),
        30.0,
        None,
        &PlanProgress::default(),
    );
    assert_eq!(rec.reason, NextTargetReason::AllBelowMinAltitude);
}

#[test]
fn the_sun_exactly_at_astronomical_dusk_is_night() {
    let rec = decide(
        &twilight_sky(-18.0, 0.2),
        &m31_low(),
        30.0,
        None,
        &PlanProgress::default(),
    );
    assert_eq!(rec.reason, NextTargetReason::AllBelowMinAltitude);
}

#[test]
fn picks_target_closest_to_transit() {
    let sky = Sky {
        alt_overrides: vec![((0.7, 41.0), 50.0), ((11.0, -5.0), 50.0)],
        sun_alt: -20.0,
        sun_alt_rate_deg_per_min: 0.0,
        lst_hours: 12.0,
    };
    let targets = vec![
        PlannerTarget {
            name: "M31".to_string(),
            coord: coord(0.7, 41.0),
            min_altitude_degrees: None,
            position_angle_degrees: None,
            exposures: Vec::new(),
        },
        PlannerTarget {
            name: "M42".to_string(),
            coord: coord(11.0, -5.0),
            min_altitude_degrees: None,
            position_angle_degrees: None,
            exposures: Vec::new(),
        },
    ];
    let rec = decide(&sky, &targets, 20.0, None, &PlanProgress::default());
    let target = rec.target.expect("expected a target");
    assert_eq!(target.name, "M42");
    assert_eq!(rec.reason, NextTargetReason::BestTransitingCandidate);
}

fn target_with_plan(name: &str, ra_hours: f64, exposures: Vec<ExposureSpec>) -> PlannerTarget {
    PlannerTarget {
        name: name.to_string(),
        coord: coord(ra_hours, 0.0),
        min_altitude_degrees: None,
        position_angle_degrees: None,
        exposures,
    }
}

fn spec(filter: &str, count: u32) -> ExposureSpec {
    ExposureSpec {
        filter: Some(filter.to_string()),
        duration: Span::from_secs(60),
        count: Some(count),
    }
}

fn night_sky(ras: &[f64]) -> Sky {
    Sky {
        alt_overrides: ras.iter().map(|ra| ((*ra, 0.0), 50.0)).collect(),
        sun_alt: -25.0,
        sun_alt_rate_deg_per_min: 0.0,
        lst_hours: 12.0,
    }
}

#[test]
fn effective_angle_prefers_the_targets_own_value_over_the_train_default() {
    let sky = night_sky(&[12.0]);
    let mut t = target_with_plan("M31", 12.0, Vec::new());
    t.position_angle_degrees = Some(b(121.25));
    let rec = decide(&sky, &[t], 20.0, Some(254.0), &PlanProgress::default());
    assert_eq!(rec.position_angle_degrees, Some(b(121.25)));
}

#[test]
fn effective_angle_falls_back_to_the_train_default_then_north_up() {
    let sky = night_sky(&[12.0]);
    let targets = vec![target_with_plan("M31", 12.0, Vec::new())];
    let rec = decide(&sky, &targets, 20.0, Some(254.0), &PlanProgress::default());
    assert_eq!(rec.position_angle_degrees, Some(b(254.0)));
    let rec = decide(&sky, &targets, 20.0, None, &PlanProgress::default());
    assert_eq!(rec.position_angle_degrees, Some(b(0.0)));
}

#[test]
fn no_recommendation_carries_no_effective_angle() {
    let rec = decide(&Sky::plain(), &[], 20.0, Some(254.0), &PlanProgress::default());
    assert_eq!(rec.position_angle_degrees, None);
}

#[test]
fn an_exhausted_target_is_eliminated_and_the_backup_recommended() {
    let sky = night_sky(&[12.0, 10.0]);
    let targets = vec![
        target_with_plan("M31", 12.0, vec![spec("L", 1)]),
        target_with_plan("M42", 10.0, vec![spec("L", 1)]),
    ];
    let p = met(&[("M31", &[1])]);
    let rec = decide(&sky, &targets, 20.0, None, &p);
    assert_eq!(rec.target.expect("expected a target").name, "M42");
}

#[test]
fn all_targets_exhausted_is_end_of_session_even_in_deep_night() {
    let sky = night_sky(&[12.0]);
    let targets = vec![target_with_plan("M31", 12.0, vec![spec("L", 1)])];
    let p = met(&[("M31", &[1])]);
    let rec = decide(&sky, &targets, 20.0, None, &p);
    assert!(rec.target.is_none());
    assert_eq!(rec.reason, NextTargetReason::EndOfSession);
}

#[test]
fn a_below_floor_survivor_prevents_the_exhaustion_end_of_session() {
    let sky = Sky {
        alt_overrides: vec![((12.0, 0.0), 50.0), ((10.0, 0.0), 5.0)],
        sun_alt: -25.0,
        sun_alt_rate_deg_per_min: 0.0,
        lst_hours: 12.0,
    };
    let targets = vec![
        target_with_plan("done", 12.0, vec![spec("L", 1)]),
        target_with_plan("still rising", 10.0, vec![spec("L", 1)]),
    ];
    let p = met(&[("done", &[1])]);
    let rec = decide(&sky, &targets, 20.0, None, &p);
    assert!(rec.target.is_none());
    assert_eq!(rec.reason, NextTargetReason::AllBelowMinAltitude);
}

#[test]
fn the_recommendation_rotates_to_the_first_incomplete_plan_entry() {
    let sky = night_sky(&[12.0]);
    let targets = vec![target_with_plan(
        "M31",
        12.0,
        vec![spec("L", 1), spec("R", 1)],
    )];
    let p = PlanProgress::default();
    let rec = decide(&sky, &targets, 20.0, None, &p);
    assert_eq!(
        rec.exposure.expect("plan entry").filter.as_deref(),
        Some("L")
    );
    let p = met(&[("M31", &[1, 0])]);
    let rec = decide(&sky, &targets, 20.0, None, &p);
    assert_eq!(
        rec.exposure.expect("plan entry").filter.as_deref(),
        Some("R"),
        "the completed Luminance goal must rotate the recommendation to Red"
    );
}

#[test]
fn least_progress_wins_inside_the_transit_tie_band() {
    let sky = night_sky(&[12.0, 11.7]);
    let targets = vec![
        target_with_plan("closer", 12.0, vec![spec("L", 2)]),
        target_with_plan("fresh", 11.7, vec![spec("L", 2)]),
    ];
    let p = met(&[("closer", &[1])]);
    let rec = decide(&sky, &targets, 20.0, None, &p);
    assert_eq!(rec.target.expect("expected a target").name, "fresh");
}

#[test]
fn a_matching_filter_breaks_a_progress_tie() {
    let sky = night_sky(&[12.0, 11.7]);
    let targets = vec![
        target_with_plan("blue next", 12.0, vec![spec("Blue", 5)]),
        target_with_plan("red next", 11.7, vec![spec("Red", 5)]),
    ];
    let p = PlanProgress::new(Some("Red".to_string()));
    let rec = decide(&sky, &targets, 20.0, None, &p);
    assert_eq!(rec.target.expect("expected a target").name, "red next");
}

#[test]
fn outside_the_band_the_closer_transit_wins_regardless_of_progress() {
    let sky = night_sky(&[12.0, 10.9]);
    let targets = vec![
        target_with_plan("transiting", 12.0, vec![spec("L", 10)]),
        target_with_plan("far and fresh", 10.9, vec![spec("L", 10)]),
    ];
    let p = met(&[("transiting", &[9])]);
    let rec = decide(&sky, &targets, 20.0, None, &p);
    assert_eq!(rec.target.expect("expected a target").name, "transiting");
}

#[test]
fn equal_candidates_in_the_band_go_by_list_order() {
    let sky = night_sky(&[11.8, 12.0, 12.2]);
    let targets = vec![
        target_with_plan("east", 12.2, Vec::new()),
        target_with_plan("west", 11.8, Vec::new()),
        target_with_plan("meridian", 12.0, Vec::new()),
    ];
    let p = PlanProgress::default();
    let rec = decide(&sky, &targets, 20.0, None, &p);
    assert_eq!(rec.target.unwrap().name, "east");

    let twins = vec![
        target_with_plan("first", 12.0, Vec::new()),
        target_with_plan("second", 12.0, Vec::new()),
    ];
    let rec = decide(&sky, &twins, 20.0, None, &p);
    assert_eq!(rec.target.unwrap().name, "first");
    assert!(rec.exposure.is_none(), "a target without a plan has no entry");
}

#[test]
fn the_sun_is_read_again_a_minute_later() {
    let at = |secs: i64, nanos: u32| UtcTime { secs, nanos };
    assert_eq!(sun_trend_time(at(0, 5)), at(SUN_TREND_SAMPLE_SECS, 5));
    assert_eq!(sun_trend_time(at(-100, 999_999_999)), at(-40, 999_999_999));
    // A leap second is left behind.
    assert_eq!(sun_trend_time(at(59, 1_500_000_000)), at(119, 500_000_000));
    assert_eq!(sun_trend_time(at(LAST_SECS - 60, 7)), at(LAST_SECS, 7));
    assert_eq!(sun_trend_time(at(LAST_SECS - 59, 7)), at(LAST_SECS - 59, 7));
    assert_eq!(sun_trend_time(at(LAST_SECS + 1, 0)), at(LAST_SECS + 1, 0));
    assert_eq!(sun_trend_time(at(58, 1_500_000_000)), at(58, 1_500_000_000));
    assert_eq!(sun_trend_time(at(FIRST_SECS - 1, 0)), at(FIRST_SECS - 1, 0));
}

#[test]
fn list_order_decides_between_planless_targets_in_the_band() {
    let targets = vec![
        target_with_plan("a", 11.7, Vec::new()),
        target_with_plan("b", 12.0, Vec::new()),
    ];
    let sky = night_sky(&[11.7, 12.0]);
    let rec = decide(&sky, &targets, 20.0, None, &PlanProgress::default());
    assert_eq!(rec.target.unwrap().name, "a");
}

#[test]
fn a_sidereal_time_of_many_days_is_brought_into_the_day() {
    let targets = vec![
        target_with_plan("far", 12.0, Vec::new()),
        target_with_plan("meridian", 0.0, Vec::new()),
    ];
    let mut sky = night_sky(&[12.0, 0.0]);
    for lst in [3072.0, -3072.0, 24.0 * 2f64.powi(900), f64::MAX] {
        sky.lst_hours = lst;
        let rec = decide(&sky, &targets, 20.0, None, &PlanProgress::default());
        let far = hour_angle_in_doubles(lst, 12.0).abs();
        let near = hour_angle_in_doubles(lst, 0.0).abs();
        let expected = if far <= near.min(far) + 0.5 {
            "far"
        } else {
            "meridian"
        };
        assert_eq!(rec.target.unwrap().name, expected, "{lst}");
    }
    sky.lst_hours = 3072.0;
    let rec = decide(&sky, &targets, 20.0, None, &PlanProgress::default());
    assert_eq!(rec.target.unwrap().name, "meridian");
}

#[test]
fn the_tie_band_ends_at_the_last_double() {
    // Half an hour and the smallest step beyond it.
    let lst = 0.5 + 2f64.powi(-53);
    let targets = vec![
        target_with_plan("half done", lst, vec![spec("L", 2)]),
        target_with_plan("fresh", 0.0, vec![spec("L", 2)]),
    ];
    let mut sky = night_sky(&[lst, 0.0]);
    sky.lst_hours = lst;
    let p = met(&[("half done", &[1])]);
    let rec = decide(&sky, &targets, 20.0, None, &p);
    assert_eq!(rec.target.unwrap().name, "half done");

    // 0.8 - 0.3 is 0.5 in doubles, and so is in the band.
    let targets = vec![
        target_with_plan("half done", 0.8, vec![spec("L", 2)]),
        target_with_plan("fresh", 0.3, vec![spec("L", 2)]),
    ];
    let mut sky = night_sky(&[0.8, 0.3]);
    sky.lst_hours = 0.8;
    let rec = decide(&sky, &targets, 20.0, None, &p);
    assert_eq!(rec.target.unwrap().name, "fresh");
}

#[test]
fn the_tie_band_is_half_an_hour_wide() {
    // Exactly half an hour behind the closest still competes; more does not.
    let sky = night_sky(&[12.0, 11.5]);
    let targets = vec![
        target_with_plan("half done", 12.0, vec![spec("L", 2)]),
        target_with_plan("fresh", 11.5, vec![spec("L", 2)]),
    ];
    let p = met(&[("half done", &[1])]);
    let rec = decide(&sky, &targets, 20.0, None, &p);
    assert_eq!(rec.target.unwrap().name, "fresh");

    let sky = night_sky(&[12.0, 11.499]);
    let targets = vec![
        target_with_plan("half done", 12.0, vec![spec("L", 2)]),
        target_with_plan("fresh", 11.499, vec![spec("L", 2)]),
    ];
    let rec = decide(&sky, &targets, 20.0, None, &p);
    assert_eq!(rec.target.unwrap().name, "half done");
}

#[test]
fn a_sidereal_time_that_is_no_number_makes_all_equally_close() {
    let mut sky = night_sky(&[0.5, 12.0]);
    sky.lst_hours = f64::NAN;
    let targets = vec![
        target_with_plan("first", 0.5, Vec::new()),
        target_with_plan("second", 12.0, Vec::new()),
    ];
    let rec = decide(&sky, &targets, 20.0, None, &PlanProgress::default());
    assert_eq!(rec.target.unwrap().name, "first");
}

#[test]
fn a_target_without_a_computed_altitude_is_skipped() {
    let targets = vec![
        target_with_plan("pole", 12.0, Vec::new()),
        target_with_plan("other", 6.0, Vec::new()),
    ];
    let mut reading = night_sky(&[12.0, 6.0]).read(&targets);
    reading.altitudes[0] = None;
    let rec = next_target(&reading, &targets, b(20.0), None, &PlanProgress::default());
    assert_eq!(rec.target.unwrap().name, "other");
    // An altitude that is no number is never at the floor or above it.
    reading.altitudes = vec![Some(b(f64::NAN)), Some(b(f64::NAN))];
    let rec = next_target(&reading, &targets, b(20.0), None, &PlanProgress::default());
    assert_eq!(rec.reason, NextTargetReason::AllBelowMinAltitude);
}

#[test]
fn per_target_min_altitude_overrides_default() {
    let sky = Sky {
        alt_overrides: vec![((1.0, 0.0), 25.0)],
        sun_alt: -20.0,
        sun_alt_rate_deg_per_min: 0.0,
        lst_hours: 1.0,
    };
    let targets = vec![PlannerTarget {
        name: "T1".to_string(),
        coord: coord(1.0, 0.0),
        min_altitude_degrees: Some(b(20.0)),
        position_angle_degrees: None,
        exposures: Vec::new(),
    }];
    let rec = decide(&sky, &targets, 30.0, None, &PlanProgress::default());
    assert!(
        rec.target.is_some(),
        "per-target floor must override default"
    );
}

/// An hour angle in hours.
fn hour_angle(lst: f64, ra: f64) -> f64 {
    f64::from_bits(signed_hour_angle(b(lst), b(ra)).bits)
}

/// The hour angle as doubles compute it.
fn hour_angle_in_doubles(lst: f64, ra: f64) -> f64 {
    let mut ha = (lst - ra).rem_euclid(24.0);
    if ha > 12.0 {
        ha -= 24.0;
    }
    ha
}

#[test]
fn signed_hour_angle_wraps_correctly() {
    assert!((hour_angle(0.0, 23.5) - 0.5).abs() < 1e-9);
    assert!((hour_angle(23.5, 0.0) - (-0.5)).abs() < 1e-9);
    assert!((hour_angle(12.0, 0.0) - 12.0).abs() < 1e-9);
}

#[test]
fn hour_angle_is_what_doubles_compute() {
    let values = [
        0.0, -0.0, 5e-324, 1e-300, 1e-20, 2f64.powi(-53), 0.1, 0.3, 0.5, 0.8, 11.9999, 12.0,
        12.0000001, 23.5, 24.0, 24.0000001, 36.0, 48.0, 1000.25, 2048.0, 3072.0, 1e15, 1e16,
        2f64.powi(53), 2f64.powi(100), 1e300, f64::MAX, f64::INFINITY, f64::NAN,
    ];
    for x in values {
        for y in values {
            for (lst, ra) in [(x, y), (-x, y), (x, -y), (-x, -y)] {
                let expected = hour_angle_in_doubles(lst, ra);
                let found = hour_angle(lst, ra);
                if expected.is_nan() {
                    assert!(found.is_nan(), "{lst} {ra}");
                } else {
                    assert_eq!(found.to_bits(), expected.to_bits(), "{lst} {ra}");
                    assert!(-12.0 < found && found <= 12.0, "{lst} {ra}");
                }
            }
        }
    }
}

#[test]
fn whole_days_leave_an_hour_angle_as_it_is() {
    for days in [-128.0, -1.0, 1.0, 2.0, 1024.0] {
        assert_eq!(hour_angle(7.5 + 24.0 * days, 3.25), hour_angle(7.5, 3.25));
        assert_eq!(hour_angle(1.0 + 24.0 * days, 3.0), -2.0);
    }
}

fn store_target(
    slug: &str,
    scheduling: Option<SchedulingConstraints>,
    goals: Vec<AcquisitionGoal>,
) -> Target {
    Target {
        slug: slug.to_string(),
        display_name: slug.to_string(),
        coord: coord(1.0, 2.0),
        position_angle_degrees: None,
        goals,
        scheduling,
        grading: None,
    }
}

#[test]
fn from_store_target_uses_slug_as_identity() {
    let t = store_target("ngc7000", None, Vec::new());
    let planner_target = PlannerTarget::from(&t);
    assert_eq!(planner_target.name, "ngc7000");
    assert_eq!(planner_target.coord.ra_hours(), b(1.0));
    assert_eq!(planner_target.coord.dec_degrees(), b(2.0));
    assert_eq!(planner_target.min_altitude_degrees, None);
}

#[test]
fn from_store_target_reads_the_scheduling_override() {
    let t = store_target(
        "ngc7000",
        Some(SchedulingConstraints {
            min_altitude_degrees: Some(b(35.0)),
        }),
        Vec::new(),
    );
    assert_eq!(
        PlannerTarget::from(&t).min_altitude_degrees,
        Some(b(35.0))
    );
}

#[test]
fn from_store_target_converts_goals_to_finite_exposure_specs() {
    let goal = AcquisitionGoal {
        filter: "L".to_string(),
        binning: Binning { x: 1, y: 1 },
        exposure_duration: Span::from_secs(300),
        desired_count: 20,
    };
    let unfiltered = AcquisitionGoal {
        filter: String::new(),
        binning: Binning { x: 2, y: 2 },
        exposure_duration: Span { secs: 0, nanos: 500_000_000 },
        desired_count: 3,
    };
    let t = store_target("ngc7000", None, vec![goal, unfiltered]);
    let planner_target = PlannerTarget::from(&t);
    assert_eq!(planner_target.exposures.len(), 2);
    let first = &planner_target.exposures[0];
    assert_eq!(first.filter, Some("L".to_string()));
    assert_eq!(first.duration, Span::from_secs(300));
    assert_eq!(first.count, Some(20));
    let second = &planner_target.exposures[1];
    assert_eq!(second.filter, None);
    assert_eq!(second.duration, Span { secs: 0, nanos: 500_000_000 });
    assert_eq!(second.count, Some(3));
}
