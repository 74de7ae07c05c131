use chrono::{DateTime, NaiveDate, Utc};
use rp::binary64::Binary64;
use rp::planner::catalog::{
    resolve, suggestions_wanted, ResolveOutcome, ResolvedTarget, SUGGESTION_LIMIT,
};
use rp::planner::convenience::{meridian_status_view, target_status_view, time_to_set};
use rp::planner::primitives::{
    compute_alt_az, compute_meridian_flip, compute_rise_set, compute_transit, finite_or_null, get_moon_position,
    get_sun_position, get_twilight, parse_side_of_pier, parse_twilight_kind, site_required_error,
    validate_icrs, AltAz, BodyPosition, RiseSet, SideOfPier, TwilightKind,
};
use rp::planner::targets::{IcrsCoord, IcrsError};
use rp::time::{
    parse_date, parse_time_or_now, seconds_until, to_rfc3339, CalendarDay, SignedSpan, UtcTime,
    FIRST_SECS, LAST_SECS,
};
use serde_json::Value;

fn b(v: f64) -> Binary64 {
    Binary64 { bits: v.to_bits() }
}

fn at(text: &str) -> UtcTime {
    parse_time_or_now(Some(text)).unwrap()
}

#[test]
fn parses_rfc3339_or_uses_now() {
    let parsed = parse_time_or_now(Some("2026-05-03T22:00:00Z")).unwrap();
    assert_eq!(to_rfc3339(parsed).unwrap(), "2026-05-03T22:00:00+00:00");
    let now = parse_time_or_now(None).unwrap();
    assert!(now.secs > 0);
}

#[test]
fn instants_keep_their_zone_and_fraction() {
    let east = at("2026-05-04T00:00:00.25+02:00");
    assert_eq!(east.secs, at("2026-05-03T22:00:00Z").secs);
    assert_eq!(east.nanos, 250_000_000);
    assert_eq!(to_rfc3339(east).unwrap(), "2026-05-03T22:00:00.250+00:00");
    let never = UtcTime { secs: i64::MAX, nanos: 0 };
    assert_eq!(to_rfc3339(never), None);
}

#[test]
fn rejects_bad_time_with_helpful_diagnostic() {
    let err = parse_time_or_now(Some("not a time")).unwrap_err();
    assert!(err.contains("RFC3339"), "got: {err}");
    assert!(err.starts_with("invalid time \"not a time\": "), "got: {err}");
    let err = parse_time_or_now(Some("5m\n")).unwrap_err();
    assert!(err.starts_with("invalid time \"5m\\n\": "), "got: {err}");
}

#[test]
fn parse_date_round_trips() {
    let d = parse_date("2026-05-03").unwrap();
    let d = NaiveDate::from_num_days_from_ce_opt(d.days_from_ce).unwrap();
    assert_eq!(d.format("%Y-%m-%d").to_string(), "2026-05-03");
    let err = parse_date("yesterday").unwrap_err();
    assert!(err.starts_with("invalid date \"yesterday\": "), "got: {err}");
    assert!(err.ends_with(" (expect YYYY-MM-DD)"), "got: {err}");
}

#[test]
fn days_follow_the_calendar() {
    let now = at("2026-11-01T06:00:00Z");
    let today = now.day().unwrap();
    assert_eq!(today, parse_date("2026-11-01").unwrap());
    assert_eq!(today.pred(), Some(parse_date("2026-10-31").unwrap()));
    let midnight = at("1969-12-31T23:59:59Z");
    assert_eq!(midnight.day().unwrap(), parse_date("1969-12-31").unwrap());
    let instant: DateTime<Utc> = DateTime::from_timestamp(now.secs, now.nanos).unwrap();
    assert_eq!(
        chrono::Datelike::num_days_from_ce(&instant.date_naive()),
        today.days_from_ce
    );
    assert_eq!(CalendarDay { days_from_ce: i32::MIN }.pred(), None);
    assert_eq!(UtcTime { secs: i64::MAX, nanos: 0 }.day(), None);
}

#[test]
fn icrs_validation_blocks_out_of_range() {
    assert!(validate_icrs(b(-1.0), b(0.0)).is_err());
    assert!(validate_icrs(b(24.0), b(0.0)).is_err());
    assert!(validate_icrs(b(0.0), b(91.0)).is_err());
    validate_icrs(b(0.7123), b(41.27)).unwrap();
}

#[test]
fn icrs_validation_names_the_offending_number() {
    assert_eq!(
        validate_icrs(b(25.0), b(99.0)),
        Err(IcrsError::RaHours(b(25.0)))
    );
    assert_eq!(
        validate_icrs(b(1.0), b(-90.5)),
        Err(IcrsError::DecDegrees(b(-90.5)))
    );
    assert!(validate_icrs(b(f64::NAN), b(0.0)).is_err());
    assert!(validate_icrs(b(0.0), b(f64::NAN)).is_err());
    let edge = validate_icrs(b(-0.0), b(-90.0)).unwrap();
    assert_eq!(edge.dec_degrees(), b(-90.0));
    assert!(validate_icrs(b(23.999_999), b(90.0)).is_ok());
}

#[test]
fn twilight_kind_parses_known_variants() {
    assert_eq!(
        parse_twilight_kind("Astronomical").unwrap(),
        TwilightKind::Astronomical
    );
    assert!(parse_twilight_kind("daytime").is_err());
    assert_eq!(parse_twilight_kind("CIVIL").unwrap(), TwilightKind::Civil);
    let shouted = "ABCDEFGHIJKLMNOPQRSTUVWXYZ[@`{É";
    assert_eq!(
        parse_twilight_kind(shouted).unwrap_err(),
        format!(
            "unknown twilight kind {:?}; expected one of civil, nautical, astronomical",
            shouted.to_ascii_lowercase()
        )
    );
    assert_eq!(parse_twilight_kind("nautical").unwrap(), TwilightKind::Nautical);
    assert_eq!(
        parse_twilight_kind("Daytime").unwrap_err(),
        "unknown twilight kind \"daytime\"; expected one of civil, nautical, astronomical"
    );
}

#[test]
fn side_of_pier_parses_known_variants() {
    assert_eq!(parse_side_of_pier("East").unwrap(), SideOfPier::East);
    assert!(parse_side_of_pier("middle").is_err());
    assert_eq!(parse_side_of_pier("WEST").unwrap(), SideOfPier::West);
    assert_eq!(parse_side_of_pier("unknown").unwrap(), SideOfPier::Unknown);
    assert_eq!(
        parse_side_of_pier("Middle").unwrap_err(),
        "unknown side_of_pier \"middle\"; expected one of east, west, unknown"
    );
}

#[test]
fn a_missing_site_is_explained() {
    let text = site_required_error();
    assert!(text.starts_with("site not configured: "));
    assert!(text.contains("`site` block in rp's config"));
    assert!(text.ends_with("§\"Site Configuration\""));
}

fn aa(alt: f64, az: f64) -> AltAz {
    AltAz {
        altitude_degrees: b(alt),
        azimuth_degrees: b(az),
    }
}

#[test]
fn alt_az_returns_error_on_unrepresentable_inputs() {
    assert_eq!(compute_alt_az(Ok(aa(30.0, 180.0))), Ok(aa(30.0, 180.0)));
    assert_eq!(
        compute_alt_az(Err("pole".to_string())),
        Err("alt/az transform failed: pole".to_string())
    );
}

#[test]
fn transit_emits_expected_keys_for_typical_target() {
    let v = compute_transit(Some(at("2026-11-01T06:30:00Z")));
    assert_eq!(v.transit_utc.as_deref(), Some("2026-11-01T06:30:00+00:00"));
    assert_eq!(compute_transit(None).transit_utc, None);
}

#[test]
fn rise_set_circumpolar_target_returns_null_bounds() {
    let v = compute_rise_set(None);
    assert!(v.rise_utc.is_none());
    assert!(v.set_utc.is_none());
}

#[test]
fn rise_set_typical_target_emits_iso_strings() {
    let v = compute_rise_set(Some(RiseSet {
        rise_utc: at("2026-11-01T00:15:00Z"),
        set_utc: at("2026-11-01T11:45:00Z"),
    }));
    assert_eq!(v.rise_utc.as_deref(), Some("2026-11-01T00:15:00+00:00"));
    assert_eq!(v.set_utc.as_deref(), Some("2026-11-01T11:45:00+00:00"));
}

#[test]
fn twilight_emits_kind_label() {
    for (kind, label) in [
        (TwilightKind::Civil, "civil"),
        (TwilightKind::Nautical, "nautical"),
        (TwilightKind::Astronomical, "astronomical"),
    ] {
        let v = get_twilight(kind, None, Some(at("2026-12-21T23:00:00Z")));
        assert_eq!(v.kind, label);
        assert_eq!(v.begin_utc, None);
        assert_eq!(v.end_utc.as_deref(), Some("2026-12-21T23:00:00+00:00"));
    }
}

#[test]
fn finite_or_null_maps_nan_and_infinity_to_null() {
    assert_eq!(finite_or_null(b(0.0)), Some(b(0.0)));
    assert_eq!(finite_or_null(b(42.5)), Some(b(42.5)));
    assert!(finite_or_null(b(f64::NAN)).is_none());
    assert!(finite_or_null(b(f64::INFINITY)).is_none());
    assert!(finite_or_null(b(f64::NEG_INFINITY)).is_none());
}

#[test]
fn sun_position_emits_all_fields() {
    let v = get_sun_position(BodyPosition {
        ra_hours: b(2.7),
        dec_degrees: b(15.6),
        alt_az: aa(48.9, 122.4),
    });
    assert_eq!(v.ra_hours, b(2.7));
    assert_eq!(v.dec_degrees, b(15.6));
    assert_eq!(v.altitude_degrees, Some(b(48.9)));
    assert_eq!(v.azimuth_degrees, Some(b(122.4)));
}

#[test]
fn sun_position_handles_nan_alt_az_without_panicking() {
    let v = get_sun_position(BodyPosition {
        ra_hours: b(2.7),
        dec_degrees: b(15.6),
        alt_az: aa(f64::NAN, f64::NAN),
    });
    assert_eq!(v.ra_hours, b(2.7));
    assert_eq!(v.dec_degrees, b(15.6));
    assert_eq!(v.altitude_degrees, None);
    assert_eq!(v.azimuth_degrees, None);
}

#[test]
fn moon_position_keeps_its_phase() {
    let v = get_moon_position(
        BodyPosition {
            ra_hours: b(1.0),
            dec_degrees: b(2.0),
            alt_az: aa(3.0, 4.0),
        },
        b(90.0),
        b(0.5),
    );
    assert_eq!(v.position.altitude_degrees, Some(b(3.0)));
    assert_eq!(v.position.azimuth_degrees, Some(b(4.0)));
    assert_eq!(v.phase_degrees, b(90.0));
    assert_eq!(v.illumination_fraction, b(0.5));
}

fn window(set: &str) -> Option<RiseSet> {
    Some(RiseSet {
        rise_utc: at("2026-10-31T12:00:00Z"),
        set_utc: at(set),
    })
}

#[test]
fn the_next_setting_may_be_that_of_yesterdays_window() {
    let now = at("2026-11-01T06:00:00Z");
    let later = window("2026-11-01T07:00:00.5Z");
    let past = window("2026-11-01T05:00:00Z");
    assert_eq!(time_to_set(now, later, past), Some(3600));
    assert_eq!(time_to_set(now, past, later), Some(3600));
    assert_eq!(time_to_set(now, None, later), Some(3600));
    assert_eq!(time_to_set(now, past, past), None);
    assert_eq!(time_to_set(now, None, None), None);
    assert_eq!(seconds_until(now, now), None);
}

#[test]
fn seconds_are_told_as_far_as_the_calendar_reaches() {
    let first = UtcTime { secs: FIRST_SECS, nanos: 0 };
    let last = UtcTime { secs: LAST_SECS, nanos: 999_999_999 };
    assert_eq!(seconds_until(first, last), Some(LAST_SECS - FIRST_SECS));
    let before = UtcTime { secs: FIRST_SECS - 1, nanos: 0 };
    let after = UtcTime { secs: LAST_SECS + 1, nanos: 0 };
    assert_eq!(seconds_until(before, last), None);
    assert_eq!(seconds_until(first, after), None);
    assert!(to_rfc3339(first).is_some() && to_rfc3339(last).is_some());
    assert!(to_rfc3339(before).is_none() && to_rfc3339(after).is_none());
    // Only the last second of a minute can be a leap second.
    assert!(to_rfc3339(UtcTime { secs: 59, nanos: 1_500_000_000 }).is_some());
    assert!(to_rfc3339(UtcTime { secs: 58, nanos: 1_500_000_000 }).is_none());
    assert!(to_rfc3339(UtcTime { secs: -1, nanos: 1_999_999_999 }).is_some());
    assert!(to_rfc3339(UtcTime { secs: 59, nanos: 2_000_000_000 }).is_none());
}

#[test]
fn target_status_for_polaris_emits_expected_fields() {
    let now = at("2026-11-01T06:00:00Z");
    let v = match target_status_view(
        "Polaris",
        Ok(aa(47.9, 0.4)),
        b(2.0),
        b(2.5301944),
        now,
        None,
        None,
        Value::Null,
    ) {
        Ok(v) => v,
        Err(e) => panic!("{e}"),
    };
    assert_eq!(v.target_name, "Polaris");
    assert_eq!(v.altitude_degrees, b(47.9));
    assert_eq!(v.azimuth_degrees, b(0.4));
    assert_eq!(v.hour_angle_hours, b((2.0f64 - 2.5301944).rem_euclid(24.0) - 24.0));
    assert!(v.time_to_set_seconds.is_none());
    assert!(v.progress.is_null());
}

#[test]
fn target_status_needs_an_altitude() {
    let now = at("2026-11-01T06:00:00Z");
    let failed = target_status_view(
        "X",
        Err("pole".to_string()),
        b(2.0),
        b(2.0),
        now,
        None,
        None,
        Value::Null,
    );
    match failed {
        Err(e) => assert_eq!(e, "alt/az transform failed: pole"),
        Ok(_) => panic!("there is no altitude"),
    }
}

#[test]
fn meridian_status_view_includes_side_of_pier() {
    let flip = SignedSpan::new(5400, 0);
    let v = meridian_status_view(flip, b(12.0), b(0.0), SideOfPier::East);
    assert_eq!(v.side_of_pier.label(), "east");
    assert_eq!(v.time_to_flip_seconds, Some(5400));
    assert_eq!(v.mount_ra_hours, b(12.0));
    assert_eq!(SideOfPier::West.label(), "west");
    assert_eq!(SideOfPier::Unknown.label(), "unknown");
    let v = meridian_status_view(None, b(12.0), b(0.0), SideOfPier::East);
    assert_eq!(v.time_to_flip_seconds, None);
}

#[test]
fn meridian_flip_emits_seconds() {
    let flip = SignedSpan::new(41_270, 712_300_000);
    let secs = compute_meridian_flip(flip).time_to_flip_seconds.unwrap();
    assert!(secs > 0 && secs <= 86_400);
    assert_eq!(secs, 41_270);
}

#[test]
fn the_time_to_a_flip_drops_the_fraction() {
    for (secs, nanos, expected) in [
        (5400, 0, 5400),
        (5399, 999_999_999, 5399),
        (5400, -1, 5399),
        (-10, -999_999_999, -10),
        (-11, 1, -10),
        (0, 999_999_999, 0),
        (0, -999_999_999, 0),
        (1, -1, 0),
        (-1, 1, 0),
        (i64::MIN, 1, i64::MIN + 1),
        (i64::MAX, 999_999_999, i64::MAX),
    ] {
        let span = SignedSpan::new(secs, nanos).unwrap();
        let view = compute_meridian_flip(Some(span));
        assert_eq!(view.time_to_flip_seconds, Some(expected), "{secs} {nanos}");
    }
    for nanos in [-1500i64, -1, 0, 1, 1500] {
        for secs in [-3600i64, -1, 0, 1, 3600] {
            let d = chrono::TimeDelta::seconds(secs) + chrono::TimeDelta::nanoseconds(nanos);
            let span = SignedSpan::new(secs, nanos as i32);
            assert_eq!(
                compute_meridian_flip(span).time_to_flip_seconds,
                Some(d.num_seconds())
            );
        }
    }
    assert_eq!(compute_meridian_flip(None).time_to_flip_seconds, None);
    assert!(SignedSpan::new(0, 1_000_000_000).is_none());
    assert!(SignedSpan::new(0, -1_000_000_000).is_none());
}

#[test]
fn the_current_instant_is_in_the_calendar() {
    let now = parse_time_or_now(None).unwrap();
    assert!(now.nanos < 1_000_000_000);
    assert!(to_rfc3339(now).is_some());
}

fn m31() -> ResolvedTarget {
    ResolvedTarget {
        name: "M 31".to_string(),
        object_type: "G".to_string(),
        coord: IcrsCoord::try_new(b(0.712), b(41.269)).unwrap(),
        magnitude: Some(b(3.4)),
        size_arcmin: None,
    }
}

#[test]
fn resolved_outcome_carries_view() {
    match resolve(Some(&m31()), vec!["M 32".to_string()]) {
        ResolveOutcome::Resolved(view) => {
            assert_eq!(view.name, "M 31");
            assert!(view.object_type.starts_with('G'));
            assert_eq!(view.ra_hours, b(0.712));
            assert_eq!(view.dec_degrees, b(41.269));
            assert_eq!(view.magnitude, Some(b(3.4)));
            assert_eq!(view.size_arcmin, None);
        }
        other @ ResolveOutcome::NotFound { .. } => panic!("expected Resolved, got {other:?}"),
    }
}

#[test]
fn names_are_suggested_only_for_a_miss() {
    assert_eq!(SUGGESTION_LIMIT, 3);
    assert_eq!(suggestions_wanted(None), 3);
    assert_eq!(suggestions_wanted(Some(&m31())), 0);
}

#[test]
fn missing_target_returns_not_found_with_suggestions() {
    match resolve(None, vec!["M 99".to_string(), "M 9".to_string()]) {
        ResolveOutcome::NotFound { suggestions } => {
            assert_eq!(suggestions, vec!["M 99", "M 9"]);
        }
        other @ ResolveOutcome::Resolved(_) => panic!("expected NotFound, got {other:?}"),
    }
}
