//! The answers of the tools that put several readings together.
use crate::binary64::Binary64;
use crate::planner::decision::{hour_angle, signed_hour_angle};
use crate::planner::primitives::{
    compute_meridian_flip, counts_down, transform_failed, AltAz, RiseSet, SideOfPier,
};
use crate::text::concat2;
use crate::time::{seconds_from, seconds_until, time_until, SignedSpan, UtcTime};
use vstd::prelude::*;

verus! {

/// How one target stands.
pub struct TargetStatusView {
    pub target_name: String,
    pub altitude_degrees: Binary64,
    pub azimuth_degrees: Binary64,
    pub hour_angle_hours: Binary64,
    /// `None` where the target does not set in the days that were looked at.
    pub time_to_set_seconds: Option<i64>,
    pub progress: serde_json::Value,
}

/// The seconds until a target sets, where that is still to come.
pub open spec fn set_in(now: UtcTime, rise_set: Option<RiseSet>) -> Option<i64> {
    match rise_set {
        Some(rs) => time_until(now, rs.set_utc),
        None => None,
    }
}

/// The seconds until the next setting: that of today, or else that of the
/// window that began yesterday.
pub open spec fn next_set_in(
    now: UtcTime,
    today: Option<RiseSet>,
    yesterday: Option<RiseSet>,
) -> Option<i64> {
    match set_in(now, today) {
        Some(secs) => Some(secs),
        None => set_in(now, yesterday),
    }
}

/// A setting is still to come, and the calendar reaches it.
pub open spec fn sets_later(now: UtcTime, rise_set: Option<RiseSet>) -> bool {
    rise_set matches Some(rs) && rs.set_utc.after(now) && now.reached() && rs.set_utc.reached()
}

/// So many seconds are those until a setting, counted where neither instant
/// is in a leap second.
pub open spec fn counts_to(now: UtcTime, rise_set: Option<RiseSet>, secs: i64) -> bool {
    now.plain() && rise_set->0.set_utc.plain() ==> secs == seconds_from(now, rise_set->0.set_utc)
}

/// The seconds until the next setting: there are any exactly when one of the
/// two settings is still to come, and they are counted to today's where that
/// is.
pub open spec fn tells_next_set(
    now: UtcTime,
    today: Option<RiseSet>,
    yesterday: Option<RiseSet>,
    r: Option<i64>,
) -> bool {
    &&& r is Some <==> sets_later(now, today) || sets_later(now, yesterday)
    &&& r matches Some(secs) ==> counts_to(
        now,
        if sets_later(now, today) {
            today
        } else {
            yesterday
        },
        secs,
    )
}

fn pick_set(now: UtcTime, rise_set: Option<RiseSet>) -> (r: Option<i64>)
    ensures
        r == set_in(now, rise_set),
        r is Some <==> sets_later(now, rise_set),
        r matches Some(secs) ==> counts_to(now, rise_set, secs),
{
    match rise_set {
        Some(rs) => seconds_until(now, rs.set_utc),
        None => None,
    }
}

/// The seconds until a target next sets. A target that was already up when
/// the day began sets in the window of the day before.
pub fn time_to_set(now: UtcTime, today: Option<RiseSet>, yesterday: Option<RiseSet>) -> (r: Option<
    i64,
>)
    ensures
        r == next_set_in(now, today, yesterday),
        tells_next_set(now, today, yesterday, r),
{
    match pick_set(now, today) {
        Some(secs) => Some(secs),
        None => pick_set(now, yesterday),
    }
}

/// The setting that is told is still to come, and it is that of today
/// wherever today's is.
pub proof fn told_setting_is_to_come(
    now: UtcTime,
    today: Option<RiseSet>,
    yesterday: Option<RiseSet>,
)
    ensures
        next_set_in(now, today, yesterday) is Some ==> {
            ||| today is Some && today->0.set_utc.after(now) && next_set_in(now, today, yesterday)
                == set_in(now, today)
            ||| yesterday is Some && yesterday->0.set_utc.after(now)
        },
        set_in(now, today) is Some ==> next_set_in(now, today, yesterday) == set_in(now, today),
{
}

/// How one target stands: its place in the sky, its hour angle, when it
/// sets, and the progress as it was handed in.
pub fn target_status_view(
    target_name: &str,
    computed: Result<AltAz, String>,
    lst_hours: Binary64,
    ra_hours: Binary64,
    now: UtcTime,
    today: Option<RiseSet>,
    yesterday: Option<RiseSet>,
    progress: serde_json::Value,
) -> (r: Result<TargetStatusView, String>)
    ensures
        match computed {
            Err(e) => r matches Err(text) && text@ == transform_failed(e@),
            Ok(aa) => {
                &&& r is Ok
                &&& r->Ok_0.target_name@ == target_name@
                &&& r->Ok_0.altitude_degrees == aa.altitude_degrees
                &&& r->Ok_0.azimuth_degrees == aa.azimuth_degrees
                &&& r->Ok_0.hour_angle_hours == hour_angle(lst_hours, ra_hours)
                &&& r->Ok_0.time_to_set_seconds == next_set_in(now, today, yesterday)
                &&& tells_next_set(now, today, yesterday, r->Ok_0.time_to_set_seconds)
                &&& r->Ok_0.progress == progress
            },
        },
{
    match computed {
        Err(e) => Err(concat2("alt/az transform failed: ", e.as_str())),
        Ok(aa) => {
            Ok(
                TargetStatusView {
                    target_name: target_name.to_owned(),
                    altitude_degrees: aa.altitude_degrees,
                    azimuth_degrees: aa.azimuth_degrees,
                    hour_angle_hours: signed_hour_angle(lst_hours, ra_hours),
                    time_to_set_seconds: time_to_set(now, today, yesterday),
                    progress,
                },
            )
        },
    }
}

/// How the clock of the meridian flip stands.
#[derive(Debug, Clone, Copy, PartialEq, Eq, Structural)]
pub struct MeridianStatusView {
    pub time_to_flip_seconds: Option<i64>,
    pub side_of_pier: SideOfPier,
    pub mount_ra_hours: Binary64,
    pub mount_dec_degrees: Binary64,
}

/// How the clock of the meridian flip stands, from where the mount points.
pub fn meridian_status_view(
    flip: Option<SignedSpan>,
    mount_ra_hours: Binary64,
    mount_dec_degrees: Binary64,
    side: SideOfPier,
) -> (r: MeridianStatusView)
    ensures
        counts_down(r.time_to_flip_seconds, flip),
        r.side_of_pier == side,
        r.mount_ra_hours == mount_ra_hours,
        r.mount_dec_degrees == mount_dec_degrees,
{
    MeridianStatusView {
        time_to_flip_seconds: compute_meridian_flip(flip).time_to_flip_seconds,
        side_of_pier: side,
        mount_ra_hours,
        mount_dec_degrees,
    }
}

/// The time to the next setting is told exactly when today's setting or that
/// of the window that began yesterday is still to come, in the calendar. It
/// is counted to today's where that is to come, and else to the other, and
/// is the whole seconds up to it where neither instant is in a leap second.
pub proof fn next_setting_is_told(
    now: UtcTime,
    today: Option<RiseSet>,
    yesterday: Option<RiseSet>,
    r: Option<i64>,
)
    requires
        tells_next_set(now, today, yesterday, r),
        now.reached(),
    ensures
        ({
            let later_today = today is Some && today->0.set_utc.after(now)
                && today->0.set_utc.reached();
            let later_yesterday = yesterday is Some && yesterday->0.set_utc.after(now)
                && yesterday->0.set_utc.reached();
            &&& r is Some <==> later_today || later_yesterday
            &&& later_today && now.plain() && today->0.set_utc.plain() ==> r->0
                * 1_000_000_000int <= today->0.set_utc.total_nanos() - now.total_nanos() < (r->0
                + 1) * 1_000_000_000int
            &&& !later_today && later_yesterday && now.plain() && yesterday->0.set_utc.plain()
                ==> r->0 * 1_000_000_000int <= yesterday->0.set_utc.total_nanos()
                - now.total_nanos() < (r->0 + 1) * 1_000_000_000int
        }),
{
}

} // verus!
