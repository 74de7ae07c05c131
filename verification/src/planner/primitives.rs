//! The answers of the single ephemeris tools.
use crate::binary64::Binary64;
use crate::planner::targets::{dec_in_range, ra_in_range, IcrsCoord, IcrsError};
use crate::text::{concat2, opt_view, same_text};
use crate::time::{quote, quoted, rfc3339_text, to_rfc3339, SignedSpan, UtcTime};
use vstd::prelude::*;

verus! {

/// How dark it is when twilight begins or ends.
#[derive(Debug, Clone, Copy, PartialEq, Eq, Structural)]
pub enum TwilightKind {
    Civil,
    Nautical,
    Astronomical,
}

/// The side of the pier that the telescope is on.
#[derive(Debug, Clone, Copy, PartialEq, Eq, Structural)]
pub enum SideOfPier {
    East,
    West,
    Unknown,
}

/// A character in lower case, where it is an ASCII letter.
pub open spec fn lower(c: char) -> char {
    if 'A' <= c && c <= 'Z' {
        (c as int + 32) as char
    } else {
        c
    }
}

/// A text with its ASCII letters in lower case.
pub open spec fn lowered(text: Seq<char>) -> Seq<char> {
    text.map_values(|c: char| lower(c))
}

/// A text with its ASCII letters in lower case.
fn to_lowercase(text: &str) -> (r: String)
    ensures
        r@ == lowered(text@),
{
    let letters = "abcdefghijklmnopqrstuvwxyz";
    proof {
        reveal_strlit("abcdefghijklmnopqrstuvwxyz");
    }
    let n: usize = text.unicode_len();
    let mut r = String::new();
    let mut i: usize = 0;
    while i < n
        invariant
            i <= n == text@.len(),
            letters@.len() == 26,
            forall|k: int| 0 <= k < 26 ==> #[trigger] letters@[k] == (k + 97) as char,
            r@ == lowered(text@.take(i as int)),
        decreases n - i,
    {
        let c: char = text.get_char(i);
        if 'A' <= c && c <= 'Z' {
            let k: usize = c as usize - 65;
            r.append(letters.substring_char(k, k + 1));
        } else {
            r.append(text.substring_char(i, i + 1));
        }
        assert(text@.take(i + 1) =~= text@.take(i as int).push(c));
        assert(r@ =~= lowered(text@.take(i + 1)));
        i = i + 1;
    }
    assert(text@.take(n as int) =~= text@);
    r
}

impl TwilightKind {
    /// The name of the kind.
    pub open spec fn name(self) -> Seq<char> {
        match self {
            TwilightKind::Civil => "civil"@,
            TwilightKind::Nautical => "nautical"@,
            TwilightKind::Astronomical => "astronomical"@,
        }
    }

    /// The name of the kind.
    pub fn label(self) -> (r: &'static str)
        ensures
            r@ == self.name(),
    {
        match self {
            TwilightKind::Civil => "civil",
            TwilightKind::Nautical => "nautical",
            TwilightKind::Astronomical => "astronomical",
        }
    }
}

impl SideOfPier {
    /// The name of the side.
    pub open spec fn name(self) -> Seq<char> {
        match self {
            SideOfPier::East => "east"@,
            SideOfPier::West => "west"@,
            SideOfPier::Unknown => "unknown"@,
        }
    }

    /// The name of the side.
    pub fn label(self) -> (r: &'static str)
        ensures
            r@ == self.name(),
    {
        match self {
            SideOfPier::East => "east",
            SideOfPier::West => "west",
            SideOfPier::Unknown => "unknown",
        }
    }
}

/// The kind that a text names, in any case of its letters.
pub fn parse_twilight_kind(s: &str) -> (r: Result<TwilightKind, String>)
    ensures
        match r {
            Ok(kind) => lowered(s@) == kind.name(),
            Err(text) => (forall|kind: TwilightKind| lowered(s@) != #[trigger] kind.name())
                && text@ == "unknown twilight kind "@ + quoted(lowered(s@))
                + "; expected one of civil, nautical, astronomical"@,
        },
{
    let text = to_lowercase(s);
    if same_text(text.as_str(), "civil") {
        Ok(TwilightKind::Civil)
    } else if same_text(text.as_str(), "nautical") {
        Ok(TwilightKind::Nautical)
    } else if same_text(text.as_str(), "astronomical") {
        Ok(TwilightKind::Astronomical)
    } else {
        let shown = quote(text.as_str());
        let head = concat2("unknown twilight kind ", shown.as_str());
        Err(concat2(head.as_str(), "; expected one of civil, nautical, astronomical"))
    }
}

/// The side of the pier that a text names, in any case of its letters.
pub fn parse_side_of_pier(s: &str) -> (r: Result<SideOfPier, String>)
    ensures
        match r {
            Ok(side) => lowered(s@) == side.name(),
            Err(text) => (forall|side: SideOfPier| lowered(s@) != #[trigger] side.name()) && text@
                == "unknown side_of_pier "@ + quoted(lowered(s@))
                + "; expected one of east, west, unknown"@,
        },
{
    let text = to_lowercase(s);
    if same_text(text.as_str(), "east") {
        Ok(SideOfPier::East)
    } else if same_text(text.as_str(), "west") {
        Ok(SideOfPier::West)
    } else if same_text(text.as_str(), "unknown") {
        Ok(SideOfPier::Unknown)
    } else {
        let shown = quote(text.as_str());
        let head = concat2("unknown side_of_pier ", shown.as_str());
        Err(concat2(head.as_str(), "; expected one of east, west, unknown"))
    }
}

/// The names of the kinds tell them apart, so that a text names at most one.
pub proof fn twilight_names_differ(a: TwilightKind, b: TwilightKind)
    requires
        a.name() == b.name(),
    ensures
        a == b,
{
    reveal_strlit("civil");
    reveal_strlit("nautical");
    reveal_strlit("astronomical");
    assert("civil"@.len() == 5 && "nautical"@.len() == 8 && "astronomical"@.len() == 12);
}

/// The names of the sides tell them apart, so that a text names at most one.
pub proof fn side_names_differ(a: SideOfPier, b: SideOfPier)
    requires
        a.name() == b.name(),
    ensures
        a == b,
{
    reveal_strlit("east");
    reveal_strlit("west");
    reveal_strlit("unknown");
    assert("east"@[0] == 'e' && "west"@[0] == 'w' && "unknown"@[0] == 'u');
}

/// A coordinate whose right ascension is in [0, 24) hours and whose
/// declination is in [-90, 90] degrees.
pub fn validate_icrs(ra_hours: Binary64, dec_degrees: Binary64) -> (r: Result<
    IcrsCoord,
    IcrsError,
>)
    ensures
        match r {
            Ok(coord) => ra_in_range(ra_hours) && dec_in_range(dec_degrees) && coord.ra_spec()
                == ra_hours && coord.dec_spec() == dec_degrees,
            Err(IcrsError::RaHours(ra)) => ra == ra_hours && !ra_in_range(ra_hours),
            Err(IcrsError::DecDegrees(dec)) => dec == dec_degrees && ra_in_range(ra_hours)
                && !dec_in_range(dec_degrees),
        },
{
    IcrsCoord::try_new(ra_hours, dec_degrees)
}

/// The message of a tool that needs a site when none is configured.
pub fn site_required_error() -> (r: String)
    ensures
        r@ == "site not configured: this tool requires a `site` block in rp's config; "@
            + "see docs/services/rp.md §\"Site Configuration\""@,
{
    concat2(
        "site not configured: this tool requires a `site` block in rp's config; ",
        "see docs/services/rp.md §\"Site Configuration\"",
    )
}

/// An altitude and an azimuth, in degrees.
#[derive(Debug, Clone, Copy, PartialEq, Eq, Structural)]
pub struct AltAz {
    pub altitude_degrees: Binary64,
    pub azimuth_degrees: Binary64,
}

/// The message about an altitude that could not be computed.
pub open spec fn transform_failed(e: Seq<char>) -> Seq<char> {
    "alt/az transform failed: "@ + e
}

/// The altitude and azimuth that were computed, or the message that they
/// could not be.
pub fn compute_alt_az(computed: Result<AltAz, String>) -> (r: Result<AltAz, String>)
    ensures
        match computed {
            Ok(aa) => r == Ok::<AltAz, String>(aa),
            Err(e) => r matches Err(text) && text@ == transform_failed(e@),
        },
{
    match computed {
        Ok(aa) => Ok(aa),
        Err(e) => Err(concat2("alt/az transform failed: ", e.as_str())),
    }
}

/// An optional instant as RFC 3339 text.
pub open spec fn opt_rfc3339(t: Option<UtcTime>) -> Option<Seq<char>> {
    match t {
        Some(at) => rfc3339_text(at.secs, at.nanos),
        None => None,
    }
}

/// Whether there is an instant that the calendar reaches.
pub open spec fn opt_reached(t: Option<UtcTime>) -> bool {
    t is Some && t->Some_0.reached()
}

fn opt_to_rfc3339(t: Option<UtcTime>) -> (r: Option<String>)
    ensures
        opt_view(r) == opt_rfc3339(t),
        r is Some <==> opt_reached(t),
{
    match t {
        Some(at) => to_rfc3339(at),
        None => None,
    }
}

/// When a target transits.
#[derive(Debug)]
pub struct TransitView {
    pub transit_utc: Option<String>,
}

/// When a target transits, as text.
pub fn compute_transit(transit: Option<UtcTime>) -> (r: TransitView)
    ensures
        opt_view(r.transit_utc) == opt_rfc3339(transit),
        r.transit_utc is Some <==> opt_reached(transit),
{
    TransitView { transit_utc: opt_to_rfc3339(transit) }
}

/// When a target rises above an altitude and sets below it.
#[derive(Debug, Clone, Copy, PartialEq, Eq, Structural)]
pub struct RiseSet {
    pub rise_utc: UtcTime,
    pub set_utc: UtcTime,
}

/// When a target rises and sets, as text.
#[derive(Debug)]
pub struct RiseSetView {
    pub rise_utc: Option<String>,
    pub set_utc: Option<String>,
}

/// When a target rises and sets, as text; both are absent for one that does
/// neither.
pub fn compute_rise_set(result: Option<RiseSet>) -> (r: RiseSetView)
    ensures
        match result {
            Some(rs) => opt_view(r.rise_utc) == rfc3339_text(rs.rise_utc.secs, rs.rise_utc.nanos)
                && opt_view(r.set_utc) == rfc3339_text(rs.set_utc.secs, rs.set_utc.nanos),
            None => r.rise_utc is None && r.set_utc is None,
        },
        r.rise_utc is Some <==> (result is Some && result->Some_0.rise_utc.reached()),
        r.set_utc is Some <==> (result is Some && result->Some_0.set_utc.reached()),
{
    match result {
        Some(rs) => RiseSetView {
            rise_utc: to_rfc3339(rs.rise_utc),
            set_utc: to_rfc3339(rs.set_utc),
        },
        None => RiseSetView { rise_utc: None, set_utc: None },
    }
}

/// How long it is until the meridian flip.
#[derive(Debug, Clone, Copy, PartialEq, Eq, Structural)]
pub struct MeridianFlipView {
    pub time_to_flip_seconds: Option<i64>,
}

/// A number of seconds tells a length of time, or there is neither.
pub open spec fn counts_down(seconds: Option<i64>, span: Option<SignedSpan>) -> bool {
    match (seconds, span) {
        (Some(n), Some(s)) => n == s.seconds(),
        (None, None) => true,
        _ => false,
    }
}

/// How long it is until the meridian flip, in whole seconds.
pub fn compute_meridian_flip(flip: Option<SignedSpan>) -> (r: MeridianFlipView)
    ensures
        counts_down(r.time_to_flip_seconds, flip),
{
    let time_to_flip_seconds: Option<i64> = match flip {
        Some(span) => Some(span.whole_seconds()),
        None => None,
    };
    MeridianFlipView { time_to_flip_seconds }
}

/// When twilight begins and ends.
#[derive(Debug)]
pub struct TwilightView {
    pub kind: &'static str,
    pub begin_utc: Option<String>,
    pub end_utc: Option<String>,
}

/// When twilight of a kind begins and ends, as text.
pub fn get_twilight(kind: TwilightKind, begin: Option<UtcTime>, end: Option<UtcTime>) -> (r:
    TwilightView)
    ensures
        r.kind@ == kind.name(),
        opt_view(r.begin_utc) == opt_rfc3339(begin),
        opt_view(r.end_utc) == opt_rfc3339(end),
        r.begin_utc is Some <==> opt_reached(begin),
        r.end_utc is Some <==> opt_reached(end),
{
    TwilightView {
        kind: kind.label(),
        begin_utc: opt_to_rfc3339(begin),
        end_utc: opt_to_rfc3339(end),
    }
}

/// A number, where it is finite.
pub open spec fn finite_of(v: Binary64) -> Option<Binary64> {
    if v.finite() {
        Some(v)
    } else {
        None
    }
}

/// A number, where it is finite: JSON has no other.
pub fn finite_or_null(v: Binary64) -> (r: Option<Binary64>)
    ensures
        r == finite_of(v),
{
    if v.is_finite() {
        Some(v)
    } else {
        None
    }
}

/// Where a body is: its coordinate, and its place in the sky, which is not a
/// number at a site where it cannot be computed.
#[derive(Debug, Clone, Copy, PartialEq, Eq, Structural)]
pub struct BodyPosition {
    pub ra_hours: Binary64,
    pub dec_degrees: Binary64,
    pub alt_az: AltAz,
}

/// Where a body is, as it is told.
#[derive(Debug, Clone, Copy, PartialEq, Eq, Structural)]
pub struct BodyView {
    pub ra_hours: Binary64,
    pub dec_degrees: Binary64,
    pub altitude_degrees: Option<Binary64>,
    pub azimuth_degrees: Option<Binary64>,
}

/// What is told of where a body is.
pub open spec fn body_view_of(position: BodyPosition) -> BodyView {
    BodyView {
        ra_hours: position.ra_hours,
        dec_degrees: position.dec_degrees,
        altitude_degrees: finite_of(position.alt_az.altitude_degrees),
        azimuth_degrees: finite_of(position.alt_az.azimuth_degrees),
    }
}

/// Where the Sun is.
pub fn get_sun_position(position: BodyPosition) -> (r: BodyView)
    ensures
        r == body_view_of(position),
{
    BodyView {
        ra_hours: position.ra_hours,
        dec_degrees: position.dec_degrees,
        altitude_degrees: finite_or_null(position.alt_az.altitude_degrees),
        azimuth_degrees: finite_or_null(position.alt_az.azimuth_degrees),
    }
}

/// Where the Moon is and how much of it is lit.
#[derive(Debug, Clone, Copy, PartialEq, Eq, Structural)]
pub struct MoonView {
    pub position: BodyView,
    pub phase_degrees: Binary64,
    pub illumination_fraction: Binary64,
}

/// Where the Moon is and how much of it is lit.
pub fn get_moon_position(
    position: BodyPosition,
    phase_degrees: Binary64,
    illumination_fraction: Binary64,
) -> (r: MoonView)
    ensures
        r == (MoonView {
            position: body_view_of(position),
            phase_degrees,
            illumination_fraction,
        }),
{
    MoonView { position: get_sun_position(position), phase_degrees, illumination_fraction }
}

/// Only the ASCII capitals have another form in lower case, that of the
/// small letter; a text keeps its length and every other character.
pub proof fn lower_case_changes_capitals_only(text: Seq<char>, i: int)
    requires
        0 <= i < text.len(),
    ensures
        lowered(text).len() == text.len(),
        65 <= text[i] as int <= 90 ==> lowered(text)[i] as int == text[i] as int + 32,
        !(65 <= text[i] as int <= 90) ==> lowered(text)[i] == text[i],
        lowered(lowered(text)) == lowered(text),
{
    assert(lowered(lowered(text)) =~= lowered(text));
}

/// Each kind of twilight and each side of the pier has the name it is known
/// by.
pub proof fn names_are_what_they_say(message: Seq<char>)
    ensures
        TwilightKind::Civil.name() == "civil"@,
        TwilightKind::Nautical.name() == "nautical"@,
        TwilightKind::Astronomical.name() == "astronomical"@,
        SideOfPier::East.name() == "east"@,
        SideOfPier::West.name() == "west"@,
        SideOfPier::Unknown.name() == "unknown"@,
        transform_failed(message) == "alt/az transform failed: "@ + message,
{
}

/// What is told of a body is its coordinate, and its altitude as the
/// altitude and its azimuth as the azimuth, each where it is finite.
pub proof fn bodies_are_told_as_they_stand(position: BodyPosition)
    ensures
        ({
            let view = body_view_of(position);
            let place = position.alt_az;
            &&& view.ra_hours == position.ra_hours
            &&& view.dec_degrees == position.dec_degrees
            &&& place.altitude_degrees.finite() ==> view.altitude_degrees == Some(
                place.altitude_degrees,
            )
            &&& !place.altitude_degrees.finite() ==> view.altitude_degrees is None
            &&& place.azimuth_degrees.finite() ==> view.azimuth_degrees == Some(
                place.azimuth_degrees,
            )
            &&& !place.azimuth_degrees.finite() ==> view.azimuth_degrees is None
        }),
{
}

/// An optional instant is told where there is one and the calendar reaches
/// it, as the text of that very instant; and the seconds of an optional
/// length of time are there exactly when it is.
pub proof fn optional_times_are_told(
    t: Option<UtcTime>,
    seconds: Option<i64>,
    span: Option<SignedSpan>,
)
    ensures
        t is None ==> opt_rfc3339(t) is None && !opt_reached(t),
        t matches Some(at) ==> opt_rfc3339(t) == rfc3339_text(at.secs, at.nanos) && (opt_reached(t)
            <==> at.reached()),
        counts_down(seconds, span) <==> (seconds is Some <==> span is Some) && (seconds is Some
            ==> seconds->0 == span->0.seconds()),
{
}

} // verus!
