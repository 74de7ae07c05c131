//! Instants and days.
use crate::text::{concat2, concat4, opt_view};
use vstd::prelude::*;

verus! {

/// An instant: seconds since the start of 1970 (UTC) and the nanoseconds
/// beyond them. In a leap second the nanoseconds run past one second.
#[derive(Debug, Clone, Copy, PartialEq, Eq, Structural)]
pub struct UtcTime {
    pub secs: i64,
    pub nanos: u32,
}

/// A day of the Gregorian calendar, by its number; the first day of the
/// year one is day one.
#[derive(Debug, Clone, Copy, PartialEq, Eq, Structural)]
pub struct CalendarDay {
    pub days_from_ce: i32,
}

/// The number of the first day of 1970.
pub const EPOCH_DAY: i64 = 719_163;

/// The seconds of a day.
pub const DAY_SECS: i64 = 86_400;

/// The first second of the calendar, which begins with the year -262143.
pub const FIRST_SECS: i64 = -8_334_601_228_800;

/// The last second of the calendar, which ends with the year 262142.
pub const LAST_SECS: i64 = 8_210_266_876_799;

impl UtcTime {
    /// The instant comes after another.
    pub open spec fn after(self, other: UtcTime) -> bool {
        self.secs > other.secs || (self.secs == other.secs && self.nanos > other.nanos)
    }

    /// The instant is not in a leap second.
    pub open spec fn plain(self) -> bool {
        self.nanos < 1_000_000_000
    }

    /// The calendar reaches the instant. Only the last second of a minute can
    /// be a leap second.
    pub open spec fn reached(self) -> bool {
        &&& FIRST_SECS <= self.secs <= LAST_SECS
        &&& self.plain() || (self.nanos < 2_000_000_000 && self.secs as int % 60 == 59)
    }

    /// The instant in nanoseconds since the start of 1970.
    pub open spec fn total_nanos(self) -> int {
        self.secs * 1_000_000_000 + self.nanos
    }

    /// The number of the day that the instant falls on.
    pub open spec fn day_number(self) -> int {
        self.secs as int / DAY_SECS as int + EPOCH_DAY
    }

    /// Whether the instant comes after another.
    pub fn is_after(self, other: UtcTime) -> (r: bool)
        ensures
            r == self.after(other),
    {
        self.secs > other.secs || (self.secs == other.secs && self.nanos > other.nanos)
    }

    /// The day that the instant falls on; `None` for a day whose number is
    /// out of range.
    pub fn day(self) -> (r: Option<CalendarDay>)
        ensures
            match r {
                Some(day) => day.days_from_ce == self.day_number(),
                None => self.day_number() < i32::MIN || self.day_number() > i32::MAX,
            },
    {
        let days: i128 = match (self.secs as i128).checked_div_euclid(86_400i128) {
            Some(d) => d + 719_163,
            None => 0,
        };
        if days < i32::MIN as i128 || days > i32::MAX as i128 {
            None
        } else {
            Some(CalendarDay { days_from_ce: days as i32 })
        }
    }
}

impl CalendarDay {
    /// The day before.
    pub fn pred(self) -> (r: Option<CalendarDay>)
        ensures
            match r {
                Some(day) => day.days_from_ce == self.days_from_ce - 1,
                None => self.days_from_ce == i32::MIN,
            },
    {
        if self.days_from_ce == i32::MIN {
            None
        } else {
            Some(CalendarDay { days_from_ce: self.days_from_ce - 1 })
        }
    }
}

/// What RFC 3339 text stands for: an instant, or the message that says why
/// it is none.
pub uninterp spec fn rfc3339_instant(text: Seq<char>) -> Result<UtcTime, Seq<char>>;

/// What a `YYYY-MM-DD` text stands for: a day, or the message that says why
/// it is none.
pub uninterp spec fn iso_day(text: Seq<char>) -> Result<CalendarDay, Seq<char>>;

/// An instant as RFC 3339 text; nothing for an instant that the calendar does
/// not reach.
pub uninterp spec fn rfc3339_text(secs: i64, nanos: u32) -> Option<Seq<char>>;

/// The whole seconds from one instant to another, leap seconds counted;
/// nothing where the calendar does not reach one of them.
pub uninterp spec fn whole_seconds(
    from_secs: i64,
    from_nanos: u32,
    to_secs: i64,
    to_nanos: u32,
) -> Option<i64>;

/// A text in quotation marks, with what cannot be printed escaped.
pub uninterp spec fn quoted(text: Seq<char>) -> Seq<char>;

/// What a parsed text holds, the message by its characters.
pub open spec fn parsed_view<T>(r: Result<T, String>) -> Result<T, Seq<char>> {
    match r {
        Ok(value) => Ok(value),
        Err(text) => Err(text@),
    }
}

/// `chrono::DateTime::parse_from_rfc3339`: the instant that the text stands
/// for, by its seconds and nanoseconds, or the text of the parse error. What
/// it makes of a text is named, not spelled out.
#[verifier::external_body]
fn parse_rfc3339(text: &str) -> (r: Result<UtcTime, String>)
    ensures
        parsed_view(r) == rfc3339_instant(text@),
{
    chrono::DateTime::parse_from_rfc3339(text)
        .map(|t| UtcTime { secs: t.timestamp(), nanos: t.timestamp_subsec_nanos() })
        .map_err(|e| e.to_string())
}

/// `chrono::NaiveDate::parse_from_str` with the format `%Y-%m-%d`: the day
/// that the text stands for, by its number, or the text of the parse error.
/// What it makes of a text is named, not spelled out.
#[verifier::external_body]
fn parse_iso_day(text: &str) -> (r: Result<CalendarDay, String>)
    ensures
        parsed_view(r) == iso_day(text@),
{
    chrono::NaiveDate::parse_from_str(text, "%Y-%m-%d")
        .map(|d| CalendarDay { days_from_ce: chrono::Datelike::num_days_from_ce(&d) })
        .map_err(|e| e.to_string())
}

/// `chrono::Utc::now`: the current instant, of which only that much is said
/// that the calendar reaches it and that it is in no leap second.
#[verifier::external_body]
fn utc_now() -> (r: UtcTime)
    ensures
        r.reached(),
        r.plain(),
{
    let now = chrono::Utc::now();
    UtcTime { secs: now.timestamp(), nanos: now.timestamp_subsec_nanos() }
}

/// `chrono::DateTime::to_rfc3339` of an instant in UTC, which there is for
/// every instant that the calendar reaches. The text is named, not spelled
/// out.
#[verifier::external_body]
fn format_rfc3339(t: UtcTime) -> (r: Option<String>)
    ensures
        opt_view(r) == rfc3339_text(t.secs, t.nanos),
        r is Some <==> t.reached(),
{
    chrono::DateTime::<chrono::Utc>::from_timestamp(t.secs, t.nanos).map(|d| d.to_rfc3339())
}

/// `chrono::DateTime::signed_duration_since` in whole seconds, which there is
/// where the calendar reaches both instants: between two that are in no leap
/// second it is the difference with the fraction of a second dropped.
#[verifier::external_body]
fn seconds_between(from: UtcTime, to: UtcTime) -> (r: Option<i64>)
    ensures
        r == whole_seconds(from.secs, from.nanos, to.secs, to.nanos),
        r is Some == (from.reached() && to.reached()),
        r is Some && from.plain() && to.plain() && to.after(from) ==> r->0 == (to.total_nanos()
            - from.total_nanos()) / 1_000_000_000,
{
    let start = chrono::DateTime::<chrono::Utc>::from_timestamp(from.secs, from.nanos)?;
    let end = chrono::DateTime::<chrono::Utc>::from_timestamp(to.secs, to.nanos)?;
    Some(end.signed_duration_since(start).num_seconds())
}

/// `chrono::DateTime::checked_add_signed` with a positive number of seconds:
/// the seconds move by as many, where the calendar reaches the instant and
/// the sum; a leap second is left behind, so that the nanoseconds are again
/// those of an ordinary second.
#[verifier::external_body]
pub(crate) fn seconds_later(t: UtcTime, secs: i64) -> (r: Option<UtcTime>)
    requires
        0 < secs <= DAY_SECS,
    ensures
        r is Some == (t.reached() && t.secs + secs <= LAST_SECS),
        r is Some ==> r->0.secs == t.secs + secs,
        r is Some ==> r->0.nanos == t.nanos as int % 1_000_000_000,
{
    chrono::DateTime::<chrono::Utc>::from_timestamp(t.secs, t.nanos)?
        .checked_add_signed(chrono::TimeDelta::seconds(secs))
        .map(|d| UtcTime { secs: d.timestamp(), nanos: d.timestamp_subsec_nanos() })
}

/// A length of time, forwards or backwards, in seconds and nanoseconds.
#[derive(Debug, Clone, Copy)]
pub struct SignedSpan {
    secs: i64,
    nanos: i32,
}

impl SignedSpan {
    #[verifier::type_invariant]
    spec fn below_a_second(self) -> bool {
        -1_000_000_000 < self.nanos < 1_000_000_000
    }

    /// The length of time in nanoseconds.
    pub closed spec fn total_nanos(self) -> int {
        self.secs * 1_000_000_000 + self.nanos
    }

    /// The whole seconds, with the fraction of a second dropped.
    pub open spec fn seconds(self) -> int {
        if self.total_nanos() < 0 {
            -((-self.total_nanos()) / 1_000_000_000)
        } else {
            self.total_nanos() / 1_000_000_000
        }
    }

    /// The sum of seconds and nanoseconds; `None` where the nanoseconds come
    /// to a second or more.
    pub fn new(secs: i64, nanos: i32) -> (r: Option<SignedSpan>)
        ensures
            r is Some <==> -1_000_000_000 < nanos < 1_000_000_000,
            r is Some ==> r->0.total_nanos() == secs * 1_000_000_000 + nanos,
    {
        if -1_000_000_000 < nanos && nanos < 1_000_000_000 {
            Some(SignedSpan { secs, nanos })
        } else {
            None
        }
    }

    /// The whole seconds, with the fraction of a second dropped.
    pub fn whole_seconds(self) -> (r: i64)
        ensures
            r == self.seconds(),
    {
        proof {
            use_type_invariant(&self);
        }
        if self.secs > 0 && self.nanos < 0 {
            self.secs - 1
        } else if self.secs < 0 && self.nanos > 0 {
            self.secs + 1
        } else {
            self.secs
        }
    }
}

/// The `Debug` form of a `str`. The text is named, not spelled out.
#[verifier::external_body]
pub(crate) fn quote(text: &str) -> (r: String)
    ensures
        r@ == quoted(text@),
{
    format!("{text:?}")
}

/// The message about a text that is no instant.
pub open spec fn invalid_time(raw: Seq<char>, e: Seq<char>) -> Seq<char> {
    "invalid time "@ + quoted(raw) + ": "@ + e
        + " (expect RFC3339, e.g. 2026-05-03T22:00:00Z)"@
}

/// The message about a text that is no day.
pub open spec fn invalid_date(raw: Seq<char>, e: Seq<char>) -> Seq<char> {
    "invalid date "@ + quoted(raw) + ": "@ + e + " (expect YYYY-MM-DD)"@
}

/// The instant that a text stood for, or the message about it.
pub fn instant_or_message(raw: &str, parsed: Result<UtcTime, String>) -> (r: Result<
    UtcTime,
    String,
>)
    ensures
        match parsed {
            Ok(t) => r == Ok::<UtcTime, String>(t),
            Err(e) => r matches Err(text) && text@ == invalid_time(raw@, e@),
        },
{
    match parsed {
        Ok(t) => Ok(t),
        Err(e) => {
            let shown = quote(raw);
            let head = concat4("invalid time ", shown.as_str(), ": ", e.as_str());
            Err(concat2(head.as_str(), " (expect RFC3339, e.g. 2026-05-03T22:00:00Z)"))
        },
    }
}

/// The day that a text stood for, or the message about it.
pub fn day_or_message(raw: &str, parsed: Result<CalendarDay, String>) -> (r: Result<
    CalendarDay,
    String,
>)
    ensures
        match parsed {
            Ok(day) => r == Ok::<CalendarDay, String>(day),
            Err(e) => r matches Err(text) && text@ == invalid_date(raw@, e@),
        },
{
    match parsed {
        Ok(day) => Ok(day),
        Err(e) => {
            let shown = quote(raw);
            let head = concat4("invalid date ", shown.as_str(), ": ", e.as_str());
            Err(concat2(head.as_str(), " (expect YYYY-MM-DD)"))
        },
    }
}

/// Parses an RFC 3339 instant; without a text it is the current one.
pub fn parse_time_or_now(s: Option<&str>) -> (r: Result<UtcTime, String>)
    ensures
        s is None ==> r is Ok && r->Ok_0.reached() && r->Ok_0.plain(),
        s matches Some(raw) ==> match rfc3339_instant(raw@) {
            Ok(t) => r == Ok::<UtcTime, String>(t),
            Err(e) => r matches Err(text) && text@ == invalid_time(raw@, e),
        },
{
    match s {
        Some(raw) => instant_or_message(raw, parse_rfc3339(raw)),
        None => Ok(utc_now()),
    }
}

/// Parses a `YYYY-MM-DD` day.
pub fn parse_date(s: &str) -> (r: Result<CalendarDay, String>)
    ensures
        match iso_day(s@) {
            Ok(day) => r == Ok::<CalendarDay, String>(day),
            Err(e) => r matches Err(text) && text@ == invalid_date(s@, e),
        },
{
    day_or_message(s, parse_iso_day(s))
}

/// An instant as RFC 3339 text; `None` for an instant that the calendar does
/// not reach.
pub fn to_rfc3339(t: UtcTime) -> (r: Option<String>)
    ensures
        opt_view(r) == rfc3339_text(t.secs, t.nanos),
        r is Some <==> t.reached(),
{
    format_rfc3339(t)
}

/// The whole seconds until an instant, where it is still to come.
pub open spec fn time_until(now: UtcTime, then_at: UtcTime) -> Option<i64> {
    if then_at.after(now) {
        whole_seconds(now.secs, now.nanos, then_at.secs, then_at.nanos)
    } else {
        None
    }
}

/// The whole seconds from one instant to a later one, both in the calendar
/// and in no leap second.
pub open spec fn seconds_from(now: UtcTime, then_at: UtcTime) -> int {
    (then_at.total_nanos() - now.total_nanos()) / 1_000_000_000
}

/// The whole seconds until an instant; `None` where it has passed, or where
/// the calendar does not reach.
pub fn seconds_until(now: UtcTime, then_at: UtcTime) -> (r: Option<i64>)
    ensures
        r == time_until(now, then_at),
        r is Some <==> then_at.after(now) && now.reached() && then_at.reached(),
        r is Some && now.plain() && then_at.plain() ==> r->0 == seconds_from(now, then_at),
{
    if then_at.is_after(now) {
        seconds_between(now, then_at)
    } else {
        None
    }
}

/// An instant falls on the day that has begun and not ended by then, counted
/// from the first day of 1970.
pub proof fn instants_fall_on_their_day(t: UtcTime)
    ensures
        (t.day_number() - 719_163) * 86_400 <= t.secs,
        t.secs < (t.day_number() - 719_163 + 1) * 86_400,
{
}

/// One instant comes after another exactly when it is the later in time, and
/// what is told of two instants is how far apart they are: an instant counts
/// a billion nanoseconds for each second.
pub proof fn instants_are_ordered_in_time(a: UtcTime, b: UtcTime)
    ensures
        a.plain() <==> a.nanos <= 999_999_999,
        a.plain() && b.plain() ==> (a.after(b) <==> a.total_nanos() > b.total_nanos()),
        !(a.after(b) && b.after(a)),
        !a.after(b) && !b.after(a) ==> a == b,
        a.total_nanos() == a.secs * 1_000_000_000 + a.nanos,
        a.plain() && b.plain() && b.after(a) ==> {
            let s = seconds_from(a, b);
            s * 1_000_000_000 <= b.total_nanos() - a.total_nanos() < (s + 1) * 1_000_000_000
        },
        !b.after(a) ==> time_until(a, b) is None,
        b.after(a) ==> time_until(a, b) == whole_seconds(a.secs, a.nanos, b.secs, b.nanos),
{
}

/// The calendar reaches every instant from the year -262143 to the year
/// 262142, an instant in a leap second only in the last second of a minute.
pub proof fn calendar_reaches_its_years(t: UtcTime)
    ensures
        t.reached() <==> -8_334_601_228_800 <= t.secs <= 8_210_266_876_799 && (t.nanos
            < 1_000_000_000 || (t.nanos < 2_000_000_000 && t.secs as int % 60 == 59)),
{
}

/// The whole seconds of a length of time are the most that it holds, towards
/// zero: what is left is less than a second, and on the same side of zero.
pub proof fn whole_seconds_leave_less_than_one(span: SignedSpan)
    ensures
        span.total_nanos() >= 0 ==> 0 <= span.total_nanos() - span.seconds() * 1_000_000_000
            < 1_000_000_000,
        span.total_nanos() < 0 ==> -1_000_000_000 < span.total_nanos() - span.seconds()
            * 1_000_000_000 <= 0,
{
}

/// The messages about a text that is no instant or no day quote the text and
/// say why and what was expected.
pub proof fn messages_quote_the_text(raw: Seq<char>, e: Seq<char>)
    ensures
        invalid_time(raw, e) == "invalid time "@ + quoted(raw) + ": "@ + e
            + " (expect RFC3339, e.g. 2026-05-03T22:00:00Z)"@,
        invalid_date(raw, e) == "invalid date "@ + quoted(raw) + ": "@ + e
            + " (expect YYYY-MM-DD)"@,
{
}

} // verus!
