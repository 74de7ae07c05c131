//! The event stream: every event of the service, replayed from where a
//! client left off and then live.
use crate::text::{has_prefix, opt_view, same_text, starts_with};
use vstd::prelude::*;

verus! {

/// An event as it is sent out.
pub struct EventEnvelope {
    pub event_id: String,
    /// The place of the event in the order of all events.
    pub event_seq: u64,
    /// The kind of event.
    pub event: String,
    /// What the events of one operation have in common; absent on an event
    /// that belongs to no operation.
    pub operation_id: Option<String>,
    pub started_at: Option<String>,
    pub ended_at: Option<String>,
    pub elapsed_ms: Option<u64>,
    pub predicted_duration_ms: Option<u64>,
    pub max_duration_ms: Option<u64>,
    pub payload: serde_json::Value,
}

/// The kind of event begins with one of the operations that always predict
/// how long they take.
pub open spec fn always_predicts(event: Seq<char>) -> bool {
    ||| has_prefix(event, "slew"@)
    ||| has_prefix(event, "park"@)
    ||| has_prefix(event, "move_focuser"@)
    ||| has_prefix(event, "exposure"@)
    ||| has_prefix(event, "centering"@)
}

/// The kind of event begins with one of the operations that may predict how
/// long they take.
pub open spec fn may_predict(event: Seq<char>) -> bool {
    has_prefix(event, "guide"@) || has_prefix(event, "dither"@)
}

/// The event that ends an operation matches the one that started it: they
/// share an operation, the end is an event of its own and comes later, both
/// carry their times, only the start may carry a prediction, and it does so
/// only for an operation that predicts.
pub open spec fn mirrors(start: EventEnvelope, end: EventEnvelope) -> bool {
    &&& start.operation_id is Some
    &&& opt_view(start.operation_id) == opt_view(end.operation_id)
    &&& start.event_id@ != end.event_id@
    &&& end.event_seq > start.event_seq
    &&& start.started_at is Some
    &&& end.started_at is Some
    &&& end.ended_at is Some
    &&& end.elapsed_ms is Some
    &&& start.ended_at is None
    &&& (always_predicts(start.event@) || (may_predict(start.event@)
        && start.predicted_duration_ms is Some) || (start.predicted_duration_ms is None
        && start.max_duration_ms is None))
    &&& end.predicted_duration_ms is None
    &&& end.max_duration_ms is None
}

fn same_present(a: &Option<String>, b: &Option<String>) -> (r: bool)
    ensures
        r == (*a is Some && opt_view(*a) == opt_view(*b)),
{
    match (a, b) {
        (Some(x), Some(y)) => same_text(x.as_str(), y.as_str()),
        _ => false,
    }
}

/// Whether the event that ends an operation matches the one that started it.
pub fn end_mirrors_start(start: &EventEnvelope, end: &EventEnvelope) -> (r: bool)
    ensures
        r == mirrors(*start, *end),
{
    let event = start.event.as_str();
    let always: bool = starts_with(event, "slew") || starts_with(event, "park") || starts_with(
        event,
        "move_focuser",
    ) || starts_with(event, "exposure") || starts_with(event, "centering");
    let sometimes: bool = starts_with(event, "guide") || starts_with(event, "dither");
    let predicts: bool = always || (sometimes && start.predicted_duration_ms.is_some());
    same_present(&start.operation_id, &end.operation_id) && !same_text(
        start.event_id.as_str(),
        end.event_id.as_str(),
    ) && end.event_seq > start.event_seq && start.started_at.is_some() && end.started_at.is_some()
        && end.ended_at.is_some() && end.elapsed_ms.is_some() && start.ended_at.is_none() && (
    predicts || (start.predicted_duration_ms.is_none() && start.max_duration_ms.is_none()))
        && end.predicted_duration_ms.is_none() && end.max_duration_ms.is_none()
}

/// A byte that may stand in the text of a header.
pub open spec fn is_header_text(b: u8) -> bool {
    32 <= b < 127 || b == 9
}

/// White space in a header.
pub open spec fn is_blank(b: u8) -> bool {
    b == 32 || b == 9
}

/// Bytes without the white space before them.
pub open spec fn trimmed_front(bytes: Seq<u8>) -> Seq<u8>
    decreases bytes.len(),
{
    if bytes.len() > 0 && is_blank(bytes[0]) {
        trimmed_front(bytes.drop_first())
    } else {
        bytes
    }
}

/// Bytes without the white space behind them.
pub open spec fn trimmed_back(bytes: Seq<u8>) -> Seq<u8>
    decreases bytes.len(),
{
    if bytes.len() > 0 && is_blank(bytes.last()) {
        trimmed_back(bytes.drop_last())
    } else {
        bytes
    }
}

/// A decimal digit.
pub open spec fn is_digit(b: u8) -> bool {
    48 <= b <= 57
}

/// The number that decimal digits stand for.
pub open spec fn decimal(digits: Seq<u8>) -> nat
    decreases digits.len(),
{
    if digits.len() == 0 {
        0
    } else {
        decimal(digits.drop_last()) * 10 + (digits.last() - 48) as nat
    }
}

/// The digits of a number that may have a plus sign.
pub open spec fn unsigned_part(bytes: Seq<u8>) -> Seq<u8> {
    if bytes.len() > 0 && bytes[0] == 43 {
        bytes.drop_first()
    } else {
        bytes
    }
}

/// The number that bytes write out: decimal digits, perhaps behind a plus
/// sign, for a number of 64 bits.
pub open spec fn number_of(bytes: Seq<u8>) -> Option<u64> {
    let digits = unsigned_part(bytes);
    if digits.len() > 0 && (forall|i: int| 0 <= i < digits.len() ==> is_digit(#[trigger] digits[i]))
        && decimal(digits) <= u64::MAX {
        Some(decimal(digits) as u64)
    } else {
        None
    }
}

/// The cursor that a header's bytes hold: a number with white space around
/// it, all of it header text.
pub open spec fn header_cursor(bytes: Seq<u8>) -> Option<u64> {
    if forall|i: int| 0 <= i < bytes.len() ==> is_header_text(#[trigger] bytes[i]) {
        number_of(trimmed_back(trimmed_front(bytes)))
    } else {
        None
    }
}

proof fn lemma_decimal_grows(digits: Seq<u8>, k: int)
    requires
        0 <= k <= digits.len(),
        forall|i: int| 0 <= i < digits.len() ==> is_digit(#[trigger] digits[i]),
    ensures
        decimal(digits.take(k)) <= decimal(digits),
    decreases digits.len() - k,
{
    if k == digits.len() {
        assert(digits.take(k) =~= digits);
    } else {
        lemma_decimal_grows(digits, k + 1);
        assert(digits.take(k + 1).drop_last() =~= digits.take(k));
    }
}

/// Parses a number of 64 bits.
fn parse_number(bytes: &[u8], from: usize, to: usize) -> (r: Option<u64>)
    requires
        from <= to <= bytes@.len(),
    ensures
        r == number_of(bytes@.subrange(from as int, to as int)),
{
    let ghost text = bytes@.subrange(from as int, to as int);
    let signed: bool = from < to && bytes[from] == 43;
    let start: usize = if signed {
        from + 1
    } else {
        from
    };
    let ghost digits = bytes@.subrange(start as int, to as int);
    assert(digits =~= unsigned_part(text));
    if start == to {
        return None;
    }
    let mut value: u64 = 0;
    let mut i: usize = start;
    assert(digits.take(0) =~= Seq::<u8>::empty());
    while i < to
        invariant
            from <= start <= i <= to <= bytes@.len(),
            start < to,
            digits == bytes@.subrange(start as int, to as int),
            digits == unsigned_part(text),
            text == bytes@.subrange(from as int, to as int),
            forall|k: int| 0 <= k < i - start ==> is_digit(#[trigger] digits[k]),
            value == decimal(digits.take(i - start)),
        decreases to - i,
    {
        let b: u8 = bytes[i];
        assert(digits[i - start] == b);
        if b < 48 || b > 57 {
            return None;
        }
        let ghost upto = digits.take(i - start + 1);
        assert(upto.drop_last() =~= digits.take(i - start));
        let wide: u128 = value as u128 * 10 + (b - 48) as u128;
        assert(wide == decimal(upto));
        if wide > u64::MAX as u128 {
            proof {
                if forall|k: int| 0 <= k < digits.len() ==> is_digit(#[trigger] digits[k]) {
                    lemma_decimal_grows(digits, i - start + 1);
                }
            }
            return None;
        }
        value = wide as u64;
        i = i + 1;
    }
    assert(digits.take(to - start) =~= digits);
    Some(value)
}

fn parse_header(bytes: &[u8]) -> (r: Option<u64>)
    ensures
        r == header_cursor(bytes@),
{
    let mut i: usize = 0;
    while i < bytes.len()
        invariant
            i <= bytes@.len(),
            forall|k: int| 0 <= k < i ==> is_header_text(#[trigger] bytes@[k]),
        decreases bytes@.len() - i,
    {
        let b: u8 = bytes[i];
        if !((32 <= b && b < 127) || b == 9) {
            assert(!is_header_text(bytes@[i as int]));
            return None;
        }
        i = i + 1;
    }
    let mut from: usize = 0;
    assert(bytes@.skip(0) =~= bytes@);
    while from < bytes.len() && (bytes[from] == 32 || bytes[from] == 9)
        invariant
            from <= bytes@.len(),
            trimmed_front(bytes@) == trimmed_front(bytes@.skip(from as int)),
        decreases bytes@.len() - from,
    {
        assert(bytes@.skip(from as int).drop_first() =~= bytes@.skip(from + 1));
        from = from + 1;
    }
    let ghost front = bytes@.skip(from as int);
    assert(trimmed_front(bytes@) == front);
    let mut to: usize = bytes.len();
    assert(bytes@.subrange(from as int, to as int) =~= front);
    while to > from && (bytes[to - 1] == 32 || bytes[to - 1] == 9)
        invariant
            from <= to <= bytes@.len(),
            trimmed_back(front) == trimmed_back(bytes@.subrange(from as int, to as int)),
        decreases to,
    {
        let ghost here = bytes@.subrange(from as int, to as int);
        assert(here.last() == bytes@[to - 1]);
        assert(here.drop_last() =~= bytes@.subrange(from as int, to - 1));
        to = to - 1;
    }
    proof {
        let here = bytes@.subrange(from as int, to as int);
        if from < to {
            assert(here.last() == bytes@[to - 1]);
        }
        assert(trimmed_back(front) == here);
    }
    parse_number(bytes, from, to)
}

/// The place that a reconnecting client has read up to: what the
/// `Last-Event-ID` header says, or else the query. `None` starts at the live
/// tail.
pub fn parse_last_event_id(header: Option<&[u8]>, query: Option<u64>) -> (r: Option<u64>)
    ensures
        r == match header {
            Some(bytes) => match header_cursor(bytes@) {
                Some(cursor) => Some(cursor),
                None => query,
            },
            None => query,
        },
{
    match header {
        Some(bytes) => match parse_header(bytes) {
            Some(cursor) => Some(cursor),
            None => query,
        },
        None => query,
    }
}

/// The events that a reconnecting client missed for good.
#[derive(Debug, Clone, Copy, PartialEq, Eq, Structural)]
pub struct GapInfo {
    /// Where the client had read up to.
    pub requested_after: u64,
    /// The oldest event that is still there; everything between the two is
    /// lost.
    pub oldest_available: u64,
}

/// The gap between a cursor and the oldest event that is still there: there
/// is one where the very next event is lost.
pub open spec fn gap_between(requested: Option<u64>, oldest: Option<u64>) -> Option<GapInfo> {
    match (requested, oldest) {
        (Some(after), Some(oldest)) => if oldest > after + 1 {
            Some(GapInfo { requested_after: after, oldest_available: oldest })
        } else {
            None
        },
        _ => None,
    }
}

/// Whether a reconnecting client missed events that can no longer be
/// replayed.
pub fn detect_gap(requested_last_seq: Option<u64>, oldest_retained_seq: Option<u64>) -> (r: Option<
    GapInfo,
>)
    ensures
        r == gap_between(requested_last_seq, oldest_retained_seq),
{
    match (requested_last_seq, oldest_retained_seq) {
        (Some(after), Some(oldest)) => if oldest > after.saturating_add(1) {
            Some(GapInfo { requested_after: after, oldest_available: oldest })
        } else {
            None
        },
        _ => None,
    }
}

/// One frame of the stream.
pub enum StreamFrame {
    /// An event.
    Envelope(EventEnvelope),
    /// Events were lost before the stream began.
    Gap(GapInfo),
    /// The client fell behind by so many events; the stream ends with this.
    Lagged(u64),
}

impl StreamFrame {
    /// The frame's id, which a client reconnects with. Only events have one:
    /// a gap must not become a cursor.
    pub open spec fn id_of(self) -> Option<u64> {
        match self {
            StreamFrame::Envelope(envelope) => Some(envelope.event_seq),
            _ => None,
        }
    }

    /// The kind of event that the frame announces.
    pub open spec fn event_of(self) -> Seq<char> {
        match self {
            StreamFrame::Envelope(envelope) => envelope.event@,
            _ => "stream_gap"@,
        }
    }

    /// How the frame is labelled: with its id and the kind of event. An
    /// event that cannot be written out as JSON is announced as an error,
    /// without an id.
    pub fn label(&self, serialized: bool) -> (r: (Option<u64>, String))
        ensures
            self is Envelope && !serialized ==> r.0 is None && r.1@ == "stream_error"@,
            !(self is Envelope && !serialized) ==> r.0 == self.id_of() && r.1@ == self.event_of(),
    {
        match self {
            StreamFrame::Envelope(envelope) => if serialized {
                (Some(envelope.event_seq), envelope.event.clone())
            } else {
                (None, "stream_error".to_owned())
            },
            _ => (None, "stream_gap".to_owned()),
        }
    }
}

/// What a stream opens with: the gap, where there is one, and then the
/// events to be replayed, oldest first.
pub open spec fn opening_frames(gap: Option<GapInfo>, replay: Seq<EventEnvelope>) -> Seq<
    StreamFrame,
> {
    let events = replay.map_values(|envelope: EventEnvelope| StreamFrame::Envelope(envelope));
    match gap {
        Some(info) => seq![StreamFrame::Gap(info)] + events,
        None => events,
    }
}

/// What a stream opens with, for a client's cursor, the oldest event that is
/// still there and the events to be replayed.
pub fn open_stream(
    last_seq: Option<u64>,
    oldest_retained_seq: Option<u64>,
    replay: Vec<EventEnvelope>,
) -> (r: Vec<StreamFrame>)
    ensures
        r@ == opening_frames(gap_between(last_seq, oldest_retained_seq), replay@),
{
    let ghost all = replay@;
    let ghost gap = gap_between(last_seq, oldest_retained_seq);
    let mut frames: Vec<StreamFrame> = Vec::new();
    if let Some(info) = detect_gap(last_seq, oldest_retained_seq) {
        frames.push(StreamFrame::Gap(info));
    }
    let ghost mut n: int = 0;
    let mut rest = replay;
    assert(all.skip(0) =~= all);
    assert(frames@ =~= opening_frames(gap, all.take(0)));
    while rest.len() > 0
        invariant
            0 <= n <= all.len(),
            rest@ == all.skip(n),
            frames@ == opening_frames(gap, all.take(n)),
        decreases rest.len(),
    {
        let envelope = rest.remove(0);
        assert(envelope == all[n]);
        let ghost so_far = frames@;
        frames.push(StreamFrame::Envelope(envelope));
        proof {
            assert(all.take(n + 1) =~= all.take(n).push(all[n]));
            assert(frames@ =~= opening_frames(gap, all.take(n + 1)));
            n = n + 1;
            assert(rest@ =~= all.skip(n));
        }
    }
    assert(all.take(n) =~= all);
    frames
}

/// What happened on the live tail.
pub enum LiveEvent {
    /// The service is shutting down.
    Shutdown,
    /// An event came.
    Received(EventEnvelope),
    /// The client fell behind by so many events.
    Lagged(u64),
    /// There will be no more events.
    Closed,
}

/// What the stream does about it.
pub struct LiveStep {
    /// The frame to send, if any.
    pub frame: Option<StreamFrame>,
    /// Whether the stream ends then.
    pub ends: bool,
}

/// What the live tail does about an event: it passes events on, tells a
/// client that fell behind so and lets it go, and ends on anything else.
pub open spec fn live_step_of(event: LiveEvent) -> LiveStep {
    match event {
        LiveEvent::Received(envelope) => LiveStep {
            frame: Some(StreamFrame::Envelope(envelope)),
            ends: false,
        },
        LiveEvent::Lagged(missed) => LiveStep {
            frame: Some(StreamFrame::Lagged(missed)),
            ends: true,
        },
        _ => LiveStep { frame: None, ends: true },
    }
}

/// What the live tail does about an event.
pub fn live_step(event: LiveEvent) -> (r: LiveStep)
    ensures
        r == live_step_of(event),
{
    match event {
        LiveEvent::Received(envelope) => LiveStep {
            frame: Some(StreamFrame::Envelope(envelope)),
            ends: false,
        },
        LiveEvent::Lagged(missed) => LiveStep {
            frame: Some(StreamFrame::Lagged(missed)),
            ends: true,
        },
        _ => LiveStep { frame: None, ends: true },
    }
}

/// The frames that the live tail sends for the events at `from` and after
/// it, up to the end of the stream.
pub open spec fn live_frames(events: Seq<LiveEvent>, from: int) -> Seq<StreamFrame>
    decreases events.len() - from,
{
    if from < 0 || from >= events.len() {
        Seq::empty()
    } else {
        let step = live_step_of(events[from]);
        let here = match step.frame {
            Some(frame) => seq![frame],
            None => Seq::empty(),
        };
        if step.ends {
            here
        } else {
            here + live_frames(events, from + 1)
        }
    }
}

/// A stream is never backed up: a client that falls behind gets one frame
/// that says so, as the last of the stream, and every frame before it is an
/// event.
pub proof fn lag_ends_the_stream(events: Seq<LiveEvent>, from: int, i: int)
    requires
        0 <= i < live_frames(events, from).len(),
    ensures
        live_frames(events, from)[i] is Envelope || (live_frames(events, from)[i] is Lagged && i
            == live_frames(events, from).len() - 1),
    decreases events.len() - from,
{
    let step = live_step_of(events[from]);
    if !step.ends {
        let rest = live_frames(events, from + 1);
        assert(live_frames(events, from) == seq![step.frame->0] + rest);
        if i > 0 {
            lag_ends_the_stream(events, from + 1, i - 1);
            assert(live_frames(events, from)[i] == rest[i - 1]);
        }
    }
}

/// Nothing is sent after a shutdown: what comes later changes no frame.
pub proof fn shutdown_ends_the_stream(events: Seq<LiveEvent>, from: int, k: int)
    requires
        0 <= from <= k < events.len(),
        events[k] is Shutdown || events[k] is Closed,
    ensures
        live_frames(events, from) == live_frames(events.take(k), from),
    decreases k - from,
{
    if from < k {
        assert(events.take(k)[from] == events[from]);
        if !live_step_of(events[from]).ends {
            shutdown_ends_the_stream(events, from + 1, k);
        }
    } else {
        assert(live_frames(events, from) =~= Seq::<StreamFrame>::empty());
    }
}

/// A gap is told first and only once, it never becomes a cursor, and the
/// replayed events follow in their order.
pub proof fn gap_comes_first(gap: Option<GapInfo>, replay: Seq<EventEnvelope>, i: int)
    requires
        0 <= i < opening_frames(gap, replay).len(),
    ensures
        opening_frames(gap, replay)[i] is Gap <==> gap is Some && i == 0,
        opening_frames(gap, replay)[i] is Gap ==> opening_frames(gap, replay)[i].id_of() is None,
        opening_frames(gap, replay)[i] is Envelope ==> opening_frames(gap, replay)[i]
            == StreamFrame::Envelope(
            replay[if gap is Some {
                i - 1
            } else {
                i
            }],
        ),
        opening_frames(gap, replay).len() == replay.len() + (if gap is Some {
            1int
        } else {
            0
        }),
{
}

/// There is a gap exactly when the event after the cursor is older than the
/// oldest event that is still there.
pub proof fn gap_means_next_event_lost(after: u64, oldest: u64)
    ensures
        gap_between(Some(after), Some(oldest)) is Some <==> exists|lost: int|
            #![trigger between(after, lost, oldest)]
            between(after, lost, oldest),
{
    if oldest > after + 1 {
        assert(between(after, after + 1, oldest));
    }
}

/// An event comes after the cursor and before the oldest that is still
/// there.
pub open spec fn between(after: u64, seq: int, oldest: u64) -> bool {
    after < seq < oldest
}

/// There is a gap exactly when the client has a cursor, there are events
/// left, and the oldest of them is not the next one after the cursor nor an
/// earlier one; the gap tells both ends.
pub proof fn gaps_tell_both_ends(requested: Option<u64>, oldest: Option<u64>)
    ensures
        gap_between(requested, oldest) is Some <==> requested is Some && oldest is Some
            && oldest->0 - requested->0 >= 2,
        gap_between(requested, oldest) matches Some(gap) ==> Some(gap.requested_after) == requested
            && Some(gap.oldest_available) == oldest,
{
}

/// Whatever is replayed is sent, each event once and in its order, behind
/// the gap where there is one.
pub proof fn every_replayed_event_is_sent(gap: Option<GapInfo>, replay: Seq<EventEnvelope>, i: int)
    requires
        0 <= i < replay.len(),
    ensures
        gap is None ==> opening_frames(gap, replay).len() == replay.len() && opening_frames(
            gap,
            replay,
        )[i] == StreamFrame::Envelope(replay[i]),
        gap is Some ==> opening_frames(gap, replay).len() == replay.len() + 1 && opening_frames(
            gap,
            replay,
        )[0] == StreamFrame::Gap(gap->0) && opening_frames(gap, replay)[i + 1]
            == StreamFrame::Envelope(replay[i]),
{
}

/// The live tail passes an event on as it is and goes on; it tells a client
/// that fell behind by how many events, and ends; it says nothing on a
/// shutdown or where there will be no more events, and ends.
pub proof fn live_tail_answers_each_event(event: LiveEvent)
    ensures
        event matches LiveEvent::Received(envelope) ==> live_step_of(event).frame == Some(
            StreamFrame::Envelope(envelope),
        ) && !live_step_of(event).ends,
        event matches LiveEvent::Lagged(missed) ==> live_step_of(event).frame == Some(
            StreamFrame::Lagged(missed),
        ) && live_step_of(event).ends,
        event is Shutdown || event is Closed ==> live_step_of(event).frame is None
            && live_step_of(event).ends,
{
}

/// A client that reconnects with the id of a frame goes on behind that very
/// event: a frame's id is the place of its event, and no frame but an event
/// has one. A frame that is no event announces a gap.
pub proof fn cursors_are_places_of_events(frame: StreamFrame)
    ensures
        frame matches StreamFrame::Envelope(envelope) ==> frame.id_of() == Some(
            envelope.event_seq,
        ) && frame.event_of() == envelope.event@,
        !(frame is Envelope) ==> frame.id_of() is None && frame.event_of() == "stream_gap"@,
{
}

/// The events of an operation match only where the end is a later event of
/// the same operation and not the start itself, the start has begun and not
/// ended, the end has both times and how long it took, and only the start
/// may tell how long it will take, where its kind of operation does so.
pub proof fn matching_events_are_of_one_operation(start: EventEnvelope, end: EventEnvelope)
    ensures
        mirrors(start, end) <==> {
            &&& start.operation_id is Some && end.operation_id is Some
            &&& start.operation_id->0@ == end.operation_id->0@
            &&& start.event_id@ != end.event_id@
            &&& start.event_seq < end.event_seq
            &&& start.started_at is Some && start.ended_at is None
            &&& end.started_at is Some && end.ended_at is Some && end.elapsed_ms is Some
            &&& end.predicted_duration_ms is None && end.max_duration_ms is None
            &&& start.predicted_duration_ms is Some || start.max_duration_ms is Some
                ==> always_predicts(start.event@) || (may_predict(start.event@)
                && start.predicted_duration_ms is Some)
        },
        always_predicts(start.event@) <==> {
            ||| "slew"@.is_prefix_of(start.event@)
            ||| "park"@.is_prefix_of(start.event@)
            ||| "move_focuser"@.is_prefix_of(start.event@)
            ||| "exposure"@.is_prefix_of(start.event@)
            ||| "centering"@.is_prefix_of(start.event@)
        },
        may_predict(start.event@) <==> "guide"@.is_prefix_of(start.event@)
            || "dither"@.is_prefix_of(start.event@),
{
    assert forall|prefix: Seq<char>|
        #![trigger prefix.is_prefix_of(start.event@)]
        prefix.is_prefix_of(start.event@) == has_prefix(start.event@, prefix) by {
        if prefix.len() <= start.event@.len() {
            assert(start.event@.take(prefix.len() as int) == start.event@.subrange(
                0,
                prefix.len() as int,
            ));
        }
    }
}

/// White space around a cursor does not matter.
pub proof fn blanks_around_a_cursor_do_not_matter(bytes: Seq<u8>, blank: u8)
    requires
        blank == 32 || blank == 9,
    ensures
        header_cursor(seq![blank] + bytes) == header_cursor(bytes),
        header_cursor(bytes.push(blank)) == header_cursor(bytes),
{
    let front = seq![blank] + bytes;
    let back = bytes.push(blank);
    assert(front.drop_first() =~= bytes);
    assert(front[0] == blank);
    assert((forall|i: int| 0 <= i < front.len() ==> is_header_text(#[trigger] front[i])) == (
    forall|i: int| 0 <= i < bytes.len() ==> is_header_text(#[trigger] bytes[i]))) by {
        if forall|i: int| 0 <= i < front.len() ==> is_header_text(#[trigger] front[i]) {
            assert forall|i: int| 0 <= i < bytes.len() implies is_header_text(
                #[trigger] bytes[i],
            ) by {
                assert(front[i + 1] == bytes[i]);
            }
        }
    }
    assert((forall|i: int| 0 <= i < back.len() ==> is_header_text(#[trigger] back[i])) == (
    forall|i: int| 0 <= i < bytes.len() ==> is_header_text(#[trigger] bytes[i]))) by {
        if forall|i: int| 0 <= i < back.len() ==> is_header_text(#[trigger] back[i]) {
            assert forall|i: int| 0 <= i < bytes.len() implies is_header_text(
                #[trigger] bytes[i],
            ) by {
                assert(back[i] == bytes[i]);
            }
        }
    }
    lemma_trimmed_push(bytes, blank);
}

proof fn lemma_trimmed_push(bytes: Seq<u8>, blank: u8)
    requires
        is_blank(blank),
    ensures
        trimmed_back(trimmed_front(bytes.push(blank))) == trimmed_back(trimmed_front(bytes)),
    decreases bytes.len(),
{
    let back = bytes.push(blank);
    if bytes.len() == 0 {
        assert(back.drop_first() =~= bytes);
    } else if is_blank(bytes[0]) {
        lemma_trimmed_push(bytes.drop_first(), blank);
        assert(back[0] == bytes[0]);
        assert(back.drop_first() =~= bytes.drop_first().push(blank));
    } else {
        assert(back[0] == bytes[0]);
        assert(back.drop_last() =~= bytes);
        assert(back.last() == blank);
    }
}

/// A cursor is read in decimal: digits alone give a number, a plus sign
/// before them changes nothing, and one more digit behind them makes it ten
/// times as large and adds that digit, as long as 64 bits hold it. Anything
/// else among them, or no digit at all, gives none.
pub proof fn cursors_are_read_in_decimal(digits: Seq<u8>, next: u8)
    requires
        digits.len() > 0,
        forall|i: int| 0 <= i < digits.len() ==> 48 <= #[trigger] digits[i] <= 57,
    ensures
        48 <= next <= 57 ==> decimal(digits.push(next)) == 10 * decimal(digits) + (next - 48),
        48 <= next <= 57 ==> decimal(seq![next]) == next - 48,
        number_of(digits) is Some <==> decimal(digits) <= u64::MAX,
        number_of(digits) matches Some(n) ==> n == decimal(digits),
        number_of(seq![43u8] + digits) == number_of(digits),
        !(48 <= next <= 57) ==> number_of(digits.push(next)) is None,
        number_of(Seq::empty()) is None,
{
    assert(digits.push(next).drop_last() =~= digits);
    reveal_with_fuel(decimal, 2);
    assert(seq![next].drop_last() =~= Seq::<u8>::empty());
    assert((seq![43u8] + digits).drop_first() =~= digits);
    assert(digits[0] != 43);
    assert(digits.push(next)[0] == digits[0]);
    assert(digits.push(next)[digits.len() as int] == next);
}

/// A header that is digits alone is read as those digits, and one with a
/// byte in it that may not stand in a header, a control byte other than a
/// tab or a byte beyond ASCII, gives no cursor.
pub proof fn headers_are_read_as_text(bytes: Seq<u8>, i: int)
    requires
        0 <= i < bytes.len(),
    ensures
        (forall|k: int| 0 <= k < bytes.len() ==> 48 <= #[trigger] bytes[k] <= 57)
            ==> header_cursor(bytes) == number_of(bytes),
        (bytes[i] < 32 && bytes[i] != 9) || bytes[i] >= 127 ==> header_cursor(bytes) is None,
{
    if forall|k: int| 0 <= k < bytes.len() ==> 48 <= #[trigger] bytes[k] <= 57 {
        assert(48 <= bytes[0] <= 57);
        assert(48 <= bytes[bytes.len() - 1] <= 57);
        assert(trimmed_front(bytes) == bytes);
        assert(trimmed_back(bytes) == bytes);
    }
    if (bytes[i] < 32 && bytes[i] != 9) || bytes[i] >= 127 {
        assert(!is_header_text(bytes[i]));
    }
}

} // verus!
