//! How long an operation is expected to take, and how long it may.
use crate::planner::targets::Span;
use vstd::prelude::*;

verus! {

/// What an exposure may take beyond what is expected, in milliseconds.
pub const READOUT_HEADROOM_MS: u64 = 30_000;

impl Span {
    /// The span in nanoseconds.
    pub open spec fn total_nanos(self) -> nat {
        self.secs as nat * 1_000_000_000 + self.nanos as nat
    }

    fn to_nanos(self) -> (r: u128)
        ensures
            r == self.total_nanos(),
            r < 0x4000_0000_0000_0000_0000_0000_0000,
    {
        self.secs as u128 * 1_000_000_000 + self.nanos as u128
    }
}

/// A number of milliseconds held to 64 bits.
pub open spec fn capped_ms(n: nat) -> nat {
    if n > u64::MAX {
        u64::MAX as nat
    } else {
        n
    }
}

fn whole_ms(nanos: u128) -> (r: u64)
    ensures
        r == capped_ms(nanos as nat / 1_000_000),
{
    let ms: u128 = nanos / 1_000_000;
    if ms > u64::MAX as u128 {
        u64::MAX
    } else {
        ms as u64
    }
}

/// The expected and the greatest duration of an exposure in milliseconds:
/// the exposure with its readout, and some headroom on top.
pub fn exposure_deadlines(duration: Span, readout_estimate: Span) -> (r: (u64, u64))
    ensures
        r.0 == capped_ms(
            (duration.total_nanos() + readout_estimate.total_nanos()) / 1_000_000,
        ),
        r.1 == capped_ms((r.0 + READOUT_HEADROOM_MS) as nat),
{
    let predicted: u64 = whole_ms(duration.to_nanos() + readout_estimate.to_nanos());
    (predicted, predicted.saturating_add(READOUT_HEADROOM_MS))
}

/// The expected and the greatest duration of centering in milliseconds: one
/// round of capturing, solving and slewing, and as many rounds as there may
/// be attempts.
pub fn centering_deadlines(
    max_attempts: u32,
    capture: Span,
    solve: Span,
    slew_overhead: Span,
) -> (r: (u64, u64))
    ensures
        r.0 == capped_ms(
            (capture.total_nanos() + solve.total_nanos() + slew_overhead.total_nanos())
                / 1_000_000,
        ),
        r.1 == capped_ms(max_attempts as nat * r.0 as nat),
{
    let per_round: u64 = whole_ms(
        capture.to_nanos() + solve.to_nanos() + slew_overhead.to_nanos(),
    );
    let total: u64 = match (max_attempts as u64).checked_mul(per_round) {
        Some(ms) => ms,
        None => u64::MAX,
    };
    (per_round, total)
}

/// What is expected is never more than what is allowed, as long as centering
/// has an attempt.
pub proof fn expected_is_within_allowed(predicted: nat, attempts: nat)
    requires
        predicted <= u64::MAX,
        attempts >= 1,
    ensures
        predicted <= capped_ms(predicted + READOUT_HEADROOM_MS as nat),
        predicted <= capped_ms(attempts * predicted),
{
    assert(predicted <= attempts * predicted) by (nonlinear_arith)
        requires
            attempts >= 1,
    ;
}

/// A number of milliseconds is held to 64 bits and is else as it is; a
/// second is a billion nanoseconds; and an exposure may take half a minute
/// longer than expected.
pub proof fn deadlines_are_in_milliseconds(n: nat, span: Span)
    ensures
        n <= u64::MAX ==> capped_ms(n) == n,
        n > u64::MAX ==> capped_ms(n) == u64::MAX,
        span.total_nanos() == 1_000_000_000 * span.secs + span.nanos,
        READOUT_HEADROOM_MS == 30_000,
{
}

} // verus!
