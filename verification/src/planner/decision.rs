//! Which target to slew to next.
//!
//! The decision is a function of what the sky reads, the candidates and the
//! progress snapshot: candidates that are done or too low drop out; of the
//! rest those about as close to transit as the closest count as equally
//! close, and of them the one with the least progress wins, then one whose
//! next exposure needs no filter change, then the earlier in the list.
use crate::arithmetic::{
    adding_half_does_not_lessen, adding_keeps_order, day, exact_differences_are_finite,
    exact_results_are_kept, later_half_is_short, named_hours, remainder_is_exact,
    size_and_opposite_keep_the_number, small_differences_are_finite, turned_is_within_a_day,
    HALF_BITS, TWELVE_BITS,
};
use crate::binary64::{
    named_doubles, rank_orders_numbers, scaled_magnitude, Binary64, MINUS_EIGHTEEN_BITS,
    TWENTY_FOUR_BITS, ZERO_BITS,
};
use crate::planner::progress::{
    filter_key, filter_key_of, lemma_first_open_from, next_entry_is_the_first_open, PlanProgress,
    PlanProgressView,
};
use crate::planner::targets::{
    ra_in_range, ExposureSpec, ExposureSpecView, PlannerTarget, PlannerTargetView,
};
use crate::time::{seconds_later, UtcTime, LAST_SECS};
use vstd::arithmetic::div_mod::lemma_small_mod;
use vstd::arithmetic::power2::{lemma_pow2_pos, lemma_pow2_unfold, pow2};
use vstd::prelude::*;

verus! {

/// How far ahead the Sun is read a second time, to see whether it climbs.
pub const SUN_TREND_SAMPLE_SECS: i64 = 60;

/// When the Sun is read a second time: some seconds later, or at once where
/// the calendar ends before.
pub fn sun_trend_time(now: UtcTime) -> (r: UtcTime)
    ensures
        if now.reached() && now.secs + SUN_TREND_SAMPLE_SECS <= LAST_SECS {
            r.secs == now.secs + SUN_TREND_SAMPLE_SECS && r.nanos == now.nanos as int
                % 1_000_000_000
        } else {
            r == now
        },
{
    match seconds_later(now, SUN_TREND_SAMPLE_SECS) {
        Some(later) => later,
        None => now,
    }
}

/// The hour angle at a sidereal time of a right ascension, all in hours: the
/// difference of the two brought into a day, and its later half taken
/// backwards.
pub open spec fn hour_angle(lst_hours: Binary64, ra_hours: Binary64) -> Binary64 {
    let turn = lst_hours.difference(ra_hours).turned();
    if (Binary64 { bits: TWELVE_BITS }).less(turn) {
        turn.difference(Binary64 { bits: TWENTY_FOUR_BITS })
    } else {
        turn
    }
}

/// The hour angle of a right ascension at a sidereal time, in hours
/// (negative east of the meridian, positive west of it).
pub fn signed_hour_angle(lst_hours: Binary64, target_ra_hours: Binary64) -> (r: Binary64)
    ensures
        r == hour_angle(lst_hours, target_ra_hours),
{
    let turn = lst_hours.minus(target_ra_hours).rem_euclid_day();
    if (Binary64 { bits: TWELVE_BITS }).lt(turn) {
        turn.minus(Binary64 { bits: TWENTY_FOUR_BITS })
    } else {
        turn
    }
}

/// An hour angle is more than -12 h and at most 12 h, unless the difference
/// that it is taken of is no number.
pub proof fn hour_angle_is_normalised(lst_hours: Binary64, ra_hours: Binary64)
    ensures
        ({
            let angle = hour_angle(lst_hours, ra_hours);
            let half_turn = Binary64 { bits: TWELVE_BITS };
            &&& angle.nan() <==> !lst_hours.difference(ra_hours).finite()
            &&& !angle.nan() ==> half_turn.opposite().less(angle) && angle.at_most(half_turn)
        }),
{
    let turn = lst_hours.difference(ra_hours).turned();
    turned_is_within_a_day(lst_hours.difference(ra_hours));
    if (Binary64 { bits: TWELVE_BITS }).less(turn) {
        later_half_is_short(turn);
    }
}

/// Every right ascension has an hour angle at every finite sidereal time,
/// and none has one at any other.
pub proof fn hour_angle_needs_a_sidereal_time(lst_hours: Binary64, ra_hours: Binary64)
    requires
        ra_in_range(ra_hours),
    ensures
        hour_angle(lst_hours, ra_hours).nan() <==> !lst_hours.finite(),
{
    small_differences_are_finite(lst_hours, ra_hours);
    hour_angle_is_normalised(lst_hours, ra_hours);
}

/// What the sky reads at the moment of the decision.
#[derive(Debug)]
pub struct SkyReading {
    /// The altitude of each candidate in degrees, by its place in the list;
    /// `None` where it cannot be computed.
    pub altitudes: Vec<Option<Binary64>>,
    /// The local sidereal time in hours.
    pub lst_hours: Binary64,
    /// The Sun's altitude in degrees.
    pub sun_altitude: Binary64,
    /// The Sun's altitude [`SUN_TREND_SAMPLE_SECS`] later.
    pub sun_altitude_later: Binary64,
}

/// Why a recommendation is what it is.
#[derive(Debug, Clone, Copy, PartialEq, Eq, Structural)]
pub enum NextTargetReason {
    BestTransitingCandidate,
    NoTargetsConfigured,
    AllBelowMinAltitude,
    WaitForTwilight,
    EndOfSession,
}

/// What to do next.
#[derive(Debug)]
pub struct NextTargetRecommendation {
    /// `None` unless the reason is the best transiting candidate.
    pub target: Option<PlannerTarget>,
    pub reason: NextTargetReason,
    /// The first entry of the target's plan that still wants frames; `None`
    /// without a target or a plan.
    pub exposure: Option<ExposureSpec>,
    /// The framing angle in effect: the target's own, else the train's,
    /// else north up. `None` exactly when there is no target.
    pub position_angle_degrees: Option<Binary64>,
}

/// Everything a decision rests on.
pub struct Night {
    pub altitudes: Seq<Option<Binary64>>,
    pub lst_hours: Binary64,
    pub sun_altitude: Binary64,
    pub sun_altitude_later: Binary64,
    pub targets: Seq<PlannerTargetView>,
    pub default_min_altitude: Binary64,
    pub progress: PlanProgressView,
}

/// What a list of candidates holds.
pub open spec fn targets_view(targets: Seq<PlannerTarget>) -> Seq<PlannerTargetView> {
    Seq::new(targets.len(), |i: int| targets[i]@)
}

/// The night that a reading, a list of candidates, a floor and a progress
/// snapshot make.
pub open spec fn night_of(
    sky: SkyReading,
    targets: Seq<PlannerTarget>,
    default_min_altitude: Binary64,
    progress: PlanProgressView,
) -> Night {
    Night {
        altitudes: sky.altitudes@,
        lst_hours: sky.lst_hours,
        sun_altitude: sky.sun_altitude,
        sun_altitude_later: sky.sun_altitude_later,
        targets: targets_view(targets),
        default_min_altitude,
        progress,
    }
}

impl Night {
    /// The altitude floor of candidate `i`.
    pub open spec fn floor(self, i: int) -> Binary64 {
        match self.targets[i].min_altitude_degrees {
            Some(own) => own,
            None => self.default_min_altitude,
        }
    }

    /// Candidate `i` has a computed altitude, at its floor or above it.
    pub open spec fn high_enough(self, i: int) -> bool {
        &&& 0 <= i < self.altitudes.len()
        &&& self.altitudes[i] matches Some(altitude) && self.floor(i).at_most(altitude)
    }

    /// Candidate `i` stays in the running.
    pub open spec fn survives(self, i: int) -> bool {
        &&& 0 <= i < self.targets.len()
        &&& !self.progress.exhausted(self.targets[i])
        &&& self.high_enough(i)
    }

    /// How far candidate `i` is from transit, in hours.
    pub open spec fn transit_distance(self, i: int) -> Binary64 {
        hour_angle(self.lst_hours, self.targets[i].coord.ra_spec()).absolute()
    }

    /// Half an hour beyond candidate `i`'s distance from transit.
    pub open spec fn band_limit(self, i: int) -> Binary64 {
        self.transit_distance(i).sum(Binary64 { bits: HALF_BITS })
    }

    /// Candidate `i` survives and is not farther from transit than half an
    /// hour beyond any survivor.
    pub open spec fn in_band(self, i: int) -> bool {
        self.survives(i) && forall|j: int| #[trigger]
            self.survives(j) ==> !self.band_limit(j).less(self.transit_distance(i))
    }

    /// The plan entry that candidate `i` would be exposed for.
    pub open spec fn next_entry(self, i: int) -> Option<ExposureSpecView> {
        match self.progress.first_open(self.targets[i]) {
            Some(k) => Some(self.targets[i].exposures[k]),
            None => None,
        }
    }

    /// The next exposure of candidate `i` uses the filter that is in the
    /// wheel.
    pub open spec fn keeps_filter(self, i: int) -> bool {
        match (self.progress.last_filter, self.next_entry(i)) {
            (Some(last), Some(entry)) => filter_key_of(entry.filter) == last,
            _ => false,
        }
    }

    /// Candidate `i` ranks strictly before candidate `j`, their places in
    /// the list aside: less progress, then no filter change.
    pub open spec fn ranks_before(self, i: int, j: int) -> bool {
        let fi = self.progress.fraction_of(self.targets[i]).rank();
        let fj = self.progress.fraction_of(self.targets[j]).rank();
        fi < fj || (fi == fj && self.keeps_filter(i) && !self.keeps_filter(j))
    }

    /// Candidate `i` is to be preferred to candidate `j`: it ranks before
    /// it, or they rank equally and it is the earlier in the list.
    pub open spec fn preferred(self, i: int, j: int) -> bool {
        self.ranks_before(i, j) || (!self.ranks_before(j, i) && i < j)
    }

    /// Candidate `i` is the one to slew to: no other candidate in the tie
    /// band is to be preferred to it.
    pub open spec fn is_choice(self, i: int) -> bool {
        self.in_band(i) && forall|j: int| #[trigger]
            self.in_band(j) ==> !self.preferred(j, i)
    }

    /// A recommendation names candidate `i`, which is the one to slew to,
    /// with its next plan entry and its framing angle in effect.
    pub open spec fn is_named_by(
        self,
        i: int,
        train_angle: Option<Binary64>,
        r: NextTargetRecommendation,
    ) -> bool {
        &&& self.is_choice(i)
        &&& r.target matches Some(target) && target@ == self.targets[i]
        &&& opt_entry_view(r.exposure) == self.next_entry(i)
        &&& r.position_angle_degrees == Some(
            effective_angle(self.targets[i].position_angle_degrees, train_angle),
        )
    }

    /// Some candidate is in the running.
    pub open spec fn any_survivor(self) -> bool {
        exists|i: int| self.survives(i)
    }

    /// Every candidate has met its goals.
    pub open spec fn all_exhausted(self) -> bool {
        forall|i: int|
            0 <= i < self.targets.len() ==> self.progress.exhausted(#[trigger] self.targets[i])
    }

    /// The sky is brighter than at astronomical dusk.
    pub open spec fn bright(self) -> bool {
        (Binary64 { bits: MINUS_EIGHTEEN_BITS }).less(self.sun_altitude)
    }

    /// The reason that goes with the decision.
    pub open spec fn reason(self) -> NextTargetReason {
        if self.targets.len() == 0 {
            NextTargetReason::NoTargetsConfigured
        } else if self.any_survivor() {
            NextTargetReason::BestTransitingCandidate
        } else if self.all_exhausted() {
            NextTargetReason::EndOfSession
        } else if !self.bright() {
            NextTargetReason::AllBelowMinAltitude
        } else if self.sun_altitude.less(self.sun_altitude_later) {
            NextTargetReason::EndOfSession
        } else {
            NextTargetReason::WaitForTwilight
        }
    }
}

/// What an optional plan entry holds.
pub open spec fn opt_entry_view(entry: Option<ExposureSpec>) -> Option<ExposureSpecView> {
    match entry {
        Some(e) => Some(e@),
        None => None,
    }
}

/// The framing angle in effect: the target's own, else the train's, else
/// north up.
pub open spec fn effective_angle(own: Option<Binary64>, train: Option<Binary64>) -> Binary64 {
    match (own, train) {
        (Some(angle), _) => angle,
        (None, Some(angle)) => angle,
        (None, None) => Binary64::zero(),
    }
}

fn none_with(reason: NextTargetReason) -> (r: NextTargetRecommendation)
    ensures
        r.target is None,
        r.reason == reason,
        r.exposure is None,
        r.position_angle_degrees is None,
{
    NextTargetRecommendation { target: None, reason, exposure: None, position_angle_degrees: None }
}

/// The places of the candidates that stay in the running, in list order.
fn eliminate(
    sky: &SkyReading,
    targets: &[PlannerTarget],
    default_min_altitude_deg: Binary64,
    progress: &PlanProgress,
) -> (survivors: Vec<usize>)
    ensures
        forall|k: int|
            0 <= k < survivors.len() ==> night_of(
                *sky,
                targets@,
                default_min_altitude_deg,
                progress@,
            ).survives(#[trigger] survivors[k] as int),
        forall|a: int, b: int| 0 <= a < b < survivors.len() ==> survivors[a] < survivors[b],
        forall|i: int|
            #[trigger] night_of(
                *sky,
                targets@,
                default_min_altitude_deg,
                progress@,
            ).survives(i) ==> exists|k: int| 0 <= k < survivors.len() && survivors[k] == i,
{
    let ghost night = night_of(*sky, targets@, default_min_altitude_deg, progress@);
    let mut survivors: Vec<usize> = Vec::new();
    let mut i: usize = 0;
    while i < targets.len()
        invariant
            i <= targets.len(),
            night == night_of(*sky, targets@, default_min_altitude_deg, progress@),
            forall|k: int|
                0 <= k < survivors.len() ==> survivors[k] < i && night.survives(
                    #[trigger] survivors[k] as int,
                ),
            forall|a: int, b: int| 0 <= a < b < survivors.len() ==> survivors[a] < survivors[b],
            forall|j: int|
                j < i && #[trigger] night.survives(j) ==> exists|k: int|
                    0 <= k < survivors.len() && survivors[k] == j,
        decreases targets.len() - i,
    {
        let t = &targets[i];
        assert(night.targets[i as int] == t@);
        let mut keep: bool = false;
        if !progress.is_exhausted(t) && i < sky.altitudes.len() {
            if let Some(altitude) = sky.altitudes[i] {
                let floor = match t.min_altitude_degrees {
                    Some(own) => own,
                    None => default_min_altitude_deg,
                };
                keep = floor.le(altitude);
            }
        }
        assert(keep == night.survives(i as int));
        let ghost before = survivors@;
        if keep {
            survivors.push(i);
            assert(survivors@[before.len() as int] == i);
        }
        proof {
            assert forall|j: int| j < i + 1 && #[trigger] night.survives(j) implies exists|k: int|
                0 <= k < survivors.len() && survivors[k] == j by {
                if j < i {
                    let k = choose|k: int| 0 <= k < before.len() && before[k] == j;
                    assert(survivors[k] == j);
                } else {
                    assert(survivors[before.len() as int] == j);
                }
            }
        }
        i = i + 1;
    }
    survivors
}

/// Why nothing is in the running.
fn no_survivors_reason(
    sky: &SkyReading,
    targets: &[PlannerTarget],
    default_min_altitude_deg: Binary64,
    progress: &PlanProgress,
) -> (r: NextTargetReason)
    requires
        targets@.len() > 0,
        !night_of(*sky, targets@, default_min_altitude_deg, progress@).any_survivor(),
    ensures
        r == night_of(*sky, targets@, default_min_altitude_deg, progress@).reason(),
{
    let ghost night = night_of(*sky, targets@, default_min_altitude_deg, progress@);
    let mut i: usize = 0;
    let mut all_exhausted: bool = true;
    while i < targets.len()
        invariant
            i <= targets.len(),
            night == night_of(*sky, targets@, default_min_altitude_deg, progress@),
            all_exhausted == forall|j: int|
                0 <= j < i ==> night.progress.exhausted(#[trigger] night.targets[j]),
        decreases targets.len() - i,
    {
        assert(night.targets[i as int] == targets@[i as int]@);
        if !progress.is_exhausted(&targets[i]) {
            all_exhausted = false;
        }
        i = i + 1;
    }
    assert(all_exhausted == night.all_exhausted());
    let dusk = Binary64 { bits: MINUS_EIGHTEEN_BITS };
    if all_exhausted {
        NextTargetReason::EndOfSession
    } else if !dusk.lt(sky.sun_altitude) {
        NextTargetReason::AllBelowMinAltitude
    } else if sky.sun_altitude.lt(sky.sun_altitude_later) {
        NextTargetReason::EndOfSession
    } else {
        NextTargetReason::WaitForTwilight
    }
}

/// How far a candidate is from transit, in hours.
fn transit_distance(
    lst_hours: Binary64,
    t: &PlannerTarget,
    Ghost(night): Ghost<Night>,
    Ghost(i): Ghost<int>,
) -> (r: Binary64)
    requires
        night.targets[i] == t@,
        night.lst_hours == lst_hours,
    ensures
        r == night.transit_distance(i),
        !r.is_negative(),
        r.finite() == lst_hours.finite(),
        r.nan() == !lst_hours.finite(),
{
    let ra_hours = t.coord.ra_hours();
    proof {
        hour_angle_needs_a_sidereal_time(lst_hours, ra_hours);
        hour_angle_is_normalised(lst_hours, ra_hours);
    }
    signed_hour_angle(lst_hours, ra_hours).abs()
}

/// A distance from transit: a number of at least zero where there is a
/// sidereal time.
spec fn is_distance(d: Binary64, lst_hours: Binary64) -> bool {
    &&& !d.is_negative()
    &&& d.finite() == lst_hours.finite()
    &&& d.nan() == !lst_hours.finite()
}

/// Whether the next exposure of a candidate uses the filter in the wheel.
fn keeps_filter(
    progress: &PlanProgress,
    t: &PlannerTarget,
    Ghost(night): Ghost<Night>,
    Ghost(i): Ghost<int>,
) -> (r: bool)
    requires
        night.targets[i] == t@,
        night.progress == progress@,
    ensures
        r == night.keeps_filter(i),
{
    match (progress.last_filter_key(), progress.next_incomplete_entry(t)) {
        (Some(last), Some(entry)) => {
            assert(night.next_entry(i) == Some(entry@));
            let key = match &entry.filter {
                Some(filter) => filter_key(Some(filter.as_str())),
                None => filter_key(None),
            };
            key == last
        },
        (None, _) => false,
        (_, None) => false,
    }
}

/// Picks the next target to slew to.
pub fn next_target(
    sky: &SkyReading,
    targets: &[PlannerTarget],
    default_min_altitude_deg: Binary64,
    train_default_position_angle_deg: Option<Binary64>,
    progress: &PlanProgress,
) -> (r: NextTargetRecommendation)
    ensures
        r.reason == night_of(*sky, targets@, default_min_altitude_deg, progress@).reason(),
        r.target is Some ==> exists|i: int| #[trigger]
            night_of(*sky, targets@, default_min_altitude_deg, progress@).is_named_by(
                i,
                train_default_position_angle_deg,
                r,
            ),
        r.target is None ==> r.exposure is None && r.position_angle_degrees is None,
        r.target is Some <==> r.reason == NextTargetReason::BestTransitingCandidate,
{
    let ghost night = night_of(*sky, targets@, default_min_altitude_deg, progress@);
    if targets.len() == 0 {
        return none_with(NextTargetReason::NoTargetsConfigured);
    }
    let survivors = eliminate(sky, targets, default_min_altitude_deg, progress);
    if survivors.len() == 0 {
        return none_with(
            no_survivors_reason(sky, targets, default_min_altitude_deg, progress),
        );
    }
    assert(night.survives(survivors[0] as int));
    let lst_hours = sky.lst_hours;
    let mut best = transit_distance(
        lst_hours,
        &targets[survivors[0]],
        Ghost(night),
        Ghost(survivors[0] as int),
    );
    let mut k: usize = 1;
    let ghost mut closest: int = survivors[0] as int;
    while k < survivors.len()
        invariant
            1 <= k <= survivors.len(),
            night == night_of(*sky, targets@, default_min_altitude_deg, progress@),
            lst_hours == night.lst_hours,
            forall|a: int|
                0 <= a < survivors.len() ==> night.survives(#[trigger] survivors[a] as int),
            night.survives(closest),
            best == night.transit_distance(closest),
            is_distance(best, lst_hours),
            forall|a: int|
                0 <= a < k ==> is_distance(
                    night.transit_distance(#[trigger] survivors[a] as int),
                    lst_hours,
                ) && !night.transit_distance(survivors[a] as int).less(best),
        decreases survivors.len() - k,
    {
        assert(night.survives(survivors[k as int] as int));
        let distance = transit_distance(
            lst_hours,
            &targets[survivors[k]],
            Ghost(night),
            Ghost(survivors[k as int] as int),
        );
        if distance.lt(best) {
            best = distance;
            proof {
                closest = survivors[k as int] as int;
            }
        }
        k = k + 1;
    }
    let limit = best.plus(Binary64 { bits: HALF_BITS });
    assert forall|i: int| night.survives(i) implies night.in_band(i) == !limit.less(
        night.transit_distance(i),
    ) by {
        if !limit.less(night.transit_distance(i)) {
            assert forall|j: int| #[trigger] night.survives(j) implies !night.band_limit(j).less(
                night.transit_distance(i),
            ) by {
                let a = choose|a: int| 0 <= a < survivors.len() && survivors[a] == j;
                assert(!night.transit_distance(survivors[a] as int).less(best));
                if lst_hours.finite() {
                    adding_keeps_order(
                        best,
                        night.transit_distance(j),
                        Binary64 { bits: HALF_BITS },
                    );
                }
            }
        }
    }
    let mut chosen: Option<(usize, Binary64, bool)> = None;
    let mut n: usize = 0;
    while n < survivors.len()
        invariant
            n <= survivors.len(),
            night == night_of(*sky, targets@, default_min_altitude_deg, progress@),
            lst_hours == night.lst_hours,
            forall|a: int|
                0 <= a < survivors.len() ==> night.survives(#[trigger] survivors[a] as int),
            forall|a: int, b: int| 0 <= a < b < survivors.len() ==> survivors[a] < survivors[b],
            forall|i: int| #[trigger]
                night.survives(i) ==> night.in_band(i) == !limit.less(night.transit_distance(i)),
            match chosen {
                Some((c, fraction, changes)) => {
                    &&& night.in_band(c as int)
                    &&& exists|a: int| 0 <= a < n && survivors[a] == c
                    &&& fraction == night.progress.fraction_of(night.targets[c as int])
                    &&& !fraction.nan()
                    &&& changes == !night.keeps_filter(c as int)
                    &&& forall|a: int|
                        0 <= a < n && night.in_band(#[trigger] survivors[a] as int)
                            ==> !night.preferred(survivors[a] as int, c as int)
                },
                None => forall|a: int|
                    0 <= a < n ==> !night.in_band(#[trigger] survivors[a] as int),
            },
        decreases survivors.len() - n,
    {
        let s: usize = survivors[n];
        assert(night.survives(s as int));
        let t = &targets[s];
        let distance = transit_distance(lst_hours, t, Ghost(night), Ghost(s as int));
        if !limit.lt(distance) {
            let fraction = progress.fraction(t);
            let changes: bool = !keeps_filter(progress, t, Ghost(night), Ghost(s as int));
            let better: bool = match &chosen {
                None => true,
                Some((_, f, c)) => fraction.lt(*f) || (!f.lt(fraction) && !changes && *c),
            };
            if better {
                chosen = Some((s, fraction, changes));
            }
        }
        n = n + 1;
    }
    match chosen {
        Some((c, _, _)) => {
            let target = &targets[c];
            proof {
                assert(night.is_choice(c as int)) by {
                    assert forall|j: int| #[trigger] night.in_band(j) implies !night.preferred(
                        j,
                        c as int,
                    ) by {
                        let a = choose|a: int| 0 <= a < survivors.len() && survivors[a] == j;
                        assert(night.in_band(survivors[a] as int));
                    }
                }
            }
            let exposure = match progress.next_incomplete_entry(target) {
                Some(entry) => Some(entry.clone()),
                None => None,
            };
            let angle = match (target.position_angle_degrees, train_default_position_angle_deg) {
                (Some(own), _) => own,
                (None, Some(train)) => train,
                (None, None) => Binary64 { bits: ZERO_BITS },
            };
            let r = NextTargetRecommendation {
                target: Some(target.clone()),
                reason: NextTargetReason::BestTransitingCandidate,
                exposure,
                position_angle_degrees: Some(angle),
            };
            assert(night.is_named_by(c as int, train_default_position_angle_deg, r));
            r
        },
        None => {
            proof {
                let a = choose|a: int| 0 <= a < survivors.len() && survivors[a] == closest;
                if lst_hours.finite() {
                    adding_half_does_not_lessen(best);
                }
                assert(night.in_band(closest));
                assert(night.in_band(survivors[a] as int));
            }
            none_with(NextTargetReason::AllBelowMinAltitude)
        },
    }
}

/// There is at most one candidate to slew to.
pub proof fn choice_is_unique(night: Night, i: int, j: int)
    requires
        night.is_choice(i),
        night.is_choice(j),
    ensures
        i == j,
{
    assert(!night.preferred(i, j) && !night.preferred(j, i));
}

/// The candidate to slew to still wants frames, stands at its floor or
/// above it, is no farther from transit than half an hour beyond any
/// survivor, no candidate that is as close has less progress, and of those
/// with the same progress and filter none is earlier in the list.
pub proof fn choice_is_sound(night: Night, i: int, j: int)
    requires
        night.is_choice(i),
        night.survives(j),
    ensures
        !night.progress.exhausted(night.targets[i]),
        night.high_enough(i),
        !night.band_limit(j).less(night.transit_distance(i)),
        night.in_band(j) ==> night.progress.fraction_of(night.targets[i]).rank()
            <= night.progress.fraction_of(night.targets[j]).rank(),
        night.in_band(j) && night.progress.fraction_of(night.targets[i])
            == night.progress.fraction_of(night.targets[j]) && night.keeps_filter(i)
            == night.keeps_filter(j) ==> i <= j,
{
    if night.in_band(j) {
        assert(!night.preferred(j, i));
    }
}

/// A candidate to slew to has a next plan entry exactly when it has a plan.
pub proof fn choice_has_an_entry(night: Night, i: int)
    requires
        night.is_choice(i),
    ensures
        night.next_entry(i) is Some <==> night.targets[i].exposures.len() > 0,
{
    lemma_first_open_from(night.progress, night.targets[i], 0);
}

/// When every candidate has met its goals the session is over, whatever the
/// sky is doing; and a session only ends otherwise under a bright sky with
/// the Sun climbing.
pub proof fn session_ends_when_done_or_at_dawn(night: Night)
    requires
        night.targets.len() > 0,
    ensures
        night.reason() == NextTargetReason::EndOfSession <==> night.all_exhausted() || (
        !night.any_survivor() && night.bright() && night.sun_altitude.less(
            night.sun_altitude_later,
        )),
{
    if night.all_exhausted() && night.any_survivor() {
        let i = choose|i: int| night.survives(i);
        assert(night.progress.exhausted(night.targets[i]));
    }
}

/// A candidate below its floor, or without a computed altitude, is never
/// chosen.
pub proof fn low_candidates_are_never_chosen(night: Night, i: int)
    requires
        !night.high_enough(i),
    ensures
        !night.is_choice(i),
{
}

/// A candidate's distance from transit is the size of its hour angle, east
/// of the meridian as well as west of it: it is never below zero, and it
/// stands for the same number as the hour angle or for its negative.
pub proof fn distance_is_the_size_of_the_hour_angle(night: Night, i: int)
    ensures
        ({
            let angle = hour_angle(night.lst_hours, night.targets[i].coord.ra_spec());
            let distance = night.transit_distance(i);
            &&& !distance.is_negative()
            &&& distance.finite() == angle.finite()
            &&& distance.nan() == angle.nan()
            &&& distance.scaled() >= 0
            &&& distance.scaled() == angle.scaled() || distance.scaled() == -angle.scaled()
        }),
{
    size_and_opposite_keep_the_number(
        hour_angle(night.lst_hours, night.targets[i].coord.ra_spec()),
    );
}

/// Of two candidates whose hour angles are each other's negatives, one as
/// far before its transit as the other is behind it, neither is the closer.
pub proof fn east_and_west_count_the_same(night: Night, i: int, j: int)
    requires
        hour_angle(night.lst_hours, night.targets[i].coord.ra_spec()).scaled() == -hour_angle(
            night.lst_hours,
            night.targets[j].coord.ra_spec(),
        ).scaled(),
    ensures
        night.transit_distance(i).scaled() == night.transit_distance(j).scaled(),
{
    distance_is_the_size_of_the_hour_angle(night, i);
    distance_is_the_size_of_the_hour_angle(night, j);
}

/// A target that is as far west of the meridian as its right ascension is
/// behind the sidereal time has that difference as its hour angle, as long
/// as it is a double of at most twelve hours; on the meridian it is zero.
pub proof fn hour_angle_west_is_the_difference(lst: Binary64, ra: Binary64, west: Binary64)
    requires
        lst.finite(),
        ra.finite(),
        west.finite(),
        lst.scaled() - ra.scaled() == west.scaled(),
        0 <= west.scaled() <= 12 * pow2(1074),
    ensures
        hour_angle(lst, ra).scaled() == lst.scaled() - ra.scaled(),
{
    named_hours();
    exact_results_are_kept(lst, ra, west);
    let d = lst.difference(ra);
    hour_angle_is_normalised(lst, ra);
    assert(d.finite()) by {
        exact_differences_are_finite(lst, ra, west);
    }
    remainder_is_exact(d);
    lemma_pow2_pos(1074);
    lemma_small_mod(scaled_magnitude(d.magnitude()), day());
    let r = d.day_remainder();
    assert(scaled_magnitude(0) == 0);
    rank_orders_numbers(r, Binary64::zero());
    rank_orders_numbers(Binary64 { bits: TWELVE_BITS }, r);
}

/// A candidate stays in the running exactly when it is on the list, still
/// wants frames, and has a computed altitude that is not below its floor:
/// its own where it has one, else the one that holds for all.
pub proof fn running_candidates_are_high_and_unfinished(night: Night, i: int)
    ensures
        night.survives(i) <==> {
            &&& 0 <= i < night.targets.len()
            &&& i < night.altitudes.len()
            &&& night.altitudes[i] is Some
            &&& night.targets[i].min_altitude_degrees is Some ==> (
            night.targets[i].min_altitude_degrees->0).at_most(night.altitudes[i]->0)
            &&& night.targets[i].min_altitude_degrees is None
                ==> night.default_min_altitude.at_most(night.altitudes[i]->0)
            &&& !(night.targets[i].exposures.len() > 0 && forall|k: int|
                0 <= k < night.targets[i].exposures.len() ==> (
                #[trigger] night.targets[i].exposures[k]).count is Some && night.progress.good_at(
                    night.targets[i].name,
                    k,
                ) >= night.targets[i].exposures[k].count->0)
        },
{
    let t = night.targets[i];
    next_entry_is_the_first_open(night.progress, t);
}

/// The candidates that count as equally close to transit are those in the
/// running whose hour angle, in size, is no more than half an hour beyond
/// that of any other in the running, as doubles add; and the candidate to
/// slew to is one of them.
pub proof fn band_is_half_an_hour(night: Night, i: int)
    requires
        night.lst_hours.finite(),
        forall|j: int|
            0 <= j < night.targets.len() ==> ra_in_range(
                (#[trigger] night.targets[j]).coord.ra_spec(),
            ),
        0 <= i < night.targets.len(),
    ensures
        night.in_band(i) <==> night.survives(i) && forall|j: int| #[trigger]
            night.survives(j) ==> {
                let size = hour_angle(
                    night.lst_hours,
                    night.targets[i].coord.ra_spec(),
                ).absolute();
                let other = hour_angle(
                    night.lst_hours,
                    night.targets[j].coord.ra_spec(),
                ).absolute();
                let beyond = Binary64::of_scaled(other.scaled() + pow2(1073), false);
                !beyond.less(size)
            },
        night.is_choice(i) ==> night.in_band(i),
{
    named_hours();
    lemma_pow2_unfold(1074);
    lemma_pow2_pos(1073);
    let half = Binary64 { bits: HALF_BITS };
    size_and_opposite_keep_the_number(half);
    assert forall|j: int| #[trigger] night.survives(j) implies night.band_limit(j)
        == Binary64::of_scaled(
        hour_angle(
            night.lst_hours,
            night.targets[j].coord.ra_spec(),
        ).absolute().scaled() + pow2(1073),
        false,
    ) && night.transit_distance(j) == hour_angle(
        night.lst_hours,
        night.targets[j].coord.ra_spec(),
    ).absolute() by {
        let ra = night.targets[j].coord.ra_spec();
        hour_angle_needs_a_sidereal_time(night.lst_hours, ra);
        hour_angle_is_normalised(night.lst_hours, ra);
        distance_is_the_size_of_the_hour_angle(night, j);
        size_and_opposite_keep_the_number(hour_angle(night.lst_hours, ra));
        let d = night.transit_distance(j);
        assert(d.finite());
        assert(half.opposite().finite());
    }
}

/// Of the candidates that count as equally close, the one to slew to has the
/// least progress; of those with the same progress one that needs no filter
/// change goes before those that do; and of those that agree on both it is
/// the first in the list.
pub proof fn ties_go_by_progress_filter_and_list(night: Night, i: int, j: int)
    requires
        night.is_choice(i),
        night.in_band(j),
        j != i,
    ensures
        ({
            let mine = night.progress.fraction_of(night.targets[i]).rank();
            let theirs = night.progress.fraction_of(night.targets[j]).rank();
            &&& mine <= theirs
            &&& mine == theirs && night.keeps_filter(j) ==> night.keeps_filter(i)
            &&& mine == theirs && night.keeps_filter(i) == night.keeps_filter(j) ==> i < j
        }),
{
    assert(!night.preferred(j, i));
    assert(night.preferred(i, j));
}

/// A candidate needs no filter change exactly when the filter in the wheel
/// is known and is the one of the first entry of its plan that still wants
/// frames; an entry without a filter goes with the empty name.
pub proof fn filter_is_kept_for_the_next_entry(night: Night, i: int)
    ensures
        night.keeps_filter(i) <==> night.progress.last_filter is Some && night.progress.first_open(
            night.targets[i],
        ) is Some && {
            let entry = night.targets[i].exposures[night.progress.first_open(night.targets[i])->0];
            let last = night.progress.last_filter->0;
            (entry.filter is Some && entry.filter->0 == last) || (entry.filter is None && last
                == Seq::<char>::empty())
        },
        night.next_entry(i) is Some <==> night.progress.first_open(night.targets[i]) is Some,
        night.next_entry(i) matches Some(entry) ==> entry
            == night.targets[i].exposures[night.progress.first_open(night.targets[i])->0],
{
}

/// A recommendation hands on the chosen candidate itself, the first entry of
/// its plan that still wants frames, and its framing angle: its own, else
/// the train's, else zero.
pub proof fn recommendation_is_the_choice(
    night: Night,
    i: int,
    train: Option<Binary64>,
    r: NextTargetRecommendation,
)
    requires
        night.is_named_by(i, train, r),
    ensures
        night.is_choice(i),
        r.target is Some,
        r.target->0@ == night.targets[i],
        night.progress.first_open(night.targets[i]) is None ==> r.exposure is None,
        night.progress.first_open(night.targets[i]) matches Some(k) ==> r.exposure is Some
            && r.exposure->0@ == night.targets[i].exposures[k],
        r.position_angle_degrees is Some,
        ({
            let angle = r.position_angle_degrees->0;
            let own = night.targets[i].position_angle_degrees;
            &&& own is Some ==> angle == own->0
            &&& own is None && train is Some ==> angle == train->0
            &&& own is None && train is None ==> angle.bits == 0
        }),
{
}

/// The reason for a decision: without candidates there is nothing to decide;
/// a target is named whenever one is in the running; else the session is
/// over when every plan is done, or when the sky is brighter than at an
/// altitude of the Sun of eighteen degrees below the horizon and the Sun
/// climbs; under such a sky with the Sun not climbing it waits for the
/// night, and under a dark sky the candidates are all too low.
pub proof fn every_reason_has_its_cause(night: Night)
    ensures
        ({
            let some = exists|i: int| night.survives(i);
            let done = forall|i: int|
                0 <= i < night.targets.len() ==> night.progress.exhausted(
                    #[trigger] night.targets[i],
                );
            let bright = night.bright();
            let climbs = night.sun_altitude.less(night.sun_altitude_later);
            let listed = night.targets.len() > 0;
            &&& night.reason() is NoTargetsConfigured <==> !listed
            &&& night.reason() is BestTransitingCandidate <==> listed && some
            &&& night.reason() is AllBelowMinAltitude <==> listed && !some && !done && !bright
            &&& night.reason() is WaitForTwilight <==> listed && !some && !done && bright
                && !climbs
            &&& night.reason() is EndOfSession <==> listed && !some && (done || (bright
                && climbs))
        }),
        night.sun_altitude.finite() ==> (night.bright() <==> night.sun_altitude.scaled() > -18
            * pow2(1074)),
{
    named_doubles();
    if night.sun_altitude.finite() {
        rank_orders_numbers(Binary64 { bits: MINUS_EIGHTEEN_BITS }, night.sun_altitude);
    }
}

/// A night is made of what was read and handed in, each in its place.
pub proof fn nights_are_what_was_read(
    sky: SkyReading,
    targets: Seq<PlannerTarget>,
    floor: Binary64,
    progress: PlanProgressView,
    i: int,
)
    requires
        0 <= i < targets.len(),
    ensures
        ({
            let night = night_of(sky, targets, floor, progress);
            &&& night.altitudes == sky.altitudes@
            &&& night.lst_hours == sky.lst_hours
            &&& night.sun_altitude == sky.sun_altitude
            &&& night.sun_altitude_later == sky.sun_altitude_later
            &&& night.default_min_altitude == floor
            &&& night.progress == progress
            &&& night.targets.len() == targets.len()
            &&& night.targets[i] == targets[i]@
        }),
{
}

/// A target that has yet to reach the meridian has the difference of the
/// sidereal time and its right ascension as its hour angle, which is below
/// zero, as long as that and its place in the day are doubles.
pub proof fn hour_angle_east_is_the_difference(
    lst: Binary64,
    ra: Binary64,
    east: Binary64,
    turn: Binary64,
)
    requires
        lst.finite(),
        ra.finite(),
        east.finite(),
        turn.finite(),
        lst.scaled() - ra.scaled() == east.scaled(),
        -12 * pow2(1074) < east.scaled() < 0,
        turn.scaled() == east.scaled() + 24 * pow2(1074),
    ensures
        hour_angle(lst, ra).scaled() == lst.scaled() - ra.scaled(),
{
    named_hours();
    let full = Binary64 { bits: TWENTY_FOUR_BITS };
    exact_results_are_kept(lst, ra, east);
    exact_differences_are_finite(lst, ra, east);
    let d = lst.difference(ra);
    remainder_is_exact(d);
    lemma_pow2_pos(1074);
    lemma_small_mod(scaled_magnitude(d.magnitude()), day());
    let r = d.day_remainder();
    assert(scaled_magnitude(0) == 0);
    assert(r.scaled() == east.scaled());
    rank_orders_numbers(r, Binary64::zero());
    exact_results_are_kept(r, full, turn);
    size_and_opposite_keep_the_number(full);
    exact_differences_are_finite(r, full.opposite(), turn);
    let t = d.turned();
    assert(t.scaled() == turn.scaled());
    rank_orders_numbers(Binary64 { bits: TWELVE_BITS }, t);
    exact_results_are_kept(t, full, east);
}

/// Without a sidereal time no candidate is closer to transit than another:
/// all that are in the running count as equally close.
pub proof fn without_a_sidereal_time_all_are_equally_close(night: Night, i: int)
    requires
        !night.lst_hours.finite(),
        0 <= i < night.targets.len(),
        ra_in_range(night.targets[i].coord.ra_spec()),
    ensures
        night.in_band(i) <==> night.survives(i),
{
    hour_angle_needs_a_sidereal_time(night.lst_hours, night.targets[i].coord.ra_spec());
    distance_is_the_size_of_the_hour_angle(night, i);
}

} // verus!
