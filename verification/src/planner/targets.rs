//! The values a plan is made of.
use crate::binary64::{
    named_doubles, rank_orders_numbers, scaled_magnitude, Binary64, MINUS_NINETY_BITS, NINETY_BITS,
    TWENTY_FOUR_BITS, ZERO_BITS,
};
use crate::text::{clone_opt, opt_view};
use vstd::arithmetic::power2::pow2;
use vstd::prelude::*;

verus! {

/// A length of time: whole seconds and the nanoseconds beyond them.
#[derive(Debug, Clone, Copy, PartialEq, Eq, Structural)]
pub struct Span {
    pub secs: u64,
    pub nanos: u32,
}

impl Span {
    pub fn from_secs(secs: u64) -> (r: Span)
        ensures
            r.secs == secs,
            r.nanos == 0,
    {
        Span { secs, nanos: 0 }
    }
}

/// On-chip pixel binning.
#[derive(Debug, Clone, Copy, PartialEq, Eq, Structural)]
pub struct Binning {
    pub x: u32,
    pub y: u32,
}

/// Whether a right ascension is in [0, 24) hours.
pub open spec fn ra_in_range(ra_hours: Binary64) -> bool {
    Binary64::zero().at_most(ra_hours) && ra_hours.less(Binary64 { bits: TWENTY_FOUR_BITS })
}

/// Whether a declination is in [-90, 90] degrees.
pub open spec fn dec_in_range(dec_degrees: Binary64) -> bool {
    (Binary64 { bits: MINUS_NINETY_BITS }).at_most(dec_degrees) && dec_degrees.at_most(
        Binary64 { bits: NINETY_BITS },
    )
}

/// Why a pair of numbers is no coordinate, with the offending number.
#[derive(Debug, Clone, Copy, PartialEq, Eq, Structural)]
pub enum IcrsError {
    /// The right ascension is not in [0, 24) hours.
    RaHours(Binary64),
    /// The declination is not in [-90, 90] degrees.
    DecDegrees(Binary64),
}

/// A coordinate in the ICRS frame whose two parts are in range.
#[derive(Debug, Clone, Copy, PartialEq, Eq, Structural)]
pub struct IcrsCoord {
    ra: Binary64,
    dec: Binary64,
}

impl IcrsCoord {
    /// The right ascension in hours.
    pub closed spec fn ra_spec(self) -> Binary64 {
        self.ra
    }

    /// The declination in degrees.
    pub closed spec fn dec_spec(self) -> Binary64 {
        self.dec
    }

    #[verifier::type_invariant]
    spec fn in_range(self) -> bool {
        ra_in_range(self.ra) && dec_in_range(self.dec)
    }

    /// A coordinate from its parts, or the first part that is out of range.
    pub fn try_new(ra_hours: Binary64, dec_degrees: Binary64) -> (r: Result<IcrsCoord, IcrsError>)
        ensures
            match r {
                Ok(coord) => ra_in_range(ra_hours) && dec_in_range(dec_degrees) && coord.ra_spec()
                    == ra_hours && coord.dec_spec() == dec_degrees,
                Err(IcrsError::RaHours(ra)) => ra == ra_hours && !ra_in_range(ra_hours),
                Err(IcrsError::DecDegrees(dec)) => dec == dec_degrees && ra_in_range(ra_hours)
                    && !dec_in_range(dec_degrees),
            },
    {
        let zero = Binary64 { bits: ZERO_BITS };
        if !(zero.le(ra_hours) && ra_hours.lt(Binary64 { bits: TWENTY_FOUR_BITS })) {
            return Err(IcrsError::RaHours(ra_hours));
        }
        let lowest = Binary64 { bits: MINUS_NINETY_BITS };
        if !(lowest.le(dec_degrees) && dec_degrees.le(Binary64 { bits: NINETY_BITS })) {
            return Err(IcrsError::DecDegrees(dec_degrees));
        }
        Ok(IcrsCoord { ra: ra_hours, dec: dec_degrees })
    }

    pub fn ra_hours(&self) -> (r: Binary64)
        ensures
            r == self.ra_spec(),
            ra_in_range(r),
    {
        proof {
            use_type_invariant(self);
        }
        self.ra
    }

    pub fn dec_degrees(&self) -> (r: Binary64)
        ensures
            r == self.dec_spec(),
            dec_in_range(r),
    {
        proof {
            use_type_invariant(self);
        }
        self.dec
    }
}

/// One entry of a target's plan.
#[derive(Debug)]
pub struct ExposureSpec {
    /// `None` for an unfiltered entry.
    pub filter: Option<String>,
    pub duration: Span,
    /// The number of frames wanted; `None` for an entry without a finite
    /// goal.
    pub count: Option<u32>,
}

/// What an [`ExposureSpec`] holds.
pub struct ExposureSpecView {
    pub filter: Option<Seq<char>>,
    pub duration: Span,
    pub count: Option<u32>,
}

impl View for ExposureSpec {
    type V = ExposureSpecView;

    open spec fn view(&self) -> ExposureSpecView {
        ExposureSpecView {
            filter: opt_view(self.filter),
            duration: self.duration,
            count: self.count,
        }
    }
}

impl Clone for ExposureSpec {
    fn clone(&self) -> (r: Self)
        ensures
            r@ == self@,
    {
        ExposureSpec {
            filter: clone_opt(&self.filter),
            duration: self.duration,
            count: self.count,
        }
    }
}

/// What a list of plan entries holds.
pub open spec fn plan_view(plan: Seq<ExposureSpec>) -> Seq<ExposureSpecView> {
    Seq::new(plan.len(), |i: int| plan[i]@)
}

/// A candidate for the next slew: a target's stable name, its coordinate,
/// its altitude floor, its framing angle and its plan.
#[derive(Debug)]
pub struct PlannerTarget {
    pub name: String,
    pub coord: IcrsCoord,
    /// The target's own altitude floor; `None` falls back to the floor that
    /// holds for the whole planner.
    pub min_altitude_degrees: Option<Binary64>,
    /// The target's own framing angle, in degrees east of north.
    pub position_angle_degrees: Option<Binary64>,
    /// The plan, in list order.
    pub exposures: Vec<ExposureSpec>,
}

/// What a [`PlannerTarget`] holds.
#[verifier::ext_equal]
pub struct PlannerTargetView {
    pub name: Seq<char>,
    pub coord: IcrsCoord,
    pub min_altitude_degrees: Option<Binary64>,
    pub position_angle_degrees: Option<Binary64>,
    pub exposures: Seq<ExposureSpecView>,
}

impl View for PlannerTarget {
    type V = PlannerTargetView;

    open spec fn view(&self) -> PlannerTargetView {
        PlannerTargetView {
            name: self.name@,
            coord: self.coord,
            min_altitude_degrees: self.min_altitude_degrees,
            position_angle_degrees: self.position_angle_degrees,
            exposures: plan_view(self.exposures@),
        }
    }
}

impl Clone for PlannerTarget {
    fn clone(&self) -> (r: Self)
        ensures
            r@ == self@,
    {
        let mut exposures: Vec<ExposureSpec> = Vec::new();
        let mut i: usize = 0;
        while i < self.exposures.len()
            invariant
                i <= self.exposures.len(),
                exposures.len() == i,
                forall|k: int| 0 <= k < i ==> (#[trigger] exposures[k])@ == self.exposures[k]@,
            decreases self.exposures.len() - i,
        {
            exposures.push(self.exposures[i].clone());
            i = i + 1;
        }
        let r = PlannerTarget {
            name: self.name.clone(),
            coord: self.coord,
            min_altitude_degrees: self.min_altitude_degrees,
            position_angle_degrees: self.position_angle_degrees,
            exposures,
        };
        assert(r@ =~= self@);
        r
    }
}

/// One acquisition goal of a stored target: so many frames through a filter,
/// at a binning, of a duration.
#[derive(Debug)]
pub struct AcquisitionGoal {
    /// Empty for an unfiltered goal.
    pub filter: String,
    pub binning: Binning,
    pub exposure_duration: Span,
    pub desired_count: u32,
}

/// What a target asks of the schedule.
#[derive(Debug, Clone, Copy, PartialEq, Eq, Structural)]
pub struct SchedulingConstraints {
    pub min_altitude_degrees: Option<Binary64>,
}

/// The limits a frame is graded against; an absent limit judges nothing.
#[derive(Debug, Clone, Copy, PartialEq, Eq, Structural)]
pub struct GradingThresholds {
    pub max_hfr_pixels: Option<Binary64>,
    pub min_star_count: Option<u32>,
    pub max_eccentricity: Option<Binary64>,
    pub min_snr: Option<Binary64>,
}

/// Thresholds that judge nothing.
pub open spec fn no_thresholds() -> GradingThresholds {
    GradingThresholds {
        max_hfr_pixels: None,
        min_star_count: None,
        max_eccentricity: None,
        min_snr: None,
    }
}

impl Default for GradingThresholds {
    fn default() -> (r: Self)
        ensures
            r == no_thresholds(),
    {
        GradingThresholds {
            max_hfr_pixels: None,
            min_star_count: None,
            max_eccentricity: None,
            min_snr: None,
        }
    }
}

/// A target as the target store keeps it, as far as planning reads it.
#[derive(Debug)]
pub struct Target {
    pub slug: String,
    pub display_name: String,
    pub coord: IcrsCoord,
    pub position_angle_degrees: Option<Binary64>,
    pub goals: Vec<AcquisitionGoal>,
    pub scheduling: Option<SchedulingConstraints>,
    pub grading: Option<GradingThresholds>,
}

/// The plan entry that a goal projects to: an empty filter is no filter, and
/// the count is always finite.
pub open spec fn goal_entry(goal: AcquisitionGoal) -> ExposureSpecView {
    ExposureSpecView {
        filter: if goal.filter@.len() == 0 {
            None
        } else {
            Some(goal.filter@)
        },
        duration: goal.exposure_duration,
        count: Some(goal.desired_count),
    }
}

/// The candidate that a stored target projects to.
pub open spec fn candidate_of(t: Target) -> PlannerTargetView {
    PlannerTargetView {
        name: t.slug@,
        coord: t.coord,
        min_altitude_degrees: match t.scheduling {
            Some(scheduling) => scheduling.min_altitude_degrees,
            None => None,
        },
        position_angle_degrees: t.position_angle_degrees,
        exposures: Seq::new(t.goals@.len(), |i: int| goal_entry(t.goals@[i])),
    }
}

impl PlannerTarget {
    /// A stored target as a candidate, named by its slug, with one plan
    /// entry for each goal in goal order.
    pub fn from(t: &Target) -> (r: PlannerTarget)
        ensures
            r@ == candidate_of(*t),
    {
        let mut exposures: Vec<ExposureSpec> = Vec::new();
        let mut i: usize = 0;
        while i < t.goals.len()
            invariant
                i <= t.goals.len(),
                exposures.len() == i,
                forall|k: int| 0 <= k < i ==> (#[trigger] exposures[k])@ == goal_entry(t.goals[k]),
            decreases t.goals.len() - i,
        {
            let goal = &t.goals[i];
            let filter = if goal.filter.as_str().unicode_len() == 0 {
                None
            } else {
                Some(goal.filter.clone())
            };
            exposures.push(
                ExposureSpec {
                    filter,
                    duration: goal.exposure_duration,
                    count: Some(goal.desired_count),
                },
            );
            i = i + 1;
        }
        let r = PlannerTarget {
            name: t.slug.clone(),
            coord: t.coord,
            min_altitude_degrees: match &t.scheduling {
                Some(scheduling) => scheduling.min_altitude_degrees,
                None => None,
            },
            position_angle_degrees: t.position_angle_degrees,
            exposures,
        };
        assert(r@ =~= candidate_of(*t));
        r
    }
}

/// A stored target's plan never recommends forever: every entry that it
/// projects to has a finite goal.
pub proof fn stored_plans_are_finite(t: Target)
    ensures
        candidate_of(t).exposures.len() == t.goals@.len(),
        forall|i: int|
            0 <= i < t.goals@.len() ==> (#[trigger] candidate_of(t).exposures[i]).count == Some(
                t.goals@[i].desired_count,
            ),
{
}

/// A stored target becomes a candidate under its slug, with its own
/// coordinate, framing angle and altitude floor, and with one plan entry for
/// each goal, in goal order, of the goal's own filter, duration and count.
pub proof fn candidates_keep_their_target(t: Target, i: int)
    requires
        0 <= i < t.goals@.len(),
    ensures
        candidate_of(t).name == t.slug@,
        candidate_of(t).coord == t.coord,
        candidate_of(t).position_angle_degrees == t.position_angle_degrees,
        t.scheduling is None ==> candidate_of(t).min_altitude_degrees is None,
        t.scheduling matches Some(s) ==> candidate_of(t).min_altitude_degrees
            == s.min_altitude_degrees,
        candidate_of(t).exposures[i].duration == t.goals@[i].exposure_duration,
        candidate_of(t).exposures[i].count == Some(t.goals@[i].desired_count),
        candidate_of(t).exposures[i].filter is None <==> t.goals@[i].filter@.len() == 0,
        candidate_of(t).exposures[i].filter matches Some(name) ==> name == t.goals@[i].filter@,
{
}

/// A candidate shows all that it holds, and so does a plan entry.
pub proof fn candidates_show_all_they_hold(t: PlannerTarget, i: int)
    requires
        0 <= i < t.exposures@.len(),
    ensures
        t@.name == t.name@,
        t@.coord == t.coord,
        t@.min_altitude_degrees == t.min_altitude_degrees,
        t@.position_angle_degrees == t.position_angle_degrees,
        t@.exposures.len() == t.exposures@.len(),
        t@.exposures[i].duration == t.exposures@[i].duration,
        t@.exposures[i].count == t.exposures@[i].count,
        t@.exposures[i].filter is Some <==> t.exposures@[i].filter is Some,
        t.exposures@[i].filter matches Some(name) ==> t@.exposures[i].filter == Some(name@),
{
}

/// A right ascension is in range from zero up to but not including
/// twenty-four hours, and a declination from ninety degrees south to ninety
/// north; nothing that is not finite is in either range.
pub proof fn ranges_of_a_coordinate(x: Binary64)
    ensures
        ra_in_range(x) <==> x.finite() && 0 <= x.scaled() < 24 * pow2(1074),
        dec_in_range(x) <==> x.finite() && -90 * pow2(1074) <= x.scaled() <= 90 * pow2(1074),
{
    named_doubles();
    assert(scaled_magnitude(0) == 0);
    if x.finite() {
        rank_orders_numbers(Binary64::zero(), x);
        rank_orders_numbers(x, Binary64 { bits: TWENTY_FOUR_BITS });
        rank_orders_numbers(Binary64 { bits: MINUS_NINETY_BITS }, x);
        rank_orders_numbers(x, Binary64 { bits: NINETY_BITS });
    }
}

/// Thresholds that judge nothing have no limit at all.
pub proof fn no_thresholds_have_no_limit()
    ensures
        no_thresholds().max_hfr_pixels is None,
        no_thresholds().min_star_count is None,
        no_thresholds().max_eccentricity is None,
        no_thresholds().min_snr is None,
{
}

} // verus!
