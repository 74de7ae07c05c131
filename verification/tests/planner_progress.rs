use rp::binary64::Binary64;
use rp::planner::progress::{filter_key, PlanProgress};
use rp::planner::progress_scan::GoalProgress;
use rp::planner::targets::{ExposureSpec, IcrsCoord, PlannerTarget, Span};

fn b(v: f64) -> Binary64 {
    Binary64 { bits: v.to_bits() }
}

fn f(v: Binary64) -> f64 {
    f64::from_bits(v.bits)
}

fn target(name: &str, exposures: Vec<ExposureSpec>) -> PlannerTarget {
    PlannerTarget {
        name: name.to_string(),
        coord: IcrsCoord::try_new(b(0.0), b(0.0)).unwrap(),
        min_altitude_degrees: None,
        position_angle_degrees: None,
        exposures,
    }
}

fn entry(filter: Option<&str>, count: Option<u32>) -> ExposureSpec {
    ExposureSpec {
        filter: filter.map(String::from),
        duration: Span::from_secs(60),
        count,
    }
}

fn good(counts: &[u32]) -> Vec<GoalProgress> {
    counts
        .iter()
        .map(|&n| GoalProgress { good: n, total: n })
        .collect()
}

#[test]
fn filter_key_normalises_the_unfiltered_slot() {
    assert_eq!(filter_key(None), "");
    assert_eq!(filter_key(Some("")), "");
    assert_eq!(filter_key(Some("Red")), "Red");
}

#[test]
fn a_target_with_no_derived_counts_reads_as_zero() {
    let t = target("M31", vec![entry(Some("L"), Some(2))]);
    let p = PlanProgress::default();
    assert_eq!(
        p.next_incomplete_entry(&t).unwrap().filter.as_deref(),
        Some("L")
    );
    assert!(!p.is_exhausted(&t));
    assert_eq!(f(p.fraction(&t)), 0.0);
}

#[test]
fn next_incomplete_entry_walks_the_plan_in_order() {
    let t = target(
        "M31",
        vec![entry(Some("L"), Some(2)), entry(Some("R"), Some(1))],
    );
    let mut p = PlanProgress::default();

    p.insert("M31", good(&[1, 0]));
    assert_eq!(
        p.next_incomplete_entry(&t).unwrap().filter.as_deref(),
        Some("L")
    );

    p.insert("M31", good(&[2, 0]));
    assert_eq!(
        p.next_incomplete_entry(&t).unwrap().filter.as_deref(),
        Some("R"),
        "a met goal rotates the recommendation"
    );

    p.insert("M31", good(&[2, 1]));
    assert!(p.next_incomplete_entry(&t).is_none());
    assert!(p.is_exhausted(&t));
}

#[test]
fn rejected_frames_do_not_meet_a_goal() {
    let t = target("M31", vec![entry(Some("L"), Some(1))]);
    let mut p = PlanProgress::default();
    p.insert("M31", vec![GoalProgress { good: 0, total: 1 }]);
    assert!(
        !p.is_exhausted(&t),
        "a rejected frame must not retire the target"
    );
    assert_eq!(
        p.next_incomplete_entry(&t).unwrap().filter.as_deref(),
        Some("L")
    );
}

#[test]
fn an_uncounted_entry_pins_the_walk_and_blocks_exhaustion() {
    let t = target(
        "M31",
        vec![entry(Some("L"), Some(1)), entry(Some("R"), None)],
    );
    let mut p = PlanProgress::default();
    p.insert("M31", good(&[1, 99]));
    assert_eq!(
        p.next_incomplete_entry(&t).unwrap().filter.as_deref(),
        Some("R"),
        "an uncounted entry recommends forever"
    );
    assert!(!p.is_exhausted(&t));
}

#[test]
fn duplicate_filter_entries_track_their_own_goals() {
    let mut first = entry(Some("L"), Some(2));
    first.duration = Span::from_secs(300);
    let mut second = entry(Some("L"), Some(2));
    second.duration = Span::from_secs(60);
    let t = target("M31", vec![first, second]);
    let mut p = PlanProgress::default();
    p.insert("M31", good(&[2, 1]));
    let next = p.next_incomplete_entry(&t).unwrap();
    assert_eq!(next.duration, Span::from_secs(60), "the first entry is complete");
    assert!(!p.is_exhausted(&t));
    p.insert("M31", good(&[2, 2]));
    assert!(p.is_exhausted(&t));
}

#[test]
fn a_planless_target_is_never_exhausted() {
    let t = target("M31", Vec::new());
    let p = PlanProgress::default();
    assert!(p.next_incomplete_entry(&t).is_none());
    assert!(!p.is_exhausted(&t), "no plan means no goal to meet");
}

#[test]
fn fraction_counts_good_frames_against_the_summed_goals() {
    let t = target(
        "M31",
        vec![entry(Some("L"), Some(3)), entry(Some("R"), Some(1))],
    );
    let mut p = PlanProgress::default();
    assert_eq!(f(p.fraction(&t)), 0.0);
    p.insert("M31", good(&[1, 0]));
    assert!((f(p.fraction(&t)) - 0.25).abs() < 1e-12);
    p.insert("M31", good(&[5, 0]));
    assert!((f(p.fraction(&t)) - 0.75).abs() < 1e-12);
}

#[test]
fn fraction_is_zero_when_the_plan_has_no_counted_entries() {
    let t = target("M31", vec![entry(Some("L"), None)]);
    let mut p = PlanProgress::default();
    p.insert("M31", good(&[7]));
    assert_eq!(f(p.fraction(&t)), 0.0);
}

#[test]
fn a_short_counts_vector_reads_as_zero_rather_than_panicking() {
    let t = target(
        "M31",
        vec![entry(Some("L"), Some(1)), entry(Some("R"), Some(1))],
    );
    let mut p = PlanProgress::default();
    p.insert("M31", good(&[1]));
    assert_eq!(
        p.next_incomplete_entry(&t).unwrap().filter.as_deref(),
        Some("R")
    );
}

#[test]
fn fraction_is_the_nearest_double_and_saturates() {
    let t = target("M31", vec![entry(None, Some(3))]);
    let mut p = PlanProgress::new(Some("L".to_string()));
    assert_eq!(p.last_filter_key(), Some("L".to_string()));
    p.insert("M31", good(&[1]));
    assert_eq!(f(p.fraction(&t)), 1.0 / 3.0);

    let t = target(
        "big",
        vec![entry(None, Some(u32::MAX)), entry(None, Some(u32::MAX))],
    );
    p.insert("big", good(&[u32::MAX, 5]));
    assert_eq!(f(p.fraction(&t)), 1.0, "both sums stop at the greatest count");
}

#[test]
fn totals_do_not_advance_a_plan() {
    let t = target("M31", vec![entry(Some("L"), Some(4))]);
    let mut few = PlanProgress::default();
    few.insert("M31", vec![GoalProgress { good: 2, total: 2 }]);
    let mut many = PlanProgress::default();
    many.insert("M31", vec![GoalProgress { good: 2, total: 90 }]);
    assert_eq!(few.fraction(&t), many.fraction(&t));
    assert_eq!(few.is_exhausted(&t), many.is_exhausted(&t));
}

#[test]
fn a_plan_that_is_done_has_the_fraction_one() {
    let t = target(
        "M31",
        vec![
            entry(Some("L"), Some(3)),
            entry(Some("R"), Some(7)),
            entry(Some("G"), Some(u32::MAX)),
        ],
    );
    let mut p = PlanProgress::default();
    p.insert("M31", good(&[3, 900, u32::MAX]));
    assert!(p.is_exhausted(&t));
    assert_eq!(p.fraction(&t), b(1.0));
    p.insert("M31", good(&[900, 6, 0]));
    assert!(!p.is_exhausted(&t));
    assert!(f(p.fraction(&t)) < 1.0);
}
