//! How far each plan has come.
//!
//! There are no frame counters: a target's actuals are the frames on disk,
//! counted anew for every read (see [`crate::planner::progress_scan`]) and
//! handed to the ranking as a [`PlanProgress`] snapshot.
use crate::binary64::{quotient_of_equals_is_one, Binary64, ONE_BITS, ZERO_BITS};
use crate::planner::progress_scan::GoalProgress;
use crate::planner::targets::{ExposureSpec, PlannerTarget, PlannerTargetView};
use crate::text::{clone_opt, opt_str_view, opt_view};
use vstd::hash_map::StringHashMap;
use vstd::prelude::*;

verus! {

/// The key of a filter slot: the unfiltered slot, absent or empty, has the
/// empty key.
pub open spec fn filter_key_of(filter: Option<Seq<char>>) -> Seq<char> {
    match filter {
        Some(name) => name,
        None => Seq::empty(),
    }
}

/// The key of a filter slot.
pub fn filter_key(filter: Option<&str>) -> (r: String)
    ensures
        r@ == filter_key_of(opt_str_view(filter)),
{
    match filter {
        Some(name) => name.to_owned(),
        None => String::new(),
    }
}

/// Counted frames for the targets under consideration, and the filter that
/// is in the wheel.
///
/// Counts go by position: the count at `i` belongs to plan entry `i`. A
/// target without counts, or with fewer of them than its plan has entries,
/// reads as zero.
pub struct PlanProgress {
    per_target: StringHashMap<Vec<GoalProgress>>,
    last_filter: Option<String>,
}

/// What a [`PlanProgress`] holds.
#[verifier::ext_equal]
pub struct PlanProgressView {
    pub counts: Map<Seq<char>, Seq<GoalProgress>>,
    pub last_filter: Option<Seq<char>>,
}

impl View for PlanProgress {
    type V = PlanProgressView;

    closed spec fn view(&self) -> PlanProgressView {
        PlanProgressView {
            counts: self.per_target@.map_values(|counts: Vec<GoalProgress>| counts@),
            last_filter: opt_view(self.last_filter),
        }
    }
}

impl PlanProgressView {
    /// The good frames counted for plan entry `i` of the target `name`.
    pub open spec fn good_at(self, name: Seq<char>, i: int) -> u32 {
        if self.counts.contains_key(name) && 0 <= i < self.counts[name].len() {
            self.counts[name][i].good
        } else {
            0
        }
    }

    /// Plan entry `i` still wants frames.
    pub open spec fn entry_open(self, t: PlannerTargetView, i: int) -> bool {
        match t.exposures[i].count {
            Some(goal) => self.good_at(t.name, i) < goal,
            None => true,
        }
    }

    /// The first plan entry at `from` or after it that still wants frames.
    pub open spec fn first_open_from(self, t: PlannerTargetView, from: int) -> Option<int>
        decreases t.exposures.len() - from,
    {
        if from < 0 || from >= t.exposures.len() {
            None
        } else if self.entry_open(t, from) {
            Some(from)
        } else {
            self.first_open_from(t, from + 1)
        }
    }

    /// The first plan entry that still wants frames.
    pub open spec fn first_open(self, t: PlannerTargetView) -> Option<int> {
        self.first_open_from(t, 0)
    }

    /// The target has a plan and every entry of it has its frames.
    pub open spec fn exhausted(self, t: PlannerTargetView) -> bool {
        t.exposures.len() > 0 && self.first_open(t) is None
    }

    /// The frames wanted by the first `n` plan entries that have a goal.
    pub open spec fn goal_sum(self, t: PlannerTargetView, n: nat) -> nat
        decreases n,
    {
        if n == 0 {
            0
        } else {
            let rest = self.goal_sum(t, (n - 1) as nat);
            match t.exposures[n - 1].count {
                Some(goal) => rest + goal as nat,
                None => rest,
            }
        }
    }

    /// The good frames of the first `n` plan entries that have a goal, no
    /// entry counting beyond its goal.
    pub open spec fn done_sum(self, t: PlannerTargetView, n: nat) -> nat
        decreases n,
    {
        if n == 0 {
            0
        } else {
            let rest = self.done_sum(t, (n - 1) as nat);
            match t.exposures[n - 1].count {
                Some(goal) => rest + (if self.good_at(t.name, n - 1) < goal {
                    self.good_at(t.name, n - 1) as nat
                } else {
                    goal as nat
                }),
                None => rest,
            }
        }
    }

    /// Good frames to wanted frames over the whole plan, both sums held to
    /// the range of their counters; zero without a goal.
    pub open spec fn fraction_of(self, t: PlannerTargetView) -> Binary64 {
        let goal = capped(self.goal_sum(t, t.exposures.len()));
        let done = capped(self.done_sum(t, t.exposures.len()));
        if goal == 0 {
            Binary64::zero()
        } else {
            Binary64::of_quotient(done, goal)
        }
    }
}

/// A count held to the range of a 32-bit counter.
pub open spec fn capped(n: nat) -> nat {
    if n > u32::MAX {
        u32::MAX as nat
    } else {
        n
    }
}

impl Default for PlanProgress {
    fn default() -> (r: Self)
        ensures
            r@.counts == Map::<Seq<char>, Seq<GoalProgress>>::empty(),
            r@.last_filter is None,
    {
        PlanProgress::new(None)
    }
}

impl PlanProgress {
    /// No counts yet, and the filter that is in the wheel.
    pub fn new(last_filter: Option<String>) -> (r: Self)
        ensures
            r@.counts == Map::<Seq<char>, Seq<GoalProgress>>::empty(),
            r@.last_filter == opt_view(last_filter),
    {
        let r = PlanProgress { per_target: StringHashMap::new(), last_filter };
        assert(r@.counts =~= Map::<Seq<char>, Seq<GoalProgress>>::empty());
        r
    }

    /// Records one target's counts, in goal order, in place of any earlier
    /// ones.
    pub fn insert(&mut self, target_name: &str, counts: Vec<GoalProgress>)
        ensures
            final(self)@.counts == old(self)@.counts.insert(target_name@, counts@),
            final(self)@.last_filter == old(self)@.last_filter,
    {
        self.per_target.insert(target_name.to_owned(), counts);
        assert(self@.counts =~= old(self)@.counts.insert(target_name@, counts@));
    }

    /// The filter that is in the wheel.
    pub fn last_filter_key(&self) -> (r: Option<String>)
        ensures
            opt_view(r) == self@.last_filter,
    {
        clone_opt(&self.last_filter)
    }

    fn good_at(&self, target: &PlannerTarget, index: usize) -> (r: u32)
        ensures
            r == self@.good_at(target@.name, index as int),
    {
        match self.per_target.get(target.name.as_str()) {
            Some(counts) => {
                assert(self@.counts[target@.name] == counts@);
                if index < counts.len() {
                    counts[index].good
                } else {
                    0
                }
            },
            None => 0,
        }
    }

    /// The first plan entry that still wants good frames; `None` where the
    /// plan is empty or complete.
    pub fn next_incomplete_entry<'a>(&self, target: &'a PlannerTarget) -> (r: Option<
        &'a ExposureSpec,
    >)
        ensures
            match self@.first_open(target@) {
                Some(i) => 0 <= i < target.exposures@.len() && r == Some(&target.exposures@[i]),
                None => r is None,
            },
    {
        let mut i: usize = 0;
        while i < target.exposures.len()
            invariant
                i <= target.exposures.len(),
                self@.first_open(target@) == self@.first_open_from(target@, i as int),
            decreases target.exposures.len() - i,
        {
            let wanting: bool = match target.exposures[i].count {
                Some(goal) => self.good_at(target, i) < goal,
                None => true,
            };
            assert(target@.exposures[i as int] == target.exposures@[i as int]@);
            if wanting {
                return Some(&target.exposures[i]);
            }
            i = i + 1;
        }
        None
    }

    /// Whether every entry of the target's plan has its frames. A target
    /// without a plan is never exhausted.
    pub fn is_exhausted(&self, target: &PlannerTarget) -> (r: bool)
        ensures
            r == self@.exhausted(target@),
    {
        target.exposures.len() > 0 && self.next_incomplete_entry(target).is_none()
    }

    /// Good frames to wanted frames over the target's plan.
    pub fn fraction(&self, target: &PlannerTarget) -> (r: Binary64)
        ensures
            r == self@.fraction_of(target@),
            Binary64::zero().at_most(r),
            r.at_most(Binary64 { bits: ONE_BITS }),
    {
        let mut done: u32 = 0;
        let mut goal_total: u32 = 0;
        let mut i: usize = 0;
        while i < target.exposures.len()
            invariant
                i <= target.exposures.len(),
                goal_total == capped(self@.goal_sum(target@, i as nat)),
                done == capped(self@.done_sum(target@, i as nat)),
                self@.done_sum(target@, i as nat) <= self@.goal_sum(target@, i as nat),
            decreases target.exposures.len() - i,
        {
            assert(target@.exposures[i as int] == target.exposures@[i as int]@);
            if let Some(goal) = target.exposures[i].count {
                let good: u32 = self.good_at(target, i);
                goal_total = goal_total.saturating_add(goal);
                done = done.saturating_add(if good < goal { good } else { goal });
            }
            i = i + 1;
        }
        if goal_total == 0 {
            Binary64 { bits: ZERO_BITS }
        } else {
            Binary64::quotient(done, goal_total)
        }
    }
}

/// A target is exhausted exactly when it has a plan, every entry of the plan
/// has a finite goal, and the good frames of every entry meet its goal.
pub proof fn exhausted_means_every_goal_met(p: PlanProgressView, t: PlannerTargetView)
    ensures
        p.exhausted(t) <==> t.exposures.len() > 0 && forall|i: int|
            0 <= i < t.exposures.len() ==> #[trigger] t.exposures[i].count is Some && p.good_at(
                t.name,
                i,
            ) >= t.exposures[i].count->0,
{
    lemma_first_open_from(p, t, 0);
    if t.exposures.len() > 0 && p.first_open(t) is None {
        assert forall|i: int| 0 <= i < t.exposures.len() implies #[trigger] t.exposures[i].count
            is Some && p.good_at(t.name, i) >= t.exposures[i].count->0 by {
            assert(!p.entry_open(t, i));
        }
    }
}

/// What the search for the first open entry finds.
pub(crate) proof fn lemma_first_open_from(p: PlanProgressView, t: PlannerTargetView, from: int)
    requires
        0 <= from,
    ensures
        match p.first_open_from(t, from) {
            Some(k) => from <= k < t.exposures.len() && p.entry_open(t, k) && forall|i: int|
                from <= i < k ==> !#[trigger] p.entry_open(t, i),
            None => forall|i: int|
                from <= i < t.exposures.len() ==> !#[trigger] p.entry_open(t, i),
        },
    decreases t.exposures.len() - from,
{
    if from < t.exposures.len() && !p.entry_open(t, from) {
        lemma_first_open_from(p, t, from + 1);
    }
}

/// Frames beyond a goal count for nothing: over any part of a plan the
/// frames done are at most the frames wanted, and where every entry of that
/// part has its frames they are all of them.
pub proof fn overshooting_does_not_count(p: PlanProgressView, t: PlannerTargetView, n: nat)
    requires
        n <= t.exposures.len(),
    ensures
        p.done_sum(t, n) <= p.goal_sum(t, n),
        (forall|i: int| 0 <= i < n ==> !#[trigger] p.entry_open(t, i)) ==> p.done_sum(t, n)
            == p.goal_sum(t, n),
    decreases n,
{
    if n > 0 {
        overshooting_does_not_count(p, t, (n - 1) as nat);
        if forall|i: int| 0 <= i < n ==> !#[trigger] p.entry_open(t, i) {
            assert(!p.entry_open(t, n - 1));
        }
    }
}

/// An exhausted target that wants any frames at all has the fraction one.
pub proof fn exhausted_means_all_done(p: PlanProgressView, t: PlannerTargetView)
    requires
        p.exhausted(t),
        p.goal_sum(t, t.exposures.len()) > 0,
    ensures
        p.fraction_of(t) == (Binary64 { bits: ONE_BITS }),
{
    lemma_first_open_from(p, t, 0);
    overshooting_does_not_count(p, t, t.exposures.len());
    quotient_of_equals_is_one(capped(p.goal_sum(t, t.exposures.len())));
}

/// Rejected frames do not advance a plan: two snapshots that agree on the
/// good frames agree on the next entry, on exhaustion and on the fraction.
pub proof fn only_good_frames_count(
    p: PlanProgressView,
    q: PlanProgressView,
    t: PlannerTargetView,
)
    requires
        forall|i: int| p.good_at(t.name, i) == q.good_at(t.name, i),
    ensures
        p.first_open(t) == q.first_open(t),
        p.exhausted(t) == q.exhausted(t),
        p.fraction_of(t) == q.fraction_of(t),
{
    lemma_same_first_open(p, q, t, 0);
    lemma_same_sums(p, q, t, t.exposures.len());
}

proof fn lemma_same_first_open(
    p: PlanProgressView,
    q: PlanProgressView,
    t: PlannerTargetView,
    from: int,
)
    requires
        forall|i: int| p.good_at(t.name, i) == q.good_at(t.name, i),
    ensures
        p.first_open_from(t, from) == q.first_open_from(t, from),
    decreases t.exposures.len() - from,
{
    if 0 <= from < t.exposures.len() {
        lemma_same_first_open(p, q, t, from + 1);
    }
}

proof fn lemma_same_sums(
    p: PlanProgressView,
    q: PlanProgressView,
    t: PlannerTargetView,
    n: nat,
)
    requires
        forall|i: int| p.good_at(t.name, i) == q.good_at(t.name, i),
    ensures
        p.goal_sum(t, n) == q.goal_sum(t, n),
        p.done_sum(t, n) == q.done_sum(t, n),
    decreases n,
{
    if n > 0 {
        lemma_same_sums(p, q, t, (n - 1) as nat);
    }
}

/// Counts go by position, and only the good frames of a target's own counts
/// are read: an entry without a count has none, and an entry is open as long
/// as it has no finite goal or fewer good frames than its goal.
pub proof fn counts_go_by_position(p: PlanProgressView, t: PlannerTargetView, i: int)
    requires
        0 <= i < t.exposures.len(),
    ensures
        p.counts.contains_key(t.name) && i < p.counts[t.name].len() ==> p.good_at(t.name, i)
            == p.counts[t.name][i].good,
        !p.counts.contains_key(t.name) || p.counts[t.name].len() <= i ==> p.good_at(t.name, i) == 0,
        t.exposures[i].count is None ==> p.entry_open(t, i),
        t.exposures[i].count matches Some(goal) ==> (p.entry_open(t, i) <==> p.good_at(t.name, i)
            < goal),
{
}

/// The next entry of a plan is the first that still wants frames: all
/// entries before it have theirs, and there is none exactly when every entry
/// has its frames.
pub proof fn next_entry_is_the_first_open(p: PlanProgressView, t: PlannerTargetView)
    ensures
        p.first_open(t) matches Some(k) ==> 0 <= k < t.exposures.len() && p.entry_open(t, k),
        p.first_open(t) matches Some(k) ==> forall|i: int|
            0 <= i < k ==> (#[trigger] t.exposures[i]).count is Some && p.good_at(t.name, i)
                >= t.exposures[i].count->0,
        p.first_open(t) is None <==> forall|i: int|
            0 <= i < t.exposures.len() ==> (#[trigger] t.exposures[i]).count is Some && p.good_at(
                t.name,
                i,
            ) >= t.exposures[i].count->0,
{
    lemma_first_open_from(p, t, 0);
    if let Some(k) = p.first_open(t) {
        assert forall|i: int| 0 <= i < k implies (#[trigger] t.exposures[i]).count is Some
            && p.good_at(t.name, i) >= t.exposures[i].count->0 by {
            assert(!p.entry_open(t, i));
        }
        assert(t.exposures[k].count is None || p.good_at(t.name, k) < t.exposures[k].count->0);
    } else {
        assert forall|i: int| 0 <= i < t.exposures.len() implies (
        #[trigger] t.exposures[i]).count is Some && p.good_at(t.name, i)
            >= t.exposures[i].count->0 by {
            assert(!p.entry_open(t, i));
        }
    }
}

/// The frames wanted and the frames done are sums over the plan: each entry
/// with a goal wants as many as its goal, and has done its good frames up to
/// that; an entry without a goal adds nothing to either.
pub proof fn progress_sums_over_the_plan(p: PlanProgressView, t: PlannerTargetView, n: nat)
    requires
        n <= t.exposures.len(),
    ensures
        p.goal_sum(t, n) == Seq::new(
            n,
            |i: int|
                match t.exposures[i].count {
                    Some(goal) => goal as int,
                    None => 0,
                },
        ).fold_left(0int, |sum: int, x: int| sum + x),
        p.done_sum(t, n) == Seq::new(
            n,
            |i: int|
                match t.exposures[i].count {
                    Some(goal) => if p.good_at(t.name, i) <= goal {
                        p.good_at(t.name, i) as int
                    } else {
                        goal as int
                    },
                    None => 0,
                },
        ).fold_left(0int, |sum: int, x: int| sum + x),
    decreases n,
{
    let wanted = |i: int|
        match t.exposures[i].count {
            Some(goal) => goal as int,
            None => 0int,
        };
    let done = |i: int|
        match t.exposures[i].count {
            Some(goal) => if p.good_at(t.name, i) <= goal {
                p.good_at(t.name, i) as int
            } else {
                goal as int
            },
            None => 0int,
        };
    if n > 0 {
        let m = (n - 1) as nat;
        progress_sums_over_the_plan(p, t, m);
        assert(Seq::new(n, wanted).drop_last() =~= Seq::new(m, wanted));
        assert(Seq::new(n, done).drop_last() =~= Seq::new(m, done));
    }
}

/// The fraction of a plan is its frames done over its frames wanted: zero
/// while nothing is wanted, and one once all that is wanted is done. A count
/// held to a 32-bit counter is the count up to the counter's greatest value.
pub proof fn fraction_is_done_over_wanted(p: PlanProgressView, t: PlannerTargetView)
    ensures
        ({
            let wanted = p.goal_sum(t, t.exposures.len());
            let done = p.done_sum(t, t.exposures.len());
            &&& wanted == 0 ==> p.fraction_of(t).bits == 0
            &&& 0 < wanted ==> p.fraction_of(t) == Binary64::of_quotient(
                capped(done),
                capped(wanted),
            )
            &&& 0 < wanted && done == wanted ==> p.fraction_of(t).bits == 0x3FF0_0000_0000_0000
        }),
        forall|n: nat| n <= u32::MAX ==> #[trigger] capped(n) == n,
        forall|n: nat| n > u32::MAX ==> #[trigger] capped(n) == u32::MAX,
{
    let n = t.exposures.len();
    overshooting_does_not_count(p, t, n);
    if 0 < p.goal_sum(t, n) && p.done_sum(t, n) == p.goal_sum(t, n) {
        quotient_of_equals_is_one(capped(p.goal_sum(t, n)));
    }
}

/// The slot of an entry without a filter has the empty key, and every other
/// slot has the name of its filter.
pub proof fn filter_keys_are_names(filter: Seq<char>)
    ensures
        filter_key_of(Some(filter)) == filter,
        filter_key_of(None).len() == 0,
{
}

} // verus!
