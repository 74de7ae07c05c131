//! Counting the frames on disk.
//!
//! A target's actuals are the frames that were written for it. The walk goes
//! down as many directory levels as the directory pattern has, keeps the
//! directories that may hold the target's frames, and counts every frame in
//! them towards the goal with the same filter, binning and duration. A frame
//! counts as good unless its sidecar says otherwise.
use crate::binary64::Binary64;
use crate::planner::progress::capped;
use crate::planner::targets::{AcquisitionGoal, Binning, GradingThresholds, Span, Target};
use crate::text::{
    clone_texts, has_suffix, join, joined, opt_view, same_text, strip_suffix, texts_view,
};
use vstd::prelude::*;

verus! {

/// One goal's counts: every frame taken for it, and those of them that are
/// not known to be bad.
#[derive(Debug, Clone, Copy, PartialEq, Eq, Structural)]
pub struct GoalProgress {
    pub good: u32,
    pub total: u32,
}

impl Default for GoalProgress {
    fn default() -> (r: Self)
        ensures
            r.good == 0,
            r.total == 0,
    {
        GoalProgress { good: 0, total: 0 }
    }
}

/// What a frame was taken for.
#[derive(Debug, Clone, Copy, PartialEq, Eq, Structural)]
pub enum FrameType {
    Light,
    Dark,
    Flat,
    Bias,
}

/// What a naming template reads out of a name; a token that the template
/// does not have is absent.
#[derive(Debug)]
pub struct TemplateFields {
    pub frame_type: Option<FrameType>,
    pub target: Option<String>,
    pub filter: Option<String>,
    pub binning: Option<Binning>,
    pub exposure_duration: Option<Span>,
}

/// The filter that a frame without a filter is named with, read as no
/// filter; any other filter is itself.
pub open spec fn normalized(filter: Seq<char>) -> Seq<char> {
    if filter == "NA"@ {
        Seq::empty()
    } else {
        filter
    }
}

/// The slot of a filter: the name used for no filter is the empty slot.
pub fn normalize_filter(filter: &str) -> (r: String)
    ensures
        r@ == normalized(filter@),
{
    if same_text(filter, "NA") {
        String::new()
    } else {
        filter.to_owned()
    }
}

/// What identifies a goal, and the frames taken for it.
#[derive(Debug)]
pub struct SubSpec {
    pub filter: String,
    pub binning: Binning,
    pub exposure_duration: Span,
}

/// What a [`SubSpec`] holds.
pub struct SubSpecView {
    pub filter: Seq<char>,
    pub binning: Binning,
    pub exposure_duration: Span,
}

impl View for SubSpec {
    type V = SubSpecView;

    open spec fn view(&self) -> SubSpecView {
        SubSpecView {
            filter: self.filter@,
            binning: self.binning,
            exposure_duration: self.exposure_duration,
        }
    }
}

/// The sub-spec of a goal.
pub open spec fn goal_key(goal: AcquisitionGoal) -> SubSpecView {
    SubSpecView {
        filter: normalized(goal.filter@),
        binning: goal.binning,
        exposure_duration: goal.exposure_duration,
    }
}

/// The sub-spec that a frame's name tells, where it tells all three parts.
pub open spec fn fields_key(fields: TemplateFields) -> Option<SubSpecView> {
    match (fields.filter, fields.binning, fields.exposure_duration) {
        (Some(filter), Some(binning), Some(exposure_duration)) => Some(
            SubSpecView { filter: normalized(filter@), binning, exposure_duration },
        ),
        _ => None,
    }
}

impl SubSpec {
    /// The sub-spec of a goal.
    pub fn from_goal(goal: &AcquisitionGoal) -> (r: SubSpec)
        ensures
            r@ == goal_key(*goal),
    {
        SubSpec {
            filter: normalize_filter(goal.filter.as_str()),
            binning: goal.binning,
            exposure_duration: goal.exposure_duration,
        }
    }

    /// The sub-spec that a frame's name tells; `None` where a part is
    /// missing.
    pub fn from_fields(fields: &TemplateFields) -> (r: Option<SubSpec>)
        ensures
            match r {
                Some(spec) => fields_key(*fields) == Some(spec@),
                None => fields_key(*fields) is None,
            },
    {
        match (&fields.filter, fields.binning, fields.exposure_duration) {
            (Some(filter), Some(binning), Some(exposure_duration)) => Some(
                SubSpec { filter: normalize_filter(filter.as_str()), binning, exposure_duration },
            ),
            _ => None,
        }
    }

    fn same(&self, other: &SubSpec) -> (r: bool)
        ensures
            r == (self@ == other@),
    {
        self.filter == other.filter && self.binning == other.binning && self.exposure_duration
            == other.exposure_duration
    }
}

/// Some limit is set.
pub open spec fn judges(thresholds: GradingThresholds) -> bool {
    thresholds.max_hfr_pixels is Some || thresholds.min_star_count is Some
        || thresholds.max_eccentricity is Some || thresholds.min_snr is Some
}

/// Whether the thresholds judge anything at all. Where they do not, no
/// sidecar needs to be read.
pub fn judges_anything(thresholds: &GradingThresholds) -> (r: bool)
    ensures
        r == judges(*thresholds),
{
    thresholds.max_hfr_pixels.is_some() || thresholds.min_star_count.is_some()
        || thresholds.max_eccentricity.is_some() || thresholds.min_snr.is_some()
}

/// The first of two optional values that is present.
pub open spec fn either<T>(first: Option<T>, second: Option<T>) -> Option<T> {
    match first {
        Some(_) => first,
        None => second,
    }
}

/// A target's own limits, each absent one taken from the default.
pub open spec fn overridden(
    own: Option<GradingThresholds>,
    default: GradingThresholds,
) -> GradingThresholds {
    match own {
        Some(own) => GradingThresholds {
            max_hfr_pixels: either(own.max_hfr_pixels, default.max_hfr_pixels),
            min_star_count: either(own.min_star_count, default.min_star_count),
            max_eccentricity: either(own.max_eccentricity, default.max_eccentricity),
            min_snr: either(own.min_snr, default.min_snr),
        },
        None => default,
    }
}

fn first_present(first: Option<Binary64>, second: Option<Binary64>) -> (r: Option<Binary64>)
    ensures
        r == either(first, second),
{
    match first {
        Some(_) => first,
        None => second,
    }
}

/// The limits in effect for a target: its own, field by field over the
/// configured default.
pub fn effective_thresholds(target: &Target, default: Option<GradingThresholds>) -> (r:
    GradingThresholds)
    ensures
        r == overridden(
            target.grading,
            match default {
                Some(limits) => limits,
                None => crate::planner::targets::no_thresholds(),
            },
        ),
{
    let default = match default {
        Some(limits) => limits,
        None => GradingThresholds::default(),
    };
    match target.grading {
        Some(own) => GradingThresholds {
            max_hfr_pixels: first_present(own.max_hfr_pixels, default.max_hfr_pixels),
            min_star_count: match own.min_star_count {
                Some(count) => Some(count),
                None => default.min_star_count,
            },
            max_eccentricity: first_present(own.max_eccentricity, default.max_eccentricity),
            min_snr: first_present(own.min_snr, default.min_snr),
        },
        None => default,
    }
}

/// The metrics that a frame's sidecar gives; each may be absent.
#[derive(Debug, Clone, Copy, PartialEq, Eq, Structural)]
pub struct GradingMetrics {
    pub hfr: Option<Binary64>,
    pub star_count: Option<u32>,
    pub eccentricity: Option<Binary64>,
    pub snr: Option<Binary64>,
}

impl Default for GradingMetrics {
    fn default() -> (r: Self)
        ensures
            r.hfr is None,
            r.star_count is None,
            r.eccentricity is None,
            r.snr is None,
    {
        GradingMetrics { hfr: None, star_count: None, eccentricity: None, snr: None }
    }
}

/// A value and a limit are both there, and the value is over the limit.
pub open spec fn over(value: Option<Binary64>, limit: Option<Binary64>) -> bool {
    value matches Some(v) && limit matches Some(l) && l.less(v)
}

/// A value and a limit are both there, and the value is under the limit.
pub open spec fn under(value: Option<Binary64>, limit: Option<Binary64>) -> bool {
    value matches Some(v) && limit matches Some(l) && v.less(l)
}

/// Some metric that is there violates its limit.
pub open spec fn violation(metrics: GradingMetrics, thresholds: GradingThresholds) -> bool {
    ||| over(metrics.hfr, thresholds.max_hfr_pixels)
    ||| over(metrics.eccentricity, thresholds.max_eccentricity)
    ||| under(metrics.snr, thresholds.min_snr)
    ||| metrics.star_count matches Some(count) && thresholds.min_star_count matches Some(min)
        && count < min
}

fn is_over(value: Option<Binary64>, limit: Option<Binary64>) -> (r: bool)
    ensures
        r == over(value, limit),
{
    match (value, limit) {
        (Some(v), Some(l)) => l.lt(v),
        _ => false,
    }
}

fn is_under(value: Option<Binary64>, limit: Option<Binary64>) -> (r: bool)
    ensures
        r == under(value, limit),
{
    match (value, limit) {
        (Some(v), Some(l)) => v.lt(l),
        _ => false,
    }
}

impl GradingMetrics {
    /// Whether any metric that is there violates its limit. An absent metric
    /// never does.
    pub fn violates(&self, thresholds: &GradingThresholds) -> (r: bool)
        ensures
            r == violation(*self, *thresholds),
    {
        is_over(self.hfr, thresholds.max_hfr_pixels) || is_over(
            self.eccentricity,
            thresholds.max_eccentricity,
        ) || is_under(self.snr, thresholds.min_snr) || match (
            self.star_count,
            thresholds.min_star_count,
        ) {
            (Some(count), Some(min)) => count < min,
            _ => false,
        }
    }
}

/// What reading a frame's sidecar came to.
#[derive(Debug, Clone, Copy, PartialEq, Eq, Structural)]
pub enum SidecarReading {
    /// There is no sidecar that can be read.
    Unreadable,
    /// The sidecar is no JSON.
    NotJson,
    /// The sidecar has no `/sections/grading`.
    NoSection,
    /// The grading section does not hold metrics.
    BadSection,
    /// The metrics of the grading section.
    Graded(GradingMetrics),
}

/// The JSON document that bytes hold, where they hold one.
pub uninterp spec fn json_of(bytes: Seq<u8>) -> Option<serde_json::Value>;

/// The value that a JSON pointer leads to in a document.
pub uninterp spec fn json_at(document: serde_json::Value, pointer: Seq<char>) -> Option<
    serde_json::Value,
>;

/// `serde_json::from_slice` into a JSON value: the document that the bytes
/// hold, and nothing where they are no JSON. What it makes of the bytes is
/// named, not spelled out.
#[verifier::external_body]
fn parse_json(bytes: &[u8]) -> (r: Option<serde_json::Value>)
    ensures
        r == json_of(bytes@),
{
    serde_json::from_slice::<serde_json::Value>(bytes).ok()
}

/// `serde_json::Value::pointer`: a copy of the value that the pointer leads
/// to, where there is one. Which value that is, is named, not spelled out.
#[verifier::external_body]
fn value_at(document: &serde_json::Value, pointer: &str) -> (r: Option<serde_json::Value>)
    ensures
        r == json_at(*document, pointer@),
{
    document.pointer(pointer).cloned()
}

/// The grading section of a sidecar that was read.
#[derive(Debug)]
pub enum GradingSection {
    /// The sidecar is no JSON.
    NotJson,
    /// The sidecar has no `/sections/grading`.
    Missing,
    /// What stands at `/sections/grading`.
    Found(serde_json::Value),
}

/// The grading section in the bytes of a sidecar.
pub open spec fn section_in(bytes: Seq<u8>) -> GradingSection {
    match json_of(bytes) {
        None => GradingSection::NotJson,
        Some(document) => match json_at(document, "/sections/grading"@) {
            None => GradingSection::Missing,
            Some(section) => GradingSection::Found(section),
        },
    }
}

/// Finds the grading section in the bytes of a sidecar.
pub fn grading_section(bytes: &[u8]) -> (r: GradingSection)
    ensures
        r == section_in(bytes@),
{
    match parse_json(bytes) {
        None => GradingSection::NotJson,
        Some(document) => match value_at(&document, "/sections/grading") {
            None => GradingSection::Missing,
            Some(section) => GradingSection::Found(section),
        },
    }
}

/// What a sidecar's grading section comes to, given the metrics that were
/// read out of it.
pub open spec fn reading_of(
    section: GradingSection,
    metrics: Option<GradingMetrics>,
) -> SidecarReading {
    match section {
        GradingSection::NotJson => SidecarReading::NotJson,
        GradingSection::Missing => SidecarReading::NoSection,
        GradingSection::Found(_) => match metrics {
            Some(m) => SidecarReading::Graded(m),
            None => SidecarReading::BadSection,
        },
    }
}

/// What a sidecar's grading section comes to, given the metrics that were
/// read out of it; `None` where it does not hold metrics.
pub fn sidecar_reading(section: &GradingSection, metrics: Option<GradingMetrics>) -> (r:
    SidecarReading)
    ensures
        r == reading_of(*section, metrics),
{
    match section {
        GradingSection::NotJson => SidecarReading::NotJson,
        GradingSection::Missing => SidecarReading::NoSection,
        GradingSection::Found(_) => match metrics {
            Some(m) => SidecarReading::Graded(m),
            None => SidecarReading::BadSection,
        },
    }
}

/// A frame is rejected on evidence only: its sidecar holds metrics, and one
/// of them violates its limit.
pub open spec fn rejected(sidecar: SidecarReading, thresholds: GradingThresholds) -> bool {
    sidecar matches SidecarReading::Graded(metrics) && violation(metrics, thresholds)
}

/// Whether a frame's sidecar rejects it.
pub fn is_rejected(sidecar: &SidecarReading, thresholds: &GradingThresholds) -> (r: bool)
    ensures
        r == rejected(*sidecar, *thresholds),
{
    match sidecar {
        SidecarReading::Graded(metrics) => metrics.violates(thresholds),
        _ => false,
    }
}

/// An entry of a directory that the walk lists.
#[derive(Debug)]
pub struct DirEntry {
    /// `None` where the name is no text.
    pub name: Option<String>,
    /// Whether the entry is a directory; `None` where that cannot be told.
    pub is_dir: Option<bool>,
}

/// Every path of `n` listed directories continued by each of their
/// subdirectories: the paths that continue `at`, given its entries.
pub open spec fn continued(at: Seq<Seq<char>>, entries: Seq<DirEntry>, n: nat) -> Seq<
    Seq<Seq<char>>,
>
    decreases n,
{
    if n == 0 {
        Seq::empty()
    } else {
        let before = continued(at, entries, (n - 1) as nat);
        match (opt_view(entries[n - 1].name), entries[n - 1].is_dir) {
            (Some(name), Some(true)) => before.push(at.push(name)),
            _ => before,
        }
    }
}

/// The paths one level below the first `n` paths, given the entries of each;
/// a path without a listing leads nowhere.
pub open spec fn level_below(
    frontier: Seq<Seq<Seq<char>>>,
    listings: Seq<Vec<DirEntry>>,
    n: nat,
) -> Seq<Seq<Seq<char>>>
    decreases n,
{
    if n == 0 {
        Seq::empty()
    } else {
        let before = level_below(frontier, listings, (n - 1) as nat);
        if n <= listings.len() {
            before + continued(frontier[n - 1], listings[n - 1]@, listings[n - 1]@.len())
        } else {
            before
        }
    }
}

/// What a list of paths holds, each path by its components.
pub open spec fn paths_view(paths: Seq<Vec<String>>) -> Seq<Seq<Seq<char>>> {
    Seq::new(paths.len(), |i: int| texts_view(paths[i]@))
}

/// Takes the walk one level down: the paths of all subdirectories of the
/// paths at hand, in order. An unreadable directory has no entries.
pub fn descend(frontier: &Vec<Vec<String>>, listings: &Vec<Vec<DirEntry>>) -> (r: Vec<Vec<String>>)
    ensures
        paths_view(r@) == level_below(paths_view(frontier@), listings@, frontier@.len()),
{
    let mut r: Vec<Vec<String>> = Vec::new();
    let mut i: usize = 0;
    assert(paths_view(r@) =~= Seq::empty());
    while i < frontier.len()
        invariant
            i <= frontier.len(),
            paths_view(r@) == level_below(paths_view(frontier@), listings@, i as nat),
        decreases frontier.len() - i,
    {
        if i < listings.len() {
            let entries = &listings[i];
            let ghost at = texts_view(frontier@[i as int]@);
            let ghost before = paths_view(r@);
            let mut k: usize = 0;
            assert(paths_view(r@) =~= before + continued(at, entries@, 0));
            while k < entries.len()
                invariant
                    i < frontier.len(),
                    k <= entries.len(),
                    at == texts_view(frontier@[i as int]@),
                    paths_view(r@) == before + continued(at, entries@, k as nat),
                decreases entries.len() - k,
            {
                let entry = &entries[k];
                if let (Some(name), Some(true)) = (&entry.name, entry.is_dir) {
                    let mut path = clone_texts(&frontier[i]);
                    let ghost start = path@;
                    path.push(name.clone());
                    assert(texts_view(path@) =~= texts_view(start).push(name@));
                    let ghost so_far = r@;
                    r.push(path);
                    assert(paths_view(r@) =~= paths_view(so_far).push(at.push(name@)));
                    assert(paths_view(r@) =~= before + continued(at, entries@, (k + 1) as nat));
                }
                k = k + 1;
            }
        }
        i = i + 1;
    }
    r
}

/// The walk down from the data directory to the depth of the directory
/// pattern.
#[derive(Debug)]
pub struct Walk {
    /// The paths at hand, by their components below the data directory.
    pub paths: Vec<Vec<String>>,
    /// How many levels are still to go.
    pub levels_left: usize,
}

impl Walk {
    /// The walk ends at a depth: every path at hand lacks as many components
    /// of it as there are levels to go.
    pub open spec fn ends_at(self, depth: int) -> bool {
        forall|i: int|
            0 <= i < self.paths@.len() ==> (#[trigger] self.paths@[i])@.len() + self.levels_left
                == depth
    }

    /// The walk at the data directory, before its first step.
    pub fn start(depth: usize) -> (r: Walk)
        ensures
            r.levels_left == depth,
            paths_view(r.paths@) == seq![Seq::<Seq<char>>::empty()],
            r.ends_at(depth as int),
    {
        let mut paths: Vec<Vec<String>> = Vec::new();
        let here: Vec<String> = Vec::new();
        paths.push(here);
        assert(texts_view(paths@[0]@) =~= Seq::empty());
        assert(paths_view(paths@) =~= seq![Seq::<Seq<char>>::empty()]);
        Walk { paths, levels_left: depth }
    }

    /// Takes the walk one level down, given the entries of each path at
    /// hand. A walk that is at its depth stays there.
    pub fn step(self, listings: &Vec<Vec<DirEntry>>) -> (r: Walk)
        ensures
            self.levels_left == 0 ==> r == self,
            self.levels_left > 0 ==> r.levels_left == self.levels_left - 1 && paths_view(r.paths@)
                == level_below(paths_view(self.paths@), listings@, self.paths@.len()),
            forall|depth: int| #[trigger] self.ends_at(depth) ==> r.ends_at(depth),
    {
        if self.levels_left == 0 {
            return self;
        }
        let paths = descend(&self.paths, listings);
        let r = Walk { paths, levels_left: self.levels_left - 1 };
        proof {
            assert forall|depth: int| #[trigger] self.ends_at(depth) implies r.ends_at(depth) by {
                let frontier = paths_view(self.paths@);
                let at = depth - self.levels_left;
                assert forall|i: int| 0 <= i < frontier.len() implies (
                #[trigger] frontier[i]).len() == at by {
                    assert(self.paths@[i]@.len() + self.levels_left == depth);
                }
                if self.paths@.len() > 0 {
                    assert(self.paths@[0]@.len() + self.levels_left == depth);
                    walk_goes_one_level_down(frontier, listings@, frontier.len(), at as nat);
                }
                assert forall|i: int| 0 <= i < r.paths@.len() implies (
                #[trigger] r.paths@[i])@.len() + r.levels_left == depth by {
                    assert(paths_view(r.paths@)[i].len() == r.paths@[i]@.len());
                }
            }
        }
        r
    }
}

/// The path of a directory below the data directory, as the directory
/// pattern writes it.
pub fn relative_path(components: &Vec<String>) -> (r: String)
    ensures
        r@ == joined(texts_view(components@), "/"@, components@.len()),
{
    join(components, "/")
}

/// A directory at the depth of the directory pattern.
#[derive(Debug)]
pub struct CandidateDir {
    pub components: Vec<String>,
    pub fields: TemplateFields,
}

/// A directory may hold the target's frames: its path matches the pattern
/// and names no other target.
pub open spec fn may_hold(fields: Option<TemplateFields>, slug: Seq<char>) -> bool {
    fields matches Some(f) && (f.target is None || opt_view(f.target) == Some(slug))
}

/// The places of the directories among the first `n` that may hold the
/// target's frames.
pub open spec fn kept_places(
    found: Seq<(Vec<String>, Option<TemplateFields>)>,
    slug: Seq<char>,
    n: nat,
) -> Seq<int>
    decreases n,
{
    if n == 0 {
        Seq::empty()
    } else if may_hold(found[n - 1].1, slug) {
        kept_places(found, slug, (n - 1) as nat).push(n - 1)
    } else {
        kept_places(found, slug, (n - 1) as nat)
    }
}

/// Keeps the directories that may hold the target's frames, in order. Where
/// a directory names no target the files in it decide.
pub fn candidate_directories(
    found: Vec<(Vec<String>, Option<TemplateFields>)>,
    slug: &str,
) -> (r: Vec<CandidateDir>)
    ensures
        r@.len() == kept_places(found@, slug@, found@.len()).len(),
        forall|k: int|
            0 <= k < r@.len() ==> {
                let place = kept_places(found@, slug@, found@.len())[k];
                &&& (#[trigger] r@[k]).components == found@[place].0
                &&& Some(r@[k].fields) == found@[place].1
            },
{
    let ghost all = found@;
    let mut rest = found;
    let mut r: Vec<CandidateDir> = Vec::new();
    let ghost mut n: nat = 0;
    while rest.len() > 0
        invariant
            n + rest@.len() == all.len(),
            rest@ =~= all.skip(n as int),
            r@.len() == kept_places(all, slug@, n).len(),
            forall|k: int|
                0 <= k < r@.len() ==> {
                    let place = kept_places(all, slug@, n)[k];
                    &&& (#[trigger] r@[k]).components == all[place].0
                    &&& Some(r@[k].fields) == all[place].1
                },
        decreases rest.len(),
    {
        let (components, fields) = rest.remove(0);
        assert((components, fields) == all[n as int]);
        proof {
            n = n + 1;
        }
        if let Some(fields) = fields {
            let keep: bool = match &fields.target {
                Some(name) => same_text(name.as_str(), slug),
                None => true,
            };
            if keep {
                r.push(CandidateDir { components, fields });
            }
        }
    }
    r
}

/// A file found in a directory.
#[derive(Debug)]
pub struct FrameFile {
    pub file_name: String,
    /// What the file pattern reads out of the name without its extension;
    /// `None` where the name does not match.
    pub fields: Option<TemplateFields>,
    /// The frame's sidecar.
    pub sidecar: SidecarReading,
}

/// A directory that may hold a target's frames, with the files in it.
#[derive(Debug)]
pub struct ScannedDir {
    /// What the directory pattern reads out of the directory's path.
    pub fields: TemplateFields,
    pub files: Vec<FrameFile>,
}

/// The name of a frame file: it has the extension `fits`, and something
/// before it.
pub open spec fn is_frame_name(name: Seq<char>) -> bool {
    has_suffix(name, ".fits"@) && name.len() > ".fits"@.len()
}

/// The stem of a frame file's name; `None` for any other file. Sidecars
/// share the stem of their frame and must not be counted beside it.
pub fn frame_stem(name: &str) -> (r: Option<String>)
    ensures
        match r {
            Some(stem) => is_frame_name(name@) && name@ == stem@ + ".fits"@,
            None => !is_frame_name(name@),
        },
{
    match strip_suffix(name, ".fits") {
        Some(stem) => if stem.as_str().is_empty() {
            None
        } else {
            Some(stem)
        },
        None => None,
    }
}

/// The sub-spec that a file counts towards, for the target `slug`: the file
/// is a frame whose name matches the pattern, it is a light frame as far as
/// its name or else its directory tells, its name or else its directory
/// names the target, and its name tells filter, binning and duration.
pub open spec fn counts_towards(
    dir: TemplateFields,
    file: FrameFile,
    slug: Seq<char>,
) -> Option<SubSpecView> {
    match file.fields {
        Some(fields) => {
            let frame_type = either(fields.frame_type, dir.frame_type);
            let target = either(opt_view(fields.target), opt_view(dir.target));
            if is_frame_name(file.file_name@) && (frame_type is None || frame_type == Some(
                FrameType::Light,
            )) && target == Some(slug) {
                fields_key(fields)
            } else {
                None
            }
        },
        None => None,
    }
}

fn target_is(name: &Option<String>, slug: &str) -> (r: bool)
    ensures
        r == (opt_view(*name) == Some(slug@)),
{
    match name {
        Some(text) => same_text(text.as_str(), slug),
        None => false,
    }
}

/// How many of the first `n` files of a directory count towards a sub-spec.
pub open spec fn total_in(slug: Seq<char>, dir: ScannedDir, key: SubSpecView, n: nat) -> nat
    decreases n,
{
    if n == 0 {
        0
    } else {
        total_in(slug, dir, key, (n - 1) as nat) + if counts_towards(
            dir.fields,
            dir.files@[n - 1],
            slug,
        ) == Some(key) {
            1nat
        } else {
            0
        }
    }
}

/// How many of them are not rejected.
pub open spec fn good_in(
    slug: Seq<char>,
    thresholds: GradingThresholds,
    dir: ScannedDir,
    key: SubSpecView,
    n: nat,
) -> nat
    decreases n,
{
    if n == 0 {
        0
    } else {
        good_in(slug, thresholds, dir, key, (n - 1) as nat) + if counts_towards(
            dir.fields,
            dir.files@[n - 1],
            slug,
        ) == Some(key) && !rejected(dir.files@[n - 1].sidecar, thresholds) {
            1nat
        } else {
            0
        }
    }
}

/// How many files of the first `n` directories count towards a sub-spec.
pub open spec fn total_over(
    slug: Seq<char>,
    dirs: Seq<ScannedDir>,
    key: SubSpecView,
    n: nat,
) -> nat
    decreases n,
{
    if n == 0 {
        0
    } else {
        total_over(slug, dirs, key, (n - 1) as nat) + total_in(
            slug,
            dirs[n - 1],
            key,
            dirs[n - 1].files@.len(),
        )
    }
}

/// How many of them are not rejected.
pub open spec fn good_over(
    slug: Seq<char>,
    thresholds: GradingThresholds,
    dirs: Seq<ScannedDir>,
    key: SubSpecView,
    n: nat,
) -> nat
    decreases n,
{
    if n == 0 {
        0
    } else {
        good_over(slug, thresholds, dirs, key, (n - 1) as nat) + good_in(
            slug,
            thresholds,
            dirs[n - 1],
            key,
            dirs[n - 1].files@.len(),
        )
    }
}

/// One target's scan.
#[derive(Debug)]
pub struct Scan {
    pub slug: String,
    pub thresholds: GradingThresholds,
}

impl Scan {
    /// The scan of a target under the thresholds in effect.
    pub fn new(target: &Target, thresholds: GradingThresholds) -> (r: Scan)
        ensures
            r.slug@ == target.slug@,
            r.thresholds == thresholds,
    {
        Scan { slug: target.slug.clone(), thresholds }
    }

    /// Whether a file's sidecar has to be read: it is a frame that counts,
    /// and there are limits to hold it to.
    pub fn wants_sidecar(&self, dir: &TemplateFields, file: &FrameFile) -> (r: bool)
        ensures
            r == (judges(self.thresholds) && counts_towards(*dir, *file, self.slug@) is Some),
    {
        judges_anything(&self.thresholds) && self.frame_spec(dir, file).is_some()
    }

    /// The sub-spec that a file counts towards.
    pub fn frame_spec(&self, dir: &TemplateFields, file: &FrameFile) -> (r: Option<SubSpec>)
        ensures
            match r {
                Some(spec) => counts_towards(*dir, *file, self.slug@) == Some(spec@),
                None => counts_towards(*dir, *file, self.slug@) is None,
            },
    {
        if frame_stem(file.file_name.as_str()).is_none() {
            return None;
        }
        match &file.fields {
            Some(fields) => {
                let frame_type = match fields.frame_type {
                    Some(told) => Some(told),
                    None => dir.frame_type,
                };
                let light: bool = match frame_type {
                    Some(told) => told == FrameType::Light,
                    None => true,
                };
                let named: bool = match &fields.target {
                    Some(_) => target_is(&fields.target, self.slug.as_str()),
                    None => target_is(&dir.target, self.slug.as_str()),
                };
                if light && named {
                    SubSpec::from_fields(fields)
                } else {
                    None
                }
            },
            None => None,
        }
    }

    /// Counts every frame of one directory into the buckets.
    pub fn collect_frames(&self, dir: &ScannedDir, buckets: &mut Buckets)
        ensures
            forall|key: SubSpecView|
                {
                    &&& (#[trigger] final(buckets).at(key)).total == capped(
                        old(buckets).at(key).total as nat + total_in(
                            self.slug@,
                            *dir,
                            key,
                            dir.files@.len(),
                        ),
                    )
                    &&& final(buckets).at(key).good == capped(
                        old(buckets).at(key).good as nat + good_in(
                            self.slug@,
                            self.thresholds,
                            *dir,
                            key,
                            dir.files@.len(),
                        ),
                    )
                },
    {
        let mut i: usize = 0;
        while i < dir.files.len()
            invariant
                i <= dir.files.len(),
                forall|key: SubSpecView|
                    {
                        &&& (#[trigger] buckets.at(key)).total == capped(
                            old(buckets).at(key).total as nat + total_in(
                                self.slug@,
                                *dir,
                                key,
                                i as nat,
                            ),
                        )
                        &&& buckets.at(key).good == capped(
                            old(buckets).at(key).good as nat + good_in(
                                self.slug@,
                                self.thresholds,
                                *dir,
                                key,
                                i as nat,
                            ),
                        )
                    },
            decreases dir.files.len() - i,
        {
            let file = &dir.files[i];
            if let Some(spec) = self.frame_spec(&dir.fields, file) {
                let good: bool = !judges_anything(&self.thresholds) || !is_rejected(
                    &file.sidecar,
                    &self.thresholds,
                );
                buckets.bump(spec, good);
            }
            i = i + 1;
        }
    }
}

/// Counts by sub-spec.
#[derive(Debug)]
pub struct Buckets {
    entries: Vec<(SubSpec, GoalProgress)>,
}

/// The counts that a list of buckets holds for a sub-spec, from place `from`
/// on; zero where there is no bucket.
spec fn bucket_from(
    entries: Seq<(SubSpec, GoalProgress)>,
    key: SubSpecView,
    from: int,
) -> GoalProgress
    decreases entries.len() - from,
{
    if from < 0 || from >= entries.len() {
        GoalProgress { good: 0, total: 0 }
    } else if entries[from].0@ == key {
        entries[from].1
    } else {
        bucket_from(entries, key, from + 1)
    }
}

/// Changing the first bucket of a sub-spec, or adding one at the end where
/// there is none, changes the counts of that sub-spec only.
proof fn lemma_bucket_update(
    before: Seq<(SubSpec, GoalProgress)>,
    after: Seq<(SubSpec, GoalProgress)>,
    place: int,
    key: SubSpecView,
    from: int,
)
    requires
        0 <= from <= place,
        place < after.len(),
        before.len() <= after.len(),
        before.len() == place || before.len() == after.len(),
        before.len() == place ==> after.len() == place + 1,
        forall|k: int| 0 <= k < before.len() ==> (#[trigger] before[k]).0@ == after[k].0@,
        forall|k: int| 0 <= k < before.len() && k != place ==> before[k] == #[trigger] after[k],
        forall|k: int|
            0 <= k < place ==> (#[trigger] before[k]).0@ != after[place].0@,
    ensures
        bucket_from(after, key, from) == if key == after[place].0@ {
            after[place].1
        } else {
            bucket_from(before, key, from)
        },
    decreases after.len() - from,
{
    if from < place {
        lemma_bucket_update(before, after, place, key, from + 1);
    } else if key != after[place].0@ && place < before.len() {
        lemma_bucket_tail(before, after, key, place + 1);
    } else if place >= before.len() {
        assert(bucket_from(after, key, place + 1) == (GoalProgress { good: 0, total: 0 }));
    }
}

proof fn lemma_bucket_tail(
    before: Seq<(SubSpec, GoalProgress)>,
    after: Seq<(SubSpec, GoalProgress)>,
    key: SubSpecView,
    from: int,
)
    requires
        0 <= from,
        before.len() == after.len(),
        forall|k: int| from <= k < before.len() ==> before[k] == #[trigger] after[k],
    ensures
        bucket_from(before, key, from) == bucket_from(after, key, from),
    decreases after.len() - from,
{
    if from < after.len() {
        assert(before[from] == after[from]);
        lemma_bucket_tail(before, after, key, from + 1);
    }
}

impl Buckets {
    /// The counts for a sub-spec.
    pub closed spec fn at(&self, key: SubSpecView) -> GoalProgress {
        bucket_from(self.entries@, key, 0)
    }

    /// Buckets with nothing in them.
    pub fn new() -> (r: Buckets)
        ensures
            forall|key: SubSpecView| #[trigger]
                r.at(key) == (GoalProgress { good: 0, total: 0 }),
    {
        Buckets { entries: Vec::new() }
    }

    fn place_of(&self, spec: &SubSpec) -> (r: Option<usize>)
        ensures
            match r {
                Some(place) => place < self.entries@.len() && self.entries@[place as int].0@
                    == spec@ && self.at(spec@) == self.entries@[place as int].1 && forall|k: int|
                    0 <= k < place ==> (#[trigger] self.entries@[k]).0@ != spec@,
                None => self.at(spec@) == (GoalProgress { good: 0, total: 0 }) && forall|k: int|
                    0 <= k < self.entries@.len() ==> (#[trigger] self.entries@[k]).0@ != spec@,
            },
    {
        let mut i: usize = 0;
        while i < self.entries.len()
            invariant
                i <= self.entries.len(),
                forall|k: int| 0 <= k < i ==> (#[trigger] self.entries@[k]).0@ != spec@,
                self.at(spec@) == bucket_from(self.entries@, spec@, i as int),
            decreases self.entries.len() - i,
        {
            if self.entries[i].0.same(spec) {
                return Some(i);
            }
            i = i + 1;
        }
        None
    }

    /// The counts for a sub-spec; zero where nothing was counted.
    pub fn get(&self, spec: &SubSpec) -> (r: GoalProgress)
        ensures
            r == self.at(spec@),
    {
        match self.place_of(spec) {
            Some(place) => self.entries[place].1,
            None => GoalProgress::default(),
        }
    }

    /// Sets the counts for a sub-spec.
    pub fn insert(&mut self, spec: SubSpec, counts: GoalProgress)
        ensures
            forall|key: SubSpecView| #[trigger]
                final(self).at(key) == if key == spec@ {
                    counts
                } else {
                    old(self).at(key)
                },
    {
        let ghost before = self.entries@;
        let ghost spec_key = spec@;
        match self.place_of(&spec) {
            Some(place) => {
                self.entries[place] = (spec, counts);
                assert forall|key: SubSpecView| #[trigger] self.at(key) == if key == spec_key {
                    counts
                } else {
                    old(self).at(key)
                } by {
                    lemma_bucket_update(before, self.entries@, place as int, key, 0);
                }
            },
            None => {
                self.entries.push((spec, counts));
                assert forall|key: SubSpecView| #[trigger] self.at(key) == if key == spec_key {
                    counts
                } else {
                    old(self).at(key)
                } by {
                    lemma_bucket_update(before, self.entries@, before.len() as int, key, 0);
                }
            },
        }
    }

    /// Counts one frame towards a sub-spec.
    pub fn bump(&mut self, spec: SubSpec, good: bool)
        ensures
            forall|key: SubSpecView| #[trigger]
                final(self).at(key) == if key == spec@ {
                    GoalProgress {
                        total: capped(old(self).at(key).total as nat + 1) as u32,
                        good: capped(
                            old(self).at(key).good as nat + (if good {
                                1nat
                            } else {
                                0
                            }),
                        ) as u32,
                    }
                } else {
                    old(self).at(key)
                },
    {
        let counts = self.get(&spec);
        let total: u32 = counts.total.saturating_add(1);
        let good: u32 = if good {
            counts.good.saturating_add(1)
        } else {
            counts.good
        };
        self.insert(spec, GoalProgress { good, total });
    }
}

/// Pairs each goal with the counts of its sub-spec, as they are found: a
/// goal that was overshot says so.
pub fn allocate(goals: &Vec<AcquisitionGoal>, buckets: &Buckets) -> (r: Vec<GoalProgress>)
    ensures
        r@.len() == goals@.len(),
        forall|i: int|
            0 <= i < goals@.len() ==> #[trigger] r@[i] == buckets.at(goal_key(goals@[i])),
{
    let mut r: Vec<GoalProgress> = Vec::new();
    let mut i: usize = 0;
    while i < goals.len()
        invariant
            i <= goals.len(),
            r.len() == i,
            forall|k: int| 0 <= k < i ==> #[trigger] r@[k] == buckets.at(goal_key(goals@[k])),
        decreases goals.len() - i,
    {
        let spec = SubSpec::from_goal(&goals[i]);
        r.push(buckets.get(&spec));
        i = i + 1;
    }
    r
}

/// Derives one target's progress, in goal order, from the directories that
/// may hold its frames.
///
/// Without naming patterns the files on disk name no target, so nothing can
/// be counted.
pub fn scan_target(
    patterns_configured: bool,
    target: &Target,
    thresholds: GradingThresholds,
    dirs: &Vec<ScannedDir>,
) -> (r: Vec<GoalProgress>)
    ensures
        r@.len() == target.goals@.len(),
        !patterns_configured ==> forall|i: int|
            0 <= i < r@.len() ==> #[trigger] r@[i] == (GoalProgress { good: 0, total: 0 }),
        patterns_configured ==> forall|i: int|
            0 <= i < r@.len() ==> {
                let key = goal_key(target.goals@[i]);
                &&& (#[trigger] r@[i]).total == capped(
                    total_over(target.slug@, dirs@, key, dirs@.len()),
                )
                &&& r@[i].good == capped(
                    good_over(target.slug@, thresholds, dirs@, key, dirs@.len()),
                )
            },
{
    let mut buckets = Buckets::new();
    if !patterns_configured {
        return allocate(&target.goals, &buckets);
    }
    let scan = Scan::new(target, thresholds);
    let mut i: usize = 0;
    while i < dirs.len()
        invariant
            i <= dirs.len(),
            scan.slug@ == target.slug@,
            scan.thresholds == thresholds,
            forall|key: SubSpecView|
                {
                    &&& (#[trigger] buckets.at(key)).total == capped(
                        total_over(target.slug@, dirs@, key, i as nat),
                    )
                    &&& buckets.at(key).good == capped(
                        good_over(target.slug@, thresholds, dirs@, key, i as nat),
                    )
                },
        decreases dirs.len() - i,
    {
        scan.collect_frames(&dirs[i], &mut buckets);
        i = i + 1;
    }
    allocate(&target.goals, &buckets)
}

/// The good frames are among all the frames.
pub proof fn good_is_at_most_total(
    slug: Seq<char>,
    thresholds: GradingThresholds,
    dirs: Seq<ScannedDir>,
    key: SubSpecView,
    n: nat,
)
    ensures
        good_over(slug, thresholds, dirs, key, n) <= total_over(slug, dirs, key, n),
    decreases n,
{
    if n > 0 {
        good_is_at_most_total(slug, thresholds, dirs, key, (n - 1) as nat);
        lemma_good_in(slug, thresholds, dirs[n - 1], key, dirs[n - 1].files@.len());
    }
}

/// Where no limit is set every frame is good, whatever its sidecar holds.
pub proof fn ungraded_frames_are_good(
    slug: Seq<char>,
    thresholds: GradingThresholds,
    dirs: Seq<ScannedDir>,
    key: SubSpecView,
    n: nat,
)
    requires
        !judges(thresholds),
    ensures
        good_over(slug, thresholds, dirs, key, n) == total_over(slug, dirs, key, n),
    decreases n,
{
    if n > 0 {
        ungraded_frames_are_good(slug, thresholds, dirs, key, (n - 1) as nat);
        lemma_good_in(slug, thresholds, dirs[n - 1], key, dirs[n - 1].files@.len());
    }
}

proof fn lemma_good_in(
    slug: Seq<char>,
    thresholds: GradingThresholds,
    dir: ScannedDir,
    key: SubSpecView,
    n: nat,
)
    ensures
        good_in(slug, thresholds, dir, key, n) <= total_in(slug, dir, key, n),
        !judges(thresholds) ==> good_in(slug, thresholds, dir, key, n) == total_in(
            slug,
            dir,
            key,
            n,
        ),
    decreases n,
{
    if n > 0 {
        lemma_good_in(slug, thresholds, dir, key, (n - 1) as nat);
    }
}

/// A frame whose sidecar gives no value for a limited metric is not
/// rejected; nor is one that is exactly at every limit.
pub proof fn rejection_needs_evidence(metrics: GradingMetrics, thresholds: GradingThresholds)
    requires
        metrics.hfr is None || thresholds.max_hfr_pixels is None || metrics.hfr
            == thresholds.max_hfr_pixels,
        metrics.star_count is None || thresholds.min_star_count is None || metrics.star_count
            == thresholds.min_star_count,
        metrics.eccentricity is None || thresholds.max_eccentricity is None || metrics.eccentricity
            == thresholds.max_eccentricity,
        metrics.snr is None || thresholds.min_snr is None || metrics.snr == thresholds.min_snr,
    ensures
        !rejected(SidecarReading::Graded(metrics), thresholds),
{
}

/// A frame is rejected only where its sidecar is a JSON document with a
/// grading section, and the metrics in that section violate a limit.
pub proof fn only_the_grading_section_rejects(
    bytes: Seq<u8>,
    metrics: Option<GradingMetrics>,
    thresholds: GradingThresholds,
)
    ensures
        rejected(reading_of(section_in(bytes), metrics), thresholds) <==> json_of(bytes) is Some
            && json_at(json_of(bytes)->0, "/sections/grading"@) is Some && metrics is Some
            && violation(metrics->0, thresholds),
{
}

/// The number of files in the first `n` directories.
pub open spec fn files_over(dirs: Seq<ScannedDir>, n: nat) -> nat
    decreases n,
{
    if n == 0 {
        0
    } else {
        files_over(dirs, (n - 1) as nat) + dirs[n - 1].files@.len()
    }
}

/// The frames that the first `m` sub-specs count in the first `n`
/// directories, taken together.
pub open spec fn claimed_over(
    slug: Seq<char>,
    dirs: Seq<ScannedDir>,
    keys: Seq<SubSpecView>,
    m: nat,
    n: nat,
) -> nat
    decreases m,
{
    if m == 0 {
        0
    } else {
        claimed_over(slug, dirs, keys, (m - 1) as nat, n) + total_over(slug, dirs, keys[m - 1], n)
    }
}

/// No frame is claimed twice: sub-specs that differ from each other count,
/// taken together, no more frames than there are files.
pub proof fn frames_are_claimed_once(
    slug: Seq<char>,
    dirs: Seq<ScannedDir>,
    keys: Seq<SubSpecView>,
    n: nat,
)
    requires
        keys.no_duplicates(),
    ensures
        claimed_over(slug, dirs, keys, keys.len(), n) <= files_over(dirs, n),
    decreases n,
{
    if n > 0 {
        frames_are_claimed_once(slug, dirs, keys, (n - 1) as nat);
        lemma_claimed_split(slug, dirs, keys, keys.len(), n);
        lemma_claimed_once_in(slug, dirs[n - 1], keys, dirs[n - 1].files@.len());
    } else {
        lemma_nothing_claimed(slug, dirs, keys, keys.len());
    }
}

/// The frames that the first `m` sub-specs count among the first `n` files
/// of a directory, taken together.
spec fn claimed_in(
    slug: Seq<char>,
    dir: ScannedDir,
    keys: Seq<SubSpecView>,
    m: nat,
    n: nat,
) -> nat
    decreases m,
{
    if m == 0 {
        0
    } else {
        claimed_in(slug, dir, keys, (m - 1) as nat, n) + total_in(slug, dir, keys[m - 1], n)
    }
}

proof fn lemma_nothing_claimed(
    slug: Seq<char>,
    dirs: Seq<ScannedDir>,
    keys: Seq<SubSpecView>,
    m: nat,
)
    ensures
        claimed_over(slug, dirs, keys, m, 0) == 0,
    decreases m,
{
    if m > 0 {
        lemma_nothing_claimed(slug, dirs, keys, (m - 1) as nat);
    }
}

proof fn lemma_claimed_split(
    slug: Seq<char>,
    dirs: Seq<ScannedDir>,
    keys: Seq<SubSpecView>,
    m: nat,
    n: nat,
)
    requires
        n > 0,
    ensures
        claimed_over(slug, dirs, keys, m, n) == claimed_over(slug, dirs, keys, m, (n - 1) as nat)
            + claimed_in(slug, dirs[n - 1], keys, m, dirs[n - 1].files@.len()),
    decreases m,
{
    if m > 0 {
        lemma_claimed_split(slug, dirs, keys, (m - 1) as nat, n);
    }
}

/// One more file is claimed by at most one sub-spec.
proof fn lemma_one_more_file(
    slug: Seq<char>,
    dir: ScannedDir,
    keys: Seq<SubSpecView>,
    m: nat,
    n: nat,
)
    requires
        keys.no_duplicates(),
        m <= keys.len(),
        n > 0,
    ensures
        claimed_in(slug, dir, keys, m, n) <= claimed_in(slug, dir, keys, m, (n - 1) as nat) + 1,
        (forall|j: int|
            0 <= j < m ==> counts_towards(dir.fields, dir.files@[n - 1], slug) != Some(
                #[trigger] keys[j],
            )) ==> claimed_in(slug, dir, keys, m, n) == claimed_in(
            slug,
            dir,
            keys,
            m,
            (n - 1) as nat,
        ),
    decreases m,
{
    if m > 0 {
        lemma_one_more_file(slug, dir, keys, (m - 1) as nat, n);
        let key = counts_towards(dir.fields, dir.files@[n - 1], slug);
        if key == Some(keys[m - 1]) {
            assert forall|j: int| 0 <= j < m - 1 implies key != Some(#[trigger] keys[j]) by {
                assert(keys[j] != keys[m - 1]);
            }
        }
    }
}

proof fn lemma_claimed_once_in(
    slug: Seq<char>,
    dir: ScannedDir,
    keys: Seq<SubSpecView>,
    n: nat,
)
    requires
        keys.no_duplicates(),
    ensures
        claimed_in(slug, dir, keys, keys.len(), n) <= n,
    decreases n,
{
    if n > 0 {
        lemma_claimed_once_in(slug, dir, keys, (n - 1) as nat);
        lemma_one_more_file(slug, dir, keys, keys.len(), n);
    } else {
        lemma_no_files_claimed(slug, dir, keys, keys.len());
    }
}

proof fn lemma_no_files_claimed(
    slug: Seq<char>,
    dir: ScannedDir,
    keys: Seq<SubSpecView>,
    m: nat,
)
    ensures
        claimed_in(slug, dir, keys, m, 0) == 0,
    decreases m,
{
    if m > 0 {
        lemma_no_files_claimed(slug, dir, keys, (m - 1) as nat);
    }
}

/// A walk that ends at a depth and has no level left to go has paths of just
/// as many components.
pub proof fn finished_walk_is_at_its_depth(walk: Walk, depth: int)
    requires
        walk.ends_at(depth),
        walk.levels_left == 0,
    ensures
        forall|i: int|
            0 <= i < paths_view(walk.paths@).len() ==> (#[trigger] paths_view(
                walk.paths@,
            )[i]).len() == depth,
{
    assert forall|i: int| 0 <= i < paths_view(walk.paths@).len() implies (#[trigger] paths_view(
        walk.paths@,
    )[i]).len() == depth by {
        assert(walk.paths@[i]@.len() + walk.levels_left == depth);
    }
}

/// A step of the walk goes exactly one level down.
pub proof fn walk_goes_one_level_down(
    frontier: Seq<Seq<Seq<char>>>,
    listings: Seq<Vec<DirEntry>>,
    n: nat,
    depth: nat,
)
    requires
        n <= frontier.len(),
        forall|i: int| 0 <= i < frontier.len() ==> (#[trigger] frontier[i]).len() == depth,
    ensures
        forall|i: int|
            0 <= i < level_below(frontier, listings, n).len() ==> (#[trigger] level_below(
                frontier,
                listings,
                n,
            )[i]).len() == depth + 1,
    decreases n,
{
    if n > 0 {
        walk_goes_one_level_down(frontier, listings, (n - 1) as nat, depth);
        if n <= listings.len() {
            let entries = listings[n - 1]@;
            lemma_continued_depth(frontier[n - 1], entries, entries.len());
            let before = level_below(frontier, listings, (n - 1) as nat);
            let here = continued(frontier[n - 1], entries, entries.len());
            let all = level_below(frontier, listings, n);
            assert(all == before + here);
            assert forall|i: int| 0 <= i < all.len() implies (#[trigger] all[i]).len() == depth
                + 1 by {
                if i < before.len() {
                    assert(all[i] == before[i]);
                } else {
                    assert(all[i] == here[i - before.len()]);
                }
            }
        } else {
            assert(level_below(frontier, listings, n) == level_below(
                frontier,
                listings,
                (n - 1) as nat,
            ));
        }
    }
}

proof fn lemma_continued_depth(at: Seq<Seq<char>>, entries: Seq<DirEntry>, n: nat)
    ensures
        forall|i: int|
            0 <= i < continued(at, entries, n).len() ==> (#[trigger] continued(
                at,
                entries,
                n,
            )[i]).len() == at.len() + 1,
    decreases n,
{
    if n > 0 {
        lemma_continued_depth(at, entries, (n - 1) as nat);
        let before = continued(at, entries, (n - 1) as nat);
        let all = continued(at, entries, n);
        assert forall|i: int| 0 <= i < all.len() implies (#[trigger] all[i]).len() == at.len()
            + 1 by {
            if i < before.len() {
                assert(all[i] == before[i]);
            }
        }
    }
}

/// Goals have the same key exactly when they agree on all three parts: the
/// filter, where the name for no filter and the empty one are the same, the
/// binning and the duration.
pub proof fn goals_with_one_key_agree(a: AcquisitionGoal, b: AcquisitionGoal)
    ensures
        goal_key(a) == goal_key(b) <==> {
            &&& a.filter@ == b.filter@ || ((a.filter@ == "NA"@ || a.filter@.len() == 0) && (
            b.filter@ == "NA"@ || b.filter@.len() == 0))
            &&& a.binning == b.binning
            &&& a.exposure_duration == b.exposure_duration
        },
{
    reveal_strlit("NA");
    if a.filter@.len() == 0 {
        assert(a.filter@ =~= Seq::empty());
    }
    if b.filter@.len() == 0 {
        assert(b.filter@ =~= Seq::empty());
    }
}

/// A file counts towards a goal exactly when it is a frame file that matches
/// the naming pattern, was taken of the target and as a light frame as far
/// as its name or else its directory tells, and its name tells the filter,
/// the binning and the duration of that goal.
pub proof fn frames_count_for_their_own_goal(
    dir: TemplateFields,
    file: FrameFile,
    slug: Seq<char>,
    goal: AcquisitionGoal,
)
    ensures
        counts_towards(dir, file, slug) == Some(goal_key(goal)) <==> file.fields is Some && {
            let f = file.fields->0;
            &&& file.file_name@.len() > 5
            &&& file.file_name@.skip(file.file_name@.len() - 5) == ".fits"@
            &&& f.frame_type == Some(FrameType::Light) || (f.frame_type is None && (
            dir.frame_type is None || dir.frame_type == Some(FrameType::Light)))
            &&& (f.target is Some && f.target->0@ == slug) || (f.target is None
                && dir.target is Some && dir.target->0@ == slug)
            &&& f.filter is Some
            &&& f.filter->0@ == goal.filter@ || ((f.filter->0@ == "NA"@ || f.filter->0@.len() == 0)
                && (goal.filter@ == "NA"@ || goal.filter@.len() == 0))
            &&& f.binning == Some(goal.binning)
            &&& f.exposure_duration == Some(goal.exposure_duration)
        },
{
    reveal_strlit(".fits");
    reveal_strlit("NA");
    if goal.filter@.len() == 0 {
        assert(goal.filter@ =~= Seq::empty());
    }
    if let Some(f) = file.fields {
        if let Some(filter) = f.filter {
            if filter@.len() == 0 {
                assert(filter@ =~= Seq::empty());
            }
        }
    }
}

/// No frame counts towards two goals that differ in the binning or in the
/// duration, or in the filter where not both are unfiltered.
pub proof fn no_frame_counts_twice(
    dir: TemplateFields,
    file: FrameFile,
    slug: Seq<char>,
    a: AcquisitionGoal,
    b: AcquisitionGoal,
)
    requires
        a.binning != b.binning || a.exposure_duration != b.exposure_duration || (a.filter@
            != b.filter@ && a.filter@.len() > 0 && a.filter@ != "NA"@),
    ensures
        !(counts_towards(dir, file, slug) == Some(goal_key(a)) && counts_towards(dir, file, slug)
            == Some(goal_key(b))),
{
    goals_with_one_key_agree(a, b);
}

/// The counts of a directory are the numbers of its files that count towards
/// a sub-spec, and of those among them that their sidecars do not reject.
pub proof fn counts_are_numbers_of_files(
    slug: Seq<char>,
    thresholds: GradingThresholds,
    dir: ScannedDir,
    key: SubSpecView,
    n: nat,
)
    requires
        n <= dir.files@.len(),
    ensures
        total_in(slug, dir, key, n) == dir.files@.take(n as int).filter(
            |file: FrameFile| counts_towards(dir.fields, file, slug) == Some(key),
        ).len(),
        good_in(slug, thresholds, dir, key, n) == dir.files@.take(n as int).filter(
            |file: FrameFile|
                counts_towards(dir.fields, file, slug) == Some(key) && !rejected(
                    file.sidecar,
                    thresholds,
                ),
        ).len(),
    decreases n,
{
    let all = |file: FrameFile| counts_towards(dir.fields, file, slug) == Some(key);
    let good = |file: FrameFile|
        counts_towards(dir.fields, file, slug) == Some(key) && !rejected(file.sidecar, thresholds);
    let files = dir.files@.take(n as int);
    reveal(Seq::filter);
    if n > 0 {
        counts_are_numbers_of_files(slug, thresholds, dir, key, (n - 1) as nat);
        assert(files.drop_last() =~= dir.files@.take(n - 1));
        assert(files.last() == dir.files@[n - 1]);
    }
}

/// The counts of several directories are the sums of those of each.
pub proof fn counts_add_up_over_directories(
    slug: Seq<char>,
    thresholds: GradingThresholds,
    dirs: Seq<ScannedDir>,
    key: SubSpecView,
    n: nat,
)
    requires
        n <= dirs.len(),
    ensures
        total_over(slug, dirs, key, n) == dirs.take(n as int).fold_left(
            0nat,
            |sum: nat, dir: ScannedDir| sum + total_in(slug, dir, key, dir.files@.len()),
        ),
        good_over(slug, thresholds, dirs, key, n) == dirs.take(n as int).fold_left(
            0nat,
            |sum: nat, dir: ScannedDir| sum + good_in(slug, thresholds, dir, key, dir.files@.len()),
        ),
    decreases n,
{
    if n > 0 {
        counts_add_up_over_directories(slug, thresholds, dirs, key, (n - 1) as nat);
        assert(dirs.take(n as int).drop_last() =~= dirs.take(n - 1));
    }
}

/// A frame is rejected exactly when its sidecar holds metrics and one of
/// them is on the wrong side of its limit: a half-flux radius or an
/// eccentricity above its greatest value, a signal-to-noise ratio or a star
/// count below its least.
pub proof fn each_limit_has_its_side(sidecar: SidecarReading, limits: GradingThresholds)
    ensures
        rejected(sidecar, limits) <==> sidecar is Graded && {
            let m = sidecar->Graded_0;
            ||| m.hfr is Some && limits.max_hfr_pixels is Some && (
            limits.max_hfr_pixels->0).less(m.hfr->0)
            ||| m.eccentricity is Some && limits.max_eccentricity is Some && (
            limits.max_eccentricity->0).less(m.eccentricity->0)
            ||| m.snr is Some && limits.min_snr is Some && (m.snr->0).less(limits.min_snr->0)
            ||| m.star_count is Some && limits.min_star_count is Some && m.star_count->0
                < limits.min_star_count->0
        },
        judges(limits) <==> limits.max_hfr_pixels is Some || limits.max_eccentricity is Some
            || limits.min_snr is Some || limits.min_star_count is Some,
{
}

/// A target's own limit holds wherever it has one, and the default one
/// wherever it has none, each limit by itself.
pub proof fn own_limits_override_the_default(
    own: Option<GradingThresholds>,
    default: GradingThresholds,
)
    ensures
        ({
            let r = overridden(own, default);
            &&& own is None ==> r == default
            &&& own matches Some(o) ==> {
                &&& r.max_hfr_pixels == if o.max_hfr_pixels is Some {
                    o.max_hfr_pixels
                } else {
                    default.max_hfr_pixels
                }
                &&& r.min_star_count == if o.min_star_count is Some {
                    o.min_star_count
                } else {
                    default.min_star_count
                }
                &&& r.max_eccentricity == if o.max_eccentricity is Some {
                    o.max_eccentricity
                } else {
                    default.max_eccentricity
                }
                &&& r.min_snr == if o.min_snr is Some {
                    o.min_snr
                } else {
                    default.min_snr
                }
            }
        }),
{
}

/// The paths one level below a path are those of its entries that are
/// directories with a name, each once, in the order of the listing.
pub proof fn subdirectories_are_continued(
    at: Seq<Seq<char>>,
    entries: Seq<DirEntry>,
    n: nat,
)
    requires
        n <= entries.len(),
    ensures
        continued(at, entries, n) == entries.take(n as int).filter(
            |entry: DirEntry| entry.name is Some && entry.is_dir == Some(true),
        ).map_values(|entry: DirEntry| at.push(entry.name->0@)),
    decreases n,
{
    let taken = |entry: DirEntry| entry.name is Some && entry.is_dir == Some(true);
    let path = |entry: DirEntry| at.push(entry.name->0@);
    reveal(Seq::filter);
    if n > 0 {
        subdirectories_are_continued(at, entries, (n - 1) as nat);
        let some = entries.take(n as int);
        let before = entries.take(n - 1);
        assert(some.drop_last() =~= before);
        assert(some.last() == entries[n - 1]);
        if taken(entries[n - 1]) {
            assert(some.filter(taken) == before.filter(taken).push(entries[n - 1]));
            assert(some.filter(taken).map_values(path) =~= before.filter(taken).map_values(
                path,
            ).push(at.push(entries[n - 1].name->0@)));
        } else {
            assert(some.filter(taken) == before.filter(taken));
        }
    } else {
        assert(continued(at, entries, n) =~= entries.take(0).filter(taken).map_values(path));
    }
}

/// The walk goes through the paths in order: what lies below the first comes
/// first, each path is continued by its own listing, and a path without a
/// listing by nothing.
pub proof fn walk_keeps_the_order(
    frontier: Seq<Seq<Seq<char>>>,
    listings: Seq<Vec<DirEntry>>,
    n: nat,
)
    requires
        n <= frontier.len(),
    ensures
        level_below(frontier, listings, n) == Seq::new(
            n,
            |i: int|
                if i < listings.len() {
                    continued(frontier[i], listings[i]@, listings[i]@.len())
                } else {
                    Seq::empty()
                },
        ).fold_left(
            Seq::empty(),
            |sum: Seq<Seq<Seq<char>>>, here: Seq<Seq<Seq<char>>>| sum + here,
        ),
    decreases n,
{
    let here = |i: int|
        if i < listings.len() {
            continued(frontier[i], listings[i]@, listings[i]@.len())
        } else {
            Seq::empty()
        };
    if n > 0 {
        let before = level_below(frontier, listings, (n - 1) as nat);
        walk_keeps_the_order(frontier, listings, (n - 1) as nat);
        assert(Seq::new(n, here).drop_last() =~= Seq::new((n - 1) as nat, here));
        assert(before + Seq::<Seq<Seq<char>>>::empty() =~= before);
    }
}

/// The directories that are kept are, in their order, those whose path
/// matches the pattern and that name the target or no target.
pub proof fn kept_directories_may_hold_frames(
    found: Seq<(Vec<String>, Option<TemplateFields>)>,
    slug: Seq<char>,
    n: nat,
)
    requires
        n <= found.len(),
    ensures
        forall|k: int|
            0 <= k < kept_places(found, slug, n).len() ==> 0 <= #[trigger] kept_places(
                found,
                slug,
                n,
            )[k] < n,
        forall|a: int, b: int|
            0 <= a < b < kept_places(found, slug, n).len() ==> #[trigger] kept_places(
                found,
                slug,
                n,
            )[a] < #[trigger] kept_places(found, slug, n)[b],
        forall|place: int|
            0 <= place < n ==> (#[trigger] kept_places(found, slug, n).contains(place)
                <==> found[place].1 is Some && (found[place].1->0.target is None
                || found[place].1->0.target->0@ == slug)),
    decreases n,
{
    if n > 0 {
        let m = (n - 1) as nat;
        kept_directories_may_hold_frames(found, slug, m);
        let before = kept_places(found, slug, m);
        let after = kept_places(found, slug, n);
        assert forall|place: int| 0 <= place < n implies (#[trigger] after.contains(place)
            <==> found[place].1 is Some && (found[place].1->0.target is None
            || found[place].1->0.target->0@ == slug)) by {
            if may_hold(found[m as int].1, slug) {
                assert(after == before.push(m as int));
                if place == m {
                    assert(after[before.len() as int] == place);
                } else if before.contains(place) {
                    let k = choose|k: int| 0 <= k < before.len() && before[k] == place;
                    assert(after[k] == place);
                } else if after.contains(place) {
                    let k = choose|k: int| 0 <= k < after.len() && after[k] == place;
                    assert(before[k] == place);
                }
            } else {
                assert(after == before);
                if place == m && before.contains(place) {
                    let k = choose|k: int| 0 <= k < before.len() && before[k] == place;
                    assert(0 <= before[k] < m);
                }
            }
        }
    }
}

/// The key of a goal has the goal's own binning and duration, and its filter,
/// which is the empty one for the name used for no filter; and a frame's
/// name has a key exactly when it tells all three parts, which are those of
/// the key.
pub proof fn keys_hold_what_they_are_made_of(
    goal: AcquisitionGoal,
    fields: TemplateFields,
    spec: SubSpec,
    filter: Seq<char>,
)
    ensures
        goal_key(goal).binning == goal.binning,
        goal_key(goal).exposure_duration == goal.exposure_duration,
        goal_key(goal).filter == normalized(goal.filter@),
        fields_key(fields) is Some <==> fields.filter is Some && fields.binning is Some
            && fields.exposure_duration is Some,
        fields_key(fields) matches Some(key) ==> fields.binning == Some(key.binning)
            && fields.exposure_duration == Some(key.exposure_duration) && key.filter == normalized(
            fields.filter->0@,
        ),
        spec@.filter == spec.filter@,
        spec@.binning == spec.binning,
        spec@.exposure_duration == spec.exposure_duration,
        filter == "NA"@ ==> normalized(filter).len() == 0,
        filter != "NA"@ ==> normalized(filter) == filter,
{
}

/// A list of paths holds the text of each component of each path, in order.
pub proof fn paths_hold_their_components(paths: Seq<Vec<String>>, i: int, k: int)
    requires
        0 <= i < paths.len(),
        0 <= k < paths[i]@.len(),
    ensures
        paths_view(paths).len() == paths.len(),
        paths_view(paths)[i].len() == paths[i]@.len(),
        paths_view(paths)[i][k] == paths[i]@[k]@,
{
}

} // verus!
