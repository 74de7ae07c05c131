//! What a catalog lookup comes to.
use crate::binary64::Binary64;
use crate::planner::targets::IcrsCoord;
use vstd::prelude::*;

verus! {

/// An object of the catalog.
#[derive(Debug)]
pub struct ResolvedTarget {
    pub name: String,
    pub object_type: String,
    pub coord: IcrsCoord,
    pub magnitude: Option<Binary64>,
    pub size_arcmin: Option<Binary64>,
}

/// What is told of an object of the catalog.
#[derive(Debug)]
pub struct ResolvedTargetView {
    pub name: String,
    pub object_type: String,
    pub ra_hours: Binary64,
    pub dec_degrees: Binary64,
    pub magnitude: Option<Binary64>,
    pub size_arcmin: Option<Binary64>,
}

/// What is told of an object of the catalog.
pub open spec fn tells(view: ResolvedTargetView, t: ResolvedTarget) -> bool {
    &&& view.name@ == t.name@
    &&& view.object_type@ == t.object_type@
    &&& view.ra_hours == t.coord.ra_spec()
    &&& view.dec_degrees == t.coord.dec_spec()
    &&& view.magnitude == t.magnitude
    &&& view.size_arcmin == t.size_arcmin
}

impl ResolvedTargetView {
    /// What is told of an object of the catalog.
    pub fn from(t: &ResolvedTarget) -> (r: ResolvedTargetView)
        ensures
            tells(r, *t),
    {
        ResolvedTargetView {
            name: t.name.clone(),
            object_type: t.object_type.clone(),
            ra_hours: t.coord.ra_hours(),
            dec_degrees: t.coord.dec_degrees(),
            magnitude: t.magnitude,
            size_arcmin: t.size_arcmin,
        }
    }
}

/// What a lookup came to.
#[derive(Debug)]
pub enum ResolveOutcome {
    Resolved(ResolvedTargetView),
    NotFound { suggestions: Vec<String> },
}

/// How many names are suggested for one that is not in the catalog.
pub const SUGGESTION_LIMIT: usize = 3;

/// How many names to suggest beside what was found: none where it was.
pub fn suggestions_wanted(hit: Option<&ResolvedTarget>) -> (r: usize)
    ensures
        r == if hit is Some {
            0
        } else {
            SUGGESTION_LIMIT
        },
{
    match hit {
        Some(_) => 0,
        None => SUGGESTION_LIMIT,
    }
}

/// What a lookup came to: the object that was found, or else the names that
/// are close to the one that was asked for.
pub fn resolve(hit: Option<&ResolvedTarget>, suggestions: Vec<String>) -> (r: ResolveOutcome)
    ensures
        match hit {
            Some(target) => r is Resolved && tells(r->Resolved_0, *target),
            None => r == (ResolveOutcome::NotFound { suggestions }),
        },
{
    match hit {
        Some(target) => ResolveOutcome::Resolved(ResolvedTargetView::from(target)),
        None => ResolveOutcome::NotFound { suggestions },
    }
}

/// What is told of an object is the object's own: its name, its kind, its
/// coordinate, and its magnitude and its size where it has them.
pub proof fn objects_are_told_as_they_are(view: ResolvedTargetView, t: ResolvedTarget)
    ensures
        tells(view, t) <==> {
            &&& view.name@ == t.name@ && view.object_type@ == t.object_type@
            &&& view.ra_hours == t.coord.ra_spec() && view.dec_degrees == t.coord.dec_spec()
            &&& view.magnitude == t.magnitude
            &&& view.size_arcmin == t.size_arcmin
        },
        SUGGESTION_LIMIT == 3,
{
}

} // verus!
