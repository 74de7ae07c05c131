//! Exposure documents: the record of a captured image and the sections that
//! tools have written against it.
use crate::binary64::{rank_orders_numbers, scaled_magnitude, Binary64};
use crate::error::RpError;
use crate::planner::progress_scan::FrameType;
use crate::planner::targets::{Span, Target};
use crate::text::{concat2, concat4, has_suffix, opt_view, strip_suffix};
use vstd::prelude::*;

verus! {

/// A JSON value of a section, which the library carries and never reads.
#[verifier::external_type_specification]
#[verifier::external_body]
pub struct ExJsonValue(serde_json::Value);

/// The map that holds a document's sections.
#[verifier::external_type_specification]
#[verifier::external_body]
#[verifier::reject_recursive_types(K)]
#[verifier::reject_recursive_types(V)]
pub struct ExJsonMap<K, V>(serde_json::Map<K, V>);

/// What a map of sections holds.
pub uninterp spec fn sections_held(
    sections: serde_json::Map<String, serde_json::Value>,
) -> Map<Seq<char>, serde_json::Value>;

/// `serde_json::Map::insert`: the value stands under the name afterwards,
/// every other name keeps its value, and the value that stood there before
/// is handed back.
#[verifier::external_body]
fn map_insert(
    sections: &mut serde_json::Map<String, serde_json::Value>,
    name: String,
    value: serde_json::Value,
) -> (prior: Option<serde_json::Value>)
    ensures
        sections_held(*final(sections)) == sections_held(*old(sections)).insert(name@, value),
        prior == if sections_held(*old(sections)).contains_key(name@) {
            Some(sections_held(*old(sections))[name@])
        } else {
            None
        },
{
    sections.insert(name, value)
}

/// `serde_json::Map::remove`: the name is gone afterwards, every other name
/// keeps its value.
#[verifier::external_body]
fn map_remove(sections: &mut serde_json::Map<String, serde_json::Value>, name: &str)
    ensures
        sections_held(*final(sections)) == sections_held(*old(sections)).remove(name@),
{
    sections.remove(name);
}

/// The sky target that a frame belongs to. Name and coordinate are there
/// only where the slug is that of a stored target.
#[derive(Debug)]
pub struct ExposureTarget {
    pub slug: String,
    pub display_name: Option<String>,
    pub ra_hours: Option<Binary64>,
    pub dec_degrees: Option<Binary64>,
}

impl ExposureTarget {
    /// The target of a frame taken for a stored target.
    pub fn from(t: &Target) -> (r: ExposureTarget)
        ensures
            r.slug@ == t.slug@,
            r.display_name matches Some(name) && name@ == t.display_name@,
            r.ra_hours == Some(t.coord.ra_spec()),
            r.dec_degrees == Some(t.coord.dec_spec()),
    {
        ExposureTarget {
            slug: t.slug.clone(),
            display_name: Some(t.display_name.clone()),
            ra_hours: Some(t.coord.ra_hours()),
            dec_degrees: Some(t.coord.dec_degrees()),
        }
    }
}

/// What an optical train's geometry is derived from: the operator's focal
/// length, and the pixel size and sensor dimensions that the camera reports.
#[derive(Debug, Clone, Copy, PartialEq, Eq, Structural)]
pub struct CameraGeometry {
    pub focal_length_mm: Binary64,
    pub pixel_size_x_um: Binary64,
    pub pixel_size_y_um: Binary64,
    pub sensor_width_px: u32,
    pub sensor_height_px: u32,
}

/// The pixel scales and the field of view computed from a
/// [`CameraGeometry`].
#[derive(Debug, Clone, Copy, PartialEq, Eq, Structural)]
pub struct DerivedGeometry {
    pub pixel_scale_x_arcsec_per_pixel: Binary64,
    pub pixel_scale_y_arcsec_per_pixel: Binary64,
    pub fov_width_deg: Binary64,
    pub fov_height_deg: Binary64,
}

/// An optical train's geometry, as a document carries it.
#[derive(Debug, Clone, Copy, PartialEq, Eq, Structural)]
pub struct Optics {
    pub focal_length_mm: Binary64,
    pub pixel_size_x_um: Binary64,
    pub pixel_size_y_um: Binary64,
    pub sensor_width_px: u32,
    pub sensor_height_px: u32,
    pub pixel_scale_x_arcsec_per_pixel: Binary64,
    pub pixel_scale_y_arcsec_per_pixel: Binary64,
    pub fov_width_deg: Binary64,
    pub fov_height_deg: Binary64,
}

/// A number is finite and greater than zero.
pub open spec fn positive(v: Binary64) -> bool {
    v.finite() && Binary64::zero().less(v)
}

impl CameraGeometry {
    /// Every input is positive.
    pub open spec fn usable(self) -> bool {
        &&& positive(self.focal_length_mm)
        &&& positive(self.pixel_size_x_um)
        &&& positive(self.pixel_size_y_um)
        &&& self.sensor_width_px > 0
        &&& self.sensor_height_px > 0
    }
}

impl DerivedGeometry {
    /// Every derived value is positive.
    pub open spec fn usable(self) -> bool {
        &&& positive(self.pixel_scale_x_arcsec_per_pixel)
        &&& positive(self.pixel_scale_y_arcsec_per_pixel)
        &&& positive(self.fov_width_deg)
        &&& positive(self.fov_height_deg)
    }
}

impl Optics {
    /// The optics of a camera geometry, given what was derived from it;
    /// `None` where any input or any derived value is not positive and
    /// finite. A number that is not finite would spoil the whole document.
    pub fn from_camera_geometry(geometry: CameraGeometry, derived: DerivedGeometry) -> (r: Option<
        Optics,
    >)
        ensures
            r == if geometry.usable() && derived.usable() {
                Some(
                    Optics {
                        focal_length_mm: geometry.focal_length_mm,
                        pixel_size_x_um: geometry.pixel_size_x_um,
                        pixel_size_y_um: geometry.pixel_size_y_um,
                        sensor_width_px: geometry.sensor_width_px,
                        sensor_height_px: geometry.sensor_height_px,
                        pixel_scale_x_arcsec_per_pixel: derived.pixel_scale_x_arcsec_per_pixel,
                        pixel_scale_y_arcsec_per_pixel: derived.pixel_scale_y_arcsec_per_pixel,
                        fov_width_deg: derived.fov_width_deg,
                        fov_height_deg: derived.fov_height_deg,
                    },
                )
            } else {
                None
            },
    {
        if !geometry.focal_length_mm.is_positive_finite()
            || !geometry.pixel_size_x_um.is_positive_finite()
            || !geometry.pixel_size_y_um.is_positive_finite() || geometry.sensor_width_px == 0
            || geometry.sensor_height_px == 0 {
            return None;
        }
        if !derived.pixel_scale_x_arcsec_per_pixel.is_positive_finite()
            || !derived.pixel_scale_y_arcsec_per_pixel.is_positive_finite()
            || !derived.fov_width_deg.is_positive_finite()
            || !derived.fov_height_deg.is_positive_finite() {
            return None;
        }
        Some(
            Optics {
                focal_length_mm: geometry.focal_length_mm,
                pixel_size_x_um: geometry.pixel_size_x_um,
                pixel_size_y_um: geometry.pixel_size_y_um,
                sensor_width_px: geometry.sensor_width_px,
                sensor_height_px: geometry.sensor_height_px,
                pixel_scale_x_arcsec_per_pixel: derived.pixel_scale_x_arcsec_per_pixel,
                pixel_scale_y_arcsec_per_pixel: derived.pixel_scale_y_arcsec_per_pixel,
                fov_width_deg: derived.fov_width_deg,
                fov_height_deg: derived.fov_height_deg,
            },
        )
    }
}

/// A captured exposure and the sections that tools have written against it.
pub struct ExposureDocument {
    pub id: String,
    /// When the capture was complete, as RFC 3339 text.
    pub captured_at: String,
    /// The path of the FITS file.
    pub file_path: String,
    pub width: u32,
    pub height: u32,
    pub camera_id: Option<String>,
    pub duration: Option<Span>,
    /// The camera's greatest sample at the time of capture.
    pub max_adu: Option<u32>,
    pub cooler_setpoint_c: Option<i32>,
    pub sensor_temperature_c: Option<Binary64>,
    pub optics: Option<Optics>,
    pub target: Option<ExposureTarget>,
    pub frame_type: Option<FrameType>,
    /// Sections by the name of the tool that wrote them.
    pub sections: serde_json::Map<String, serde_json::Value>,
}

/// Two documents agree on everything but their sections.
pub open spec fn same_but_sections(a: ExposureDocument, b: ExposureDocument) -> bool {
    a == (ExposureDocument { sections: a.sections, ..b })
}

impl ExposureDocument {
    /// The sections that the document holds.
    pub open spec fn held(self) -> Map<Seq<char>, serde_json::Value> {
        sections_held(self.sections)
    }

    /// Writes a section and hands back what stood there before.
    pub fn stage_section(&mut self, name: &str, value: serde_json::Value) -> (prior: Option<
        serde_json::Value,
    >)
        ensures
            same_but_sections(*final(self), *old(self)),
            final(self).held() == old(self).held().insert(name@, value),
            prior == staged_over(old(self).held(), name@),
    {
        map_insert(&mut self.sections, name.to_owned(), value)
    }

    /// Takes a staged section back: what stood there before stands there
    /// again, and a section that was new is gone.
    pub fn roll_back_section(&mut self, name: &str, prior: Option<serde_json::Value>)
        ensures
            same_but_sections(*final(self), *old(self)),
            final(self).held() == rolled_back(old(self).held(), name@, prior),
    {
        match prior {
            Some(value) => {
                map_insert(&mut self.sections, name.to_owned(), value);
            },
            None => {
                map_remove(&mut self.sections, name);
            },
        }
    }
}

/// What stands under a name, and is about to be written over.
pub open spec fn staged_over(
    held: Map<Seq<char>, serde_json::Value>,
    name: Seq<char>,
) -> Option<serde_json::Value> {
    if held.contains_key(name) {
        Some(held[name])
    } else {
        None
    }
}

/// Sections with one of them put back to what it was.
pub open spec fn rolled_back(
    held: Map<Seq<char>, serde_json::Value>,
    name: Seq<char>,
    prior: Option<serde_json::Value>,
) -> Map<Seq<char>, serde_json::Value> {
    match prior {
        Some(value) => held.insert(name, value),
        None => held.remove(name),
    }
}

/// Rolling back undoes staging: whatever value was staged, the sections are
/// again what they were.
pub proof fn roll_back_undoes_staging(
    held: Map<Seq<char>, serde_json::Value>,
    name: Seq<char>,
    value: serde_json::Value,
)
    ensures
        rolled_back(held.insert(name, value), name, staged_over(held, name)) == held,
{
    assert(rolled_back(held.insert(name, value), name, staged_over(held, name)) =~= held);
}

/// A path is `base`, a dot and `ext`, where the dot is the last of its file
/// name and does not begin it.
pub open spec fn path_splits(path: Seq<char>, base: Seq<char>, ext: Seq<char>) -> bool {
    &&& path == base + "."@ + ext
    &&& !ext.contains('.')
    &&& !ext.contains('/')
    &&& base.len() > 0
    &&& base.last() != '/'
}

/// A path that every platform reads the same way: it has no backslash and no
/// drive or network prefix.
pub open spec fn plain_path(path: Seq<char>) -> bool {
    &&& !path.contains('\\')
    &&& !(path.len() > 1 && path[0] == '/' && path[1] == '/')
    &&& !(path.len() > 1 && path[1] == ':')
}

/// Where what follows the last slash of a path begins.
pub open spec fn name_start(path: Seq<char>) -> int
    decreases path.len(),
{
    if path.len() == 0 || path.last() == '/' {
        path.len() as int
    } else {
        name_start(path.drop_last())
    }
}

/// What follows the last slash of a path.
pub open spec fn last_part(path: Seq<char>) -> Seq<char> {
    path.skip(name_start(path))
}

/// The names in a path, in order: empty parts and dots name nothing.
pub open spec fn names_in(path: Seq<char>) -> Seq<Seq<char>>
    decreases path.len(),
{
    let start = name_start(path);
    let here = if last_part(path).len() == 0 || last_part(path) == "."@ {
        Seq::empty()
    } else {
        seq![last_part(path)]
    };
    if 0 < start <= path.len() {
        names_in(path.take(start - 1)) + here
    } else {
        here
    }
}

/// The components of a plain path: the root as an empty one, a dot where the
/// path begins with one, and the names in it.
pub open spec fn components_of(path: Seq<char>) -> Seq<Seq<char>> {
    let names = names_in(path);
    if path.len() > 0 && path[0] == '/' {
        seq![Seq::empty()] + names
    } else if path == "."@ || (path.len() > 1 && path[0] == '.' && path[1] == '/') {
        seq!["."@] + names
    } else {
        names
    }
}

/// The file name of a plain path: its last component, unless that is the
/// root, a dot or two dots.
pub open spec fn file_name_of(path: Seq<char>) -> Option<Seq<char>> {
    let parts = components_of(path);
    if parts.len() == 0 || parts.last().len() == 0 || parts.last() == "."@ || parts.last() == ".."@ {
        None
    } else {
        Some(parts.last())
    }
}

/// A name that begins with two dots.
pub open spec fn begins_with_two_dots(name: Seq<char>) -> bool {
    name.len() > 1 && name[0] == '.' && name[1] == '.'
}

/// `to` is `from` with its extension replaced by `json`, or with that
/// extension added where it has none.
pub open spec fn json_beside(from: Seq<char>, to: Seq<char>) -> bool {
    &&& forall|base: Seq<char>, ext: Seq<char>| #[trigger]
        path_splits(from, base, ext) ==> to == base + ".json"@
    &&& (forall|base: Seq<char>, ext: Seq<char>| !#[trigger] path_splits(from, base, ext)) ==> to
        == from + ".json"@
}

/// The path of `to` is that of `from` with the extension of its file name
/// replaced by `json`, or added; a path without a file name stays as it is.
pub open spec fn json_path_beside(from: Seq<char>, to: Seq<char>) -> bool {
    match file_name_of(from) {
        Some(name) => {
            let (old_parts, new_parts) = (components_of(from), components_of(to));
            &&& new_parts.len() == old_parts.len()
            &&& new_parts.drop_last() == old_parts.drop_last()
            &&& json_beside(name, new_parts.last())
        },
        None => components_of(to) == components_of(from),
    }
}

/// A path that ends in its file name, with no slash or dot behind it.
pub open spec fn ends_in_name(path: Seq<char>) -> bool {
    file_name_of(path) == Some(last_part(path))
}

/// The path of a sidecar beside a file, as far as every platform agrees: its
/// components, and its text where the path ends in its file name. Of a file
/// name that begins with two dots nothing is said.
pub open spec fn sidecar_beside(from: Seq<char>, to: Seq<char>) -> bool {
    plain_path(from) && !(file_name_of(from) matches Some(name) && begins_with_two_dots(name)) ==> {
        &&& json_path_beside(from, to)
        &&& ends_in_name(from) ==> json_beside(from, to)
    }
}

/// `std::path::Path::with_extension` with the extension `json`. How a path
/// is taken apart depends on the platform, so nothing is said of a path that
/// is not plain.
#[verifier::external_body]
fn with_json_extension(path: &str) -> (r: String)
    ensures
        sidecar_beside(path@, r@),
{
    std::path::Path::new(path).with_extension("json").to_string_lossy().into_owned()
}

/// The sidecar path that belongs to a FITS file's path.
pub fn sidecar_path(file_path: &str) -> (r: String)
    ensures
        sidecar_beside(file_path@, r@),
{
    with_json_extension(file_path)
}

/// `std::path::Path::file_name`: the final component of the path, where it is
/// a name. How a path is taken apart depends on the platform, so nothing is
/// said of a path that is not plain.
#[verifier::external_body]
pub(crate) fn file_name(path: &str) -> (r: Option<String>)
    ensures
        plain_path(path@) ==> opt_view(r) == file_name_of(path@),
{
    std::path::Path::new(path).file_name().map(|name| name.to_string_lossy().into_owned())
}

/// A path whose file name has the extension `fits`.
pub open spec fn is_fits_path(path: Seq<char>) -> bool {
    &&& has_suffix(path, ".fits"@)
    &&& path.len() > ".fits"@.len()
    &&& path[path.len() - ".fits"@.len() - 1] != '/'
}

/// A FITS path without its extension.
pub open spec fn fits_base(path: Seq<char>) -> Seq<char> {
    path.take(path.len() - ".fits"@.len())
}

/// A FITS path ends in its file name.
pub(crate) proof fn lemma_fits_name(path: Seq<char>)
    requires
        is_fits_path(path),
    ensures
        last_part(path).len() > ".fits"@.len(),
        ends_in_name(path),
{
    reveal_strlit(".fits");
    reveal_strlit(".");
    reveal_strlit("..");
    let n = path.len() as int;
    assert(path.skip(n - 5) == ".fits"@);
    assert forall|k: int| 0 <= k < 5 implies #[trigger] path[n - 5 + k] == ".fits"@[k] by {
        assert(path.skip(n - 5)[k] == path[n - 5 + k]);
    }
    assert(path[n - 5] == '.' && path[n - 4] == 'f' && path[n - 3] == 'i' && path[n - 2] == 't'
        && path[n - 1] == 's') by {
        assert(path[n - 5 + 0] == ".fits"@[0]);
        assert(path[n - 5 + 1] == ".fits"@[1]);
        assert(path[n - 5 + 2] == ".fits"@[2]);
        assert(path[n - 5 + 3] == ".fits"@[3]);
        assert(path[n - 5 + 4] == ".fits"@[4]);
    }
    lemma_name_start(path, n - 6);
    let name = last_part(path);
    assert(name.len() > 5);
    assert(name != "."@ && name != ".."@);
    assert(names_in(path).last() == name);
    assert(components_of(path).last() == name);
}

/// A name begins at or before a place behind which there is no slash.
proof fn lemma_name_start(path: Seq<char>, k: int)
    requires
        0 <= k <= path.len(),
        forall|i: int| k <= i < path.len() ==> path[i] != '/',
    ensures
        0 <= name_start(path) <= k,
    decreases path.len(),
{
    if path.len() > 0 && path.last() != '/' {
        if k < path.len() {
            lemma_name_start(path.drop_last(), k);
        } else {
            lemma_name_start_bound(path);
        }
    }
}

proof fn lemma_name_start_bound(path: Seq<char>)
    ensures
        0 <= name_start(path) <= path.len(),
    decreases path.len(),
{
    if path.len() > 0 && path.last() != '/' {
        lemma_name_start_bound(path.drop_last());
    }
}

/// The sidecar path that belongs to a FITS path, where every platform agrees
/// on it.
pub open spec fn fits_sidecar(fits_path: Seq<char>, sidecar: Seq<char>) -> bool {
    plain_path(fits_path) && !begins_with_two_dots(last_part(fits_path)) ==> sidecar == fits_base(
        fits_path,
    ) + ".json"@
}

impl ExposureDocument {
    /// The sidecar path of a FITS file's path; `None` for the path of
    /// anything else.
    pub fn sidecar_path_for(fits_path: &str) -> (r: Option<String>)
        ensures
            r is Some <==> is_fits_path(fits_path@),
            r matches Some(path) ==> fits_sidecar(fits_path@, path@),
    {
        proof {
            reveal_strlit(".fits");
        }
        match strip_suffix(fits_path, ".fits") {
            Some(base) => {
                let n: usize = base.as_str().unicode_len();
                if n == 0 || base.as_str().get_char(n - 1) == '/' {
                    None
                } else {
                    let r = sidecar_path(fits_path);
                    proof {
                        lemma_fits_name(fits_path@);
                        if plain_path(fits_path@) && !begins_with_two_dots(last_part(fits_path@)) {
                            sidecar_swaps_the_extension(fits_path@, r@);
                        }
                    }
                    Some(r)
                }
            },
            None => None,
        }
    }

    /// The document of a sidecar, given what reading and then parsing it
    /// came to.
    pub fn read_sidecar_sync(
        path: &str,
        body: Result<Result<ExposureDocument, String>, String>,
    ) -> (r: Result<ExposureDocument, RpError>)
        ensures
            match body {
                Err(e) => r matches Err(RpError::Imaging(text)) && text@ == "failed to read sidecar '"@
                    + path@ + "': "@ + e@,
                Ok(Err(e)) => r matches Err(RpError::Imaging(text)) && text@
                    == "failed to parse sidecar '"@ + path@ + "': "@ + e@,
                Ok(Ok(doc)) => r == Ok::<ExposureDocument, RpError>(doc),
            },
    {
        match body {
            Err(e) => Err(
                RpError::Imaging(concat4("failed to read sidecar '", path, "': ", e.as_str())),
            ),
            Ok(Err(e)) => Err(
                RpError::Imaging(concat4("failed to parse sidecar '", path, "': ", e.as_str())),
            ),
            Ok(Ok(doc)) => Ok(doc),
        }
    }
}

/// A path that ends in its file name and has no empty and no dot components.
pub open spec fn tidy_path(path: Seq<char>) -> bool {
    &&& ends_in_name(path)
    &&& forall|i: int|
        #![trigger path[i]]
        0 <= i < path.len() - 1 && path[i + 1] == '/' ==> path[i] != '/' && !(path[i] == '.' && (i
            == 0 || path[i - 1] == '/'))
}

/// What stands before the file name of a path, without the slash between
/// them unless it is the root.
pub open spec fn directory_of(path: Seq<char>) -> Seq<char> {
    if name_start(path) <= 1 {
        path.take(name_start(path))
    } else {
        path.take(name_start(path) - 1)
    }
}

/// A plain path has a directory: it is not empty and is not the root alone.
pub open spec fn has_directory(path: Seq<char>) -> bool {
    components_of(path).len() > 0 && components_of(path).last().len() > 0
}

/// The directory of a plain path: the path without its last component, as
/// text where the path is tidy.
pub open spec fn is_directory_of(path: Seq<char>, dir: Seq<char>) -> bool {
    &&& components_of(dir) == components_of(path).drop_last()
    &&& tidy_path(path) ==> dir == directory_of(path)
}

/// `std::path::Path::parent`: the path without its final component, which an
/// empty path and the root do not have. How a path is taken apart depends on
/// the platform, so nothing is said of a path that is not plain.
#[verifier::external_body]
fn parent(path: &str) -> (r: Option<String>)
    ensures
        plain_path(path@) ==> (r is Some <==> has_directory(path@)),
        plain_path(path@) && r is Some ==> is_directory_of(path@, r->0@),
{
    std::path::Path::new(path).parent().map(|dir| dir.to_string_lossy().into_owned())
}

/// The directory that a sidecar is staged in and written to.
pub fn sidecar_directory(path: &str) -> (r: Result<String, RpError>)
    ensures
        plain_path(path@) ==> (r is Ok <==> has_directory(path@)),
        plain_path(path@) && r is Ok ==> is_directory_of(path@, r->Ok_0@),
        r matches Err(e) ==> e matches RpError::Imaging(text) && text@
            == "sidecar path has no parent: "@ + path@,
{
    match parent(path) {
        Some(dir) => Ok(dir),
        None => Err(RpError::Imaging(concat2("sidecar path has no parent: ", path))),
    }
}

/// What writing a sidecar into its directory came to.
pub enum SidecarWrite {
    /// The file is in place.
    Written,
    /// The operating system refused a step.
    Refused(String),
    /// The task that wrote it did not come back.
    Lost(String),
}

/// The outcome of writing a sidecar.
pub fn sidecar_written(write: SidecarWrite) -> (r: Result<(), RpError>)
    ensures
        match write {
            SidecarWrite::Written => r is Ok,
            SidecarWrite::Refused(e) => r == Err::<(), RpError>(RpError::Io(e)),
            SidecarWrite::Lost(e) => r matches Err(RpError::Imaging(text)) && text@
                == "sidecar write task join error: "@ + e@,
        },
{
    match write {
        SidecarWrite::Written => Ok(()),
        SidecarWrite::Refused(e) => Err(RpError::Io(e)),
        SidecarWrite::Lost(e) => Err(
            RpError::Imaging(concat2("sidecar write task join error: ", e.as_str())),
        ),
    }
}

/// A FITS path and its sidecar path differ in their extension only.
pub proof fn sidecar_swaps_the_extension(fits_path: Seq<char>, sidecar: Seq<char>)
    requires
        is_fits_path(fits_path),
        json_beside(fits_path, sidecar),
    ensures
        sidecar == fits_base(fits_path) + ".json"@,
        fits_path == fits_base(fits_path) + ".fits"@,
{
    reveal_strlit(".fits");
    reveal_strlit(".");
    reveal_strlit("fits");
    let base = fits_base(fits_path);
    assert(fits_path.skip(fits_path.len() - 5) == ".fits"@);
    assert(fits_path =~= base + ".fits"@) by {
        assert forall|i: int| 0 <= i < fits_path.len() implies #[trigger] fits_path[i] == (base
            + ".fits"@)[i] by {
            if i >= base.len() {
                assert(fits_path.skip(fits_path.len() - 5)[i - base.len()] == fits_path[i]);
            }
        }
    }
    assert(fits_path =~= base + "."@ + "fits"@);
    assert(!"fits"@.contains('.') && !"fits"@.contains('/'));
    assert(path_splits(fits_path, base, "fits"@));
}

/// Two documents that agree on everything but their sections agree on every
/// other part, and what a document holds are its own sections.
pub proof fn other_parts_are_the_same(a: ExposureDocument, b: ExposureDocument)
    requires
        same_but_sections(a, b),
    ensures
        a.id == b.id,
        a.captured_at == b.captured_at,
        a.file_path == b.file_path,
        a.width == b.width,
        a.height == b.height,
        a.camera_id == b.camera_id,
        a.duration == b.duration,
        a.max_adu == b.max_adu,
        a.cooler_setpoint_c == b.cooler_setpoint_c,
        a.sensor_temperature_c == b.sensor_temperature_c,
        a.optics == b.optics,
        a.target == b.target,
        a.frame_type == b.frame_type,
        a.held() == sections_held(a.sections),
{
}

/// What stands under a name is handed back before it is written over, and
/// taking a section back puts just that there again, or nothing where
/// nothing stood; no other section is touched.
pub proof fn staging_hands_back_what_stood_there(
    held: Map<Seq<char>, serde_json::Value>,
    name: Seq<char>,
    prior: Option<serde_json::Value>,
    other: Seq<char>,
)
    ensures
        staged_over(held, name) is Some <==> held.contains_key(name),
        staged_over(held, name) matches Some(value) ==> value == held[name],
        prior is Some ==> rolled_back(held, name, prior).contains_key(name) && rolled_back(
            held,
            name,
            prior,
        )[name] == prior->0,
        prior is None ==> !rolled_back(held, name, prior).contains_key(name),
        other != name ==> (rolled_back(held, name, prior).contains_key(other)
            <==> held.contains_key(other)),
        other != name && held.contains_key(other) ==> rolled_back(held, name, prior)[other]
            == held[other],
{
}

/// A geometry can be used exactly when each of its numbers is finite and
/// more than zero, those that were read as well as those that were derived.
pub proof fn usable_geometries_are_positive(geometry: CameraGeometry, derived: DerivedGeometry)
    ensures
        geometry.usable() <==> {
            &&& geometry.focal_length_mm.finite() && geometry.focal_length_mm.scaled() > 0
            &&& geometry.pixel_size_x_um.finite() && geometry.pixel_size_x_um.scaled() > 0
            &&& geometry.pixel_size_y_um.finite() && geometry.pixel_size_y_um.scaled() > 0
            &&& geometry.sensor_width_px > 0
            &&& geometry.sensor_height_px > 0
        },
        derived.usable() <==> {
            &&& derived.pixel_scale_x_arcsec_per_pixel.finite()
                && derived.pixel_scale_x_arcsec_per_pixel.scaled() > 0
            &&& derived.pixel_scale_y_arcsec_per_pixel.finite()
                && derived.pixel_scale_y_arcsec_per_pixel.scaled() > 0
            &&& derived.fov_width_deg.finite() && derived.fov_width_deg.scaled() > 0
            &&& derived.fov_height_deg.finite() && derived.fov_height_deg.scaled() > 0
        },
{
    lemma_positive(geometry.focal_length_mm);
    lemma_positive(geometry.pixel_size_x_um);
    lemma_positive(geometry.pixel_size_y_um);
    lemma_positive(derived.pixel_scale_x_arcsec_per_pixel);
    lemma_positive(derived.pixel_scale_y_arcsec_per_pixel);
    lemma_positive(derived.fov_width_deg);
    lemma_positive(derived.fov_height_deg);
}

proof fn lemma_positive(v: Binary64)
    ensures
        positive(v) <==> v.finite() && v.scaled() > 0,
{
    assert(scaled_magnitude(0) == 0);
    if v.finite() {
        rank_orders_numbers(Binary64::zero(), v);
    }
}

/// A path is that of a FITS file exactly when it ends in `.fits` and its
/// file name has something before that; its sidecar, where every platform
/// reads the path the same way, has the same path with `.json` in place of
/// that ending.
pub proof fn sidecars_stand_beside_their_file(base: Seq<char>, path: Seq<char>, sidecar: Seq<char>)
    ensures
        is_fits_path(base + ".fits"@) <==> base.len() > 0 && base.last() != '/',
        is_fits_path(path) ==> path == path.take(path.len() - 5) + ".fits"@,
        fits_base(base + ".fits"@) == base,
        fits_sidecar(base + ".fits"@, sidecar) && plain_path(base + ".fits"@)
            && !begins_with_two_dots(last_part(base + ".fits"@)) ==> sidecar == base + ".json"@,
        plain_path(path) <==> !path.contains('\\') && !(path.len() >= 2 && path[0] == '/' && path[1]
            == '/') && !(path.len() >= 2 && path[1] == ':'),
{
    reveal_strlit(".fits");
    let whole = base + ".fits"@;
    assert(whole.skip(whole.len() - 5) =~= ".fits"@);
    assert(whole.take(whole.len() - 5) =~= base);
    if base.len() > 0 {
        assert(whole[whole.len() - 6] == base.last());
    }
    if is_fits_path(path) {
        assert(path =~= path.take(path.len() - 5) + path.skip(path.len() - 5));
    }
}

/// The file name of a path is what follows its last slash, and its directory
/// what stands before that slash.
pub proof fn names_follow_the_last_slash(dir: Seq<char>, name: Seq<char>)
    requires
        !name.contains('/'),
        name.len() > 0,
        name != "."@,
        name != ".."@,
    ensures
        last_part(name) == name,
        last_part(dir.push('/') + name) == name,
        file_name_of(dir.push('/') + name) == Some(name),
        dir.len() > 0 ==> directory_of(dir.push('/') + name) == dir,
{
    let path = dir.push('/') + name;
    let n = dir.len() as int;
    assert forall|i: int| 0 <= i < name.len() implies name[i] != '/' by {
        assert(name.contains(name[i]));
    }
    lemma_name_start_at(Seq::empty(), name);
    assert(Seq::<char>::empty() + name =~= name);
    assert(name.skip(0) =~= name);
    lemma_name_start_at(dir.push('/'), name);
    assert(path.skip(n + 1) =~= name);
    assert(path.take(n) =~= dir);
    assert(last_part(path) == name);
    assert(names_in(path).last() == name);
    assert(components_of(path).last() == name);
}

/// A name begins behind what ends in a slash, or at the start.
proof fn lemma_name_start_at(before: Seq<char>, name: Seq<char>)
    requires
        before.len() == 0 || before.last() == '/',
        forall|i: int| 0 <= i < name.len() ==> name[i] != '/',
    ensures
        name_start(before + name) == before.len(),
    decreases name.len(),
{
    let path = before + name;
    if name.len() == 0 {
        assert(path =~= before);
    } else {
        assert(path.last() == name.last());
        assert(path.drop_last() =~= before + name.drop_last());
        lemma_name_start_at(before, name.drop_last());
    }
}

/// A sidecar's path is that of its file with the extension swapped: what
/// follows the last dot of the file name gives way to `json`.
pub proof fn extensions_give_way_to_json(base: Seq<char>, ext: Seq<char>, to: Seq<char>)
    requires
        base.len() > 0,
        base.last() != '/',
        !ext.contains('.'),
        !ext.contains('/'),
        json_beside(base + "."@ + ext, to),
    ensures
        to == base + ".json"@,
{
    assert(path_splits(base + "."@ + ext, base, ext));
}

} // verus!
