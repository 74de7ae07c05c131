//! Reading documents and images back from disk.
//!
//! A document's files carry the first eight characters of its id in their
//! names. That narrows the search; the id in the FITS header decides, and
//! the id in the sidecar where the header has none.
use crate::persistence::cache::CachedImage;
use crate::persistence::document::{
    fits_sidecar, is_fits_path, same_but_sections, ExposureDocument,
};
use crate::persistence::grid::shape_fits;
use crate::persistence::pixels::{clamped, CachedPixels};
use crate::text::{
    bytes_before, bytes_before_is_an_order, concat2, concat4, has_suffix, same_text, strip_suffix,
    text_before, texts_view,
};
use vstd::prelude::*;
use vstd::seq_lib::{to_multiset_build, to_multiset_insert};
use vstd::utf8::{encode_utf8, encode_utf8_decode_utf8, is_char_boundary};

verus! {

/// A file name is the short id with the extension `fits`, alone or behind
/// something that ends in an underscore.
pub open spec fn short_id_matches(name: Seq<char>, uuid8: Seq<char>) -> bool {
    ||| name == uuid8 + ".fits"@
    ||| has_suffix(name, "_"@ + uuid8 + ".fits"@)
}

/// Whether a file name belongs to a short id: `<uuid8>.fits`, or
/// `<base>_<uuid8>.fits`.
pub fn matches_uuid8_suffix(name: &str, uuid8: &str) -> (r: bool)
    ensures
        r == short_id_matches(name@, uuid8@),
{
    let needle = concat2(uuid8, ".fits");
    let tail = concat4("_", uuid8, ".fits", "");
    proof {
        reveal_strlit("");
        assert(tail@ =~= "_"@ + uuid8@ + ".fits"@);
    }
    name.to_owned() == needle || strip_suffix(name, tail.as_str()).is_some()
}

/// An id has a short form: its first eight bytes are whole characters.
pub open spec fn has_short_id(full_uuid: Seq<char>) -> bool {
    is_char_boundary(encode_utf8(full_uuid), 8)
}

/// The short form of an id: its first eight bytes.
pub open spec fn is_short_id(full_uuid: Seq<char>, uuid8: Seq<char>) -> bool {
    has_short_id(full_uuid) && encode_utf8(uuid8) == encode_utf8(full_uuid).subrange(0, 8)
}

/// The names among the first `n` that belong to a short id.
pub open spec fn matching_names(names: Seq<Seq<char>>, uuid8: Seq<char>, n: nat) -> Seq<Seq<char>>
    decreases n,
{
    if n == 0 {
        Seq::empty()
    } else if short_id_matches(names[n - 1], uuid8) {
        matching_names(names, uuid8, (n - 1) as nat).push(names[n - 1])
    } else {
        matching_names(names, uuid8, (n - 1) as nat)
    }
}

/// Names in the order of their bytes.
pub open spec fn in_byte_order(names: Seq<Seq<char>>) -> bool {
    forall|i: int, j: int|
        0 <= i < j < names.len() ==> !bytes_before(
            encode_utf8(#[trigger] names[j]),
            encode_utf8(#[trigger] names[i]),
        )
}

/// The short form of an id; `None` for an id that is too short.
pub fn short_id(full_uuid: &str) -> (r: Option<String>)
    ensures
        match r {
            Some(uuid8) => is_short_id(full_uuid@, uuid8@),
            None => !has_short_id(full_uuid@),
        },
{
    if full_uuid.is_char_boundary(8) {
        Some(full_uuid.split_at(8).0.to_owned())
    } else {
        None
    }
}

/// The names of a directory's files that may belong to a document, in the
/// order of their bytes.
pub fn find_candidates_by_suffix(names: &Vec<String>, full_uuid: &str) -> (r: Vec<String>)
    ensures
        !has_short_id(full_uuid@) ==> r@.len() == 0,
        in_byte_order(texts_view(r@)),
        forall|uuid8: Seq<char>| #[trigger]
            is_short_id(full_uuid@, uuid8) ==> texts_view(r@).to_multiset() == matching_names(
                texts_view(names@),
                uuid8,
                names@.len(),
            ).to_multiset(),
{
    let uuid8 = match short_id(full_uuid) {
        Some(prefix) => prefix,
        None => {
            return Vec::new();
        },
    };
    let mut r: Vec<String> = Vec::new();
    let mut i: usize = 0;
    assert(texts_view(r@) =~= Seq::empty());
    while i < names.len()
        invariant
            i <= names.len(),
            in_byte_order(texts_view(r@)),
            texts_view(r@).to_multiset() == matching_names(
                texts_view(names@),
                uuid8@,
                i as nat,
            ).to_multiset(),
        decreases names.len() - i,
    {
        let name = &names[i];
        let ghost so_far = matching_names(texts_view(names@), uuid8@, i as nat);
        if matches_uuid8_suffix(name.as_str(), uuid8.as_str()) {
            insert_in_order(&mut r, name.clone());
            proof {
                to_multiset_build(so_far, name@);
            }
        }
        i = i + 1;
    }
    proof {
        assert forall|other: Seq<char>| #[trigger] is_short_id(full_uuid@, other) implies other
            == uuid8@ by {
            encode_utf8_decode_utf8(other);
            encode_utf8_decode_utf8(uuid8@);
        }
    }
    r
}

/// Puts a name into its place among names in order.
fn insert_in_order(names: &mut Vec<String>, name: String)
    requires
        in_byte_order(texts_view(old(names)@)),
    ensures
        in_byte_order(texts_view(final(names)@)),
        texts_view(final(names)@).to_multiset() == texts_view(old(names)@).to_multiset().insert(
            name@,
        ),
{
    let ghost before = texts_view(names@);
    let mut p: usize = 0;
    while p < names.len() && !text_before(name.as_str(), names[p].as_str())
        invariant
            p <= names@.len(),
            forall|i: int|
                0 <= i < p ==> !bytes_before(encode_utf8(name@), encode_utf8(#[trigger] before[i])),
            before == texts_view(names@),
        decreases names@.len() - p,
    {
        p = p + 1;
    }
    let ghost key = encode_utf8(name@);
    let ghost added = name@;
    names.insert(p, name);
    proof {
        let after = texts_view(names@);
        assert(after =~= before.insert(p as int, added));
        to_multiset_insert(before, p as int, added);
        assert forall|i: int, j: int| 0 <= i < j < after.len() implies !bytes_before(
            encode_utf8(#[trigger] after[j]),
            encode_utf8(#[trigger] after[i]),
        ) by {
            if i < p && j == p {
                assert(after[i] == before[i]);
            } else if i == p {
                let first = encode_utf8(before[p as int]);
                let other = encode_utf8(before[j - 1]);
                assert(after[j] == before[j - 1]);
                bytes_before_is_an_order(key, first, other);
                bytes_before_is_an_order(key, other, other);
            } else {
                let a = if i < p {
                    i
                } else {
                    i - 1
                };
                let b = if j < p {
                    j
                } else {
                    j - 1
                };
                assert(after[i] == before[a] && after[j] == before[b]);
            }
        }
    }
}

/// What reading the document id out of a FITS header came to.
pub enum DocIdReading {
    /// The file could not be read.
    Unreadable,
    /// The header has no document id.
    Absent,
    /// The header's document id.
    Present(String),
}

/// A file that may belong to a document, and what was read of it.
pub struct CandidateReading {
    pub fits_path: String,
    pub doc_id: DocIdReading,
    /// The document in the sidecar beside the file; `None` where there is
    /// none that can be read.
    pub sidecar: Option<ExposureDocument>,
    /// The size of that document as JSON; `None` where it cannot be told.
    pub json_nbytes: Option<usize>,
    /// The pixels with width and height; `None` where they cannot be read.
    pub pixels: Option<(Vec<i32>, usize, usize)>,
}

impl CandidateReading {
    /// The file belongs to the document: its header says so, or its header
    /// says nothing and the sidecar does.
    pub open spec fn confirmed(self, full_uuid: Seq<char>) -> bool {
        is_fits_path(self.fits_path@) && match self.doc_id {
            DocIdReading::Present(id) => id@ == full_uuid,
            _ => self.sidecar matches Some(doc) && doc.id@ == full_uuid,
        }
    }

    /// The file belongs to the document and its sidecar can be read.
    pub open spec fn documents(self, full_uuid: Seq<char>) -> bool {
        self.confirmed(full_uuid) && self.sidecar is Some
    }

    /// The file's frame can be handed on: it was read, and its dimensions
    /// fit the header of the image format.
    pub open spec fn has_frame(self) -> bool {
        self.pixels matches Some((_, width, height)) && width <= u32::MAX && height <= u32::MAX
    }
}

/// Whether a file belongs to a document. The id in the FITS header decides;
/// a file with another id is passed over whatever its sidecar says. Without
/// an id in the header the sidecar's decides.
pub fn confirm_candidate(candidate: &CandidateReading, full_uuid: &str) -> (r: Option<String>)
    ensures
        r is Some <==> candidate.confirmed(full_uuid@),
        r matches Some(path) ==> fits_sidecar(candidate.fits_path@, path@),
{
    let belongs: bool = match &candidate.doc_id {
        DocIdReading::Present(id) => same_text(id.as_str(), full_uuid),
        _ => match &candidate.sidecar {
            Some(doc) => same_text(doc.id.as_str(), full_uuid),
            None => false,
        },
    };
    if belongs {
        ExposureDocument::sidecar_path_for(candidate.fits_path.as_str())
    } else {
        None
    }
}

/// The first candidate at `from` or after it that documents an id.
pub open spec fn first_document(
    candidates: Seq<CandidateReading>,
    full_uuid: Seq<char>,
    from: int,
) -> Option<int>
    decreases candidates.len() - from,
{
    if from < 0 || from >= candidates.len() {
        None
    } else if candidates[from].documents(full_uuid) {
        Some(from)
    } else {
        first_document(candidates, full_uuid, from + 1)
    }
}

/// The document that was read back for an id: that of the first file that
/// belongs to it and has a readable sidecar.
pub fn disk_resolve_document(candidates: Vec<CandidateReading>, full_uuid: &str) -> (r: Option<
    ExposureDocument,
>)
    ensures
        match first_document(candidates@, full_uuid@, 0) {
            Some(i) => r == candidates@[i].sidecar,
            None => r is None,
        },
{
    let ghost all = candidates@;
    let ghost mut n: int = 0;
    let mut rest = candidates;
    assert(all.skip(0) =~= all);
    while rest.len() > 0
        invariant
            all == candidates@,
            0 <= n <= all.len(),
            rest@ == all.skip(n),
            first_document(all, full_uuid@, 0) == first_document(all, full_uuid@, n),
        decreases rest.len(),
    {
        let candidate = rest.remove(0);
        assert(candidate == all[n]);
        if confirm_candidate(&candidate, full_uuid).is_some() && candidate.sidecar.is_some() {
            return candidate.sidecar;
        }
        proof {
            n = n + 1;
            assert(rest@ =~= all.skip(n));
        }
    }
    None
}

/// What reading an image back came to.
enum Verdict {
    /// The file is passed over.
    Skip,
    /// There is no image to be had: the pixel type is unknown, or the pixels
    /// do not fill the frame.
    Decline,
    /// The image.
    Found(CachedImage),
}

impl CandidateReading {
    /// The file settles the search, one way or the other.
    pub open spec fn settles(self, full_uuid: Seq<char>) -> bool {
        self.documents(full_uuid) && (self.sidecar->0.max_adu is None || self.has_frame())
    }

    /// The image that the file holds.
    pub open spec fn holds(self, image: CachedImage) -> bool {
        let doc = self.sidecar->0;
        let max_adu = doc.max_adu->0;
        let (pixels, width, height) = self.pixels->0;
        &&& image.width == width
        &&& image.height == height
        &&& image.fits_path == self.fits_path
        &&& image.max_adu == max_adu
        &&& image.document == doc
        &&& image.json_nbytes == match self.json_nbytes {
            Some(n) => n,
            None => 0,
        }
        &&& image.pixels.extents() == (width, height)
        &&& image.pixels is U16 <==> max_adu <= u16::MAX
        &&& image.pixels.values() == if max_adu <= u16::MAX {
            pixels@.map_values(|p: i32| clamped(p, max_adu))
        } else {
            pixels@.map_values(|p: i32| p as int)
        }
    }

    /// The file has an image: its pixel type is known, it has a frame, and
    /// its pixels fill it.
    pub open spec fn has_image(self) -> bool {
        self.sidecar->0.max_adu is Some && self.has_frame() && {
            let (pixels, width, height) = self.pixels->0;
            shape_fits((width, height), pixels@.len())
        }
    }
}

/// Judges one file.
fn judge(candidate: CandidateReading, full_uuid: &str) -> (r: Verdict)
    ensures
        r is Skip <==> !candidate.settles(full_uuid@),
        r is Found <==> candidate.settles(full_uuid@) && candidate.has_image(),
        r matches Verdict::Found(image) ==> candidate.holds(image),
{
    if confirm_candidate(&candidate, full_uuid).is_none() {
        return Verdict::Skip;
    }
    match candidate.sidecar {
        None => Verdict::Skip,
        Some(doc) => match doc.max_adu {
            None => Verdict::Decline,
            Some(max_adu) => match candidate.pixels {
                None => Verdict::Skip,
                Some((pixels, width, height)) => {
                    if width as u128 > u32::MAX as u128 || height as u128 > u32::MAX as u128 {
                        return Verdict::Skip;
                    }
                    match CachedPixels::from_i32_pixels(pixels, (width, height), max_adu) {
                        None => Verdict::Decline,
                        Some(cached) => Verdict::Found(
                            CachedImage::new(
                                cached,
                                width as u32,
                                height as u32,
                                candidate.fits_path,
                                max_adu,
                                doc,
                                candidate.json_nbytes,
                            ),
                        ),
                    }
                },
            },
        },
    }
}

/// The first candidate at `from` or after it that settles the search.
pub open spec fn first_settling(
    candidates: Seq<CandidateReading>,
    full_uuid: Seq<char>,
    from: int,
) -> Option<int>
    decreases candidates.len() - from,
{
    if from < 0 || from >= candidates.len() {
        None
    } else if candidates[from].settles(full_uuid) {
        Some(from)
    } else {
        first_settling(candidates, full_uuid, from + 1)
    }
}

/// The image that was read back for an id: that of the first file that
/// settles the search, where it has one.
pub fn disk_resolve_to_cached_image(
    candidates: Vec<CandidateReading>,
    full_uuid: &str,
) -> (r: Option<CachedImage>)
    ensures
        match first_settling(candidates@, full_uuid@, 0) {
            Some(i) => {
                &&& r is Some <==> candidates@[i].has_image()
                &&& r matches Some(image) ==> candidates@[i].holds(image)
            },
            None => r is None,
        },
{
    let ghost all = candidates@;
    let ghost mut n: int = 0;
    let mut rest = candidates;
    assert(all.skip(0) =~= all);
    while rest.len() > 0
        invariant
            all == candidates@,
            0 <= n <= all.len(),
            rest@ == all.skip(n),
            first_settling(all, full_uuid@, 0) == first_settling(all, full_uuid@, n),
        decreases rest.len(),
    {
        let candidate = rest.remove(0);
        assert(candidate == all[n]);
        match judge(candidate, full_uuid) {
            Verdict::Found(image) => {
                return Some(image);
            },
            Verdict::Decline => {
                return None;
            },
            Verdict::Skip => {},
        }
        proof {
            n = n + 1;
            assert(rest@ =~= all.skip(n));
        }
    }
    None
}

/// Whether a file's pixels have to be read: it belongs to the document, and
/// the pixel type is known.
pub fn wants_pixels(candidate: &CandidateReading, full_uuid: &str) -> (r: bool)
    ensures
        r == (candidate.documents(full_uuid@) && candidate.sidecar->0.max_adu is Some),
{
    if confirm_candidate(candidate, full_uuid).is_none() {
        return false;
    }
    match &candidate.sidecar {
        Some(doc) => doc.max_adu.is_some(),
        None => false,
    }
}

/// A file whose header names another document is never taken for this one,
/// whatever its name and its sidecar say; and whatever is read back for an
/// id comes from a file whose header, or else whose sidecar, has that id.
pub proof fn ghosts_are_passed_over(
    candidates: Seq<CandidateReading>,
    full_uuid: Seq<char>,
    from: int,
)
    requires
        0 <= from,
    ensures
        match first_document(candidates, full_uuid, from) {
            Some(i) => from <= i < candidates.len() && belongs_to(candidates[i], full_uuid),
            None => true,
        },
        match first_settling(candidates, full_uuid, from) {
            Some(i) => from <= i < candidates.len() && belongs_to(candidates[i], full_uuid),
            None => true,
        },
    decreases candidates.len() - from,
{
    if from < candidates.len() {
        ghosts_are_passed_over(candidates, full_uuid, from + 1);
    }
}

/// The id in a file's header is the given one, or it has none and the one in
/// its sidecar is.
pub open spec fn belongs_to(candidate: CandidateReading, full_uuid: Seq<char>) -> bool {
    match candidate.doc_id {
        DocIdReading::Present(id) => id@ == full_uuid,
        _ => candidate.sidecar is Some && candidate.sidecar->0.id@ == full_uuid,
    }
}

/// A document that was read back, given a section and written to the sidecar
/// that it came from is the one that the next search finds, with that
/// section beside all the others; and nothing else is found in its place.
pub proof fn written_back_document_is_found(
    candidates: Seq<CandidateReading>,
    full_uuid: Seq<char>,
    from: int,
    name: Seq<char>,
    value: serde_json::Value,
    out: ExposureDocument,
    rewritten: CandidateReading,
)
    requires
        0 <= from,
        first_document(candidates, full_uuid, from) matches Some(i) && {
            let was = candidates[i];
            &&& same_but_sections(out, was.sidecar->0)
            &&& out.held() == was.sidecar->0.held().insert(name, value)
            &&& rewritten.fits_path == was.fits_path
            &&& rewritten.doc_id == was.doc_id
            &&& rewritten.sidecar == Some(out)
        },
    ensures
        ({
            let i = first_document(candidates, full_uuid, from)->0;
            let after = candidates.update(i, rewritten);
            &&& first_document(after, full_uuid, from) == Some(i)
            &&& after[i].sidecar == Some(out)
            &&& same_but_sections(after[i].sidecar->0, candidates[i].sidecar->0)
            &&& after[i].sidecar->0.held() == candidates[i].sidecar->0.held().insert(name, value)
        }),
    decreases candidates.len() - from,
{
    let i = first_document(candidates, full_uuid, from)->0;
    if !candidates[from].documents(full_uuid) {
        ghosts_are_passed_over(candidates, full_uuid, from + 1);
        written_back_document_is_found(
            candidates,
            full_uuid,
            from + 1,
            name,
            value,
            out,
            rewritten,
        );
        assert(candidates.update(i, rewritten)[from] == candidates[from]);
    }
}

/// A document whose pixel type is unknown can still be read back, though no
/// image of it can.
pub proof fn unknown_pixel_type_keeps_the_document(
    candidates: Seq<CandidateReading>,
    full_uuid: Seq<char>,
    from: int,
)
    requires
        0 <= from,
        first_document(candidates, full_uuid, from) is Some,
        candidates[first_document(candidates, full_uuid, from)->0].sidecar->0.max_adu is None,
    ensures
        first_settling(candidates, full_uuid, from) == first_document(candidates, full_uuid, from),
        !candidates[first_settling(candidates, full_uuid, from)->0].has_image(),
    decreases candidates.len() - from,
{
    if from < candidates.len() && !candidates[from].documents(full_uuid) {
        unknown_pixel_type_keeps_the_document(candidates, full_uuid, from + 1);
    }
}

/// An image that is read back from a file has the width and the height that
/// the file was read with, and so has its pixel buffer; its document, its
/// greatest sample and its path are those of that file.
pub proof fn read_back_images_keep_their_shape(candidate: CandidateReading, image: CachedImage)
    requires
        candidate.sidecar is Some,
        candidate.sidecar->0.max_adu is Some,
        candidate.pixels is Some,
        candidate.holds(image),
    ensures
        ({
            let (_, width, height) = candidate.pixels->0;
            image.width == width && image.height == height
        }),
        image.pixels.extents() == (image.width as usize, image.height as usize),
        image.fits_path@ == candidate.fits_path@,
        image.document == candidate.sidecar->0,
        image.document.max_adu == Some(image.max_adu),
        candidate.json_nbytes is Some ==> image.json_nbytes == candidate.json_nbytes->0,
        candidate.json_nbytes is None ==> image.json_nbytes == 0,
{
}

/// An image that is read back has the samples of its file, in their order:
/// in 32-bit storage as they are; in 16-bit storage, which is for cameras
/// whose greatest sample fits it, each that is between zero and that
/// greatest sample as it is, and any other at the end it is beyond.
pub proof fn read_back_images_keep_their_samples(
    candidate: CandidateReading,
    image: CachedImage,
    i: int,
)
    requires
        candidate.sidecar is Some,
        candidate.sidecar->0.max_adu is Some,
        candidate.pixels is Some,
        candidate.holds(image),
        ({
            let (samples, _, _) = candidate.pixels->0;
            0 <= i < samples@.len()
        }),
    ensures
        ({
            let max_adu = candidate.sidecar->0.max_adu->0;
            let (samples, _, _) = candidate.pixels->0;
            let read = samples@[i];
            let kept = image.pixels.values()[i];
            &&& image.pixels.values().len() == samples@.len()
            &&& image.pixels is U16 <==> max_adu <= 65535
            &&& max_adu > 65535 || 0 <= read <= max_adu ==> kept == read
            &&& max_adu <= 65535 && read < 0 ==> kept == 0
            &&& max_adu <= 65535 && read > max_adu ==> kept == max_adu
        }),
{
}

/// A file belongs to a document exactly when it is a FITS file and its
/// header has the document's id, or its header has none that could be read
/// and its sidecar has that id. It gives the document where its sidecar can
/// be read too, and it settles the search for the image where, besides, the
/// pixel type is unknown or the frame was read with dimensions of at most 32
/// bits each. There is an image to be had from it where the pixel type is
/// known and the samples fill the frame.
pub proof fn files_belong_by_their_id(candidate: CandidateReading, full_uuid: Seq<char>)
    ensures
        candidate.confirmed(full_uuid) <==> is_fits_path(candidate.fits_path@) && {
            ||| candidate.doc_id is Present && candidate.doc_id->Present_0@ == full_uuid
            ||| !(candidate.doc_id is Present) && candidate.sidecar is Some
                && candidate.sidecar->0.id@ == full_uuid
        },
        candidate.documents(full_uuid) <==> candidate.confirmed(full_uuid)
            && candidate.sidecar is Some,
        ({
            let (samples, width, height) = candidate.pixels->0;
            let known = candidate.sidecar->0.max_adu is Some;
            &&& candidate.settles(full_uuid) <==> candidate.documents(full_uuid) && (!known || (
            candidate.pixels is Some && width <= 0xffff_ffff && height <= 0xffff_ffff))
            &&& candidate.settles(full_uuid) ==> (candidate.has_image() <==> known && shape_fits(
                (width, height),
                samples@.len(),
            ))
        }),
{
}

/// Of several files the first counts: the document comes from the first
/// that gives it, and the image from the first that settles the search;
/// there is none only where no file does.
pub proof fn the_first_file_counts(
    candidates: Seq<CandidateReading>,
    full_uuid: Seq<char>,
    from: int,
)
    requires
        0 <= from,
    ensures
        first_document(candidates, full_uuid, from) matches Some(i) ==> from <= i
            < candidates.len() && candidates[i].documents(full_uuid) && forall|k: int|
            from <= k < i ==> !(#[trigger] candidates[k]).documents(full_uuid),
        first_document(candidates, full_uuid, from) is None ==> forall|k: int|
            from <= k < candidates.len() ==> !(#[trigger] candidates[k]).documents(full_uuid),
        first_settling(candidates, full_uuid, from) matches Some(i) ==> from <= i
            < candidates.len() && candidates[i].settles(full_uuid) && forall|k: int|
            from <= k < i ==> !(#[trigger] candidates[k]).settles(full_uuid),
        first_settling(candidates, full_uuid, from) is None ==> forall|k: int|
            from <= k < candidates.len() ==> !(#[trigger] candidates[k]).settles(full_uuid),
    decreases candidates.len() - from,
{
    if from < candidates.len() {
        the_first_file_counts(candidates, full_uuid, from + 1);
    }
}

/// A name belongs to a short id exactly when it is that id with the
/// extension `fits`, alone or behind an underscore.
pub proof fn short_ids_stand_before_the_extension(name: Seq<char>, uuid8: Seq<char>)
    ensures
        short_id_matches(name, uuid8) <==> name == uuid8 + ".fits"@ || exists|base: Seq<char>|
            name == #[trigger] (base + "_"@) + uuid8 + ".fits"@,
{
    let tail = "_"@ + uuid8 + ".fits"@;
    if has_suffix(name, tail) {
        let base = name.take(name.len() - tail.len());
        assert(name =~= base + name.skip(name.len() - tail.len()));
        assert(name =~= (base + "_"@) + uuid8 + ".fits"@);
    }
    if exists|base: Seq<char>| name == #[trigger] (base + "_"@) + uuid8 + ".fits"@ {
        let base = choose|base: Seq<char>| name == #[trigger] (base + "_"@) + uuid8 + ".fits"@;
        assert(name =~= base + tail);
        assert(name.skip(name.len() - tail.len()) =~= tail);
    }
}

/// The candidates for a short id are the names that belong to it, each as
/// often as it occurs.
pub proof fn candidates_are_the_matching_names(
    names: Seq<Seq<char>>,
    uuid8: Seq<char>,
    n: nat,
)
    requires
        n <= names.len(),
    ensures
        matching_names(names, uuid8, n) == names.take(n as int).filter(
            |name: Seq<char>| short_id_matches(name, uuid8),
        ),
    decreases n,
{
    reveal(Seq::filter);
    let belongs = |name: Seq<char>| short_id_matches(name, uuid8);
    if n > 0 {
        candidates_are_the_matching_names(names, uuid8, (n - 1) as nat);
        assert(names.take(n as int).drop_last() =~= names.take(n - 1));
        assert(names.take(n as int).last() == names[n - 1]);
    } else {
        assert(matching_names(names, uuid8, n) =~= names.take(0).filter(belongs));
    }
}

/// Of two names in order the later one does not come before the earlier one
/// by its bytes, and the short form of an id is its first eight bytes.
pub proof fn candidates_are_in_order(
    names: Seq<Seq<char>>,
    i: int,
    j: int,
    full_uuid: Seq<char>,
    uuid8: Seq<char>,
)
    ensures
        in_byte_order(names) && 0 <= i < j < names.len() ==> !bytes_before(
            encode_utf8(names[j]),
            encode_utf8(names[i]),
        ),
        is_short_id(full_uuid, uuid8) ==> has_short_id(full_uuid) && encode_utf8(uuid8)
            == encode_utf8(full_uuid).take(8),
        has_short_id(full_uuid) <==> is_char_boundary(encode_utf8(full_uuid), 8),
{
}

} // verus!
