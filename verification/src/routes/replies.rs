//! What each route answers, given what it found.
use crate::persistence::cache::CachedImage;
use crate::persistence::document::ExposureDocument;
use crate::persistence::pixels::CachedPixels;
use crate::routes::imagebytes::{image_body, image_body_of};
use crate::text::{concat2, has_prefix, same_text, starts_with};
use vstd::prelude::*;

verus! {

pub const OK: u16 = 200;

pub const BAD_REQUEST: u16 = 400;

pub const NOT_FOUND: u16 = 404;

pub const CONFLICT: u16 = 409;

pub const INTERNAL_SERVER_ERROR: u16 = 500;

pub const SERVICE_UNAVAILABLE: u16 = 503;

/// An answer: a status with a body, or with a message about an error.
pub struct Reply<T> {
    pub status: u16,
    pub body: Result<T, String>,
}

/// An answer with a body.
pub open spec fn is_ok<T>(r: Reply<T>, body: T) -> bool {
    r.status == OK && r.body == Ok::<T, String>(body)
}

/// An answer with a status and a message.
pub open spec fn is_error<T>(r: Reply<T>, status: u16, message: Seq<char>) -> bool {
    r.body matches Err(text) && text@ == message && r.status == status
}

/// The `Host` names that the tool server accepts: its own defaults and then
/// the names that the service is advertised under. The defaults are never
/// dropped; with no names at all the server would accept any.
pub fn allowed_hosts(defaults: Vec<String>, extra: Vec<String>) -> (r: Vec<String>)
    ensures
        r@ == defaults@ + extra@,
{
    let mut hosts = defaults;
    let mut more = extra;
    hosts.append(&mut more);
    hosts
}

/// Adding names never drops a default and never leaves the list empty.
pub proof fn defaults_stay_allowed(defaults: Seq<String>, extra: Seq<String>, i: int)
    requires
        0 <= i < defaults.len(),
    ensures
        (defaults + extra)[i] == defaults[i],
        (defaults + extra).len() > 0,
{
}

/// A path of the tool server.
pub open spec fn is_tool_path(path: Seq<char>) -> bool {
    path == "/mcp"@ || has_prefix(path, "/mcp/"@)
}

/// A request to a path is turned away: it is one to the tool server, and the
/// conditions are unsafe.
pub open spec fn turned_away(path: Seq<char>, safety_ok: bool) -> bool {
    is_tool_path(path) && !safety_ok
}

/// Whether a request may pass: `None` lets it through, and while the
/// conditions are unsafe every request to the tool server is turned away.
/// All other paths stay open.
pub fn safety_gate(path: &str, safety_ok: bool) -> (r: Option<Reply<()>>)
    ensures
        r is Some == turned_away(path@, safety_ok),
        r matches Some(reply) ==> is_error(
            reply,
            SERVICE_UNAVAILABLE,
            "safety: conditions are unsafe; the workflow was cancelled"@,
        ),
{
    if safety_ok || !(same_text(path, "/mcp") || starts_with(path, "/mcp/")) {
        None
    } else {
        Some(
            Reply {
                status: SERVICE_UNAVAILABLE,
                body: Err("safety: conditions are unsafe; the workflow was cancelled".to_owned()),
            },
        )
    }
}

/// A path outside the tool server is answered the same whether or not the
/// conditions are safe, and the tool server is closed exactly while they are
/// not.
pub proof fn only_the_tool_server_closes(path: Seq<char>, safety_ok: bool)
    ensures
        !is_tool_path(path) ==> turned_away(path, safety_ok) == turned_away(path, !safety_ok),
        !is_tool_path(path) ==> !turned_away(path, safety_ok),
        is_tool_path(path) ==> turned_away(path, safety_ok) == !safety_ok,
{
}

/// Why a submitted configuration was not applied.
pub enum ApplyFailure {
    /// It is no JSON.
    Parse(String),
    /// It could not be read or stored.
    Internal(String),
}

/// The answer to a submitted configuration. One that is well formed but not
/// valid is answered in the body.
pub fn put_config<T>(applied: Result<T, ApplyFailure>) -> (r: Reply<T>)
    ensures
        match applied {
            Ok(body) => is_ok(r, body),
            Err(ApplyFailure::Parse(e)) => is_error(r, BAD_REQUEST, e@),
            Err(ApplyFailure::Internal(e)) => is_error(r, INTERNAL_SERVER_ERROR, e@),
        },
{
    match applied {
        Ok(body) => Reply { status: OK, body: Ok(body) },
        Err(ApplyFailure::Parse(e)) => Reply { status: BAD_REQUEST, body: Err(e) },
        Err(ApplyFailure::Internal(e)) => Reply { status: INTERNAL_SERVER_ERROR, body: Err(e) },
    }
}

/// The answer to a request for the configuration.
pub fn get_config<T>(config: Result<T, String>) -> (r: Reply<T>)
    ensures
        match config {
            Ok(body) => is_ok(r, body),
            Err(e) => is_error(
                r,
                INTERNAL_SERVER_ERROR,
                "failed to serialize config: "@ + e@,
            ),
        },
{
    match config {
        Ok(body) => Reply { status: OK, body: Ok(body) },
        Err(e) => Reply {
            status: INTERNAL_SERVER_ERROR,
            body: Err(concat2("failed to serialize config: ", e.as_str())),
        },
    }
}

/// The answer to the start of a session.
pub fn session_start<T>(started: Result<T, String>) -> (r: Reply<T>)
    ensures
        match started {
            Ok(body) => is_ok(r, body),
            Err(e) => is_error(r, CONFLICT, e@),
        },
{
    match started {
        Ok(body) => Reply { status: OK, body: Ok(body) },
        Err(e) => Reply { status: CONFLICT, body: Err(e) },
    }
}

/// The answer to the end of a session.
pub fn session_stop(stopped: Result<(), String>) -> (r: Reply<String>)
    ensures
        match stopped {
            Ok(_) => r.body matches Ok(text) && text@ == "stopped"@ && r.status == OK,
            Err(e) => is_error(r, INTERNAL_SERVER_ERROR, e@),
        },
{
    match stopped {
        Ok(_) => Reply { status: OK, body: Ok("stopped".to_owned()) },
        Err(e) => Reply { status: INTERNAL_SERVER_ERROR, body: Err(e) },
    }
}

/// The message that a document does not exist.
pub open spec fn not_found_message(document_id: Seq<char>) -> Seq<char> {
    "document not found: "@ + document_id
}

fn not_found<T>(document_id: &str) -> (r: Reply<T>)
    ensures
        is_error(r, NOT_FOUND, not_found_message(document_id@)),
{
    Reply { status: NOT_FOUND, body: Err(concat2("document not found: ", document_id)) }
}

/// The answer to a request for a document, given the document as JSON if it
/// exists.
pub fn get_document<T>(document_id: &str, found: Option<Result<T, String>>) -> (r: Reply<T>)
    ensures
        match found {
            None => is_error(r, NOT_FOUND, not_found_message(document_id@)),
            Some(Ok(body)) => is_ok(r, body),
            Some(Err(e)) => is_error(r, INTERNAL_SERVER_ERROR, e@),
        },
{
    match found {
        None => not_found(document_id),
        Some(Ok(body)) => Reply { status: OK, body: Ok(body) },
        Some(Err(e)) => Reply { status: INTERNAL_SERVER_ERROR, body: Err(e) },
    }
}

/// What is told of an image.
pub struct ImageMetadata {
    pub document_id: String,
    pub width: u32,
    pub height: u32,
    /// The bits of a stored sample; absent where the pixels are not to be
    /// had.
    pub bitpix: Option<u32>,
    pub fits_path: String,
    pub in_cache: bool,
    pub document_url: String,
}

/// The metadata of a document, given the bits of its samples where the cache
/// holds it.
pub open spec fn metadata_of(
    document_id: Seq<char>,
    doc: ExposureDocument,
    bitpix: Option<u32>,
    r: ImageMetadata,
) -> bool {
    &&& r.document_id@ == document_id
    &&& r.width == doc.width
    &&& r.height == doc.height
    &&& r.bitpix == bitpix
    &&& r.fits_path@ == doc.file_path@
    &&& r.in_cache == (bitpix is Some)
    &&& r.document_url@ == "/api/documents/"@ + document_id
}

fn metadata(document_id: &str, doc: &ExposureDocument, bitpix: Option<u32>) -> (r: ImageMetadata)
    ensures
        metadata_of(document_id@, *doc, bitpix, r),
{
    ImageMetadata {
        document_id: document_id.to_owned(),
        width: doc.width,
        height: doc.height,
        bitpix,
        fits_path: doc.file_path.clone(),
        in_cache: bitpix.is_some(),
        document_url: concat2("/api/documents/", document_id),
    }
}

/// The bits of a stored sample.
pub open spec fn bitpix_of(pixels: CachedPixels) -> u32 {
    match pixels {
        CachedPixels::U16(_) => 16,
        CachedPixels::I32(_) => 32,
    }
}

/// The answer to a request for an image's metadata: from the cache, or else
/// from the document on disk, whose pixels the cache cannot hold.
pub fn get_image_metadata(
    document_id: &str,
    cached: Option<&CachedImage>,
    on_disk: Option<&ExposureDocument>,
) -> (r: Reply<ImageMetadata>)
    ensures
        match (cached, on_disk) {
            (Some(image), _) => r.status == OK && r.body is Ok && metadata_of(
                document_id@,
                image.document,
                Some(bitpix_of(image.pixels)),
                r.body->Ok_0,
            ),
            (None, Some(doc)) => r.status == OK && r.body is Ok && metadata_of(
                document_id@,
                *doc,
                None,
                r.body->Ok_0,
            ),
            (None, None) => is_error(r, NOT_FOUND, not_found_message(document_id@)),
        },
{
    match (cached, on_disk) {
        (Some(image), _) => {
            let bitpix: u32 = match &image.pixels {
                CachedPixels::U16(_) => 16,
                CachedPixels::I32(_) => 32,
            };
            Reply { status: OK, body: Ok(metadata(document_id, &image.document, Some(bitpix))) }
        },
        (None, Some(doc)) => Reply { status: OK, body: Ok(metadata(document_id, doc, None)) },
        (None, None) => not_found(document_id),
    }
}

/// An image as it is sent.
#[derive(Debug)]
pub struct ImagePayload {
    pub content_type: &'static str,
    pub bytes: Vec<u8>,
}

/// The answer to a request for an image's pixels.
pub fn get_image_pixels(document_id: &str, cached: Option<&CachedImage>) -> (r: Reply<
    ImagePayload,
>)
    ensures
        match cached {
            Some(image) => r.status == OK && r.body is Ok && r.body->Ok_0.bytes@ == image_body_of(
                *image,
            ) && r.body->Ok_0.content_type@ == "application/imagebytes"@,
            None => is_error(r, NOT_FOUND, not_found_message(document_id@)),
        },
{
    match cached {
        Some(image) => Reply {
            status: OK,
            body: Ok(
                ImagePayload { content_type: "application/imagebytes", bytes: image_body(image) },
            ),
        },
        None => not_found(document_id),
    }
}

/// The tool server is what lies at `/mcp` and below it, and only it is
/// closed, while the conditions are unsafe.
pub proof fn tool_server_lies_below_its_path(path: Seq<char>, rest: Seq<char>)
    ensures
        turned_away("/mcp"@, false),
        turned_away("/mcp/"@ + rest, false),
        turned_away(path, false) <==> path == "/mcp"@ || "/mcp/"@.is_prefix_of(path),
        !turned_away(path, true),
{
    let below = "/mcp/"@ + rest;
    assert(below.take("/mcp/"@.len() as int) =~= "/mcp/"@);
    if "/mcp/"@.len() <= path.len() {
        assert(path.take("/mcp/"@.len() as int) == path.subrange(0, "/mcp/"@.len() as int));
    }
}

/// An answer with a body has the status 200, and one with a message has the
/// status that goes with its kind.
pub proof fn answers_have_their_status<T>(r: Reply<T>, body: T, message: Seq<char>)
    ensures
        is_ok(r, body) <==> r.status == 200 && r.body is Ok && r.body->Ok_0 == body,
        is_error(r, BAD_REQUEST, message) <==> r.status == 400 && r.body is Err
            && r.body->Err_0@ == message,
        is_error(r, NOT_FOUND, message) <==> r.status == 404 && r.body is Err && r.body->Err_0@
            == message,
        is_error(r, CONFLICT, message) <==> r.status == 409 && r.body is Err && r.body->Err_0@
            == message,
        is_error(r, INTERNAL_SERVER_ERROR, message) <==> r.status == 500 && r.body is Err
            && r.body->Err_0@ == message,
        is_error(r, SERVICE_UNAVAILABLE, message) <==> r.status == 503 && r.body is Err
            && r.body->Err_0@ == message,
        not_found_message(message) == "document not found: "@ + message,
{
}

/// What is told of an image is what its document says: the width as the
/// width and the height as the height, the path of its file, where to find
/// the document, and that it is in the cache exactly when the bits of its
/// samples are told, sixteen or thirty-two as they are stored.
pub proof fn metadata_tells_the_document(
    document_id: Seq<char>,
    doc: ExposureDocument,
    bitpix: Option<u32>,
    r: ImageMetadata,
    pixels: CachedPixels,
)
    requires
        metadata_of(document_id, doc, bitpix, r),
    ensures
        r.document_id@ == document_id,
        r.width == doc.width,
        r.height == doc.height,
        r.bitpix == bitpix,
        r.fits_path@ == doc.file_path@,
        r.in_cache <==> bitpix is Some,
        r.document_url@ == "/api/documents/"@ + document_id,
        pixels is U16 ==> bitpix_of(pixels) == 16,
        pixels is I32 ==> bitpix_of(pixels) == 32,
{
}

} // verus!
