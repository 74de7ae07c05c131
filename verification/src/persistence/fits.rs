//! What reading and writing a FITS file comes to.
use crate::error::RpError;
use crate::persistence::disk::DocIdReading;
use crate::text::{concat2, concat4};
use vstd::prelude::*;

verus! {

/// The header keyword that holds a document's id.
pub const DOC_ID_KEY: &'static str = "DOC_ID";

/// The value of a header keyword, as far as the document id needs it.
pub enum KeywordValue {
    /// A character string.
    Str(String),
    /// Anything else.
    Other,
}

/// What a step on a file came to: a value, or the text of an error.
pub type Step<T> = Result<T, String>;

/// The error that a file could not be opened.
pub open spec fn open_failed(path: Seq<char>, e: Seq<char>) -> Seq<char> {
    "failed to open FITS file '"@ + path + "': "@ + e
}

/// The pixels of a FITS file with width and height, given what opening and
/// then parsing it came to.
pub fn read_fits_pixels(path: &str, opened: Step<Step<(Vec<i32>, usize, usize)>>) -> (r: Result<
    (Vec<i32>, usize, usize),
    RpError,
>)
    ensures
        match opened {
            Err(e) => r matches Err(RpError::Imaging(text)) && text@ == open_failed(path@, e@),
            Ok(Err(e)) => r matches Err(RpError::Imaging(text)) && text@
                == "failed to parse FITS file '"@ + path@ + "': "@ + e@,
            Ok(Ok(frame)) => r == Ok::<(Vec<i32>, usize, usize), RpError>(frame),
        },
{
    match opened {
        Err(e) => Err(
            RpError::Imaging(concat4("failed to open FITS file '", path, "': ", e.as_str())),
        ),
        Ok(Err(e)) => Err(
            RpError::Imaging(concat4("failed to parse FITS file '", path, "': ", e.as_str())),
        ),
        Ok(Ok(frame)) => Ok(frame),
    }
}

/// The document id in a FITS header, given what opening the file and then
/// looking for the keyword came to; `None` where the header has none.
pub fn read_fits_doc_id(path: &str, opened: Step<Step<Option<KeywordValue>>>) -> (r: Result<
    Option<String>,
    RpError,
>)
    ensures
        match opened {
            Err(e) => r matches Err(RpError::Imaging(text)) && text@ == open_failed(path@, e@),
            Ok(Err(e)) => r matches Err(RpError::Imaging(text)) && text@
                == "failed to read DOC_ID from '"@ + path@ + "': "@ + e@,
            Ok(Ok(None)) => r == Ok::<Option<String>, RpError>(None),
            Ok(Ok(Some(KeywordValue::Str(id)))) => r == Ok::<Option<String>, RpError>(Some(id)),
            Ok(Ok(Some(KeywordValue::Other))) => r matches Err(RpError::Imaging(text)) && text@
                == "DOC_ID header has non-string value"@,
        },
{
    match opened {
        Err(e) => Err(
            RpError::Imaging(concat4("failed to open FITS file '", path, "': ", e.as_str())),
        ),
        Ok(Err(e)) => Err(
            RpError::Imaging(concat4("failed to read DOC_ID from '", path, "': ", e.as_str())),
        ),
        Ok(Ok(None)) => Ok(None),
        Ok(Ok(Some(KeywordValue::Str(id)))) => Ok(Some(id)),
        Ok(Ok(Some(KeywordValue::Other))) => Err(
            RpError::Imaging("DOC_ID header has non-string value".to_owned()),
        ),
    }
}

/// What a document id's reading means to the search for a document: any
/// error counts as unreadable.
pub fn doc_id_reading(read: Result<Option<String>, RpError>) -> (r: DocIdReading)
    ensures
        r == match read {
            Ok(Some(id)) => DocIdReading::Present(id),
            Ok(None) => DocIdReading::Absent,
            Err(_) => DocIdReading::Unreadable,
        },
{
    match read {
        Ok(Some(id)) => DocIdReading::Present(id),
        Ok(None) => DocIdReading::Absent,
        Err(_) => DocIdReading::Unreadable,
    }
}

/// The error that a file could not be written.
pub fn translate_write_err(e: &str) -> (r: RpError)
    ensures
        r matches RpError::Imaging(text) && text@ == "failed to write FITS file: "@ + e@,
{
    RpError::Imaging(concat2("failed to write FITS file: ", e))
}

/// What writing a FITS file came to.
pub enum FitsWrite {
    /// The file is in place.
    Written,
    /// The document id cannot stand in a header.
    BadKeyword(String),
    /// The file could not be written.
    Refused(String),
    /// The task that wrote it did not come back.
    Lost(String),
}

/// The outcome of writing a FITS file.
pub fn fits_written(write: FitsWrite) -> (r: Result<(), RpError>)
    ensures
        match write {
            FitsWrite::Written => r is Ok,
            FitsWrite::BadKeyword(e) => r matches Err(RpError::Imaging(text)) && text@
                == "invalid DOC_ID keyword: "@ + e@,
            FitsWrite::Refused(e) => r matches Err(RpError::Imaging(text)) && text@
                == "failed to write FITS file: "@ + e@,
            FitsWrite::Lost(e) => r matches Err(RpError::Imaging(text)) && text@
                == "task join error: "@ + e@,
        },
{
    match write {
        FitsWrite::Written => Ok(()),
        FitsWrite::BadKeyword(e) => Err(
            RpError::Imaging(concat2("invalid DOC_ID keyword: ", e.as_str())),
        ),
        FitsWrite::Refused(e) => Err(translate_write_err(e.as_str())),
        FitsWrite::Lost(e) => Err(RpError::Imaging(concat2("task join error: ", e.as_str()))),
    }
}

/// The message that a file could not be opened names the file and says why.
pub proof fn open_errors_name_the_file(path: Seq<char>, e: Seq<char>)
    ensures
        open_failed(path, e) == "failed to open FITS file '"@ + path + "': "@ + e,
        DOC_ID_KEY@ == "DOC_ID"@,
{
}

} // verus!
