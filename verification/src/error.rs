//! What can go wrong.
use vstd::prelude::*;

verus! {

/// An error of the service.
#[derive(Debug)]
pub enum RpError {
    /// An image or its document could not be handled.
    Imaging(String),
    /// The operating system refused something.
    Io(String),
}

impl RpError {
    /// The message that the error carries.
    pub open spec fn message(self) -> Seq<char> {
        match self {
            RpError::Imaging(text) => text@,
            RpError::Io(text) => text@,
        }
    }

    /// The message that the error carries.
    pub fn text(&self) -> (r: String)
        ensures
            r@ == self.message(),
    {
        match self {
            RpError::Imaging(text) => text.clone(),
            RpError::Io(text) => text.clone(),
        }
    }
}

/// An error carries its message as it is, whatever its kind.
pub proof fn errors_carry_their_message(text: String)
    ensures
        RpError::Imaging(text).message() == text@,
        RpError::Io(text).message() == text@,
{
}

} // verus!
