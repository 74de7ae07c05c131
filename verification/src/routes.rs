//! What the service answers.
pub mod events;
pub mod imagebytes;
pub mod replies;
