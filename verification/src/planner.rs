//! What to observe next, and how far each target has come.
pub mod catalog;
pub mod convenience;
pub mod decision;
pub mod primitives;
pub mod progress;
pub mod progress_scan;
pub mod targets;
