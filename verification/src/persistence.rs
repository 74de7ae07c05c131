//! Captured images and their documents.
pub mod cache;
pub mod disk;
pub mod document;
pub mod fits;
pub mod grid;
pub mod pixels;
