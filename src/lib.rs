//! A registry of open windows grouped by application class, kept up to date
//! as windows open, close and change title, and rendered as JSON text.
pub mod decode;
pub mod json;
pub mod laws;
pub mod registry;
