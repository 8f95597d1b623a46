//! Rendering of diagnostics as annotated source snippets.

pub mod border;
pub mod diagnostic;
pub mod files;
pub mod views;
