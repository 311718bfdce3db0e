//! Character-level edit scripts, their classification, and annotations that
//! follow a text across edits.
pub mod script;
pub mod annotation;
pub mod palette;
pub mod classify;
pub mod stats;
