//! What the two output formats show of a diff.
pub mod console;
pub mod json;
