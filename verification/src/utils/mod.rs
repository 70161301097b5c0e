//! Shared helpers: texts as character sequences, pattern matching, and the
//! guarding of reserved spans.
pub mod patterns;
pub mod text;
pub mod wrappers;
