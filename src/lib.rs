//! Commit-message generation: a verified text formatter that reflows a
//! message into paragraphs of lines no wider than 72 characters, and the pure
//! steps around it (prompt assembly, choice selection, file-content merging).
//!
//! - `text`: whitespace, trimming and character conversion.
//! - `wrap`: the formatter and the model it is proved against.
//! - `message`: prompt, completion response and commit-file content.
//! - `laws`: properties of the formatter, proved over the model.

pub mod text;
pub mod wrap;
pub mod message;
pub mod laws;
