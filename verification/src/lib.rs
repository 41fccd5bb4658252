//! Symbol resolution for Helm-style chart templates: given a cursor in a
//! document, where was the variable under it declared?
//!
//! A query replays the document's action tags (`{{ if }}`, `{{ range }}`,
//! `{{ end }}`, ...) up to the cursor's line through a stack of lexical
//! scopes, reads the token under the cursor and looks it up from the
//! innermost scope outwards.
//!
//! - [`model`]: locations, variables, statements, errors.
//! - [`text`]: whitespace, words, the token under a cursor, byte offsets
//!   and character columns.
//! - [`pattern`]: the boundary to the pattern engine.
//! - [`scanner`]: from a line to its classified tags.
//! - [`scope`] and [`context`]: the symbol tables and their stack.
//! - [`nesting`]: what holds of well-nested blocks and of the names
//!   declared in them.
//! - [`query`]: the definition query itself.
//!
//! Columns count characters (Unicode scalar values) throughout.

pub mod context;
pub mod model;
pub mod nesting;
pub mod pattern;
pub mod query;
pub mod scanner;
pub mod scope;
pub mod text;
