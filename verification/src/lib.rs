//! Cross-checks locale translation tables against the translation keys that a
//! body of source text actually uses.
//!
//! The crate has three layers, leaves first:
//! - [`fenced`]: extraction of the literal substrings standing between a start
//!   marker and an end marker, leftmost-first and non-overlapping;
//! - [`ts_file`]: the usage scanner, which applies a fixed family of marker
//!   pairs to a text buffer and collects every translation key it mentions;
//! - [`translation_file`]: the key/value table loaded from a locale file, its
//!   compatibility comparison, and the invalid/unused key checks.
//!
//! All text is handled as sequences of characters (`Vec<char>` in executable
//! code, `Seq<char>` in specifications), so positions index characters.

pub mod fenced;
pub mod text;
pub mod translation_file;
pub mod ts_file;
