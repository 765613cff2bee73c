//! A line-oriented loader for `KEY = VALUE` configuration text.
//!
//! The parser splits its input into lines, keeps every line that splits on
//! the three-character separator `" = "` into exactly two parts, and folds
//! the resulting pairs into a key-value mapping in which a later line
//! overwrites an earlier one with the same key. Lines with no separator, or
//! with more than one, are dropped silently: the format is deliberately
//! permissive, and parsing never fails.

pub mod choice;
pub mod env_map;
pub mod lemmas;
pub mod parse;
