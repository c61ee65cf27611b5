//! Finds every phrase of dictionary words that a single one-to-one letter
//! substitution can turn a given phrase into.

pub mod args;
pub mod find_char_map;
pub mod notree;
pub mod pattern;
