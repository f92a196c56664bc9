//! Dictionary-driven word substitution over byte buffers (ASCII, UTF-16LE,
//! UTF-16BE) and decoded text, keeping the casing pattern of each replaced word.

pub mod bytes_replacer;
pub mod case_matcher;
pub mod dictionary;
pub mod utils;
pub mod utf8_replacer;
