//! Binary patching library: a hex-pattern parser and a byte-scanning patch
//! engine. Patterns are written either as `\xNN` escape sequences or as
//! space-separated hex tokens; the engine finds the first occurrence of a
//! `find` pattern in a buffer and overwrites it in place with an equal-length
//! `replace` pattern.

pub mod parse;
pub mod engine;
