//! A reversible parser for `.idx` subtitle index files.
//!
//! The file is decomposed into an ordered sequence of parts: opaque filler
//! text, reproduced byte for byte, and parsed timestamps, which may be
//! rewritten. Serializing an unmodified document reproduces the input
//! exactly, including the byte-order mark and each line's terminator style.

pub mod timetypes;
pub mod codec;
pub mod lines;
pub mod parts;
pub mod idx;
