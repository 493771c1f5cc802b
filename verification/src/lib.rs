//! Parser for the Reloaded 3 localisation format.
//!
//! A document is a sequence of `[[key]]` lines, each followed by the text
//! that belongs to the key. Parsing cleans the raw bytes, locates the
//! bracket markers, and packs every value into one buffer that a hash index
//! addresses by offset and length. Tables built from several documents can
//! be merged; the earlier table wins where two of them share a key.

pub mod text;
pub mod search;
pub mod index;
pub mod errors;
pub mod sanitizer;
pub mod simd;
pub mod scanner;
pub mod table;
pub mod parser;
pub mod merge;
pub mod interop;
