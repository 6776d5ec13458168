//! A verified codec for a PNG-style chunked container format.
//!
//! The library parses, validates, mutates, and re-serializes byte buffers
//! laid out as an 8-byte signature followed by length-prefixed, type-tagged,
//! CRC-32-checksummed chunks. Parsing and serialization are proved to be
//! exact inverses on well-formed input, and the CRC-32 checksum is proved
//! to detect every single-bit corruption of a chunk's type or payload.

pub mod chunk;
pub mod chunk_type;
pub mod crc;
pub mod encoding;
pub mod error;
pub mod png;
