//! The closed set of failures the codec can report.
use vstd::prelude::*;

verus! {

/// Everything that can go wrong while parsing, validating or mutating a
/// container, a chunk, or a type code.
#[derive(Debug, Clone, Copy, PartialEq, Eq, Structural)]
pub enum PngError {
    /// Text input to a type-code parse is not exactly 4 bytes long.
    InvalidLength,
    /// One or more of a type code's 4 bytes is not ASCII alphabetic.
    InvalidTypeCode,
    /// A declared length exceeds the remaining buffer.
    UnexpectedEof,
    /// The leading 8 bytes do not match the fixed signature.
    InvalidSignature,
    /// A recomputed CRC-32 disagrees with the stored checksum.
    ChecksumMismatch,
    /// A remove-by-name operation found no matching type code.
    ChunkNotFound,
    /// Payload bytes requested as text are not valid UTF-8.
    InvalidPayloadEncoding,
}

impl PngError {
    /// A short human-readable name for the error, for callers that report it.
    pub fn describe(&self) -> (r: &'static str)
        ensures
            r@.len() > 0,
    {
        proof {
            reveal_strlit("type code text must be exactly 4 bytes");
            reveal_strlit("type code bytes must be ASCII alphabetic");
            reveal_strlit("declared length exceeds the remaining bytes");
            reveal_strlit("leading bytes do not match the signature");
            reveal_strlit("checksum does not match the chunk contents");
            reveal_strlit("no chunk with the requested type code");
            reveal_strlit("payload bytes are not valid UTF-8 text");
        }
        match self {
            PngError::InvalidLength => "type code text must be exactly 4 bytes",
            PngError::InvalidTypeCode => "type code bytes must be ASCII alphabetic",
            PngError::UnexpectedEof => "declared length exceeds the remaining bytes",
            PngError::InvalidSignature => "leading bytes do not match the signature",
            PngError::ChecksumMismatch => "checksum does not match the chunk contents",
            PngError::ChunkNotFound => "no chunk with the requested type code",
            PngError::InvalidPayloadEncoding => "payload bytes are not valid UTF-8 text",
        }
    }
}

} // verus!
