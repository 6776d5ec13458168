use pngme::chunk::Chunk;
use pngme::chunk_type::ChunkType;
use pngme::crc::crc32;
use pngme::error::PngError;
use pngme::png::Png;

const SIGNATURE: [u8; 8] = [0x89, 0x50, 0x4E, 0x47, 0x0D, 0x0A, 0x1A, 0x0A];

fn chunk_from(code: &str, data: &str) -> Chunk {
    Chunk::new(
        ChunkType::from_str(code).unwrap(),
        data.as_bytes().to_vec(),
    )
}

fn testing_png_bytes() -> Vec<u8> {
    let chunks = vec![
        chunk_from("FrSt", "I am the first chunk"),
        chunk_from("miDl", "I am another chunk"),
        chunk_from("LASt", "I am the last chunk"),
    ];
    Png::from_chunks(chunks).as_bytes()
}

#[test]
fn test_crc32_check_value() {
    // The classic CRC-32 check value.
    let input = b"123456789".to_vec();
    assert_eq!(crc32(&input), 0xCBF43926);
}

#[test]
fn test_crc32_empty() {
    assert_eq!(crc32(&Vec::new()), 0);
}

#[test]
fn test_chunk_fields() {
    let chunk = chunk_from("RuSt", "This is where your secret message will be!");
    assert_eq!(chunk.length(), 42);
    assert_eq!(chunk.chunk_type().to_string(), "RuSt");
    assert_eq!(chunk.crc(), 2882656334);
    assert_eq!(
        chunk.data_as_string().unwrap(),
        "This is where your secret message will be!"
    );
}

#[test]
fn test_chunk_round_trip_checksum() {
    // Constructing a chunk and re-parsing its wire form yields an identical
    // checksum, with no checksum mismatch.
    let chunk = chunk_from("RuSt", "This is where your secret message will be!");
    let wire = chunk.as_bytes();
    let reparsed = Chunk::parse(&wire).unwrap();
    assert_eq!(reparsed.crc(), chunk.crc());
    assert_eq!(reparsed.data(), chunk.data());
    assert_eq!(reparsed.chunk_type().bytes(), chunk.chunk_type().bytes());
}

#[test]
fn test_chunk_wire_layout() {
    let chunk = chunk_from("RuSt", "Hi");
    let wire = chunk.as_bytes();
    assert_eq!(wire.len(), 14);
    assert_eq!(&wire[0..4], &[0u8, 0, 0, 2][..]);
    assert_eq!(&wire[4..8], &b"RuSt"[..]);
    assert_eq!(&wire[8..10], &b"Hi"[..]);
}

#[test]
fn test_png_round_trip() {
    // Parsing a valid buffer and serializing the result reproduces the
    // buffer byte for byte.
    let original = testing_png_bytes();
    let png = Png::try_from(&original).unwrap();
    assert_eq!(png.as_bytes(), original);
}

#[test]
fn test_png_parse_chunk_count() {
    let bytes = testing_png_bytes();
    let png = Png::try_from(&bytes).unwrap();
    assert_eq!(png.chunks().len(), 3);
}

#[test]
fn test_append_then_find() {
    // Appending a chunk, serializing, and reparsing finds exactly one chunk
    // of the appended type, with the exact payload text.
    let bytes = testing_png_bytes();
    let mut png = Png::try_from(&bytes).unwrap();
    png.append_chunk(chunk_from(
        "ruSt",
        "this is where your secret message will be!",
    ));
    let out = png.as_bytes();
    let reparsed = Png::try_from(&out).unwrap();
    let found: Vec<&Chunk> = reparsed
        .chunks()
        .iter()
        .filter(|c| c.chunk_type().to_string() == "ruSt")
        .collect();
    assert_eq!(found.len(), 1);
    assert_eq!(
        found[0].data_as_string().unwrap(),
        "this is where your secret message will be!"
    );
    let found = reparsed.chunk_by_type("ruSt").unwrap();
    assert_eq!(
        found.data_as_string().unwrap(),
        "this is where your secret message will be!"
    );
}

#[test]
fn test_remove_absent_chunk_fails() {
    let bytes = testing_png_bytes();
    let mut png = Png::try_from(&bytes).unwrap();
    assert_eq!(png.remove_chunk("NoPe").unwrap_err(), PngError::ChunkNotFound);
    assert_eq!(png.chunks().len(), 3);
}

#[test]
fn test_remove_present_chunk() {
    // Removal shrinks the sequence by exactly one and preserves the order
    // of the remaining chunks.
    let bytes = testing_png_bytes();
    let mut png = Png::try_from(&bytes).unwrap();
    let removed = png.remove_chunk("miDl").unwrap();
    assert_eq!(removed.data_as_string().unwrap(), "I am another chunk");
    assert_eq!(png.chunks().len(), 2);
    assert_eq!(png.chunks()[0].chunk_type().to_string(), "FrSt");
    assert_eq!(png.chunks()[1].chunk_type().to_string(), "LASt");
    assert!(png.chunk_by_type("miDl").is_none());
}

#[test]
fn test_remove_first_of_duplicates() {
    let chunks = vec![
        chunk_from("dUpl", "one"),
        chunk_from("dUpl", "two"),
    ];
    let mut png = Png::from_chunks(chunks);
    let removed = png.remove_chunk("dUpl").unwrap();
    assert_eq!(removed.data_as_string().unwrap(), "one");
    assert_eq!(png.chunks().len(), 1);
    assert_eq!(png.chunks()[0].data_as_string().unwrap(), "two");
}

#[test]
fn test_corruption_any_single_bit_flip_detected() {
    // Flipping any single bit in a chunk's type or payload bytes makes
    // parsing fail: with a checksum mismatch, except where the flip makes a
    // type byte non-alphabetic, which the type check rejects first.
    let chunk = chunk_from("RuSt", "Hello");
    let wire = chunk.as_bytes();
    // Bytes 4..9+4 hold the type code and the 5 payload bytes.
    for byte_idx in 4..(8 + 5) {
        for bit in 0..8 {
            let mut corrupted = wire.clone();
            corrupted[byte_idx] ^= 1u8 << bit;
            let result = Chunk::parse(&corrupted);
            let alphabetic = |b: u8| b.is_ascii_alphabetic();
            let type_still_alphabetic = corrupted[4..8].iter().all(|b| alphabetic(*b));
            if type_still_alphabetic {
                assert_eq!(result.unwrap_err(), PngError::ChecksumMismatch);
            } else {
                assert_eq!(result.unwrap_err(), PngError::InvalidTypeCode);
            }
        }
    }
}

#[test]
fn test_corruption_detected_inside_container() {
    let bytes = testing_png_bytes();
    let mut corrupted = bytes.clone();
    // Flip one bit inside the first chunk's payload region.
    corrupted[8 + 8] ^= 0x01;
    assert_eq!(
        Png::try_from(&corrupted).unwrap_err(),
        PngError::ChecksumMismatch
    );
}

#[test]
fn test_truncation_detected() {
    // A buffer whose last chunk declares more bytes than remain fails with
    // UnexpectedEof, never a silently short chunk.
    let bytes = testing_png_bytes();
    let mut truncated = bytes.clone();
    truncated.truncate(bytes.len() - 5);
    assert_eq!(Png::try_from(&truncated).unwrap_err(), PngError::UnexpectedEof);
}

#[test]
fn test_trailing_partial_chunk_detected() {
    let mut bytes = testing_png_bytes();
    bytes.push(0x00);
    assert_eq!(Png::try_from(&bytes).unwrap_err(), PngError::UnexpectedEof);
}

#[test]
fn test_signature_enforced() {
    // A buffer whose first 8 bytes differ from the signature fails with
    // InvalidSignature even when well-formed chunk data follows.
    let good = testing_png_bytes();
    let mut bad = good.clone();
    bad[0] = 0x88;
    assert_eq!(Png::try_from(&bad).unwrap_err(), PngError::InvalidSignature);
    let short: Vec<u8> = SIGNATURE[0..7].to_vec();
    assert_eq!(Png::try_from(&short).unwrap_err(), PngError::InvalidSignature);
}

#[test]
fn test_empty_container() {
    let bytes = SIGNATURE.to_vec();
    let png = Png::try_from(&bytes).unwrap();
    assert_eq!(png.chunks().len(), 0);
    assert_eq!(png.as_bytes(), bytes);
}

#[test]
fn test_type_code_text_round_trip() {
    for code in ["RuSt", "ruSt", "ABCD", "wxyz", "TeSt"] {
        assert_eq!(ChunkType::from_str(code).unwrap().to_string(), code);
    }
}

#[test]
fn test_flag_combination() {
    let t = ChunkType::from_str("RuSt").unwrap();
    assert!(t.is_critical());
    assert!(!t.is_public());
    assert!(t.is_reserved_bit_valid());
    assert!(t.is_safe_to_copy());
    let u = ChunkType::from_str("Rust").unwrap();
    assert!(!u.is_reserved_bit_valid());
    assert!(!u.is_valid());
}

#[test]
fn test_type_code_text_errors() {
    assert_eq!(
        ChunkType::from_str("abc"),
        Err(PngError::InvalidLength)
    );
    assert_eq!(
        ChunkType::from_str("abcde"),
        Err(PngError::InvalidLength)
    );
    assert_eq!(
        ChunkType::from_str("Ru1t"),
        Err(PngError::InvalidTypeCode)
    );
}

#[test]
fn test_payload_encoding_error() {
    let chunk = Chunk::new(
        ChunkType::from_str("teXt").unwrap(),
        vec![0xff, 0xfe, 0xfd],
    );
    assert_eq!(
        chunk.data_as_string(),
        Err(PngError::InvalidPayloadEncoding)
    );
    // The raw accessor still succeeds on binary payloads.
    assert_eq!(chunk.data(), &vec![0xff, 0xfe, 0xfd]);
}

#[test]
fn test_chunk_parse_eof() {
    let short = vec![0u8; 11];
    assert_eq!(Chunk::parse(&short).unwrap_err(), PngError::UnexpectedEof);
    // Declared length exceeds what remains.
    let mut framed = vec![0u8, 0, 0, 9];
    framed.extend_from_slice(b"RuSt");
    framed.extend_from_slice(&[0, 0, 0, 0]);
    assert_eq!(Chunk::parse(&framed).unwrap_err(), PngError::UnexpectedEof);
}

#[test]
fn test_error_describe() {
    assert!(!PngError::ChunkNotFound.describe().is_empty());
    assert!(!PngError::InvalidSignature.describe().is_empty());
}
