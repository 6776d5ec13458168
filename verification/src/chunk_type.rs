//! Chunk type codes: 4 ASCII-alphabetic bytes whose case bits carry
//! capability flags.
use crate::encoding::lemma_ascii_valid_utf8;
use crate::encoding::utf8_to_string;
use crate::error::PngError;
use vstd::prelude::*;
use vstd::string::StringSliceAdditionalSpecFns;
use vstd::utf8::decode_utf8;
use vstd::utf8::encode_utf8_decode_utf8;
use vstd::utf8::valid_utf8;

verus! {

/// True when `b` is an ASCII alphabetic byte (A-Z or a-z).
pub open spec fn is_alpha(b: u8) -> bool {
    (0x41 <= b <= 0x5a) || (0x61 <= b <= 0x7a)
}

/// The well-formedness condition for a type code: exactly 4 bytes, each
/// ASCII alphabetic.
pub open spec fn wf_type_bytes(s: Seq<u8>) -> bool {
    s.len() == 4 && (forall|i: int| 0 <= i < 4 ==> is_alpha(#[trigger] s[i]))
}

/// A chunk type code. Bit 5 (0x20, the ASCII case bit) of each of the four
/// bytes encodes one capability flag.
#[derive(Debug, PartialEq, Eq, Structural)]
pub struct ChunkType {
    first_byte: u8,
    second_byte: u8,
    third_byte: u8,
    fourth_byte: u8,
}

impl View for ChunkType {
    type V = Seq<u8>;

    closed spec fn view(&self) -> Seq<u8> {
        seq![self.first_byte, self.second_byte, self.third_byte, self.fourth_byte]
    }
}

/// True when all 4 bytes are ASCII alphabetic.
pub fn is_all_alphabetic(bytes: [u8; 4]) -> (r: bool)
    ensures
        r == wf_type_bytes(bytes@),
{
    let r = byte_is_alpha(bytes[0]) && byte_is_alpha(bytes[1]) && byte_is_alpha(bytes[2])
        && byte_is_alpha(bytes[3]);
    proof {
        assert(bytes@.len() == 4);
        assert(bytes@[0] == bytes[0] && bytes@[1] == bytes[1] && bytes@[2] == bytes[2] && bytes@[3]
            == bytes[3]);
    }
    r
}

/// True when `b` is an ASCII alphabetic byte.
fn byte_is_alpha(b: u8) -> (r: bool)
    ensures
        r == is_alpha(b),
{
    (0x41 <= b && b <= 0x5a) || (0x61 <= b && b <= 0x7a)
}

impl ChunkType {
    /// Every constructed type code holds 4 ASCII-alphabetic bytes.
    #[verifier::type_invariant]
    pub open spec fn type_inv(self) -> bool {
        wf_type_bytes(self@)
    }


    /// Builds a type code from 4 raw bytes; rejects any byte that is not
    /// ASCII alphabetic.
    pub fn try_from(bytes: [u8; 4]) -> (r: Result<ChunkType, PngError>)
        ensures
            r is Ok <==> wf_type_bytes(bytes@),
            r matches Ok(t) ==> t@ == bytes@,
            r matches Err(e) ==> e == PngError::InvalidTypeCode,
    {
        if !is_all_alphabetic(bytes) {
            return Err(PngError::InvalidTypeCode);
        }
        let t = ChunkType {
            first_byte: bytes[0],
            second_byte: bytes[1],
            third_byte: bytes[2],
            fourth_byte: bytes[3],
        };
        proof {
            assert(t@ =~= bytes@);
        }
        Ok(t)
    }

    /// Builds a type code from text: the text must be exactly 4 bytes long,
    /// and each byte ASCII alphabetic.
    pub fn from_str(s: &str) -> (r: Result<ChunkType, PngError>)
        ensures
            s.spec_bytes().len() != 4 ==> r == Err::<ChunkType, PngError>(PngError::InvalidLength),
            s.spec_bytes().len() == 4 ==> {
                &&& r is Ok <==> wf_type_bytes(s.spec_bytes())
                &&& (r matches Ok(t) ==> t@ == s.spec_bytes())
                &&& (r matches Err(e) ==> e == PngError::InvalidTypeCode)
            },
    {
        let b = s.as_bytes_vec();
        if b.len() != 4 {
            return Err(PngError::InvalidLength);
        }
        let arr = [b[0], b[1], b[2], b[3]];
        proof {
            assert(arr@ =~= s.spec_bytes());
        }
        Self::try_from(arr)
    }

    /// The 4 raw bytes, the exact inverse of construction. Every type
    /// code's bytes are well-formed.
    pub fn bytes(&self) -> (r: [u8; 4])
        ensures
            r@ == self@,
            wf_type_bytes(self@),
    {
        proof {
            use_type_invariant(self);
        }
        let r = [self.first_byte, self.second_byte, self.third_byte, self.fourth_byte];
        proof {
            assert(r@ =~= self@);
        }
        r
    }

    /// Critical chunks carry the case bit clear on the first byte.
    pub fn is_critical(&self) -> (r: bool)
        ensures
            r == (self@[0] & 0x20 == 0),
    {
        self.first_byte & 0x20 == 0
    }

    /// Public chunks carry the case bit clear on the second byte.
    pub fn is_public(&self) -> (r: bool)
        ensures
            r == (self@[1] & 0x20 == 0),
    {
        self.second_byte & 0x20 == 0
    }

    /// The reserved bit: the case bit of the third byte must be clear for
    /// the type code to be valid.
    pub fn is_reserved_bit_valid(&self) -> (r: bool)
        ensures
            r == (self@[2] & 0x20 == 0),
    {
        self.third_byte & 0x20 == 0
    }

    /// Safe-to-copy chunks carry the case bit set on the fourth byte.
    pub fn is_safe_to_copy(&self) -> (r: bool)
        ensures
            r == (self@[3] & 0x20 != 0),
    {
        self.fourth_byte & 0x20 != 0
    }

    /// A type code is valid exactly when its reserved bit is valid.
    pub fn is_valid(&self) -> (r: bool)
        ensures
            r == (self@[2] & 0x20 == 0),
    {
        self.is_reserved_bit_valid()
    }

    /// The 4 bytes rendered as 4 ASCII characters, the exact inverse of
    /// text parsing.
    pub fn to_string(&self) -> (r: String)
        ensures
            r@ == decode_utf8(self@),
    {
        proof {
            use_type_invariant(self);
        }
        let b = self.bytes();
        let mut v: Vec<u8> = Vec::new();
        v.push(b[0]);
        v.push(b[1]);
        v.push(b[2]);
        v.push(b[3]);
        proof {
            assert(v@ =~= self@);
            lemma_ascii_valid_utf8(v@);
        }
        let r = utf8_to_string(&v);
        r.unwrap()
    }
}

/// Parsing 4-byte alphabetic text as a type code and rendering the code
/// back as text yields the original text: `from_str` yields a code whose
/// bytes are the text's bytes, and `to_string` decodes those very bytes
/// back to the text's characters.
pub proof fn lemma_type_code_text_round_trip(s: &str)
    requires
        wf_type_bytes(s.spec_bytes()),
    ensures
        valid_utf8(s.spec_bytes()),
        decode_utf8(s.spec_bytes()) == s@,
{
    lemma_ascii_valid_utf8(s.spec_bytes());
    encode_utf8_decode_utf8(s@);
}

} // verus!
