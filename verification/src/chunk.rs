//! Chunks: a type code, a payload, and a CRC-32 checksum, framed on the
//! wire as a 4-byte big-endian length, the 4 type bytes, the payload, and a
//! 4-byte big-endian checksum over type and payload.
use crate::chunk_type::ChunkType;
use crate::chunk_type::wf_type_bytes;
use crate::crc::crc32_of;
use crate::crc::crc32_type_and_data;
use crate::crc::lemma_crc32_detects_byte_change;
use crate::encoding::utf8_to_string;
use crate::error::PngError;
use vstd::prelude::*;
use vstd::utf8::decode_utf8;
use vstd::utf8::valid_utf8;

verus! {

/// The mathematical content of a chunk: its 4 type code bytes and its
/// payload. The checksum is a function of these two.
#[verifier::ext_equal]
pub struct ChunkModel {
    pub type_bytes: Seq<u8>,
    pub data: Seq<u8>,
}

/// A well-formed chunk model: 4 alphabetic type bytes, and a payload whose
/// byte count fits the 32-bit length field.
pub open spec fn wf_chunk(m: ChunkModel) -> bool {
    wf_type_bytes(m.type_bytes) && m.data.len() <= u32::MAX
}

/// The big-endian 4-byte form of a 32-bit integer.
pub open spec fn be_bytes(n: u32) -> Seq<u8> {
    seq![(n >> 24) as u8, (n >> 16) as u8, (n >> 8) as u8, n as u8]
}

/// The 32-bit integer read from 4 big-endian bytes.
pub open spec fn u32_from_be(s: Seq<u8>) -> u32
    recommends
        s.len() == 4,
{
    ((s[0] as u32) << 24) | ((s[1] as u32) << 16) | ((s[2] as u32) << 8) | (s[3] as u32)
}

/// Reading back the 4 big-endian bytes of an integer yields the integer.
pub proof fn lemma_be_round_trip_u32(n: u32)
    ensures
        u32_from_be(be_bytes(n)) == n,
{
    assert(((((n >> 24) as u8) as u32) << 24) | ((((n >> 16) as u8) as u32) << 16) | ((((n >> 8)
        as u8) as u32) << 8) | ((n as u8) as u32) == n) by (bit_vector);
}

/// Writing back the integer read from 4 bytes yields the same 4 bytes.
pub proof fn lemma_be_round_trip_bytes(s: Seq<u8>)
    requires
        s.len() == 4,
    ensures
        be_bytes(u32_from_be(s)) == s,
{
    let b0 = s[0];
    let b1 = s[1];
    let b2 = s[2];
    let b3 = s[3];
    assert((((((b0 as u32) << 24) | ((b1 as u32) << 16) | ((b2 as u32) << 8) | (b3 as u32)) >> 24)
        as u8) == b0) by (bit_vector);
    assert((((((b0 as u32) << 24) | ((b1 as u32) << 16) | ((b2 as u32) << 8) | (b3 as u32)) >> 16)
        as u8) == b1) by (bit_vector);
    assert((((((b0 as u32) << 24) | ((b1 as u32) << 16) | ((b2 as u32) << 8) | (b3 as u32)) >> 8)
        as u8) == b2) by (bit_vector);
    assert(((((b0 as u32) << 24) | ((b1 as u32) << 16) | ((b2 as u32) << 8) | (b3 as u32)) as u8)
        == b3) by (bit_vector);
    assert(be_bytes(u32_from_be(s)) =~= s);
}

/// The on-wire form of a chunk.
pub open spec fn chunk_wire(m: ChunkModel) -> Seq<u8> {
    be_bytes(m.data.len() as u32) + m.type_bytes + m.data + be_bytes(
        crc32_of(m.type_bytes + m.data),
    )
}

/// What parsing a chunk from the front of `b` yields. Framing is checked
/// first (the declared length plus 12 bytes of overhead must fit), then the
/// type code, then the checksum. Trailing bytes are ignored.
pub open spec fn parse_chunk(b: Seq<u8>) -> Result<ChunkModel, PngError> {
    if b.len() < 12 || 12 + u32_from_be(b.subrange(0, 4)) > b.len() {
        Err(PngError::UnexpectedEof)
    } else {
        let l = u32_from_be(b.subrange(0, 4)) as int;
        let tb = b.subrange(4, 8);
        let data = b.subrange(8, 8 + l);
        let stored = u32_from_be(b.subrange(8 + l, 12 + l));
        if !wf_type_bytes(tb) {
            Err(PngError::InvalidTypeCode)
        } else if stored != crc32_of(tb + data) {
            Err(PngError::ChecksumMismatch)
        } else {
            Ok(ChunkModel { type_bytes: tb, data: data })
        }
    }
}

/// The number of wire bytes a successfully parsed chunk occupies.
pub open spec fn chunk_size(b: Seq<u8>) -> int {
    12 + u32_from_be(b.subrange(0, 4))
}

/// One length-prefixed, type-tagged, checksummed unit of the container
/// format.
#[derive(Debug)]
pub struct Chunk {
    chunk_type: ChunkType,
    data: Vec<u8>,
    crc: u32,
}

impl View for Chunk {
    type V = ChunkModel;

    closed spec fn view(&self) -> ChunkModel {
        ChunkModel { type_bytes: self.chunk_type@, data: self.data@ }
    }
}

impl Chunk {
    /// Every chunk's stored checksum is the CRC-32 of its type bytes
    /// followed by its payload, and its payload fits the length field.
    #[verifier::type_invariant]
    spec fn type_inv(self) -> bool {
        self.data@.len() <= u32::MAX && self.crc == crc32_of(self.chunk_type@ + self.data@)
    }

    /// Builds a fresh chunk, computing the checksum over the type code
    /// bytes followed by the payload.
    pub fn new(chunk_type: ChunkType, data: Vec<u8>) -> (r: Chunk)
        requires
            data@.len() <= u32::MAX,
        ensures
            r@ == (ChunkModel { type_bytes: chunk_type@, data: data@ }),
    {
        let tb = chunk_type.bytes();
        let crc = crc32_type_and_data(&tb, &data);
        Chunk { chunk_type, data, crc }
    }

    /// Payload byte count (not counting the type code or the checksum).
    pub fn length(&self) -> (r: u32)
        ensures
            r == self@.data.len(),
    {
        proof {
            use_type_invariant(self);
        }
        self.data.len() as u32
    }

    /// The owned type code, read-only. Every chunk's model is well-formed.
    pub fn chunk_type(&self) -> (r: &ChunkType)
        ensures
            r@ == self@.type_bytes,
            wf_chunk(self@),
    {
        proof {
            use_type_invariant(self);
            use_type_invariant(&self.chunk_type);
        }
        &self.chunk_type
    }

    /// The payload bytes, read-only.
    pub fn data(&self) -> (r: &Vec<u8>)
        ensures
            r@ == self@.data,
    {
        &self.data
    }

    /// The stored checksum.
    pub fn crc(&self) -> (r: u32)
        ensures
            r == crc32_of(self@.type_bytes + self@.data),
    {
        proof {
            use_type_invariant(self);
        }
        self.crc
    }

    /// The payload interpreted as UTF-8 text; fails on bytes that are not a
    /// valid encoding.
    pub fn data_as_string(&self) -> (r: Result<String, PngError>)
        ensures
            r is Ok <==> valid_utf8(self@.data),
            r matches Ok(s) ==> s@ == decode_utf8(self@.data),
            r matches Err(e) ==> e == PngError::InvalidPayloadEncoding,
    {
        match utf8_to_string(&self.data) {
            Some(s) => Ok(s),
            None => Err(PngError::InvalidPayloadEncoding),
        }
    }

    /// Serializes to the wire form: length, type, payload, checksum.
    pub fn as_bytes(&self) -> (r: Vec<u8>)
        ensures
            r@ == chunk_wire(self@),
    {
        proof {
            use_type_invariant(self);
        }
        let mut out: Vec<u8> = Vec::new();
        let n: u32 = self.data.len() as u32;
        out.push((n >> 24) as u8);
        out.push((n >> 16) as u8);
        out.push((n >> 8) as u8);
        out.push(n as u8);
        let tb = self.chunk_type.bytes();
        out.push(tb[0]);
        out.push(tb[1]);
        out.push(tb[2]);
        out.push(tb[3]);
        proof {
            assert(out@ =~= be_bytes(n) + self@.type_bytes);
            assert(self@.data.subrange(0, 0) =~= Seq::<u8>::empty());
        }
        let mut i: usize = 0;
        while i < self.data.len()
            invariant
                i <= self.data@.len(),
                n == self.data@.len(),
                out@ == be_bytes(n) + self@.type_bytes + self@.data.subrange(0, i as int),
            decreases self.data@.len() - i,
        {
            out.push(self.data[i]);
            proof {
                assert(out@ =~= be_bytes(n) + self@.type_bytes + self@.data.subrange(0, i + 1));
            }
            i = i + 1;
        }
        let c: u32 = self.crc;
        out.push((c >> 24) as u8);
        out.push((c >> 16) as u8);
        out.push((c >> 8) as u8);
        out.push(c as u8);
        proof {
            assert(self@.data.subrange(0, self@.data.len() as int) =~= self@.data);
            assert(out@ =~= chunk_wire(self@));
        }
        out
    }

    /// Parses one chunk from `bytes` starting at `pos`; on success also
    /// yields the position just past the parsed chunk. Bytes beyond the
    /// chunk are left untouched.
    pub fn parse_at(bytes: &Vec<u8>, pos: usize) -> (r: Result<(Chunk, usize), PngError>)
        requires
            pos <= bytes@.len(),
        ensures
            ({
                let tail = bytes@.subrange(pos as int, bytes@.len() as int);
                &&& (r matches Ok(p) ==> parse_chunk(tail) == Ok::<ChunkModel, PngError>(p.0@)
                    && p.1 == pos + chunk_size(tail) && pos < p.1 <= bytes@.len())
                &&& (r matches Err(e) ==> parse_chunk(tail) == Err::<ChunkModel, PngError>(e))
            }),
    {
        let ghost tail = bytes@.subrange(pos as int, bytes@.len() as int);
        let len = bytes.len();
        if len - pos < 12 {
            return Err(PngError::UnexpectedEof);
        }
        let l32: u32 = ((bytes[pos] as u32) << 24u32) | ((bytes[pos + 1] as u32) << 16u32) | ((
        bytes[pos + 2] as u32) << 8u32) | (bytes[pos + 3] as u32);
        proof {
            assert(tail.subrange(0, 4) =~= seq![
                bytes@[pos as int],
                bytes@[pos + 1],
                bytes@[pos + 2],
                bytes@[pos + 3],
            ]);
            assert(l32 == u32_from_be(tail.subrange(0, 4)));
        }
        let rem = len - pos;
        let l = l32 as usize;
        if l > rem - 12 {
            proof {
                assert(12 + u32_from_be(tail.subrange(0, 4)) > tail.len());
            }
            return Err(PngError::UnexpectedEof);
        }
        let arr = [bytes[pos + 4], bytes[pos + 5], bytes[pos + 6], bytes[pos + 7]];
        proof {
            assert(arr@ =~= tail.subrange(4, 8));
        }
        let ct = match ChunkType::try_from(arr) {
            Ok(ct) => ct,
            Err(e) => {
                return Err(e);
            },
        };
        let mut data: Vec<u8> = Vec::new();
        let mut i: usize = 0;
        proof {
            assert(bytes@.subrange(pos + 8, pos + 8) =~= Seq::<u8>::empty());
        }
        while i < l
            invariant
                i <= l,
                len == bytes@.len(),
                pos + 12 + l <= len,
                data@ == bytes@.subrange(pos + 8, pos + 8 + i),
            decreases l - i,
        {
            data.push(bytes[pos + 8 + i]);
            proof {
                assert(bytes@.subrange(pos + 8, pos + 8 + (i + 1)) =~= bytes@.subrange(
                    pos + 8,
                    pos + 8 + i,
                ).push(bytes@[pos + 8 + i]));
            }
            i = i + 1;
        }
        proof {
            assert(data@ =~= tail.subrange(8, 8 + l));
        }
        let base = pos + 8 + l;
        let stored: u32 = ((bytes[base] as u32) << 24u32) | ((bytes[base + 1] as u32) << 16u32) | ((
        bytes[base + 2] as u32) << 8u32) | (bytes[base + 3] as u32);
        proof {
            assert(tail.subrange(8 + l, 12 + l) =~= seq![
                bytes@[base as int],
                bytes@[base + 1],
                bytes@[base + 2],
                bytes@[base + 3],
            ]);
            assert(stored == u32_from_be(tail.subrange(8 + l, 12 + l)));
        }
        let computed = crc32_type_and_data(&arr, &data);
        if stored != computed {
            return Err(PngError::ChecksumMismatch);
        }
        let chunk = Chunk { chunk_type: ct, data, crc: stored };
        Ok((chunk, pos + 12 + l))
    }

    /// Parses a chunk from the front of a complete buffer.
    pub fn parse(bytes: &Vec<u8>) -> (r: Result<Chunk, PngError>)
        ensures
            r matches Ok(c) ==> parse_chunk(bytes@) == Ok::<ChunkModel, PngError>(c@),
            r matches Err(e) ==> parse_chunk(bytes@) == Err::<ChunkModel, PngError>(e),
    {
        proof {
            assert(bytes@.subrange(0, bytes@.len() as int) =~= bytes@);
        }
        match Self::parse_at(bytes, 0) {
            Ok((c, _)) => Ok(c),
            Err(e) => Err(e),
        }
    }
}

/// The wire form of a well-formed chunk model, with anything after it,
/// parses back to exactly that model: in particular the re-parsed chunk
/// carries an identical checksum and raises no checksum mismatch.
pub proof fn lemma_chunk_wire_round_trip(m: ChunkModel, rest: Seq<u8>)
    requires
        wf_chunk(m),
    ensures
        parse_chunk(chunk_wire(m) + rest) == Ok::<ChunkModel, PngError>(m),
        chunk_size(chunk_wire(m) + rest) == chunk_wire(m).len(),
{
    let w = chunk_wire(m) + rest;
    let dl = m.data.len() as int;
    let n = m.data.len() as u32;
    let crc = crc32_of(m.type_bytes + m.data);
    assert(w.subrange(0, 4) =~= be_bytes(n));
    assert(w.subrange(4, 8) =~= m.type_bytes);
    assert(w.subrange(8, 8 + dl) =~= m.data);
    assert(w.subrange(8 + dl, 12 + dl) =~= be_bytes(crc));
    lemma_be_round_trip_u32(n);
    lemma_be_round_trip_u32(crc);
    assert(w.len() == 12 + dl + rest.len());
    assert((ChunkModel { type_bytes: m.type_bytes, data: m.data }) =~= m);
    assert(parse_chunk(w) == Ok::<ChunkModel, PngError>(m));
}

/// Corruption detection: changing any single byte — in particular flipping
/// any single bit — in the type or payload region of a chunk's wire form
/// makes parsing fail with a checksum mismatch, provided the corrupted type
/// bytes still read as alphabetic (otherwise the type check fails first).
pub proof fn lemma_corruption_detected(m: ChunkModel, w: Seq<u8>, i: int)
    requires
        wf_chunk(m),
        w.len() == chunk_wire(m).len(),
        4 <= i < 8 + m.data.len(),
        w[i] != chunk_wire(m)[i],
        forall|j: int| 0 <= j < w.len() && j != i ==> w[j] == chunk_wire(m)[j],
        wf_type_bytes(w.subrange(4, 8)),
    ensures
        parse_chunk(w) == Err::<ChunkModel, PngError>(PngError::ChecksumMismatch),
{
    let wire = chunk_wire(m);
    let dl = m.data.len() as int;
    let n = m.data.len() as u32;
    let crc = crc32_of(m.type_bytes + m.data);
    assert(wire.subrange(0, 4) =~= be_bytes(n));
    assert(wire.subrange(4, 8) =~= m.type_bytes);
    assert(wire.subrange(8, 8 + dl) =~= m.data);
    assert(wire.subrange(8 + dl, 12 + dl) =~= be_bytes(crc));
    assert(w.subrange(0, 4) =~= be_bytes(n));
    assert(w.subrange(8 + dl, 12 + dl) =~= be_bytes(crc));
    lemma_be_round_trip_u32(n);
    lemma_be_round_trip_u32(crc);
    let tb2 = w.subrange(4, 8);
    let data2 = w.subrange(8, 8 + dl);
    let orig = m.type_bytes + m.data;
    let corr = tb2 + data2;
    assert(corr =~= w.subrange(4, 8 + dl));
    assert(orig =~= wire.subrange(4, 8 + dl));
    assert(orig.len() == corr.len());
    assert(corr[i - 4] != orig[i - 4]);
    assert(forall|j: int| 0 <= j < orig.len() && j != i - 4 ==> orig[j] == corr[j]);
    lemma_crc32_detects_byte_change(orig, corr, i - 4);
    assert(u32_from_be(w.subrange(8 + dl, 12 + dl)) == crc);
    assert(crc32_of(corr) != crc);
}

} // verus!
