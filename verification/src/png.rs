//! The container: a fixed 8-byte signature followed by an ordered sequence
//! of chunks. Parsing and serialization are exact inverses on well-formed
//! input, and mutation (append, find, remove by type) preserves the order
//! of the untouched chunks.
use crate::chunk::Chunk;
use crate::chunk::ChunkModel;
use crate::chunk::chunk_size;
use crate::chunk::chunk_wire;
use crate::chunk::lemma_chunk_wire_round_trip;
use crate::chunk::parse_chunk;
use crate::chunk::u32_from_be;
use crate::chunk::wf_chunk;
use crate::error::PngError;
use vstd::prelude::*;
use vstd::string::StringSliceAdditionalSpecFns;
use vstd::string::StrSliceExecFns;

verus! {

/// The fixed 8-byte signature that opens every container.
pub open spec fn sig_seq() -> Seq<u8> {
    seq![0x89u8, 0x50u8, 0x4eu8, 0x47u8, 0x0du8, 0x0au8, 0x1au8, 0x0au8]
}

/// The models of a sequence of chunks.
pub open spec fn models(cs: Seq<Chunk>) -> Seq<ChunkModel> {
    cs.map_values(|c: Chunk| c@)
}

/// The wire form of a chunk sequence: each chunk's wire form, concatenated
/// in order.
pub open spec fn chunks_wire(cs: Seq<ChunkModel>) -> Seq<u8>
    decreases cs.len(),
{
    if cs.len() == 0 {
        Seq::empty()
    } else {
        chunk_wire(cs[0]) + chunks_wire(cs.drop_first())
    }
}

/// The wire form of a whole container.
pub open spec fn png_wire(cs: Seq<ChunkModel>) -> Seq<u8> {
    sig_seq() + chunks_wire(cs)
}

/// What parsing a sequence of chunks from `b` yields: chunks parsed
/// back-to-back until the buffer is exactly consumed; a trailing partial
/// chunk is an error.
pub open spec fn parse_chunks(b: Seq<u8>) -> Result<Seq<ChunkModel>, PngError>
    decreases b.len(),
{
    if b.len() == 0 {
        Ok(Seq::empty())
    } else if b.len() < 12 || 12 + u32_from_be(b.subrange(0, 4)) > b.len() {
        Err(PngError::UnexpectedEof)
    } else {
        match parse_chunk(b) {
            Err(e) => Err(e),
            Ok(m) => match parse_chunks(b.subrange(chunk_size(b), b.len() as int)) {
                Err(e) => Err(e),
                Ok(rest) => Ok(seq![m] + rest),
            },
        }
    }
}

/// What parsing a whole container buffer yields: the signature is checked
/// first, then the chunks.
pub open spec fn parse_png(b: Seq<u8>) -> Result<Seq<ChunkModel>, PngError> {
    if b.len() < 8 || b.subrange(0, 8) != sig_seq() {
        Err(PngError::InvalidSignature)
    } else {
        parse_chunks(b.subrange(8, b.len() as int))
    }
}

/// Prefixes a successful parse result with already-parsed chunk models.
pub open spec fn with_prefix(pre: Seq<ChunkModel>, r: Result<Seq<ChunkModel>, PngError>) -> Result<
    Seq<ChunkModel>,
    PngError,
> {
    match r {
        Ok(cs) => Ok(pre + cs),
        Err(e) => Err(e),
    }
}

/// True when some chunk in `cs` has exactly the type bytes `q`.
pub open spec fn has_chunk_with_type(cs: Seq<ChunkModel>, q: Seq<u8>) -> bool {
    exists|i: int| 0 <= i < cs.len() && (#[trigger] cs[i]).type_bytes == q
}

/// The index of the first chunk in `cs` whose type bytes equal `q`.
pub open spec fn first_match(cs: Seq<ChunkModel>, q: Seq<u8>) -> int
    decreases cs.len(),
{
    if cs.len() == 0 {
        0
    } else if cs[0].type_bytes == q {
        0
    } else {
        1 + first_match(cs.drop_first(), q)
    }
}

/// When a match exists, `first_match` names the lowest matching index.
pub proof fn lemma_first_match(cs: Seq<ChunkModel>, q: Seq<u8>)
    requires
        has_chunk_with_type(cs, q),
    ensures
        0 <= first_match(cs, q) < cs.len(),
        cs[first_match(cs, q)].type_bytes == q,
        forall|j: int| 0 <= j < first_match(cs, q) ==> (#[trigger] cs[j]).type_bytes != q,
    decreases cs.len(),
{
    if cs[0].type_bytes == q {
    } else {
        let i = choose|i: int| 0 <= i < cs.len() && (#[trigger] cs[i]).type_bytes == q;
        assert(cs.drop_first()[i - 1].type_bytes == q);
        lemma_first_match(cs.drop_first(), q);
        assert(forall|j: int|
            1 <= j < first_match(cs, q) ==> (#[trigger] cs[j]) == cs.drop_first()[j - 1]);
    }
}

/// The full in-memory representation of a parsed file: the fixed signature
/// plus an ordered chunk sequence.
#[derive(Debug)]
pub struct Png {
    chunks: Vec<Chunk>,
}

impl View for Png {
    type V = Seq<ChunkModel>;

    closed spec fn view(&self) -> Seq<ChunkModel> {
        models(self.chunks@)
    }
}

/// True when `bytes` opens with the fixed 8-byte signature.
fn has_signature(bytes: &Vec<u8>) -> (r: bool)
    ensures
        r == (bytes@.len() >= 8 && bytes@.subrange(0, 8) == sig_seq()),
{
    if bytes.len() < 8 {
        return false;
    }
    let r = bytes[0] == 0x89 && bytes[1] == 0x50 && bytes[2] == 0x4e && bytes[3] == 0x47
        && bytes[4] == 0x0d && bytes[5] == 0x0a && bytes[6] == 0x1a && bytes[7] == 0x0a;
    proof {
        if r {
            assert(bytes@.subrange(0, 8) =~= sig_seq());
        } else {
            assert(bytes@.subrange(0, 8) != sig_seq()) by {
                if bytes@.subrange(0, 8) == sig_seq() {
                    assert(forall|i: int|
                        0 <= i < 8 ==> bytes@[i] == #[trigger] bytes@.subrange(0, 8)[i]);
                }
            }
        }
    }
    r
}

impl Png {
    /// Composes a container from an explicit chunk sequence.
    pub fn from_chunks(chunks: Vec<Chunk>) -> (r: Png)
        ensures
            r@ == models(chunks@),
    {
        Png { chunks }
    }

    /// Parses a complete byte buffer: the fixed signature, then chunks until
    /// the buffer is exactly consumed. Any failure is reported through the
    /// exact case analysis of [`parse_png`]; in particular a buffer that
    /// does not open with the signature fails with `InvalidSignature`, no
    /// matter what follows.
    pub fn try_from(bytes: &Vec<u8>) -> (r: Result<Png, PngError>)
        ensures
            r matches Ok(p) ==> parse_png(bytes@) == Ok::<Seq<ChunkModel>, PngError>(p@),
            r matches Err(e) ==> parse_png(bytes@) == Err::<Seq<ChunkModel>, PngError>(e),
            bytes@.len() < 8 || bytes@.subrange(0, 8) != sig_seq() ==> r == Err::<
                Png,
                PngError,
            >(PngError::InvalidSignature),
    {
        if !has_signature(bytes) {
            return Err(PngError::InvalidSignature);
        }
        let len = bytes.len();
        let ghost whole = bytes@.subrange(8, bytes@.len() as int);
        let mut chunks: Vec<Chunk> = Vec::new();
        let mut pos: usize = 8;
        proof {
            assert(models(chunks@) =~= Seq::<ChunkModel>::empty());
            assert(bytes@.subrange(pos as int, bytes@.len() as int) =~= whole);
            assert(with_prefix(models(chunks@), parse_chunks(whole)) == parse_chunks(whole)) by {
                if parse_chunks(whole) is Ok {
                    assert(models(chunks@) + parse_chunks(whole)->Ok_0 =~= parse_chunks(
                        whole,
                    )->Ok_0);
                }
            }
        }
        while pos < len
            invariant
                8 <= pos <= len,
                len == bytes@.len(),
                bytes@.len() >= 8 && bytes@.subrange(0, 8) == sig_seq(),
                whole == bytes@.subrange(8, bytes@.len() as int),
                with_prefix(
                    models(chunks@),
                    parse_chunks(bytes@.subrange(pos as int, bytes@.len() as int)),
                ) == parse_chunks(whole),
            decreases len - pos,
        {
            let ghost tail = bytes@.subrange(pos as int, bytes@.len() as int);
            match Chunk::parse_at(bytes, pos) {
                Err(e) => {
                    proof {
                        assert(parse_chunks(tail) == Err::<Seq<ChunkModel>, PngError>(e));
                        assert(parse_chunks(whole) == Err::<Seq<ChunkModel>, PngError>(e));
                        assert(parse_png(bytes@) == Err::<Seq<ChunkModel>, PngError>(e));
                    }
                    return Err(e);
                },
                Ok((chunk, next)) => {
                    proof {
                        let ghost m = chunk@;
                        let ghost tail2 = bytes@.subrange(next as int, bytes@.len() as int);
                        assert(tail.subrange(chunk_size(tail), tail.len() as int) =~= tail2);
                        assert(parse_chunks(tail) == with_prefix(seq![m], parse_chunks(tail2)));
                        assert(models(chunks@.push(chunk)) =~= models(chunks@) + seq![m]);
                        assert(with_prefix(models(chunks@.push(chunk)), parse_chunks(tail2))
                            == with_prefix(models(chunks@), parse_chunks(tail))) by {
                            if parse_chunks(tail2) is Ok {
                                assert((models(chunks@) + seq![m]) + parse_chunks(tail2)->Ok_0
                                    =~= models(chunks@) + (seq![m] + parse_chunks(tail2)->Ok_0));
                            }
                        }
                    }
                    chunks.push(chunk);
                    pos = next;
                },
            }
        }
        proof {
            assert(bytes@.subrange(pos as int, bytes@.len() as int) =~= Seq::<u8>::empty());
            assert(parse_chunks(whole) == Ok::<Seq<ChunkModel>, PngError>(
                models(chunks@) + Seq::empty(),
            ));
            assert(models(chunks@) + Seq::<ChunkModel>::empty() =~= models(chunks@));
        }
        Ok(Png { chunks })
    }

    /// Serializes: the signature bytes, then each chunk's wire form in
    /// sequence order — the exact inverse of parsing.
    pub fn as_bytes(&self) -> (r: Vec<u8>)
        ensures
            r@ == png_wire(self@),
    {
        let mut out: Vec<u8> = Vec::new();
        out.push(0x89);
        out.push(0x50);
        out.push(0x4e);
        out.push(0x47);
        out.push(0x0d);
        out.push(0x0a);
        out.push(0x1a);
        out.push(0x0a);
        proof {
            assert(out@ =~= sig_seq());
            assert(self@.subrange(0, 0) =~= Seq::<ChunkModel>::empty());
            assert(out@ =~= sig_seq() + chunks_wire(self@.subrange(0, 0)));
        }
        let mut i: usize = 0;
        let n = self.chunks.len();
        while i < n
            invariant
                i <= n,
                n == self.chunks@.len(),
                self@.len() == n,
                out@ == sig_seq() + chunks_wire(self@.subrange(0, i as int)),
            decreases n - i,
        {
            let mut cb = self.chunks[i].as_bytes();
            proof {
                assert(self@[i as int] == self.chunks@[i as int]@);
                assert(self@.subrange(0, i + 1) =~= self@.subrange(0, i as int).push(
                    self@[i as int],
                ));
                lemma_chunks_wire_push(self@.subrange(0, i as int), self@[i as int]);
            }
            out.append(&mut cb);
            i = i + 1;
        }
        proof {
            assert(self@.subrange(0, self@.len() as int) =~= self@);
        }
        out
    }

    /// Appends a chunk at the end of the sequence; earlier chunks keep
    /// their positions.
    pub fn append_chunk(&mut self, chunk: Chunk)
        ensures
            final(self)@ == old(self)@.push(chunk@),
    {
        proof {
            assert(models(old(self).chunks@.push(chunk)) =~= models(old(self).chunks@).push(
                chunk@,
            ));
        }
        self.chunks.push(chunk);
    }

    /// Read-only ordered view of the current chunk sequence.
    pub fn chunks(&self) -> (r: &Vec<Chunk>)
        ensures
            models(r@) == self@,
    {
        &self.chunks
    }

    /// Finds the first chunk (lowest index) whose type code's text form
    /// equals `code`; a miss is an expected outcome, not an error.
    pub fn chunk_by_type(&self, code: &str) -> (r: Option<&Chunk>)
        ensures
            r is Some <==> has_chunk_with_type(self@, code.spec_bytes()),
            r matches Some(c) ==> c@ == self@[first_match(self@, code.spec_bytes())],
    {
        let qb = code.as_bytes_vec();
        let ghost q = code.spec_bytes();
        let n = self.chunks.len();
        let mut i: usize = 0;
        while i < n
            invariant
                i <= n,
                n == self.chunks@.len(),
                self@.len() == n,
                q == code.spec_bytes(),
                qb@ == q,
                forall|j: int| 0 <= j < i ==> (#[trigger] self@[j]).type_bytes != q,
            decreases n - i,
        {
            if chunk_matches(&self.chunks[i], &qb) {
                proof {
                    assert(self@[i as int].type_bytes == q);
                    lemma_first_match_at(self@, q, i as int);
                }
                return Some(&self.chunks[i]);
            }
            proof {
                assert(self@[i as int] == self.chunks@[i as int]@);
            }
            i = i + 1;
        }
        None
    }

    /// Removes exactly the first chunk whose type code's text form equals
    /// `code`, preserving the relative order of the remaining chunks; fails
    /// with `ChunkNotFound`, leaving the container unchanged, when no chunk
    /// matches.
    pub fn remove_chunk(&mut self, code: &str) -> (r: Result<Chunk, PngError>)
        ensures
            !has_chunk_with_type(old(self)@, code.spec_bytes()) ==> r == Err::<Chunk, PngError>(
                PngError::ChunkNotFound,
            ) && final(self)@ == old(self)@,
            has_chunk_with_type(old(self)@, code.spec_bytes()) ==> {
                let k = first_match(old(self)@, code.spec_bytes());
                &&& (r matches Ok(c) && c@ == old(self)@[k])
                &&& final(self)@ == old(self)@.remove(k)
            },
    {
        let qb = code.as_bytes_vec();
        let ghost q = code.spec_bytes();
        let n = self.chunks.len();
        let mut i: usize = 0;
        while i < n
            invariant
                i <= n,
                n == self.chunks@.len(),
                self == old(self),
                q == code.spec_bytes(),
                qb@ == q,
                forall|j: int| 0 <= j < i ==> (#[trigger] self@[j]).type_bytes != q,
            decreases n - i,
        {
            if chunk_matches(&self.chunks[i], &qb) {
                proof {
                    assert(self@[i as int].type_bytes == q);
                    lemma_first_match_at(self@, q, i as int);
                }
                let c = self.chunks.remove(i);
                proof {
                    assert(models(old(self).chunks@.remove(i as int)) =~= models(
                        old(self).chunks@,
                    ).remove(i as int));
                }
                return Ok(c);
            }
            proof {
                assert(self@[i as int] == self.chunks@[i as int]@);
            }
            i = i + 1;
        }
        Err(PngError::ChunkNotFound)
    }
}

/// True when the chunk's type bytes equal the query bytes.
fn chunk_matches(c: &Chunk, qb: &Vec<u8>) -> (r: bool)
    ensures
        r == (c@.type_bytes == qb@),
{
    let tb = c.chunk_type().bytes();
    if qb.len() != 4 {
        proof {
            assert(c@.type_bytes.len() == 4);
        }
        return false;
    }
    let r = tb[0] == qb[0] && tb[1] == qb[1] && tb[2] == qb[2] && tb[3] == qb[3];
    proof {
        if r {
            assert(c@.type_bytes =~= qb@);
        } else {
            assert(c@.type_bytes != qb@) by {
                if c@.type_bytes == qb@ {
                    assert(tb@[0] == qb@[0] && tb@[1] == qb@[1] && tb@[2] == qb@[2] && tb@[3]
                        == qb@[3]);
                }
            }
        }
    }
    r
}

/// When index `i` matches and nothing before it does, `first_match` is `i`.
proof fn lemma_first_match_at(cs: Seq<ChunkModel>, q: Seq<u8>, i: int)
    requires
        0 <= i < cs.len(),
        cs[i].type_bytes == q,
        forall|j: int| 0 <= j < i ==> (#[trigger] cs[j]).type_bytes != q,
    ensures
        has_chunk_with_type(cs, q),
        first_match(cs, q) == i,
    decreases i,
{
    if i == 0 {
    } else {
        assert(cs.drop_first()[i - 1].type_bytes == q);
        assert(forall|j: int|
            0 <= j < i - 1 ==> (#[trigger] cs.drop_first()[j]).type_bytes != q) by {
            assert(forall|j: int| 0 <= j < i - 1 ==> cs.drop_first()[j] == #[trigger] cs[j + 1]);
        }
        lemma_first_match_at(cs.drop_first(), q, i - 1);
    }
}

/// The wire form of a sequence extended by one chunk is the sequence's wire
/// form followed by that chunk's.
proof fn lemma_chunks_wire_push(cs: Seq<ChunkModel>, m: ChunkModel)
    ensures
        chunks_wire(cs.push(m)) == chunks_wire(cs) + chunk_wire(m),
    decreases cs.len(),
{
    if cs.len() == 0 {
        assert(cs.push(m)[0] == m);
        assert(cs.push(m).drop_first() =~= Seq::<ChunkModel>::empty());
        assert(chunk_wire(m) + chunks_wire(Seq::<ChunkModel>::empty()) =~= chunk_wire(m));
        assert(chunks_wire(cs) + chunk_wire(m) =~= chunk_wire(m));
    } else {
        assert(cs.push(m)[0] == cs[0]);
        assert(cs.push(m).drop_first() =~= cs.drop_first().push(m));
        lemma_chunks_wire_push(cs.drop_first(), m);
        assert(chunk_wire(cs[0]) + (chunks_wire(cs.drop_first()) + chunk_wire(m)) =~= (chunk_wire(
            cs[0],
        ) + chunks_wire(cs.drop_first())) + chunk_wire(m));
    }
}

/// Serialized well-formed chunks parse back to exactly those chunks, and
/// parsing continues into whatever follows them.
#[verifier::rlimit(50)]
pub proof fn lemma_chunks_wire_parses(cs: Seq<ChunkModel>, rest: Seq<u8>)
    requires
        forall|i: int| 0 <= i < cs.len() ==> wf_chunk(#[trigger] cs[i]),
    ensures
        parse_chunks(chunks_wire(cs) + rest) == with_prefix(cs, parse_chunks(rest)),
    decreases cs.len(),
{
    if cs.len() == 0 {
        assert(chunks_wire(cs) + rest =~= rest);
        if parse_chunks(rest) is Ok {
            assert(cs + parse_chunks(rest)->Ok_0 =~= parse_chunks(rest)->Ok_0);
        }
    } else {
        let m = cs[0];
        let b = chunks_wire(cs) + rest;
        let rest2 = chunks_wire(cs.drop_first()) + rest;
        assert(b =~= chunk_wire(m) + rest2);
        lemma_chunk_wire_round_trip(m, rest2);
        assert(b.len() >= 12 && 12 + u32_from_be(b.subrange(0, 4)) <= b.len()) by {
            assert(chunk_wire(m).len() >= 12);
        }
        assert(b.subrange(chunk_size(b), b.len() as int) =~= rest2);
        assert(forall|i: int|
            0 <= i < cs.drop_first().len() ==> wf_chunk(#[trigger] cs.drop_first()[i])) by {
            assert(forall|i: int|
                0 <= i < cs.drop_first().len() ==> cs.drop_first()[i] == #[trigger] cs[i + 1]);
        }
        lemma_chunks_wire_parses(cs.drop_first(), rest);
        if parse_chunks(rest) is Ok {
            assert(seq![m] + (cs.drop_first() + parse_chunks(rest)->Ok_0) =~= cs + parse_chunks(
                rest,
            )->Ok_0);
        }
    }
}

/// Round trip: any buffer that parses as a container serializes back to
/// exactly the original bytes.
#[verifier::rlimit(50)]
pub proof fn lemma_parse_then_serialize(b: Seq<u8>, cs: Seq<ChunkModel>)
    requires
        parse_png(b) == Ok::<Seq<ChunkModel>, PngError>(cs),
    ensures
        png_wire(cs) == b,
{
    let body = b.subrange(8, b.len() as int);
    lemma_parse_chunks_then_serialize(body, cs);
    assert(b.subrange(0, 8) == sig_seq());
    assert(png_wire(cs) == sig_seq() + body);
    assert(sig_seq() + body =~= b);
}

/// A buffer whose front parses as a chunk carries, up to the chunk's size,
/// exactly the wire form of the parsed model.
#[verifier::rlimit(50)]
proof fn lemma_parse_chunk_prefix(b: Seq<u8>)
    requires
        b.len() >= 12,
        12 + u32_from_be(b.subrange(0, 4)) <= b.len(),
        parse_chunk(b) is Ok,
    ensures
        chunk_wire(parse_chunk(b)->Ok_0) == b.subrange(0, chunk_size(b)),
        b == chunk_wire(parse_chunk(b)->Ok_0) + b.subrange(chunk_size(b), b.len() as int),
{
    let m = parse_chunk(b)->Ok_0;
    let l = u32_from_be(b.subrange(0, 4)) as int;
    assert(m.type_bytes == b.subrange(4, 8));
    assert(m.data == b.subrange(8, 8 + l));
    assert(m.data.len() == l);
    crate::chunk::lemma_be_round_trip_bytes(b.subrange(0, 4));
    crate::chunk::lemma_be_round_trip_bytes(b.subrange(8 + l, 12 + l));
    assert(crate::chunk::be_bytes(m.data.len() as u32) == b.subrange(0, 4)) by {
        assert(m.data.len() as u32 == l as u32);
    }
    assert(u32_from_be(b.subrange(8 + l, 12 + l)) == crate::crc::crc32_of(
        m.type_bytes + m.data,
    ));
    assert(crate::chunk::be_bytes(crate::crc::crc32_of(m.type_bytes + m.data)) == b.subrange(
        8 + l,
        12 + l,
    ));
    assert(chunk_wire(m) =~= b.subrange(0, 12 + l));
    assert(b =~= b.subrange(0, 12 + l) + b.subrange(12 + l, b.len() as int));
}

/// Round trip at the chunk-sequence level: a buffer that parses as a chunk
/// sequence is exactly that sequence's wire form.
#[verifier::rlimit(100)]
proof fn lemma_parse_chunks_then_serialize(b: Seq<u8>, cs: Seq<ChunkModel>)
    requires
        parse_chunks(b) == Ok::<Seq<ChunkModel>, PngError>(cs),
    ensures
        chunks_wire(cs) == b,
    decreases b.len(),
{
    if b.len() == 0 {
        assert(chunks_wire(cs) =~= b);
    } else {
        let m = parse_chunk(b)->Ok_0;
        let rest = b.subrange(chunk_size(b), b.len() as int);
        let restcs = parse_chunks(rest)->Ok_0;
        lemma_parse_chunks_then_serialize(rest, restcs);
        lemma_parse_chunk_prefix(b);
        assert(cs == seq![m] + restcs);
        assert(cs[0] == m);
        assert(cs.drop_first() =~= restcs);
        assert(chunks_wire(cs) == chunk_wire(m) + chunks_wire(restcs));
    }
}

/// Every chunk model that a successful parse yields is well-formed.
pub proof fn lemma_parse_chunks_wf(b: Seq<u8>, cs: Seq<ChunkModel>)
    requires
        parse_chunks(b) == Ok::<Seq<ChunkModel>, PngError>(cs),
    ensures
        forall|i: int| 0 <= i < cs.len() ==> wf_chunk(#[trigger] cs[i]),
    decreases b.len(),
{
    if b.len() == 0 {
    } else {
        let m = parse_chunk(b)->Ok_0;
        let l = u32_from_be(b.subrange(0, 4)) as int;
        let rest = b.subrange(chunk_size(b), b.len() as int);
        let restcs = parse_chunks(rest)->Ok_0;
        lemma_parse_chunks_wf(rest, restcs);
        assert(m.data.len() == l <= u32::MAX);
        assert(wf_chunk(m));
        assert(cs == seq![m] + restcs);
        assert(forall|i: int| 1 <= i < cs.len() ==> cs[i] == #[trigger] restcs[i - 1]);
        assert(cs[0] == m);
    }
}

/// Round trip in the other direction: a container composed of well-formed
/// chunks parses back from its own serialization to exactly those chunks.
pub proof fn lemma_serialize_then_parse(cs: Seq<ChunkModel>)
    requires
        forall|i: int| 0 <= i < cs.len() ==> wf_chunk(#[trigger] cs[i]),
    ensures
        parse_png(png_wire(cs)) == Ok::<Seq<ChunkModel>, PngError>(cs),
{
    let b = png_wire(cs);
    assert(b.subrange(0, 8) =~= sig_seq());
    assert(b.subrange(8, b.len() as int) =~= chunks_wire(cs) + Seq::<u8>::empty());
    lemma_chunks_wire_parses(cs, Seq::empty());
    assert(cs + Seq::<ChunkModel>::empty() =~= cs);
}

/// Truncation: a container whose trailing bytes declare a chunk longer than
/// what remains parses to `UnexpectedEof`, never to a silently short chunk.
pub proof fn lemma_truncated_tail_rejected(cs: Seq<ChunkModel>, tail: Seq<u8>)
    requires
        forall|i: int| 0 <= i < cs.len() ==> wf_chunk(#[trigger] cs[i]),
        tail.len() > 0,
        tail.len() < 12 || 12 + u32_from_be(tail.subrange(0, 4)) > tail.len(),
    ensures
        parse_png(png_wire(cs) + tail) == Err::<Seq<ChunkModel>, PngError>(PngError::UnexpectedEof),
{
    let b = png_wire(cs) + tail;
    assert(b.subrange(0, 8) =~= sig_seq());
    assert(b.subrange(8, b.len() as int) =~= chunks_wire(cs) + tail);
    lemma_chunks_wire_parses(cs, tail);
    assert(parse_chunks(tail) == Err::<Seq<ChunkModel>, PngError>(PngError::UnexpectedEof));
}

} // verus!
