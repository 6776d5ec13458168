//! CRC-32 as used by the PNG ecosystem: reflected polynomial 0xEDB88320,
//! seed 0xFFFFFFFF, output inverted.
//!
//! The checksum is specified bit by bit ([`crc_shift`], [`crc_feed`],
//! [`crc_state`], [`crc32_of`]) and the executable functions are proved to
//! compute exactly that specification.
use vstd::prelude::*;

verus! {

/// One shift step of the bitwise CRC-32 computation.
pub open spec fn crc_shift(s: u32) -> u32 {
    if s & 1 == 1 {
        (s >> 1) ^ 0xEDB8_8320u32
    } else {
        s >> 1
    }
}

/// `n` shift steps applied to `s`.
pub open spec fn crc_shifts(s: u32, n: nat) -> u32
    decreases n,
{
    if n == 0 {
        s
    } else {
        crc_shift(crc_shifts(s, (n - 1) as nat))
    }
}

/// Folding one byte into the running CRC state.
pub open spec fn crc_feed(s: u32, b: u8) -> u32 {
    crc_shifts(s ^ (b as u32), 8)
}

/// The CRC state after folding every byte of `bytes`, in order, into `s`.
pub open spec fn crc_state(s: u32, bytes: Seq<u8>) -> u32
    decreases bytes.len(),
{
    if bytes.len() == 0 {
        s
    } else {
        crc_state(crc_feed(s, bytes[0]), bytes.drop_first())
    }
}

/// The CRC-32 checksum of `bytes`.
pub open spec fn crc32_of(bytes: Seq<u8>) -> u32 {
    crc_state(0xFFFF_FFFFu32, bytes) ^ 0xFFFF_FFFFu32
}

/// The CRC state over a one-byte sequence is one feed step.
proof fn lemma_crc_state_singleton(s: u32, x: u8)
    ensures
        crc_state(s, seq![x]) == crc_feed(s, x),
{
    assert(seq![x][0] == x);
    assert(seq![x].drop_first() =~= Seq::<u8>::empty());
    assert(crc_state(s, seq![x]) == crc_state(crc_feed(s, x), seq![x].drop_first()));
    assert(crc_state(crc_feed(s, x), seq![x].drop_first()) == crc_feed(s, x));
}

/// Folding bytes one at a time from the right agrees with the front-first
/// definition of [`crc_state`].
pub proof fn lemma_crc_state_push(s: u32, bytes: Seq<u8>, b: u8)
    ensures
        crc_state(s, bytes.push(b)) == crc_feed(crc_state(s, bytes), b),
    decreases bytes.len(),
{
    if bytes.len() == 0 {
        assert(bytes.push(b) =~= seq![b]);
        lemma_crc_state_singleton(s, b);
    } else {
        assert(bytes.push(b)[0] == bytes[0]);
        assert(bytes.push(b).drop_first() =~= bytes.drop_first().push(b));
        lemma_crc_state_push(crc_feed(s, bytes[0]), bytes.drop_first(), b);
    }
}

/// The CRC state over a concatenation can be computed in two passes.
pub proof fn lemma_crc_state_concat(s: u32, a: Seq<u8>, b: Seq<u8>)
    ensures
        crc_state(s, a + b) == crc_state(crc_state(s, a), b),
    decreases a.len(),
{
    if a.len() == 0 {
        assert(a + b =~= b);
    } else {
        assert((a + b)[0] == a[0]);
        assert((a + b).drop_first() =~= a.drop_first() + b);
        lemma_crc_state_concat(crc_feed(s, a[0]), a.drop_first(), b);
    }
}

/// One shift step never maps two distinct states to the same state.
proof fn lemma_crc_shift_injective(s1: u32, s2: u32)
    by (bit_vector)
    requires
        s1 != s2,
    ensures
        crc_shift(s1) != crc_shift(s2),
{
}

/// Any number of shift steps keeps distinct states distinct.
proof fn lemma_crc_shifts_injective(s1: u32, s2: u32, n: nat)
    requires
        s1 != s2,
    ensures
        crc_shifts(s1, n) != crc_shifts(s2, n),
    decreases n,
{
    if n != 0 {
        lemma_crc_shifts_injective(s1, s2, (n - 1) as nat);
        lemma_crc_shift_injective(crc_shifts(s1, (n - 1) as nat), crc_shifts(s2, (n - 1) as nat));
    }
}

/// Feeding the same byte into distinct states leaves them distinct.
proof fn lemma_crc_feed_injective_state(s1: u32, s2: u32, b: u8)
    requires
        s1 != s2,
    ensures
        crc_feed(s1, b) != crc_feed(s2, b),
{
    assert(s1 ^ (b as u32) != s2 ^ (b as u32)) by (bit_vector)
        requires
            s1 != s2,
    ;
    lemma_crc_shifts_injective(s1 ^ (b as u32), s2 ^ (b as u32), 8);
}

/// Feeding distinct bytes into the same state separates the states.
proof fn lemma_crc_feed_injective_byte(s: u32, b1: u8, b2: u8)
    requires
        b1 != b2,
    ensures
        crc_feed(s, b1) != crc_feed(s, b2),
{
    assert(s ^ (b1 as u32) != s ^ (b2 as u32)) by (bit_vector)
        requires
            b1 != b2,
    ;
    lemma_crc_shifts_injective(s ^ (b1 as u32), s ^ (b2 as u32), 8);
}

/// Processing the same bytes from distinct states ends in distinct states.
proof fn lemma_crc_state_injective(s1: u32, s2: u32, bytes: Seq<u8>)
    requires
        s1 != s2,
    ensures
        crc_state(s1, bytes) != crc_state(s2, bytes),
    decreases bytes.len(),
{
    if bytes.len() != 0 {
        lemma_crc_feed_injective_state(s1, s2, bytes[0]);
        lemma_crc_state_injective(crc_feed(s1, bytes[0]), crc_feed(s2, bytes[0]), bytes.drop_first());
    }
}

/// Two byte sequences of the same length that differ in exactly one byte
/// always have different CRC-32 checksums. In particular flipping any single
/// bit of a message changes its checksum.
pub proof fn lemma_crc32_detects_byte_change(a: Seq<u8>, b: Seq<u8>, i: int)
    requires
        a.len() == b.len(),
        0 <= i < a.len(),
        a[i] != b[i],
        forall|j: int| 0 <= j < a.len() && j != i ==> a[j] == b[j],
    ensures
        crc32_of(a) != crc32_of(b),
{
    let pre = a.subrange(0, i);
    let sufa = a.subrange(i + 1, a.len() as int);
    let sufb = b.subrange(i + 1, b.len() as int);
    assert(a =~= pre + seq![a[i]] + sufa);
    assert(b =~= pre + seq![b[i]] + sufb);
    assert(sufa =~= sufb);
    let init = 0xFFFF_FFFFu32;
    lemma_crc_state_concat(init, pre + seq![a[i]], sufa);
    lemma_crc_state_concat(init, pre + seq![b[i]], sufb);
    lemma_crc_state_concat(init, pre, seq![a[i]]);
    lemma_crc_state_concat(init, pre, seq![b[i]]);
    let s = crc_state(init, pre);
    lemma_crc_state_singleton(s, a[i]);
    lemma_crc_state_singleton(s, b[i]);
    lemma_crc_feed_injective_byte(s, a[i], b[i]);
    lemma_crc_state_injective(crc_feed(s, a[i]), crc_feed(s, b[i]), sufa);
    let f1 = crc_state(init, a);
    let f2 = crc_state(init, b);
    assert(f1 != f2);
    assert(f1 ^ 0xFFFF_FFFFu32 != f2 ^ 0xFFFF_FFFFu32) by (bit_vector)
        requires
            f1 != f2,
    ;
}

/// One shift step, executable form.
fn crc_shift_exec(s: u32) -> (r: u32)
    ensures
        r == crc_shift(s),
{
    if s & 1 == 1 {
        (s >> 1u32) ^ 0xEDB8_8320u32
    } else {
        s >> 1u32
    }
}

/// Folds one byte into the running CRC state.
fn crc_feed_exec(s: u32, b: u8) -> (r: u32)
    ensures
        r == crc_feed(s, b),
{
    let mut c: u32 = s ^ (b as u32);
    let mut k: usize = 0;
    while k < 8
        invariant
            k <= 8,
            c == crc_shifts(s ^ (b as u32), k as nat),
        decreases 8 - k,
    {
        c = crc_shift_exec(c);
        k = k + 1;
    }
    c
}

/// Folds `bytes[from..to]` into the running CRC state.
fn crc_feed_range(s: u32, bytes: &Vec<u8>, from: usize, to: usize) -> (r: u32)
    requires
        from <= to <= bytes@.len(),
    ensures
        r == crc_state(s, bytes@.subrange(from as int, to as int)),
{
    let mut c: u32 = s;
    let mut i: usize = from;
    proof {
        assert(bytes@.subrange(from as int, from as int) =~= Seq::<u8>::empty());
    }
    while i < to
        invariant
            from <= i <= to <= bytes@.len(),
            c == crc_state(s, bytes@.subrange(from as int, i as int)),
        decreases to - i,
    {
        let b = bytes[i];
        proof {
            assert(bytes@.subrange(from as int, i + 1) =~= bytes@.subrange(
                from as int,
                i as int,
            ).push(b));
            lemma_crc_state_push(s, bytes@.subrange(from as int, i as int), b);
        }
        c = crc_feed_exec(c, b);
        i = i + 1;
    }
    c
}

/// The CRC-32 checksum of the concatenation of a 4-byte type code and a
/// payload, as a chunk stores it.
pub fn crc32_type_and_data(type_bytes: &[u8; 4], data: &Vec<u8>) -> (r: u32)
    ensures
        r == crc32_of(type_bytes@ + data@),
{
    let mut c: u32 = 0xFFFF_FFFFu32;
    let mut i: usize = 0;
    proof {
        assert(type_bytes@.subrange(0, 0) =~= Seq::<u8>::empty());
    }
    while i < 4
        invariant
            i <= 4,
            c == crc_state(0xFFFF_FFFFu32, type_bytes@.subrange(0, i as int)),
        decreases 4 - i,
    {
        let b = type_bytes[i];
        proof {
            assert(type_bytes@.subrange(0, i + 1) =~= type_bytes@.subrange(0, i as int).push(b));
            lemma_crc_state_push(0xFFFF_FFFFu32, type_bytes@.subrange(0, i as int), b);
        }
        c = crc_feed_exec(c, b);
        i = i + 1;
    }
    proof {
        assert(type_bytes@.subrange(0, 4) =~= type_bytes@);
        assert(data@.subrange(0, data@.len() as int) =~= data@);
        lemma_crc_state_concat(0xFFFF_FFFFu32, type_bytes@, data@);
    }
    let c2 = crc_feed_range(c, data, 0, data.len());
    c2 ^ 0xFFFF_FFFFu32
}

/// The CRC-32 checksum of a whole byte buffer.
pub fn crc32(bytes: &Vec<u8>) -> (r: u32)
    ensures
        r == crc32_of(bytes@),
{
    let c = crc_feed_range(0xFFFF_FFFFu32, bytes, 0, bytes.len());
    proof {
        assert(bytes@.subrange(0, bytes@.len() as int) =~= bytes@);
    }
    c ^ 0xFFFF_FFFFu32
}

} // verus!
