//! Numbers as eight bytes, most significant first.

use vstd::prelude::*;

verus! {

/// The byte of `x` that lies `shift` bits above its lowest bit.
pub open spec fn byte_of(x: u64, shift: u64) -> u8 {
    ((x >> shift) & 0xff) as u8
}

/// The eight bytes of `x`, most significant first.
pub open spec fn be_bytes(x: u64) -> Seq<u8> {
    seq![
        byte_of(x, 56),
        byte_of(x, 48),
        byte_of(x, 40),
        byte_of(x, 32),
        byte_of(x, 24),
        byte_of(x, 16),
        byte_of(x, 8),
        byte_of(x, 0),
    ]
}

/// The number that eight bytes spell, most significant first.
pub open spec fn be_pack(b0: u8, b1: u8, b2: u8, b3: u8, b4: u8, b5: u8, b6: u8, b7: u8) -> u64 {
    (b0 as u64) << 56 | (b1 as u64) << 48 | (b2 as u64) << 40 | (b3 as u64) << 32 | (b4 as u64)
        << 24 | (b5 as u64) << 16 | (b6 as u64) << 8 | (b7 as u64)
}

/// The number that the first eight bytes of `b` spell, most significant first.
pub open spec fn be_value(b: Seq<u8>) -> u64
    recommends
        b.len() >= 8,
{
    be_pack(b[0], b[1], b[2], b[3], b[4], b[5], b[6], b[7])
}

/// Reading back the bytes of a number gives the number.
pub proof fn lemma_be_value_of_bytes(x: u64)
    ensures
        be_bytes(x).len() == 8,
        be_value(be_bytes(x)) == x,
{
    assert(((((x >> 56) & 0xff) as u8) as u64) << 56 | ((((x >> 48) & 0xff) as u8) as u64) << 48 | (
    (((x >> 40) & 0xff) as u8) as u64) << 40 | ((((x >> 32) & 0xff) as u8) as u64) << 32 | ((((x
        >> 24) & 0xff) as u8) as u64) << 24 | ((((x >> 16) & 0xff) as u8) as u64) << 16 | ((((x
        >> 8) & 0xff) as u8) as u64) << 8 | ((((x >> 0) & 0xff) as u8) as u64) == x)
        by (bit_vector);
}

/// The bytes of the number that eight bytes spell are those eight bytes.
pub proof fn lemma_be_bytes_of_value(b: Seq<u8>)
    requires
        b.len() == 8,
    ensures
        be_bytes(be_value(b)) == b,
{
    let (b0, b1, b2, b3, b4, b5, b6, b7) = (b[0], b[1], b[2], b[3], b[4], b[5], b[6], b[7]);
    let v = be_value(b);
    assert(v == (b0 as u64) << 56 | (b1 as u64) << 48 | (b2 as u64) << 40 | (b3 as u64) << 32 | (
    b4 as u64) << 24 | (b5 as u64) << 16 | (b6 as u64) << 8 | (b7 as u64));
    assert(v == (b0 as u64) << 56 | (b1 as u64) << 48 | (b2 as u64) << 40 | (b3 as u64) << 32 | (
    b4 as u64) << 24 | (b5 as u64) << 16 | (b6 as u64) << 8 | (b7 as u64) ==> {
        &&& ((v >> 56) & 0xff) as u8 == b0
        &&& ((v >> 48) & 0xff) as u8 == b1
        &&& ((v >> 40) & 0xff) as u8 == b2
        &&& ((v >> 32) & 0xff) as u8 == b3
        &&& ((v >> 24) & 0xff) as u8 == b4
        &&& ((v >> 16) & 0xff) as u8 == b5
        &&& ((v >> 8) & 0xff) as u8 == b6
        &&& ((v >> 0) & 0xff) as u8 == b7
    }) by (bit_vector);
    assert(be_bytes(v) =~= b);
}

/// Appends the eight big-endian bytes of `x` to `buf`.
pub fn push_be_u64(buf: &mut Vec<u8>, x: u64)
    ensures
        final(buf)@ == old(buf)@ + be_bytes(x),
{
    buf.push(((x >> 56) & 0xff) as u8);
    buf.push(((x >> 48) & 0xff) as u8);
    buf.push(((x >> 40) & 0xff) as u8);
    buf.push(((x >> 32) & 0xff) as u8);
    buf.push(((x >> 24) & 0xff) as u8);
    buf.push(((x >> 16) & 0xff) as u8);
    buf.push(((x >> 8) & 0xff) as u8);
    buf.push(((x >> 0) & 0xff) as u8);
    assert(buf@ =~= old(buf)@ + be_bytes(x));
}

/// Reads the big-endian number that the eight bytes of `b` from `at` on spell.
pub fn read_be_u64(b: &[u8], at: usize) -> (x: u64)
    requires
        at + 8 <= b@.len(),
    ensures
        x == be_value(b@.subrange(at as int, at + 8)),
{
    (b[at] as u64) << 56 | (b[at + 1] as u64) << 48 | (b[at + 2] as u64) << 40 | (b[at + 3] as u64)
        << 32 | (b[at + 4] as u64) << 24 | (b[at + 5] as u64) << 16 | (b[at + 6] as u64) << 8 | (
    b[at + 7] as u64)
}

} // verus!
