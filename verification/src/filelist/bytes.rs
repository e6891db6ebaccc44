//! Small byte-level helpers shared by the encoder and the decoder.

use vstd::prelude::*;

verus! {

/// The byte that a count is written as when it is stored in one byte
/// (the count modulo 256).
pub open spec fn byte_of(n: nat) -> u8 {
    (n % 256) as u8
}

/// The value that a length is written as when it is stored in four bytes
/// (the length modulo 2^32).
pub open spec fn u32_of(n: nat) -> u32 {
    (n % 0x1_0000_0000) as u32
}

/// Little-endian bytes of a `u32`.
pub open spec fn le32(v: u32) -> Seq<u8> {
    seq![
        (v % 256) as u8,
        ((v / 256) % 256) as u8,
        ((v / 65536) % 256) as u8,
        (v / 16777216) as u8,
    ]
}

/// The `u32` whose little-endian bytes are the first four of `b`.
pub open spec fn from_le32(b: Seq<u8>) -> u32 {
    (b[0] as int + 256 * b[1] as int + 65536 * b[2] as int + 16777216 * b[3] as int) as u32
}

pub proof fn lemma_le32_roundtrip(v: u32)
    ensures
        le32(v).len() == 4,
        from_le32(le32(v)) == v,
{
}

/// Little-endian bytes of `v`, as the wire stores a 32-bit count.
pub fn u32_to_le(v: u32) -> (r: [u8; 4])
    ensures
        r@ == le32(v),
{
    let b0 = (v % 256) as u8;
    let b1 = ((v / 256) % 256) as u8;
    let b2 = ((v / 65536) % 256) as u8;
    let b3 = (v / 16777216) as u8;
    let r = [b0, b1, b2, b3];
    assert(r@ =~= le32(v));
    r
}

/// The `u32` stored little-endian in `input[pos..pos + 4]`.
pub fn u32_from_le(input: &[u8], pos: usize) -> (r: u32)
    requires
        pos + 4 <= input@.len(),
    ensures
        r == from_le32(input@.subrange(pos as int, pos + 4)),
{
    let v: u32 = input[pos] as u32 + 256 * (input[pos + 1] as u32) + 65536 * (input[pos + 2] as u32)
        + 16777216 * (input[pos + 3] as u32);
    v
}

/// A length as the wire stores it in four bytes (modulo 2^32, as `as u32`
/// truncates it).
pub fn len_u32(n: usize) -> (r: u32)
    ensures
        r == u32_of(n as nat),
{
    ((n as u64) % 0x1_0000_0000u64) as u32
}

/// Appends `src` to `out`.
pub fn push_all(out: &mut Vec<u8>, src: &[u8])
    ensures
        final(out)@ == old(out)@ + src@,
{
    let mut i: usize = 0;
    while i < src.len()
        invariant
            i <= src@.len(),
            out@ == old(out)@ + src@.subrange(0, i as int),
        decreases src@.len() - i,
    {
        out.push(src[i]);
        i = i + 1;
        assert(out@ =~= old(out)@ + src@.subrange(0, i as int));
    }
    assert(src@.subrange(0, src@.len() as int) =~= src@);
}

/// Appends `input[from..to]` to `out`.
pub fn push_range(out: &mut Vec<u8>, input: &[u8], from: usize, to: usize)
    requires
        from <= to <= input@.len(),
    ensures
        final(out)@ == old(out)@ + input@.subrange(from as int, to as int),
{
    let mut i: usize = from;
    while i < to
        invariant
            from <= i <= to <= input@.len(),
            out@ == old(out)@ + input@.subrange(from as int, i as int),
        decreases to - i,
    {
        out.push(input[i]);
        i = i + 1;
        assert(out@ =~= old(out)@ + input@.subrange(from as int, i as int));
    }
}

/// A copy of `input[from..to]`.
pub fn copy_range(input: &[u8], from: usize, to: usize) -> (r: Vec<u8>)
    requires
        from <= to <= input@.len(),
    ensures
        r@ == input@.subrange(from as int, to as int),
{
    let mut r: Vec<u8> = Vec::new();
    let mut i: usize = from;
    while i < to
        invariant
            from <= i <= to <= input@.len(),
            r@ == input@.subrange(from as int, i as int),
        decreases to - i,
    {
        r.push(input[i]);
        i = i + 1;
        assert(r@ =~= input@.subrange(from as int, i as int));
    }
    r
}

} // verus!
