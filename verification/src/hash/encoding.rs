use vstd::prelude::*;

verus! {

/// The 8-byte little-endian encoding of `x`.
pub open spec fn le_bytes_u64(x: u64) -> Seq<u8> {
    seq![
        x as u8,
        (x >> 8) as u8,
        (x >> 16) as u8,
        (x >> 24) as u8,
        (x >> 32) as u8,
        (x >> 40) as u8,
        (x >> 48) as u8,
        (x >> 56) as u8,
    ]
}

/// The 2-byte little-endian encoding of `x`.
pub open spec fn le_bytes_u16(x: u16) -> Seq<u8> {
    seq![x as u8, (x >> 8) as u8]
}

/// The word whose little-endian encoding is the first 8 bytes of `b`.
pub open spec fn le_word(b: Seq<u8>) -> u64
    recommends
        b.len() >= 8,
{
    (b[0] as u64) | ((b[1] as u64) << 8) | ((b[2] as u64) << 16) | ((b[3] as u64) << 24) | ((
    b[4] as u64) << 32) | ((b[5] as u64) << 40) | ((b[6] as u64) << 48) | ((b[7] as u64) << 56)
}

/// The number whose little-endian encoding is the first 2 bytes of `b`.
pub open spec fn le_half(b: Seq<u8>) -> u16
    recommends
        b.len() >= 2,
{
    (b[0] as u16) | ((b[1] as u16) << 8)
}

/// Decoding the encoding of a word gives the word back.
pub proof fn lemma_le_word_of_bytes(x: u64)
    ensures
        le_word(le_bytes_u64(x)) == x,
        le_bytes_u64(x).len() == 8,
{
    let b = le_bytes_u64(x);
    let b0 = x as u8;
    let b1 = (x >> 8) as u8;
    let b2 = (x >> 16) as u8;
    let b3 = (x >> 24) as u8;
    let b4 = (x >> 32) as u8;
    let b5 = (x >> 40) as u8;
    let b6 = (x >> 48) as u8;
    let b7 = (x >> 56) as u8;
    assert(b[0] == b0 && b[1] == b1 && b[2] == b2 && b[3] == b3);
    assert(b[4] == b4 && b[5] == b5 && b[6] == b6 && b[7] == b7);
    assert((b0 as u64) | ((b1 as u64) << 8) | ((b2 as u64) << 16) | ((b3 as u64) << 24) | ((
    b4 as u64) << 32) | ((b5 as u64) << 40) | ((b6 as u64) << 48) | ((b7 as u64) << 56) == x)
        by (bit_vector)
        requires
            b0 == x as u8,
            b1 == (x >> 8) as u8,
            b2 == (x >> 16) as u8,
            b3 == (x >> 24) as u8,
            b4 == (x >> 32) as u8,
            b5 == (x >> 40) as u8,
            b6 == (x >> 48) as u8,
            b7 == (x >> 56) as u8,
    ;
}

/// Decoding the encoding of a 16-bit number gives the number back.
pub proof fn lemma_le_half_of_bytes(x: u16)
    ensures
        le_half(le_bytes_u16(x)) == x,
        le_bytes_u16(x).len() == 2,
{
    let b0 = x as u8;
    let b1 = (x >> 8) as u8;
    assert((b0 as u16) | ((b1 as u16) << 8) == x) by (bit_vector)
        requires
            b0 == x as u8,
            b1 == (x >> 8) as u8,
    ;
}

/// Encodes `x` as 8 little-endian bytes.
pub fn encode_u64_le(x: u64) -> (r: [u8; 8])
    ensures
        r@ == le_bytes_u64(x),
{
    let r = [
        x as u8,
        (x >> 8) as u8,
        (x >> 16) as u8,
        (x >> 24) as u8,
        (x >> 32) as u8,
        (x >> 40) as u8,
        (x >> 48) as u8,
        (x >> 56) as u8,
    ];
    assert(r@ =~= le_bytes_u64(x));
    r
}

/// Encodes `x` as 2 little-endian bytes.
pub fn encode_u16_le(x: u16) -> (r: [u8; 2])
    ensures
        r@ == le_bytes_u16(x),
{
    let r = [x as u8, (x >> 8) as u8];
    assert(r@ =~= le_bytes_u16(x));
    r
}

/// Decodes the little-endian word stored at `b[off..off + 8]`.
pub fn decode_u64_le(b: &[u8], off: usize) -> (r: u64)
    requires
        off + 8 <= b@.len(),
    ensures
        r == le_word(b@.subrange(off as int, off + 8)),
{
    (b[off] as u64) | ((b[off + 1] as u64) << 8) | ((b[off + 2] as u64) << 16) | ((b[off
        + 3] as u64) << 24) | ((b[off + 4] as u64) << 32) | ((b[off + 5] as u64) << 40) | ((b[off
        + 6] as u64) << 48) | ((b[off + 7] as u64) << 56)
}

/// Decodes the little-endian 16-bit number stored at `b[off..off + 2]`.
pub fn decode_u16_le(b: &[u8], off: usize) -> (r: u16)
    requires
        off + 2 <= b@.len(),
    ensures
        r == le_half(b@.subrange(off as int, off + 2)),
{
    (b[off] as u16) | ((b[off + 1] as u16) << 8)
}

/// Appends the bytes of `src` to `out`.
pub fn append_bytes(out: &mut Vec<u8>, src: &[u8])
    ensures
        final(out)@ == old(out)@ + src@,
{
    let ghost start = out@;
    let mut i: usize = 0;
    while i < src.len()
        invariant
            0 <= i <= src@.len(),
            out@ == start + src@.subrange(0, i as int),
        decreases src@.len() - i,
    {
        out.push(src[i]);
        i += 1;
        assert(out@ =~= start + src@.subrange(0, i as int));
    }
    assert(src@.subrange(0, src@.len() as int) =~= src@);
}

} // verus!
