use vstd::prelude::*;

verus! {

/// Big-endian bytes of a 32-bit value.
pub open spec fn be32(x: u32) -> Seq<u8> {
    seq![(x >> 24u32) as u8, (x >> 16u32) as u8, (x >> 8u32) as u8, x as u8]
}

/// Little-endian bytes of a 32-bit value.
pub open spec fn le32(x: u32) -> Seq<u8> {
    seq![x as u8, (x >> 8u32) as u8, (x >> 16u32) as u8, (x >> 24u32) as u8]
}

/// Big-endian bytes of the low 24 bits of a value.
pub open spec fn be24(x: u32) -> Seq<u8> {
    seq![(x >> 16u32) as u8, (x >> 8u32) as u8, x as u8]
}

/// The value of three big-endian bytes.
pub open spec fn be24_value(b0: u8, b1: u8, b2: u8) -> u32 {
    ((b0 as u32) << 16u32) | ((b1 as u32) << 8u32) | (b2 as u32)
}

proof fn lemma_be32(b0: u8, b1: u8, b2: u8, b3: u8, x: u32)
    requires
        x == ((b0 as u32) << 24u32) | ((b1 as u32) << 16u32) | ((b2 as u32) << 8u32) | (b3 as u32),
    ensures
        (x >> 24u32) as u8 == b0,
        (x >> 16u32) as u8 == b1,
        (x >> 8u32) as u8 == b2,
        x as u8 == b3,
{
    assert((x >> 24u32) as u8 == b0 && (x >> 16u32) as u8 == b1 && (x >> 8u32) as u8 == b2
        && x as u8 == b3) by (bit_vector)
        requires
            x == ((b0 as u32) << 24u32) | ((b1 as u32) << 16u32) | ((b2 as u32) << 8u32) | (
            b3 as u32),
    ;
}

pub proof fn lemma_be32_injective(x: u32, y: u32)
    requires
        be32(x) == be32(y),
    ensures
        x == y,
{
    assert(be32(x)[0] == be32(y)[0] && be32(x)[1] == be32(y)[1] && be32(x)[2] == be32(y)[2]
        && be32(x)[3] == be32(y)[3]);
    assert(x == y) by (bit_vector)
        requires
            (x >> 24u32) as u8 == (y >> 24u32) as u8,
            (x >> 16u32) as u8 == (y >> 16u32) as u8,
            (x >> 8u32) as u8 == (y >> 8u32) as u8,
            x as u8 == y as u8,
    ;
}

pub proof fn lemma_le32_injective(x: u32, y: u32)
    requires
        le32(x) == le32(y),
    ensures
        x == y,
{
    assert(le32(x)[0] == le32(y)[0] && le32(x)[1] == le32(y)[1] && le32(x)[2] == le32(y)[2]
        && le32(x)[3] == le32(y)[3]);
    assert(x == y) by (bit_vector)
        requires
            (x >> 24u32) as u8 == (y >> 24u32) as u8,
            (x >> 16u32) as u8 == (y >> 16u32) as u8,
            (x >> 8u32) as u8 == (y >> 8u32) as u8,
            x as u8 == y as u8,
    ;
}

pub proof fn lemma_be24_injective(x: u32, y: u32)
    requires
        x <= 0xFF_FFFF,
        y <= 0xFF_FFFF,
        be24(x) == be24(y),
    ensures
        x == y,
{
    assert(be24(x)[0] == be24(y)[0] && be24(x)[1] == be24(y)[1] && be24(x)[2] == be24(y)[2]);
    let (a0, a1, a2) = ((x >> 16u32) as u8, (x >> 8u32) as u8, x as u8);
    let (b0, b1, b2) = ((y >> 16u32) as u8, (y >> 8u32) as u8, y as u8);
    assert(x == y) by (bit_vector)
        requires
            x <= 0xFF_FFFF,
            y <= 0xFF_FFFF,
            (x >> 16u32) as u8 == (y >> 16u32) as u8,
            (x >> 8u32) as u8 == (y >> 8u32) as u8,
            x as u8 == y as u8,
    ;
}

pub proof fn lemma_be24(b0: u8, b1: u8, b2: u8)
    ensures
        be24(be24_value(b0, b1, b2)) == seq![b0, b1, b2],
        be24_value(b0, b1, b2) <= 0xFF_FFFF,
{
    let x = be24_value(b0, b1, b2);
    assert((x >> 16u32) as u8 == b0 && (x >> 8u32) as u8 == b1 && x as u8 == b2 && x
        <= 0xFF_FFFF) by (bit_vector)
        requires
            x == ((b0 as u32) << 16u32) | ((b1 as u32) << 8u32) | (b2 as u32),
    ;
    assert(be24(x) =~= seq![b0, b1, b2]);
}

/// Reads a big-endian 32-bit value at `pos`.
pub fn read_be32(b: &[u8], pos: usize) -> (r: u32)
    requires
        pos + 4 <= b@.len(),
    ensures
        be32(r) == b@.subrange(pos as int, pos + 4),
{
    let _n = b.len();
    let r: u32 = ((b[pos] as u32) << 24u32) | ((b[pos + 1] as u32) << 16u32) | ((b[pos + 2] as u32)
        << 8u32) | (b[pos + 3] as u32);
    proof {
        lemma_be32(b@[pos as int], b@[pos + 1], b@[pos + 2], b@[pos + 3], r);
        assert(be32(r) =~= b@.subrange(pos as int, pos + 4));
    }
    r
}

/// Reads a little-endian 32-bit value at `pos`.
pub fn read_le32(b: &[u8], pos: usize) -> (r: u32)
    requires
        pos + 4 <= b@.len(),
    ensures
        le32(r) == b@.subrange(pos as int, pos + 4),
{
    let _n = b.len();
    let r: u32 = ((b[pos + 3] as u32) << 24u32) | ((b[pos + 2] as u32) << 16u32) | ((b[pos + 1]
        as u32) << 8u32) | (b[pos] as u32);
    proof {
        lemma_be32(b@[pos + 3], b@[pos + 2], b@[pos + 1], b@[pos as int], r);
        assert(le32(r) =~= b@.subrange(pos as int, pos + 4));
    }
    r
}

/// Reads a big-endian 24-bit value at `pos`.
pub fn read_be24(b: &[u8], pos: usize) -> (r: u32)
    requires
        pos + 3 <= b@.len(),
    ensures
        r == be24_value(b@[pos as int], b@[pos + 1], b@[pos + 2]),
        r <= 0xFF_FFFF,
        be24(r) == b@.subrange(pos as int, pos + 3),
{
    let _n = b.len();
    let r: u32 = ((b[pos] as u32) << 16u32) | ((b[pos + 1] as u32) << 8u32) | (b[pos + 2] as u32);
    proof {
        lemma_be24(b@[pos as int], b@[pos + 1], b@[pos + 2]);
        assert(b@.subrange(pos as int, pos + 3) =~= seq![b@[pos as int], b@[pos + 1], b@[pos + 2]]);
    }
    r
}

/// Appends the big-endian bytes of `x`.
pub fn push_be32(out: &mut Vec<u8>, x: u32)
    ensures
        final(out)@ == old(out)@ + be32(x),
{
    out.push((x >> 24u32) as u8);
    out.push((x >> 16u32) as u8);
    out.push((x >> 8u32) as u8);
    out.push(x as u8);
    assert(final(out)@ =~= old(out)@ + be32(x));
}

/// Appends the little-endian bytes of `x`.
pub fn push_le32(out: &mut Vec<u8>, x: u32)
    ensures
        final(out)@ == old(out)@ + le32(x),
{
    out.push(x as u8);
    out.push((x >> 8u32) as u8);
    out.push((x >> 16u32) as u8);
    out.push((x >> 24u32) as u8);
    assert(final(out)@ =~= old(out)@ + le32(x));
}

/// Appends the big-endian bytes of the low 24 bits of `x`.
pub fn push_be24(out: &mut Vec<u8>, x: u32)
    ensures
        final(out)@ == old(out)@ + be24(x),
{
    out.push((x >> 16u32) as u8);
    out.push((x >> 8u32) as u8);
    out.push(x as u8);
    assert(final(out)@ =~= old(out)@ + be24(x));
}

/// Appends a copy of `src`.
pub fn push_all(out: &mut Vec<u8>, src: &[u8])
    ensures
        final(out)@ == old(out)@ + src@,
{
    let mut i: usize = 0;
    while i < src.len()
        invariant
            i <= src@.len(),
            out@ == old(out)@ + src@.subrange(0, i as int),
        decreases src@.len() - i,
    {
        out.push(src[i]);
        i = i + 1;
        assert(out@ =~= old(out)@ + src@.subrange(0, i as int));
    }
    assert(src@.subrange(0, i as int) =~= src@);
}

/// Copies `b[from..to]` into a new vector.
pub fn copy_range(b: &[u8], from: usize, to: usize) -> (r: Vec<u8>)
    requires
        from <= to <= b@.len(),
    ensures
        r@ == b@.subrange(from as int, to as int),
{
    let mut r: Vec<u8> = Vec::new();
    push_all(&mut r, vstd::slice::slice_subrange(b, from, to));
    assert(r@ =~= b@.subrange(from as int, to as int));
    r
}

} // verus!
