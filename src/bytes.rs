use vstd::prelude::*;

verus! {

/// Little-endian encoding of a `u32`.
pub open spec fn le32(v: u32) -> Seq<u8> {
    seq![(v & 0xff) as u8, ((v >> 8) & 0xff) as u8, ((v >> 16) & 0xff) as u8, (v >> 24) as u8]
}

/// Little-endian encoding of a `u64`: low word, then high word.
pub open spec fn le64(v: u64) -> Seq<u8> {
    le32(v as u32) + le32((v >> 32) as u32)
}

pub open spec fn compose_u32(b0: u8, b1: u8, b2: u8, b3: u8) -> u32 {
    (b0 as u32) | ((b1 as u32) << 8) | ((b2 as u32) << 16) | ((b3 as u32) << 24)
}

/// The `u32` stored little-endian at `off`.
pub open spec fn read_le32(b: Seq<u8>, off: int) -> u32 {
    compose_u32(b[off], b[off + 1], b[off + 2], b[off + 3])
}

/// The `u64` stored little-endian at `off`.
pub open spec fn read_le64(b: Seq<u8>, off: int) -> u64 {
    (read_le32(b, off) as u64) | ((read_le32(b, off + 4) as u64) << 32)
}

pub open spec fn zeros(n: nat) -> Seq<u8> {
    Seq::new(n, |i: int| 0u8)
}

/// The least multiple of four that is at least `n`.
pub open spec fn align4(n: int) -> int {
    (n + 3) / 4 * 4
}

proof fn lemma_compose_split(b0: u8, b1: u8, b2: u8, b3: u8)
    ensures
        (compose_u32(b0, b1, b2, b3) & 0xff) as u8 == b0,
        ((compose_u32(b0, b1, b2, b3) >> 8) & 0xff) as u8 == b1,
        ((compose_u32(b0, b1, b2, b3) >> 16) & 0xff) as u8 == b2,
        (compose_u32(b0, b1, b2, b3) >> 24) as u8 == b3,
{
    assert(((b0 as u32) | ((b1 as u32) << 8) | ((b2 as u32) << 16) | ((b3 as u32) << 24)) & 0xff
        == b0 as u32) by (bit_vector);
    assert((((b0 as u32) | ((b1 as u32) << 8) | ((b2 as u32) << 16) | ((b3 as u32) << 24)) >> 8)
        & 0xff == b1 as u32) by (bit_vector);
    assert((((b0 as u32) | ((b1 as u32) << 8) | ((b2 as u32) << 16) | ((b3 as u32) << 24)) >> 16)
        & 0xff == b2 as u32) by (bit_vector);
    assert((((b0 as u32) | ((b1 as u32) << 8) | ((b2 as u32) << 16) | ((b3 as u32) << 24)) >> 24)
        == b3 as u32) by (bit_vector);
}

proof fn lemma_split_compose(v: u32)
    ensures
        compose_u32(
            (v & 0xff) as u8,
            ((v >> 8) & 0xff) as u8,
            ((v >> 16) & 0xff) as u8,
            (v >> 24) as u8,
        ) == v,
{
    assert(((((v & 0xff) as u8) as u32) | (((((v >> 8) & 0xff) as u8) as u32) << 8) | (((((v
        >> 16) & 0xff) as u8) as u32) << 16) | ((((v >> 24) as u8) as u32) << 24)) == v)
        by (bit_vector);
}

/// Reading back four bytes that encode `v` gives `v`.
pub proof fn lemma_read_le32_of(b: Seq<u8>, off: int, v: u32)
    requires
        0 <= off,
        off + 4 <= b.len(),
        b.subrange(off, off + 4) == le32(v),
    ensures
        read_le32(b, off) == v,
{
    assert(b[off] == b.subrange(off, off + 4)[0]);
    assert(b[off + 1] == b.subrange(off, off + 4)[1]);
    assert(b[off + 2] == b.subrange(off, off + 4)[2]);
    assert(b[off + 3] == b.subrange(off, off + 4)[3]);
    lemma_split_compose(v);
}

/// Encoding what was read gives back the four bytes.
pub proof fn lemma_le32_of_read(b: Seq<u8>, off: int)
    requires
        0 <= off,
        off + 4 <= b.len(),
    ensures
        le32(read_le32(b, off)) == b.subrange(off, off + 4),
{
    lemma_compose_split(b[off], b[off + 1], b[off + 2], b[off + 3]);
    assert(le32(read_le32(b, off)) =~= b.subrange(off, off + 4));
}

proof fn lemma_u64_words(v: u64)
    ensures
        ((v as u32) as u64) | ((((v >> 32) as u32) as u64) << 32) == v,
{
    assert(((v as u32) as u64) | ((((v >> 32) as u32) as u64) << 32) == v) by (bit_vector);
}

proof fn lemma_words_u64(lo: u32, hi: u32)
    ensures
        (((lo as u64) | ((hi as u64) << 32)) as u32) == lo,
        ((((lo as u64) | ((hi as u64) << 32)) >> 32) as u32) == hi,
{
    assert((((lo as u64) | ((hi as u64) << 32)) as u32) == lo) by (bit_vector);
    assert(((((lo as u64) | ((hi as u64) << 32)) >> 32) as u32) == hi) by (bit_vector);
}

pub proof fn lemma_read_le64_of(b: Seq<u8>, off: int, v: u64)
    requires
        0 <= off,
        off + 8 <= b.len(),
        b.subrange(off, off + 8) == le64(v),
    ensures
        read_le64(b, off) == v,
{
    assert(b.subrange(off, off + 4) =~= b.subrange(off, off + 8).subrange(0, 4));
    assert(b.subrange(off + 4, off + 8) =~= b.subrange(off, off + 8).subrange(4, 8));
    assert(le64(v).subrange(0, 4) =~= le32(v as u32));
    assert(le64(v).subrange(4, 8) =~= le32((v >> 32) as u32));
    lemma_read_le32_of(b, off, v as u32);
    lemma_read_le32_of(b, off + 4, (v >> 32) as u32);
    lemma_u64_words(v);
}

pub proof fn lemma_le64_of_read(b: Seq<u8>, off: int)
    requires
        0 <= off,
        off + 8 <= b.len(),
    ensures
        le64(read_le64(b, off)) == b.subrange(off, off + 8),
{
    lemma_le32_of_read(b, off);
    lemma_le32_of_read(b, off + 4);
    lemma_words_u64(read_le32(b, off), read_le32(b, off + 4));
    assert(le64(read_le64(b, off)) =~= b.subrange(off, off + 8));
}

pub fn read_u32_le(b: &[u8], off: usize) -> (r: u32)
    requires
        off + 4 <= b@.len(),
    ensures
        r == read_le32(b@, off as int),
{
    (b[off] as u32) | ((b[off + 1] as u32) << 8) | ((b[off + 2] as u32) << 16) | ((b[off + 3]
        as u32) << 24)
}

pub fn read_u64_le(b: &[u8], off: usize) -> (r: u64)
    requires
        off + 8 <= b@.len(),
    ensures
        r == read_le64(b@, off as int),
{
    let _n = b.len();
    let lo = read_u32_le(b, off);
    let hi = read_u32_le(b, off + 4);
    (lo as u64) | ((hi as u64) << 32)
}

pub fn push_u32_le(out: &mut Vec<u8>, v: u32)
    ensures
        final(out)@ == old(out)@ + le32(v),
{
    out.push((v & 0xff) as u8);
    out.push(((v >> 8) & 0xff) as u8);
    out.push(((v >> 16) & 0xff) as u8);
    out.push((v >> 24) as u8);
    assert(final(out)@ =~= old(out)@ + le32(v));
}

pub fn push_u64_le(out: &mut Vec<u8>, v: u64)
    ensures
        final(out)@ == old(out)@ + le64(v),
{
    push_u32_le(out, v as u32);
    push_u32_le(out, (v >> 32) as u32);
    assert(final(out)@ =~= old(out)@ + le64(v));
}

/// Appends every byte of `src`.
pub fn push_all(out: &mut Vec<u8>, src: &[u8])
    ensures
        final(out)@ == old(out)@ + src@,
{
    let mut i: usize = 0;
    while i < src.len()
        invariant
            i <= src@.len(),
            out@ == old(out)@ + src@.subrange(0, i as int),
        decreases src@.len() - i,
    {
        out.push(src[i]);
        i = i + 1;
        assert(out@ =~= old(out)@ + src@.subrange(0, i as int));
    }
    assert(src@.subrange(0, i as int) =~= src@);
}

/// Appends `n` zero bytes.
pub fn push_zeros(out: &mut Vec<u8>, n: usize)
    ensures
        final(out)@ == old(out)@ + zeros(n as nat),
{
    let mut i: usize = 0;
    while i < n
        invariant
            i <= n,
            out@ == old(out)@ + zeros(i as nat),
        decreases n - i,
    {
        out.push(0u8);
        i = i + 1;
        assert(out@ =~= old(out)@ + zeros(i as nat));
    }
}

/// Number of zero bytes that bring `len` to a multiple of four.
pub fn pad4(len: usize) -> (r: usize)
    ensures
        r as int == align4(len as int) - len,
        r < 4,
{
    (4 - len % 4) % 4
}

} // verus!
