//! Little-endian byte primitives for the container codec: 32- and 64-bit
//! reads and writes, zero padding, 4-byte alignment, and the scan for a NUL
//! terminator.

use vstd::prelude::*;

verus! {

/// The four little-endian bytes of a 32-bit value.
pub open spec fn spec_le32(v: u32) -> Seq<u8> {
    seq![
        (v & 0xFF) as u8,
        ((v >> 8) & 0xFF) as u8,
        ((v >> 16) & 0xFF) as u8,
        ((v >> 24) & 0xFF) as u8,
    ]
}

/// The eight little-endian bytes of a 64-bit value.
pub open spec fn spec_le64(v: u64) -> Seq<u8> {
    seq![
        (v & 0xFF) as u8,
        ((v >> 8) & 0xFF) as u8,
        ((v >> 16) & 0xFF) as u8,
        ((v >> 24) & 0xFF) as u8,
        ((v >> 32) & 0xFF) as u8,
        ((v >> 40) & 0xFF) as u8,
        ((v >> 48) & 0xFF) as u8,
        ((v >> 56) & 0xFF) as u8,
    ]
}

/// The 32-bit value read little-endian at position `i`.
pub open spec fn spec_read_le32(b: Seq<u8>, i: int) -> u32
    recommends
        0 <= i,
        i + 4 <= b.len(),
{
    (b[i] as u32) | ((b[i + 1] as u32) << 8) | ((b[i + 2] as u32) << 16) | ((b[i + 3] as u32)
        << 24)
}

/// The 64-bit value read little-endian at position `i`.
pub open spec fn spec_read_le64(b: Seq<u8>, i: int) -> u64
    recommends
        0 <= i,
        i + 8 <= b.len(),
{
    (b[i] as u64) | ((b[i + 1] as u64) << 8) | ((b[i + 2] as u64) << 16) | ((b[i + 3] as u64)
        << 24) | ((b[i + 4] as u64) << 32) | ((b[i + 5] as u64) << 40) | ((b[i + 6] as u64) << 48)
        | ((b[i + 7] as u64) << 56)
}

/// `n` zero bytes.
pub open spec fn spec_zeros(n: int) -> Seq<u8> {
    Seq::new(if n >= 0 {
        n as nat
    } else {
        0
    }, |i: int| 0u8)
}

/// The next 4-byte boundary at or after `n`.
pub open spec fn spec_align4(n: int) -> int {
    n + ((4 - n % 4) % 4)
}

/// The first position `i <= j < b.len()` holding a zero byte.
pub open spec fn spec_find_nul(b: Seq<u8>, i: int) -> Option<int>
    decreases b.len() - i,
{
    if i < 0 || i >= b.len() {
        None
    } else if b[i] == 0 {
        Some(i)
    } else {
        spec_find_nul(b, i + 1)
    }
}

/// The scan for a NUL terminator lands on `j` when every byte before it is
/// nonzero and the byte at `j` is zero.
pub proof fn lemma_find_nul_at(b: Seq<u8>, from: int, j: int)
    requires
        0 <= from <= j < b.len(),
        b[j] == 0,
        forall|k: int| from <= k < j ==> b[k] != 0,
    ensures
        spec_find_nul(b, from) == Some(j),
    decreases j - from,
{
    if from < j {
        lemma_find_nul_at(b, from + 1, j);
    }
}

/// Reading back the four bytes written little-endian gives the value.
pub proof fn lemma_le32_roundtrip(b: Seq<u8>, i: int, v: u32)
    requires
        0 <= i,
        i + 4 <= b.len(),
        b[i] == spec_le32(v)[0],
        b[i + 1] == spec_le32(v)[1],
        b[i + 2] == spec_le32(v)[2],
        b[i + 3] == spec_le32(v)[3],
    ensures
        spec_read_le32(b, i) == v,
{
    assert(((v & 0xFF) as u8 as u32) | (((v >> 8) & 0xFF) as u8 as u32) << 8 | (((v >> 16)
        & 0xFF) as u8 as u32) << 16 | (((v >> 24) & 0xFF) as u8 as u32) << 24 == v)
        by (bit_vector);
}

/// Reading back the eight bytes written little-endian gives the value.
pub proof fn lemma_le64_roundtrip(b: Seq<u8>, i: int, v: u64)
    requires
        0 <= i,
        i + 8 <= b.len(),
        forall|k: int| 0 <= k < 8 ==> b[i + k] == spec_le64(v)[k],
    ensures
        spec_read_le64(b, i) == v,
{
    assert(b[i + 0] == spec_le64(v)[0]);
    assert(b[i + 1] == spec_le64(v)[1]);
    assert(b[i + 2] == spec_le64(v)[2]);
    assert(b[i + 3] == spec_le64(v)[3]);
    assert(b[i + 4] == spec_le64(v)[4]);
    assert(b[i + 5] == spec_le64(v)[5]);
    assert(b[i + 6] == spec_le64(v)[6]);
    assert(b[i + 7] == spec_le64(v)[7]);
    assert(((v & 0xFF) as u8 as u64) | (((v >> 8) & 0xFF) as u8 as u64) << 8 | (((v >> 16)
        & 0xFF) as u8 as u64) << 16 | (((v >> 24) & 0xFF) as u8 as u64) << 24 | (((v >> 32)
        & 0xFF) as u8 as u64) << 32 | (((v >> 40) & 0xFF) as u8 as u64) << 40 | (((v >> 48)
        & 0xFF) as u8 as u64) << 48 | (((v >> 56) & 0xFF) as u8 as u64) << 56 == v)
        by (bit_vector);
}

/// Reads the 32-bit little-endian value at `pos`.
pub fn read_le32(b: &[u8], pos: usize) -> (r: u32)
    requires
        pos + 4 <= b@.len(),
    ensures
        r == spec_read_le32(b@, pos as int),
{
    (b[pos] as u32) | ((b[pos + 1] as u32) << 8) | ((b[pos + 2] as u32) << 16) | ((b[pos
        + 3] as u32) << 24)
}

/// Reads the 64-bit little-endian value at `pos`.
pub fn read_le64(b: &[u8], pos: usize) -> (r: u64)
    requires
        pos + 8 <= b@.len(),
    ensures
        r == spec_read_le64(b@, pos as int),
{
    (b[pos] as u64) | ((b[pos + 1] as u64) << 8) | ((b[pos + 2] as u64) << 16) | ((b[pos
        + 3] as u64) << 24) | ((b[pos + 4] as u64) << 32) | ((b[pos + 5] as u64) << 40) | ((b[pos
        + 6] as u64) << 48) | ((b[pos + 7] as u64) << 56)
}

/// Appends the four little-endian bytes of `v`.
pub fn push_le32(out: &mut Vec<u8>, v: u32)
    ensures
        final(out)@ =~= old(out)@ + spec_le32(v),
{
    out.push((v & 0xFF) as u8);
    out.push(((v >> 8) & 0xFF) as u8);
    out.push(((v >> 16) & 0xFF) as u8);
    out.push(((v >> 24) & 0xFF) as u8);
}

/// Appends the eight little-endian bytes of `v`.
pub fn push_le64(out: &mut Vec<u8>, v: u64)
    ensures
        final(out)@ =~= old(out)@ + spec_le64(v),
{
    out.push((v & 0xFF) as u8);
    out.push(((v >> 8) & 0xFF) as u8);
    out.push(((v >> 16) & 0xFF) as u8);
    out.push(((v >> 24) & 0xFF) as u8);
    out.push(((v >> 32) & 0xFF) as u8);
    out.push(((v >> 40) & 0xFF) as u8);
    out.push(((v >> 48) & 0xFF) as u8);
    out.push(((v >> 56) & 0xFF) as u8);
}

/// Appends zero bytes until `out` is `n` bytes long.
pub fn pad_to(out: &mut Vec<u8>, n: usize)
    requires
        old(out)@.len() <= n,
    ensures
        final(out)@ =~= old(out)@ + spec_zeros(n - old(out)@.len()),
{
    while out.len() < n
        invariant
            out@.len() <= n,
            out@ =~= old(out)@ + spec_zeros(out@.len() - old(out)@.len()),
        decreases n - out@.len(),
    {
        out.push(0);
    }
}

/// Appends zero bytes until the length of `out` is a multiple of four.
pub fn pad_to_align4(out: &mut Vec<u8>)
    ensures
        final(out)@ =~= old(out)@ + spec_zeros(
            spec_align4(old(out)@.len() as int) - old(out)@.len(),
        ),
        final(out)@.len() == spec_align4(old(out)@.len() as int),
{
    while out.len() % 4 != 0
        invariant
            out@.len() <= spec_align4(old(out)@.len() as int),
            out@ =~= old(out)@ + spec_zeros(out@.len() - old(out)@.len()),
        decreases spec_align4(old(out)@.len() as int) - out@.len(),
    {
        out.push(0);
    }
}

/// Finds the first zero byte at or after `from`.
pub fn find_nul(b: &[u8], from: usize) -> (r: Option<usize>)
    requires
        from <= b@.len(),
    ensures
        match r {
            Some(j) => {
                &&& spec_find_nul(b@, from as int) == Some(j as int)
                &&& from <= j < b@.len()
                &&& b@[j as int] == 0
            },
            None => spec_find_nul(b@, from as int) is None,
        },
{
    let mut i: usize = from;
    while i < b.len()
        invariant
            from <= i <= b@.len(),
            spec_find_nul(b@, from as int) == spec_find_nul(b@, i as int),
        decreases b@.len() - i,
    {
        if b[i] == 0 {
            return Some(i);
        }
        i = i + 1;
    }
    None
}

} // verus!
