//! Little-endian integer fields in an in-memory file image.
use vstd::prelude::*;

verus! {

/// Errors of the cache layer.
#[derive(Clone, Copy, Debug, PartialEq, Eq, Structural)]
pub enum CacheError {
    /// A request that can never succeed, such as loading an `Invalid` index.
    InvalidInput,
    /// A read past the end of a file, or a file that is not there.
    IoFailure,
    /// The file contradicts itself, such as a chunk link that points backward.
    Corruption,
}

pub open spec fn u16_bytes(v: u16) -> Seq<u8> {
    seq![(v & 0xff) as u8, (v >> 8u16) as u8]
}

pub open spec fn u32_bytes(v: u32) -> Seq<u8> {
    seq![(v & 0xff) as u8, ((v >> 8u32) & 0xff) as u8, ((v >> 16u32) & 0xff) as u8, (v >> 24u32) as u8]
}

pub open spec fn u16_of(b0: u8, b1: u8) -> u16 {
    (b0 as u16) | ((b1 as u16) << 8u16)
}

pub open spec fn u32_of(b0: u8, b1: u8, b2: u8, b3: u8) -> u32 {
    (b0 as u32) | ((b1 as u32) << 8u32) | ((b2 as u32) << 16u32) | ((b3 as u32) << 24u32)
}

/// The `u16` stored at position `p`.
pub open spec fn u16_at(s: Seq<u8>, p: int) -> u16 {
    u16_of(s[p], s[p + 1])
}

/// The `u32` stored at position `p`.
pub open spec fn u32_at(s: Seq<u8>, p: int) -> u32 {
    u32_of(s[p], s[p + 1], s[p + 2], s[p + 3])
}

pub proof fn lemma_u16_read_back(s: Seq<u8>, p: int, v: u16)
    requires
        0 <= p,
        p + 2 <= s.len(),
        s.subrange(p, p + 2) == u16_bytes(v),
    ensures
        u16_at(s, p) == v,
{
    assert(s[p] == s.subrange(p, p + 2)[0]);
    assert(s[p + 1] == s.subrange(p, p + 2)[1]);
    let (b0, b1) = ((v & 0xff) as u8, (v >> 8u16) as u8);
    assert(u16_of(b0, b1) == v) by (bit_vector)
        requires b0 == (v & 0xff) as u8, b1 == (v >> 8u16) as u8;
}

pub proof fn lemma_u32_read_back(s: Seq<u8>, p: int, v: u32)
    requires
        0 <= p,
        p + 4 <= s.len(),
        s.subrange(p, p + 4) == u32_bytes(v),
    ensures
        u32_at(s, p) == v,
{
    assert(s[p] == s.subrange(p, p + 4)[0]);
    assert(s[p + 1] == s.subrange(p, p + 4)[1]);
    assert(s[p + 2] == s.subrange(p, p + 4)[2]);
    assert(s[p + 3] == s.subrange(p, p + 4)[3]);
    let b0 = (v & 0xff) as u8;
    let b1 = ((v >> 8u32) & 0xff) as u8;
    let b2 = ((v >> 16u32) & 0xff) as u8;
    let b3 = (v >> 24u32) as u8;
    assert(u32_of(b0, b1, b2, b3) == v) by (bit_vector)
        requires
            b0 == (v & 0xff) as u8,
            b1 == ((v >> 8u32) & 0xff) as u8,
            b2 == ((v >> 16u32) & 0xff) as u8,
            b3 == (v >> 24u32) as u8,
    ;
}

pub fn push_u16(file: &mut Vec<u8>, v: u16)
    ensures
        final(file)@ == old(file)@ + u16_bytes(v),
{
    file.push((v & 0xff) as u8);
    file.push((v >> 8u16) as u8);
    assert(final(file)@ =~= old(file)@ + u16_bytes(v));
}

pub fn push_u32(file: &mut Vec<u8>, v: u32)
    ensures
        final(file)@ == old(file)@ + u32_bytes(v),
{
    file.push((v & 0xff) as u8);
    file.push(((v >> 8u32) & 0xff) as u8);
    file.push(((v >> 16u32) & 0xff) as u8);
    file.push((v >> 24u32) as u8);
    assert(final(file)@ =~= old(file)@ + u32_bytes(v));
}

/// Reads the `u16` at `pos`; a field that does not fit in the file is an I/O failure.
pub fn read_u16(file: &Vec<u8>, pos: u64) -> (r: Result<u16, CacheError>)
    ensures
        pos + 2 <= file@.len() ==> r == Ok::<u16, CacheError>(u16_at(file@, pos as int)),
        pos + 2 > file@.len() ==> r == Err::<u16, CacheError>(CacheError::IoFailure),
{
    if pos >= file.len() as u64 || file.len() as u64 - pos < 2 {
        return Err(CacheError::IoFailure);
    }
    let p = pos as usize;
    Ok((file[p] as u16) | ((file[p + 1] as u16) << 8u16))
}

/// Reads the `u32` at `pos`; a field that does not fit in the file is an I/O failure.
pub fn read_u32(file: &Vec<u8>, pos: u64) -> (r: Result<u32, CacheError>)
    ensures
        pos + 4 <= file@.len() ==> r == Ok::<u32, CacheError>(u32_at(file@, pos as int)),
        pos + 4 > file@.len() ==> r == Err::<u32, CacheError>(CacheError::IoFailure),
{
    if pos >= file.len() as u64 || file.len() as u64 - pos < 4 {
        return Err(CacheError::IoFailure);
    }
    let p = pos as usize;
    Ok((file[p] as u32) | ((file[p + 1] as u32) << 8u32) | ((file[p + 2] as u32) << 16u32) | ((
    file[p + 3] as u32) << 24u32))
}

} // verus!
