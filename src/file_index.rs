//! Identities of persisted records and the 64-bit cache keys derived from them.
use vstd::prelude::*;

verus! {

/// Where a record lives: a concrete offset in one version of a file, or nowhere.
#[derive(Clone, Copy, Debug, PartialEq, Eq, Structural)]
pub enum FileIndex {
    Valid { offset: u32, version_id: u32, version_number: u16 },
    Invalid,
}

/// Bit that marks keys of level-0 records in the dense cache.
pub const LEVEL_0_BIT: u64 = 0x8000_0000_0000_0000;

/// Key of the generic registry: offset in the high half, version id in the low half.
pub open spec fn spec_registry_key(fi: FileIndex) -> u64 {
    match fi {
        FileIndex::Valid { offset, version_id, .. } => ((offset as u64) << 32u64) | (version_id as u64),
        FileIndex::Invalid => u64::MAX,
    }
}

/// Key of the dense cache: the registry key, with the top bit set for level 0.
pub open spec fn spec_dense_key(fi: FileIndex, is_level_0: bool) -> u64 {
    match fi {
        FileIndex::Valid { offset, version_id, .. } =>
            ((offset as u64) << 32u64) | (version_id as u64) | (if is_level_0 { LEVEL_0_BIT } else { 0u64 }),
        FileIndex::Invalid => u64::MAX,
    }
}

/// Key of the inverted cache: data-file index in the high half, offset in the low half.
pub open spec fn spec_inverted_key(file_offset: u32, data_file_idx: u8) -> u64 {
    ((data_file_idx as u64) << 32u64) | (file_offset as u64)
}

/// Identity of an immutable property blob: offset in the high half, length in the low half.
pub open spec fn spec_prop_key(offset: u32, length: u32) -> u64 {
    ((offset as u64) << 32u64) | (length as u64)
}

pub fn registry_key(fi: &FileIndex) -> (r: u64)
    ensures
        r == spec_registry_key(*fi),
{
    match fi {
        FileIndex::Valid { offset, version_id, .. } => ((*offset as u64) << 32u64) | (*version_id as u64),
        FileIndex::Invalid => u64::MAX,
    }
}

pub fn dense_key(fi: &FileIndex, is_level_0: bool) -> (r: u64)
    ensures
        r == spec_dense_key(*fi, is_level_0),
{
    let level_bit: u64 = if is_level_0 { LEVEL_0_BIT } else { 0 };
    match fi {
        FileIndex::Valid { offset, version_id, .. } =>
            ((*offset as u64) << 32u64) | (*version_id as u64) | level_bit,
        FileIndex::Invalid => u64::MAX,
    }
}

pub fn inverted_key(file_offset: u32, data_file_idx: u8) -> (r: u64)
    ensures
        r == spec_inverted_key(file_offset, data_file_idx),
{
    ((data_file_idx as u64) << 32u64) | (file_offset as u64)
}

pub fn prop_key(offset: u32, length: u32) -> (r: u64)
    ensures
        r == spec_prop_key(offset, length),
{
    ((offset as u64) << 32u64) | (length as u64)
}

/// The halves of a registry key give back the offset and the version id.
pub proof fn lemma_registry_key_halves(offset: u32, version_id: u32)
    ensures
        (((offset as u64) << 32u64) | (version_id as u64)) >> 32u64 == offset as u64,
        (((offset as u64) << 32u64) | (version_id as u64)) & 0xffff_ffffu64 == version_id as u64,
{
    assert((((offset as u64) << 32u64) | (version_id as u64)) >> 32u64 == offset as u64) by (bit_vector);
    assert((((offset as u64) << 32u64) | (version_id as u64)) & 0xffff_ffffu64 == version_id as u64) by (bit_vector);
}

/// Dense keys are a function of the record's location and level, and tell apart
/// every two locations and levels: two valid indexes with offsets below 2^31 get
/// equal keys exactly when their offsets, version ids and levels agree (the
/// version number is not part of the identity).
pub proof fn lemma_dense_key_identity(f: FileIndex, l: bool, g: FileIndex, m: bool)
    requires
        f is Valid,
        g is Valid,
        f->offset < 0x8000_0000u32,
        g->offset < 0x8000_0000u32,
    ensures
        spec_dense_key(f, l) == spec_dense_key(g, m) <==> (f->offset == g->offset
            && f->version_id == g->version_id && l == m),
{
    let (a, b, c, d) = (f->offset, f->version_id, g->offset, g->version_id);
    let x: u64 = if l { LEVEL_0_BIT } else { 0u64 };
    let y: u64 = if m { LEVEL_0_BIT } else { 0u64 };
    assert(x == 0 || x == 0x8000_0000_0000_0000u64);
    assert(y == 0 || y == 0x8000_0000_0000_0000u64);
    assert(((((a as u64) << 32u64) | (b as u64) | x) == (((c as u64) << 32u64) | (d as u64) | y))
        <==> (a == c && b == d && x == y)) by (bit_vector)
        requires
            a < 0x8000_0000u32,
            c < 0x8000_0000u32,
            x == 0 || x == 0x8000_0000_0000_0000u64,
            y == 0 || y == 0x8000_0000_0000_0000u64,
    ;
}

} // verus!
