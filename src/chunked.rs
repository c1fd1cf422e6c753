//! Chunked on-disk layout of homogeneous sequences: linked blocks of
//! `CHUNK_SIZE` fixed-size slots, each block closed by the offset of the next.
//! A sequence slot takes 10 bytes (offset, version number, version id), all
//! little-endian; an offset of `u32::MAX` marks an empty slot, and a link of
//! `u32::MAX` ends the chain.
use vstd::prelude::*;
use crate::bytes::{
    push_u16, push_u32, read_u16, read_u32,
    lemma_u16_read_back, lemma_u32_read_back, u16_at, u16_bytes, u32_at, u32_bytes, CacheError,
};

verus! {

pub const CHUNK_SIZE: usize = 256;

/// Bytes of one sequence chunk: its slots and the link to the next chunk.
pub const VEC_CHUNK_BYTES: usize = 2564;

/// Bytes of one map chunk: its slots and the link to the next chunk.
pub const MAP_CHUNK_BYTES: usize = 3588;

/// Where a persisted child lives, as a slot records it.
#[derive(Clone, Copy, Debug, PartialEq, Eq, Structural)]
pub struct ChildRef {
    pub offset: u32,
    pub version_number: u16,
    pub version_id: u32,
}

pub open spec fn empty_vec_slot() -> Seq<u8> {
    u32_bytes(u32::MAX) + u16_bytes(u16::MAX) + u32_bytes(u32::MAX)
}

pub open spec fn vec_slot_bytes(c: ChildRef) -> Seq<u8> {
    u32_bytes(c.offset) + u16_bytes(c.version_number) + u32_bytes(c.version_id)
}

/// Slot `i` of a chunk that holds the first items of `xs`.
pub open spec fn vec_slot_for(xs: Seq<ChildRef>, i: int) -> Seq<u8> {
    if i < xs.len() { vec_slot_bytes(xs[i]) } else { empty_vec_slot() }
}

/// The first `n` slots of a chunk that holds the first items of `xs`.
pub open spec fn vec_slots(xs: Seq<ChildRef>, n: nat) -> Seq<u8>
    decreases n,
{
    if n == 0 { Seq::empty() } else { vec_slots(xs, (n - 1) as nat) + vec_slot_for(xs, n - 1) }
}

/// Number of chunks that `n` items take.
pub open spec fn chunk_count(n: nat) -> nat {
    ((n + 255) / 256) as nat
}

/// The bytes that a nonempty sequence `xs` takes when its first chunk starts at `at`.
pub open spec fn encode_vec_chunks(xs: Seq<ChildRef>, at: int) -> Seq<u8>
    decreases xs.len(),
{
    if xs.len() <= CHUNK_SIZE {
        vec_slots(xs, CHUNK_SIZE as nat) + u32_bytes(u32::MAX)
    } else {
        vec_slots(xs, CHUNK_SIZE as nat) + u32_bytes((at + VEC_CHUNK_BYTES) as u32)
            + encode_vec_chunks(xs.skip(CHUNK_SIZE as int), at + VEC_CHUNK_BYTES)
    }
}

/// The child that slot `i` of the chunk at `at` records.
pub open spec fn vec_slot_at(s: Seq<u8>, at: int, i: int) -> ChildRef {
    ChildRef {
        offset: u32_at(s, at + 10 * i),
        version_number: u16_at(s, at + 10 * i + 4),
        version_id: u32_at(s, at + 10 * i + 6),
    }
}

/// The live children among the first `n` slots of the chunk at `at`.
pub open spec fn vec_chunk_items(s: Seq<u8>, at: int, n: nat) -> Seq<ChildRef>
    decreases n,
{
    if n == 0 {
        Seq::empty()
    } else {
        let prev = vec_chunk_items(s, at, (n - 1) as nat);
        let c = vec_slot_at(s, at, n - 1);
        if c.offset == u32::MAX { prev } else { prev.push(c) }
    }
}

/// What the chain of chunks that starts at `at` holds.
pub open spec fn decode_vec_chunks(s: Seq<u8>, at: int) -> Result<Seq<ChildRef>, CacheError>
    decreases s.len() - at,
{
    if at < 0 || at + VEC_CHUNK_BYTES > s.len() {
        Err(CacheError::IoFailure)
    } else {
        let items = vec_chunk_items(s, at, CHUNK_SIZE as nat);
        let next = u32_at(s, at + 10 * CHUNK_SIZE);
        if next == u32::MAX {
            Ok(items)
        } else if next <= at {
            Err(CacheError::Corruption)
        } else if next >= s.len() {
            Err(CacheError::IoFailure)
        } else {
            prepend(items, decode_vec_chunks(s, next as int))
        }
    }
}

/// `r` with `items` put in front of what it holds, or the error of `r`.
pub open spec fn prepend<T>(items: Seq<T>, r: Result<Seq<T>, CacheError>) -> Result<Seq<T>, CacheError> {
    match r {
        Ok(rest) => Ok(items + rest),
        Err(e) => Err(e),
    }
}

/// What a sequence stored at `offset` holds; `u32::MAX` stands for the empty sequence.
pub open spec fn decode_vec(s: Seq<u8>, offset: u32) -> Result<Seq<ChildRef>, CacheError> {
    if offset == u32::MAX { Ok(Seq::empty()) } else { decode_vec_chunks(s, offset as int) }
}

pub open spec fn all_live(xs: Seq<ChildRef>) -> bool {
    forall|i: int| 0 <= i < xs.len() ==> #[trigger] xs[i].offset != u32::MAX
}

pub proof fn lemma_vec_slots_len(xs: Seq<ChildRef>, n: nat)
    ensures
        vec_slots(xs, n).len() == 10 * n,
    decreases n,
{
    if n > 0 {
        lemma_vec_slots_len(xs, (n - 1) as nat);
    }
}

pub proof fn lemma_encode_vec_len(xs: Seq<ChildRef>, at: int)
    requires
        xs.len() > 0,
    ensures
        encode_vec_chunks(xs, at).len() == chunk_count(xs.len()) * VEC_CHUNK_BYTES,
    decreases xs.len(),
{
    lemma_vec_slots_len(xs, CHUNK_SIZE as nat);
    if xs.len() > CHUNK_SIZE {
        lemma_encode_vec_len(xs.skip(CHUNK_SIZE as int), at + VEC_CHUNK_BYTES);
        lemma_chunk_count_step(xs.len());
    } else {
        assert(chunk_count(xs.len()) == 1);
    }
}

proof fn lemma_chunk_count_step(n: nat)
    requires
        n > CHUNK_SIZE,
    ensures
        chunk_count(n) == chunk_count((n - CHUNK_SIZE) as nat) + 1,
        chunk_count(n) * VEC_CHUNK_BYTES == chunk_count((n - CHUNK_SIZE) as nat) * VEC_CHUNK_BYTES
            + VEC_CHUNK_BYTES,
        chunk_count(n) * MAP_CHUNK_BYTES == chunk_count((n - CHUNK_SIZE) as nat) * MAP_CHUNK_BYTES
            + MAP_CHUNK_BYTES,
{
    let a = chunk_count((n - CHUNK_SIZE) as nat);
    assert(chunk_count(n) == a + 1);
    assert((a + 1) * 2564 == a * 2564 + 2564) by (nonlinear_arith);
    assert((a + 1) * 3588 == a * 3588 + 3588) by (nonlinear_arith);
}

/// A slot written for a child reads back as that child.
proof fn lemma_vec_slot_read_back(s: Seq<u8>, p: int, c: ChildRef)
    requires
        0 <= p,
        p + 10 <= s.len(),
        s.subrange(p, p + 10) == vec_slot_bytes(c),
    ensures
        u32_at(s, p) == c.offset,
        u16_at(s, p + 4) == c.version_number,
        u32_at(s, p + 6) == c.version_id,
{
    let b = vec_slot_bytes(c);
    assert(s.subrange(p, p + 4) =~= b.subrange(0, 4));
    assert(s.subrange(p + 4, p + 6) =~= b.subrange(4, 6));
    assert(s.subrange(p + 6, p + 10) =~= b.subrange(6, 10));
    assert(b.subrange(0, 4) =~= u32_bytes(c.offset));
    assert(b.subrange(4, 6) =~= u16_bytes(c.version_number));
    assert(b.subrange(6, 10) =~= u32_bytes(c.version_id));
    lemma_u32_read_back(s, p, c.offset);
    lemma_u16_read_back(s, p + 4, c.version_number);
    lemma_u32_read_back(s, p + 6, c.version_id);
}

/// The slots written for `xs` read back as the first `n` items of `xs`.
proof fn lemma_vec_slots_read_back(s: Seq<u8>, at: int, xs: Seq<ChildRef>, n: nat)
    requires
        0 <= at,
        at + 10 * n <= s.len(),
        s.subrange(at, at + 10 * n) == vec_slots(xs, n),
        all_live(xs),
    ensures
        vec_chunk_items(s, at, n) == xs.take(if n < xs.len() { n as int } else { xs.len() as int }),
    decreases n,
{
    if n > 0 {
        let m = (n - 1) as nat;
        lemma_vec_slots_len(xs, m);
        lemma_vec_slots_len(xs, n);
        let p = at + 10 * m;
        let (mi, ni) = (10 * m as int, 10 * n as int);
        assert(s.subrange(at, p) =~= vec_slots(xs, n).subrange(0, mi));
        assert(vec_slots(xs, n).subrange(0, mi) =~= vec_slots(xs, m));
        lemma_vec_slots_read_back(s, at, xs, m);
        assert(s.subrange(p, p + 10) =~= vec_slots(xs, n).subrange(mi, ni));
        assert(vec_slots(xs, n).subrange(mi, ni) =~= vec_slot_for(xs, m as int));
        if m < xs.len() {
            lemma_vec_slot_read_back(s, p, xs[m as int]);
            assert(vec_slot_at(s, at, m as int) == xs[m as int]);
            assert(xs.take(m as int).push(xs[m as int]) =~= xs.take(n as int));
        } else {
            let e = ChildRef { offset: u32::MAX, version_number: u16::MAX, version_id: u32::MAX };
            assert(empty_vec_slot() == vec_slot_bytes(e));
            lemma_vec_slot_read_back(s, p, e);
        }
    }
}

/// Writing a nonempty sequence of live children and reading it back gives the
/// same children in the same order, whatever the file held before.
#[verifier::rlimit(60)]
pub proof fn lemma_vec_round_trip(pre: Seq<u8>, xs: Seq<ChildRef>)
    requires
        xs.len() > 0,
        all_live(xs),
        pre.len() + chunk_count(xs.len()) * VEC_CHUNK_BYTES <= u32::MAX,
    ensures
        decode_vec_chunks(pre + encode_vec_chunks(xs, pre.len() as int), pre.len() as int) == Ok::<
            Seq<ChildRef>,
            CacheError,
        >(xs),
    decreases xs.len(),
{
    let at = pre.len() as int;
    let s = pre + encode_vec_chunks(xs, at);
    lemma_encode_vec_len(xs, at);
    lemma_vec_slots_len(xs, CHUNK_SIZE as nat);
    let slots = vec_slots(xs, CHUNK_SIZE as nat);
    assert(s.subrange(at, at + 2560) =~= slots);
    lemma_vec_slots_read_back(s, at, xs, CHUNK_SIZE as nat);
    let link: u32 = if xs.len() <= CHUNK_SIZE { u32::MAX } else { (at + VEC_CHUNK_BYTES) as u32 };
    assert(s.subrange(at + 2560, at + 2564) =~= u32_bytes(link));
    lemma_u32_read_back(s, at + 2560, link);
    if xs.len() <= CHUNK_SIZE {
        assert(xs.take(xs.len() as int) =~= xs);
    } else {
        let rest = xs.skip(CHUNK_SIZE as int);
        let pre2 = pre + slots + u32_bytes(link);
        assert(s =~= pre2 + encode_vec_chunks(rest, pre2.len() as int));
        lemma_chunk_count_step(xs.len());
        lemma_vec_round_trip(pre2, rest);
        assert(xs.take(CHUNK_SIZE as int) + rest =~= xs);
    }
}

/// A sequence of persisted children in the chunked layout.
#[derive(Clone, Debug)]
pub struct LazyItemVec {
    pub items: Vec<ChildRef>,
}

impl LazyItemVec {
    pub fn new() -> (r: LazyItemVec)
        ensures
            r.items@.len() == 0,
    {
        LazyItemVec { items: Vec::new() }
    }

    /// Appends the sequence to `file` and returns where it starts: `u32::MAX`,
    /// with nothing written, for the empty sequence.
    pub fn serialize(&self, file: &mut Vec<u8>) -> (r: u32)
        requires
            all_live(self.items@),
            old(file)@.len() + chunk_count(self.items@.len()) * VEC_CHUNK_BYTES <= u32::MAX,
        ensures
            self.items@.len() == 0 ==> r == u32::MAX && final(file)@ == old(file)@,
            self.items@.len() > 0 ==> r == old(file)@.len() && final(file)@ == old(file)@
                + encode_vec_chunks(self.items@, old(file)@.len() as int),
            decode_vec(final(file)@, r) == Ok::<Seq<ChildRef>, CacheError>(self.items@),
    {
        let n = self.items.len();
        if n == 0 {
            assert(self.items@ =~= Seq::<ChildRef>::empty());
            return u32::MAX;
        }
        let ghost xs = self.items@;
        assert(xs.skip(0) =~= xs);
        let start = file.len();
        let ghost target = old(file)@ + encode_vec_chunks(xs, start as int);
        proof {
            lemma_encode_vec_len(xs, start as int);
        }
        let mut cs: usize = 0;
        let mut done = false;
        while !done
            invariant
                n == xs.len(),
                xs == self.items@,
                target.len() <= u32::MAX,
                !done ==> cs < n && file@ + encode_vec_chunks(xs.skip(cs as int), file@.len() as int) == target,
                done ==> file@ == target,
            decreases n - cs + (if done { 0int } else { 1int }),
        {
            let chunk_start = file.len();
            let ghost rest = xs.skip(cs as int);
            let ghost base = file@;
            proof {
                lemma_encode_vec_len(rest, chunk_start as int);
                lemma_vec_slots_len(rest, CHUNK_SIZE as nat);
            }
            let mut i: usize = 0;
            while i < CHUNK_SIZE
                invariant
                    i <= CHUNK_SIZE,
                    cs < n,
                    n == xs.len(),
                    xs == self.items@,
                    rest == xs.skip(cs as int),
                    file@ == base + vec_slots(rest, i as nat),
                decreases CHUNK_SIZE - i,
            {
                let ghost before = file@;
                if i < n - cs {
                    let c = self.items[cs + i];
                    push_u32(file, c.offset);
                    push_u16(file, c.version_number);
                    push_u32(file, c.version_id);
                    assert(file@ =~= before + vec_slot_bytes(c));
                } else {
                    push_u32(file, u32::MAX);
                    push_u16(file, u16::MAX);
                    push_u32(file, u32::MAX);
                    assert(file@ =~= before + empty_vec_slot());
                }
                i = i + 1;
                assert(file@ =~= base + vec_slots(rest, i as nat));
            }
            if n - cs <= CHUNK_SIZE {
                push_u32(file, u32::MAX);
                assert(file@ =~= target);
                done = true;
            } else {
                let link = (chunk_start + VEC_CHUNK_BYTES) as u32;
                push_u32(file, link);
                proof {
                    assert(rest.skip(CHUNK_SIZE as int) =~= xs.skip(cs + CHUNK_SIZE));
                    lemma_encode_vec_len(xs.skip(cs + CHUNK_SIZE), file@.len() as int);
                }
                cs = cs + CHUNK_SIZE;
                assert(file@ + encode_vec_chunks(xs.skip(cs as int), file@.len() as int) =~= target);
            }
        }
        proof {
            lemma_vec_round_trip(old(file)@, xs);
        }
        start as u32
    }

    /// Reads the sequence stored at `offset`, following the chunk links.
    pub fn deserialize(file: &Vec<u8>, offset: u32) -> (r: Result<LazyItemVec, CacheError>)
        ensures
            match decode_vec(file@, offset) {
                Ok(xs) => r is Ok && r->Ok_0.items@ == xs,
                Err(e) => r == Err::<LazyItemVec, CacheError>(e),
            },
    {
        if offset == u32::MAX {
            return Ok(LazyItemVec::new());
        }
        let mut items: Vec<ChildRef> = Vec::new();
        let mut at: u64 = offset as u64;
        proof {
            let d = decode_vec_chunks(file@, offset as int);
            if d is Ok {
                assert(items@ + d->Ok_0 =~= d->Ok_0);
            }
        }
        loop
            invariant
                at < file@.len() || at == offset,
                offset != u32::MAX,
                decode_vec_chunks(file@, offset as int) == prepend(items@, decode_vec_chunks(file@, at as int)),
            decreases file@.len() - at,
        {
            if at >= file.len() as u64 || (file.len() as u64) - at < VEC_CHUNK_BYTES as u64 {
                assert(decode_vec_chunks(file@, at as int) == Err::<Seq<ChildRef>, CacheError>(
                    CacheError::IoFailure,
                ));
                return Err(CacheError::IoFailure);
            }
            let ghost items0 = items@;
            assert(file@.len() <= usize::MAX);
            let mut i: usize = 0;
            while i < CHUNK_SIZE
                invariant
                    i <= CHUNK_SIZE,
                    at + VEC_CHUNK_BYTES <= file@.len(),
                    file@.len() <= usize::MAX,
                    items@ == items0 + vec_chunk_items(file@, at as int, i as nat),
                decreases CHUNK_SIZE - i,
            {
                let p = at + 10 * (i as u64);
                let o = read_u32(file, p);
                let vn = read_u16(file, p + 4);
                let vi = read_u32(file, p + 6);
                match (o, vn, vi) {
                    (Ok(o), Ok(vn), Ok(vi)) => {
                        if o != u32::MAX {
                            items.push(ChildRef { offset: o, version_number: vn, version_id: vi });
                        }
                    },
                    _ => {
                        return Err(CacheError::IoFailure);
                    },
                }
                i = i + 1;
                assert(items@ =~= items0 + vec_chunk_items(file@, at as int, i as nat));
            }
            let next = match read_u32(file, at + 10 * (CHUNK_SIZE as u64)) {
                Ok(v) => v,
                Err(e) => {
                    return Err(e);
                },
            };
            if next == u32::MAX {
                assert(items@ =~= items0 + vec_chunk_items(file@, at as int, CHUNK_SIZE as nat));
                return Ok(LazyItemVec { items });
            }
            if next as u64 <= at {
                return Err(CacheError::Corruption);
            }
            if next as u64 >= file.len() as u64 {
                assert(decode_vec_chunks(file@, at as int) == Err::<Seq<ChildRef>, CacheError>(
                    CacheError::IoFailure,
                ));
                return Err(CacheError::IoFailure);
            }
            proof {
                let ch = vec_chunk_items(file@, at as int, CHUNK_SIZE as nat);
                assert(decode_vec_chunks(file@, at as int) == prepend(ch, decode_vec_chunks(file@, next as int)));
                match decode_vec_chunks(file@, next as int) {
                    Ok(rest) => {
                        assert(items0 + (ch + rest) =~= items@ + rest);
                    },
                    Err(e) => {},
                }
            }
            at = next as u64;
        }
    }
}

} // verus!
