//! Chunked on-disk layout of keyed maps, and the tagged format of their keys.
//! A map slot takes 14 bytes (key offset, value offset, value version number,
//! value version id); the keys of a chunk's entries follow its link.
use vstd::prelude::*;
use vstd::utf8::{decode_utf8, encode_utf8, encode_utf8_decode_utf8, encode_utf8_valid_utf8, valid_utf8};
use crate::bytes::{
    lemma_u16_read_back, lemma_u32_read_back, push_u16, push_u32, read_u16, read_u32, u16_at,
    u16_bytes, u32_at, u32_bytes, CacheError,
};
use crate::chunked::{chunk_count, prepend, ChildRef, CHUNK_SIZE, MAP_CHUNK_BYTES};

verus! {

/// Tag bit of a key's header word: set for a string key, clear for an integer key.
pub const MSB: u32 = 0x8000_0000;

/// A map key as it is stored: an integer, or the characters of a string.
pub enum KeyView {
    Int(u32),
    Str(Seq<char>),
}

/// Key of a keyed map.
#[derive(Clone, Debug)]
pub enum IdentityMapKey {
    Int(u32),
    String(String),
}

impl View for IdentityMapKey {
    type V = KeyView;

    open spec fn view(&self) -> KeyView {
        match self {
            IdentityMapKey::Int(v) => KeyView::Int(*v),
            IdentityMapKey::String(s) => KeyView::Str(s@),
        }
    }
}

/// The bytes of a key: an integer as itself; a string as its byte length with the
/// tag bit set, followed by its UTF-8 bytes.
pub open spec fn key_bytes(k: KeyView) -> Seq<u8> {
    match k {
        KeyView::Int(v) => u32_bytes(v),
        KeyView::Str(c) => u32_bytes(MSB | (encode_utf8(c).len() as u32)) + encode_utf8(c),
    }
}

/// A key that the tag scheme can tell apart: an integer below the tag bit, or a
/// string shorter than 2^31 bytes.
pub open spec fn key_fits(k: KeyView) -> bool {
    match k {
        KeyView::Int(v) => v < MSB,
        KeyView::Str(c) => encode_utf8(c).len() < MSB,
    }
}

/// The key stored at position `p`.
pub open spec fn decode_key(s: Seq<u8>, p: int) -> Result<KeyView, CacheError> {
    if p < 0 || p + 4 > s.len() {
        Err(CacheError::IoFailure)
    } else {
        let num = u32_at(s, p);
        if num & MSB == 0 {
            Ok(KeyView::Int(num))
        } else {
            let len = (num & 0x7fff_ffff) as int;
            if p + 4 + len > s.len() {
                Err(CacheError::IoFailure)
            } else if !valid_utf8(s.subrange(p + 4, p + 4 + len)) {
                Err(CacheError::InvalidInput)
            } else {
                Ok(KeyView::Str(decode_utf8(s.subrange(p + 4, p + 4 + len))))
            }
        }
    }
}

proof fn lemma_key_read_back(s: Seq<u8>, p: int, k: KeyView)
    requires
        key_fits(k),
        0 <= p,
        p + key_bytes(k).len() <= s.len(),
        s.subrange(p, p + key_bytes(k).len()) == key_bytes(k),
    ensures
        decode_key(s, p) == Ok::<KeyView, CacheError>(k),
{
    match k {
        KeyView::Int(v) => {
            lemma_u32_read_back(s, p, v);
            assert(v & MSB == 0) by (bit_vector)
                requires v < 0x8000_0000u32;
        },
        KeyView::Str(c) => {
            let b = encode_utf8(c);
            let n = b.len() as u32;
            let hdr = MSB | n;
            assert(s.subrange(p, p + 4) =~= key_bytes(k).subrange(0, 4));
            assert(key_bytes(k).subrange(0, 4) =~= u32_bytes(hdr));
            lemma_u32_read_back(s, p, hdr);
            assert(hdr & MSB != 0 && hdr & 0x7fff_ffff == n) by (bit_vector)
                requires n < 0x8000_0000u32, hdr == 0x8000_0000u32 | n;
            assert(s.subrange(p + 4, p + 4 + n) =~= key_bytes(k).subrange(4, 4 + n));
            assert(key_bytes(k).subrange(4, 4 + n) =~= b);
            encode_utf8_valid_utf8(c);
            encode_utf8_decode_utf8(c);
        },
    }
}

/// Encodes `s` as UTF-8 bytes.
fn str_bytes(s: &String) -> (r: Vec<u8>)
    ensures
        r@ == encode_utf8(s@),
{
    let b = s.as_str().as_bytes();
    let mut r: Vec<u8> = Vec::new();
    let mut i: usize = 0;
    while i < b.len()
        invariant
            i <= b@.len(),
            b@ == encode_utf8(s@),
            r@ == b@.subrange(0, i as int),
        decreases b@.len() - i,
    {
        r.push(b[i]);
        i = i + 1;
        assert(r@ =~= b@.subrange(0, i as int));
    }
    assert(r@ =~= b@);
    r
}

/// Relies on std's `String::from_utf8`: it succeeds exactly on valid UTF-8, and
/// the string then holds the characters that the bytes encode.
#[verifier::external_body]
fn string_from_utf8(bytes: Vec<u8>) -> (r: Option<String>)
    ensures
        r is Some <==> valid_utf8(bytes@),
        r is Some ==> r->Some_0@ == decode_utf8(bytes@),
{
    String::from_utf8(bytes).ok()
}

impl IdentityMapKey {
    /// Appends the key to `file` and returns where it starts.
    pub fn serialize(&self, file: &mut Vec<u8>) -> (r: u32)
        requires
            key_fits(self@),
            old(file)@.len() + key_bytes(self@).len() <= u32::MAX,
        ensures
            r == old(file)@.len(),
            final(file)@ == old(file)@ + key_bytes(self@),
    {
        let start = file.len() as u32;
        match self {
            IdentityMapKey::Int(v) => {
                push_u32(file, *v);
            },
            IdentityMapKey::String(s) => {
                let b = str_bytes(s);
                push_u32(file, MSB | (b.len() as u32));
                let ghost mid = file@;
                let mut i: usize = 0;
                while i < b.len()
                    invariant
                        i <= b@.len(),
                        file@ == mid + b@.subrange(0, i as int),
                    decreases b@.len() - i,
                {
                    file.push(b[i]);
                    i = i + 1;
                    assert(file@ =~= mid + b@.subrange(0, i as int));
                }
                assert(b@.subrange(0, b@.len() as int) =~= b@);
                assert(file@ =~= old(file)@ + key_bytes(self@));
            },
        }
        start
    }

    /// Reads the key stored at `offset`.
    pub fn deserialize(file: &Vec<u8>, offset: u32) -> (r: Result<IdentityMapKey, CacheError>)
        ensures
            match decode_key(file@, offset as int) {
                Ok(k) => r is Ok && r->Ok_0@ == k,
                Err(e) => r == Err::<IdentityMapKey, CacheError>(e),
            },
    {
        let num = match read_u32(file, offset as u64) {
            Ok(v) => v,
            Err(e) => {
                return Err(e);
            },
        };
        if num & MSB == 0 {
            return Ok(IdentityMapKey::Int(num));
        }
        let flen = file.len();
        assert(offset + 4 <= flen);
        let len = num & 0x7fff_ffff;
        let p = offset as usize + 4;
        if len as usize > flen - p {
            return Err(CacheError::IoFailure);
        }
        let mut bytes: Vec<u8> = Vec::new();
        let mut i: usize = 0;
        while i < len as usize
            invariant
                i <= len,
                p + len <= file@.len(),
                p == offset + 4,
                flen == file@.len(),
                bytes@ == file@.subrange(p as int, p + i),
            decreases len - i,
        {
            bytes.push(file[p + i]);
            i = i + 1;
            assert(bytes@ =~= file@.subrange(p as int, p + i));
        }
        match string_from_utf8(bytes) {
            Some(s) => Ok(IdentityMapKey::String(s)),
            None => Err(CacheError::InvalidInput),
        }
    }
}

/// An entry of a keyed map as it is stored.
pub type EntryView = (KeyView, ChildRef);

pub open spec fn empty_map_slot() -> Seq<u8> {
    u32_bytes(u32::MAX) + u32_bytes(u32::MAX) + u16_bytes(u16::MAX) + u32_bytes(u32::MAX)
}

pub open spec fn map_slot_bytes(key_offset: u32, v: ChildRef) -> Seq<u8> {
    u32_bytes(key_offset) + u32_bytes(v.offset) + u16_bytes(v.version_number) + u32_bytes(v.version_id)
}

/// The keys of the first `n` entries of `es`, one after the other.
pub open spec fn keys_bytes(es: Seq<EntryView>, n: nat) -> Seq<u8>
    decreases n,
{
    if n == 0 {
        Seq::empty()
    } else {
        keys_bytes(es, (n - 1) as nat) + (if n - 1 < es.len() { key_bytes(es[n - 1].0) } else { Seq::empty() })
    }
}

/// Slot `i` of a chunk that holds the first entries of `es`, whose keys start at `key_base`.
pub open spec fn map_slot_for(es: Seq<EntryView>, i: int, key_base: int) -> Seq<u8> {
    if i < es.len() {
        map_slot_bytes((key_base + keys_bytes(es, i as nat).len()) as u32, es[i].1)
    } else {
        empty_map_slot()
    }
}

pub open spec fn map_slots(es: Seq<EntryView>, n: nat, key_base: int) -> Seq<u8>
    decreases n,
{
    if n == 0 { Seq::empty() } else { map_slots(es, (n - 1) as nat, key_base) + map_slot_for(es, n - 1, key_base) }
}

/// The bytes that a nonempty map `es` takes when its first chunk starts at `at`:
/// per chunk its slots, its link, then the keys of its entries.
pub open spec fn encode_map_chunks(es: Seq<EntryView>, at: int) -> Seq<u8>
    decreases es.len(),
{
    let keys = keys_bytes(es, CHUNK_SIZE as nat);
    let slots = map_slots(es, CHUNK_SIZE as nat, at + MAP_CHUNK_BYTES);
    if es.len() <= CHUNK_SIZE {
        slots + u32_bytes(u32::MAX) + keys
    } else {
        let next = at + MAP_CHUNK_BYTES + keys.len();
        slots + u32_bytes(next as u32) + keys + encode_map_chunks(es.skip(CHUNK_SIZE as int), next)
    }
}

/// Number of bytes of `encode_map_chunks(es, _)`.
pub open spec fn map_encoded_len(es: Seq<EntryView>) -> nat
    decreases es.len(),
{
    if es.len() <= CHUNK_SIZE {
        (MAP_CHUNK_BYTES + keys_bytes(es, CHUNK_SIZE as nat).len()) as nat
    } else {
        (MAP_CHUNK_BYTES + keys_bytes(es, CHUNK_SIZE as nat).len() + map_encoded_len(es.skip(CHUNK_SIZE as int))) as nat
    }
}

/// The value that slot `i` of the chunk at `at` records.
pub open spec fn map_slot_value(s: Seq<u8>, at: int, i: int) -> ChildRef {
    ChildRef {
        offset: u32_at(s, at + 14 * i + 4),
        version_number: u16_at(s, at + 14 * i + 8),
        version_id: u32_at(s, at + 14 * i + 10),
    }
}

/// The live entries among the first `n` slots of the chunk at `at`, with their keys read.
pub open spec fn map_chunk_entries(s: Seq<u8>, at: int, n: nat) -> Result<Seq<EntryView>, CacheError>
    decreases n,
{
    if n == 0 {
        Ok(Seq::empty())
    } else {
        match map_chunk_entries(s, at, (n - 1) as nat) {
            Err(e) => Err(e),
            Ok(prev) => {
                let ko = u32_at(s, at + 14 * (n - 1));
                if ko == u32::MAX {
                    Ok(prev)
                } else {
                    match decode_key(s, ko as int) {
                        Err(e) => Err(e),
                        Ok(k) => Ok(prev.push((k, map_slot_value(s, at, n - 1)))),
                    }
                }
            },
        }
    }
}

/// What the chain of map chunks that starts at `at` holds.
pub open spec fn decode_map_chunks(s: Seq<u8>, at: int) -> Result<Seq<EntryView>, CacheError>
    decreases s.len() - at,
{
    if at < 0 || at + MAP_CHUNK_BYTES > s.len() {
        Err(CacheError::IoFailure)
    } else {
        match map_chunk_entries(s, at, CHUNK_SIZE as nat) {
            Err(e) => Err(e),
            Ok(items) => {
                let next = u32_at(s, at + 14 * CHUNK_SIZE);
                if next == u32::MAX {
                    Ok(items)
                } else if next <= at {
                    Err(CacheError::Corruption)
                } else if next >= s.len() {
                    Err(CacheError::IoFailure)
                } else {
                    prepend(items, decode_map_chunks(s, next as int))
                }
            },
        }
    }
}

/// What a map stored at `offset` holds; `u32::MAX` stands for the empty map.
pub open spec fn decode_map(s: Seq<u8>, offset: u32) -> Result<Seq<EntryView>, CacheError> {
    if offset == u32::MAX { Ok(Seq::empty()) } else { decode_map_chunks(s, offset as int) }
}

/// Entries that survive being written: keys that the tag scheme tells apart. Any
/// value does, an empty collection at `u32::MAX` included, since a slot is empty
/// by its key offset alone.
pub open spec fn entries_fit(es: Seq<EntryView>) -> bool {
    forall|i: int| 0 <= i < es.len() ==> key_fits(#[trigger] es[i].0)
}

proof fn lemma_map_slots_len(es: Seq<EntryView>, n: nat, key_base: int)
    ensures
        map_slots(es, n, key_base).len() == 14 * n,
    decreases n,
{
    if n > 0 {
        lemma_map_slots_len(es, (n - 1) as nat, key_base);
    }
}

/// The keys of the first `i` entries are a prefix of those of the first `n`.
proof fn lemma_keys_prefix(es: Seq<EntryView>, i: nat, n: nat)
    requires
        i <= n,
    ensures
        keys_bytes(es, i).len() <= keys_bytes(es, n).len(),
        keys_bytes(es, n).subrange(0, keys_bytes(es, i).len() as int) == keys_bytes(es, i),
    decreases n - i,
{
    if i < n {
        lemma_keys_prefix(es, i, (n - 1) as nat);
        let a = keys_bytes(es, i);
        let b = keys_bytes(es, (n - 1) as nat);
        assert(keys_bytes(es, n).subrange(0, b.len() as int) =~= b);
        assert(keys_bytes(es, n).subrange(0, a.len() as int) =~= b.subrange(0, a.len() as int));
    } else {
        assert(keys_bytes(es, n).subrange(0, keys_bytes(es, n).len() as int) =~= keys_bytes(es, n));
    }
}

proof fn lemma_map_encoded_len(es: Seq<EntryView>, at: int)
    requires
        es.len() > 0,
    ensures
        encode_map_chunks(es, at).len() == map_encoded_len(es),
        map_encoded_len(es) >= MAP_CHUNK_BYTES,
    decreases es.len(),
{
    lemma_map_slots_len(es, CHUNK_SIZE as nat, at + MAP_CHUNK_BYTES);
    if es.len() > CHUNK_SIZE {
        let next = at + MAP_CHUNK_BYTES + keys_bytes(es, CHUNK_SIZE as nat).len();
        lemma_map_encoded_len(es.skip(CHUNK_SIZE as int), next);
    }
}

proof fn lemma_map_slot_read_back(s: Seq<u8>, p: int, ko: u32, v: ChildRef)
    requires
        0 <= p,
        p + 14 <= s.len(),
        s.subrange(p, p + 14) == map_slot_bytes(ko, v),
    ensures
        u32_at(s, p) == ko,
        u32_at(s, p + 4) == v.offset,
        u16_at(s, p + 8) == v.version_number,
        u32_at(s, p + 10) == v.version_id,
{
    let b = map_slot_bytes(ko, v);
    assert(s.subrange(p, p + 4) =~= b.subrange(0, 4));
    assert(s.subrange(p + 4, p + 8) =~= b.subrange(4, 8));
    assert(s.subrange(p + 8, p + 10) =~= b.subrange(8, 10));
    assert(s.subrange(p + 10, p + 14) =~= b.subrange(10, 14));
    assert(b.subrange(0, 4) =~= u32_bytes(ko));
    assert(b.subrange(4, 8) =~= u32_bytes(v.offset));
    assert(b.subrange(8, 10) =~= u16_bytes(v.version_number));
    assert(b.subrange(10, 14) =~= u32_bytes(v.version_id));
    lemma_u32_read_back(s, p, ko);
    lemma_u32_read_back(s, p + 4, v.offset);
    lemma_u16_read_back(s, p + 8, v.version_number);
    lemma_u32_read_back(s, p + 10, v.version_id);
}

/// The slots and keys written for `es` read back as the first `n` entries of `es`.
#[verifier::rlimit(60)]
proof fn lemma_map_entries_read_back(s: Seq<u8>, at: int, es: Seq<EntryView>, n: nat)
    requires
        0 <= at,
        n <= CHUNK_SIZE,
        at + MAP_CHUNK_BYTES + keys_bytes(es, CHUNK_SIZE as nat).len() <= s.len(),
        at + MAP_CHUNK_BYTES + keys_bytes(es, CHUNK_SIZE as nat).len() <= u32::MAX,
        s.subrange(at, at + 14 * n) == map_slots(es, n, at + MAP_CHUNK_BYTES),
        s.subrange(at + MAP_CHUNK_BYTES, at + MAP_CHUNK_BYTES + keys_bytes(es, CHUNK_SIZE as nat).len())
            == keys_bytes(es, CHUNK_SIZE as nat),
        entries_fit(es),
    ensures
        map_chunk_entries(s, at, n) == Ok::<Seq<EntryView>, CacheError>(
            es.take(if n < es.len() { n as int } else { es.len() as int }),
        ),
    decreases n,
{
    if n == 0 {
        assert(es.take(0) =~= Seq::<EntryView>::empty());
    }
    if n > 0 {
        let m = (n - 1) as nat;
        let kb = at + MAP_CHUNK_BYTES;
        lemma_map_slots_len(es, m, kb);
        lemma_map_slots_len(es, n, kb);
        let p = at + 14 * m;
        let (mi, ni) = (14 * m as int, 14 * n as int);
        assert(s.subrange(at, p) =~= map_slots(es, n, kb).subrange(0, mi));
        assert(map_slots(es, n, kb).subrange(0, mi) =~= map_slots(es, m, kb));
        lemma_map_entries_read_back(s, at, es, m);
        assert(s.subrange(p, p + 14) =~= map_slots(es, n, kb).subrange(mi, ni));
        assert(map_slots(es, n, kb).subrange(mi, ni) =~= map_slot_for(es, m as int, kb));
        let sl = s.subrange(p, p + 14);
        if m < es.len() {
            let e = es[m as int];
            let pre_len = keys_bytes(es, m).len() as int;
            lemma_keys_prefix(es, m, n);
            lemma_keys_prefix(es, n, CHUNK_SIZE as nat);
            let kn = keys_bytes(es, n);
            let all = keys_bytes(es, CHUNK_SIZE as nat);
            assert(kn =~= keys_bytes(es, m) + key_bytes(e.0));
            let kl = key_bytes(e.0).len() as int;
            assert(kl >= 4);
            assert(kb + pre_len + 4 <= u32::MAX);
            let ko = (kb + pre_len) as u32;
            let prev = es.take(m as int);
            assert(map_chunk_entries(s, at, m) == Ok::<Seq<EntryView>, CacheError>(prev));
            lemma_map_slot_read_back(s, p, ko, e.1);
            assert(map_slot_value(s, at, m as int) == e.1);
            assert(all.subrange(0, kn.len() as int) == kn);
            assert(s.subrange(ko as int, ko + kl) =~= all.subrange(pre_len, pre_len + kl));
            assert(all.subrange(pre_len, pre_len + kl) =~= kn.subrange(pre_len, pre_len + kl));
            assert(kn.subrange(pre_len, pre_len + kl) =~= key_bytes(e.0));
            assert(key_fits(es[m as int].0));
            lemma_key_read_back(s, ko as int, e.0);
            assert(u32_at(s, at + 14 * m) == ko);
            assert(ko != u32::MAX);
            assert(prev.push(e) =~= es.take(n as int));
            assert(map_chunk_entries(s, at, n) == Ok::<Seq<EntryView>, CacheError>(prev.push((e.0, e.1))));
        } else {
            let z = ChildRef { offset: u32::MAX, version_number: u16::MAX, version_id: u32::MAX };
            assert(empty_map_slot() == map_slot_bytes(u32::MAX, z));
            lemma_map_slot_read_back(s, p, u32::MAX, z);
            assert(u32_at(s, at + 14 * m) == u32::MAX);
            assert(map_chunk_entries(s, at, n) == map_chunk_entries(s, at, m));
        }
    }
}

/// Writing a nonempty map whose keys the tag scheme tells apart and reading it
/// back gives the same entries in the same order, whatever the file held before.
#[verifier::rlimit(60)]
pub proof fn lemma_map_round_trip(pre: Seq<u8>, es: Seq<EntryView>)
    requires
        es.len() > 0,
        entries_fit(es),
        pre.len() + map_encoded_len(es) <= u32::MAX,
    ensures
        decode_map_chunks(pre + encode_map_chunks(es, pre.len() as int), pre.len() as int) == Ok::<
            Seq<EntryView>,
            CacheError,
        >(es),
    decreases es.len(),
{
    let at = pre.len() as int;
    let s = pre + encode_map_chunks(es, at);
    let kb = at + MAP_CHUNK_BYTES;
    let keys = keys_bytes(es, CHUNK_SIZE as nat);
    lemma_map_encoded_len(es, at);
    lemma_map_slots_len(es, CHUNK_SIZE as nat, kb);
    let slots = map_slots(es, CHUNK_SIZE as nat, kb);
    let next = kb + keys.len();
    let link: u32 = if es.len() <= CHUNK_SIZE { u32::MAX } else { next as u32 };
    assert(s.subrange(at, at + 3584) =~= slots);
    assert(s.subrange(kb, next) =~= keys);
    lemma_map_entries_read_back(s, at, es, CHUNK_SIZE as nat);
    assert(s.subrange(at + 3584, at + 3588) =~= u32_bytes(link));
    lemma_u32_read_back(s, at + 3584, link);
    if es.len() <= CHUNK_SIZE {
        assert(es.take(es.len() as int) =~= es);
    } else {
        let rest = es.skip(CHUNK_SIZE as int);
        let pre2 = pre + slots + u32_bytes(link) + keys;
        assert(s =~= pre2 + encode_map_chunks(rest, pre2.len() as int));
        assert forall|i: int| 0 <= i < rest.len() implies key_fits(#[trigger] rest[i].0) by {
            assert(rest[i] == es[i + CHUNK_SIZE]);
        }
        lemma_map_round_trip(pre2, rest);
        assert(es.take(CHUNK_SIZE as int) + rest =~= es);
    }
}

/// Once a key in a chunk fails to read, the whole chunk fails the same way.
proof fn lemma_map_chunk_error_stays(s: Seq<u8>, at: int, i: nat, n: nat)
    requires
        i <= n,
        map_chunk_entries(s, at, i) is Err,
    ensures
        map_chunk_entries(s, at, n) == map_chunk_entries(s, at, i),
    decreases n - i,
{
    if i < n {
        lemma_map_chunk_error_stays(s, at, i, (n - 1) as nat);
    }
}

/// The entries of `v` as they are stored.
pub open spec fn entries_view(v: Seq<(IdentityMapKey, ChildRef)>) -> Seq<EntryView> {
    v.map_values(|e: (IdentityMapKey, ChildRef)| (e.0@, e.1))
}

/// A keyed map of persisted children in the chunked layout; entries keep their order.
#[derive(Clone, Debug)]
pub struct LazyItemMap {
    pub entries: Vec<(IdentityMapKey, ChildRef)>,
}

impl View for LazyItemMap {
    type V = Seq<EntryView>;

    open spec fn view(&self) -> Seq<EntryView> {
        entries_view(self.entries@)
    }
}

/// Bytes that `k` takes on disk.
fn key_len(k: &IdentityMapKey) -> (r: u32)
    requires
        key_bytes(k@).len() <= u32::MAX,
    ensures
        r == key_bytes(k@).len(),
{
    match k {
        IdentityMapKey::Int(_) => 4,
        IdentityMapKey::String(s) => {
            let b = str_bytes(s);
            4 + b.len() as u32
        },
    }
}

impl LazyItemMap {
    pub fn new() -> (r: LazyItemMap)
        ensures
            r@.len() == 0,
    {
        LazyItemMap { entries: Vec::new() }
    }

    /// Appends the map to `file` and returns where it starts: `u32::MAX`, with
    /// nothing written, for the empty map.
    pub fn serialize(&self, file: &mut Vec<u8>) -> (r: u32)
        requires
            entries_fit(self@),
            self@.len() > 0 ==> old(file)@.len() + map_encoded_len(self@) <= u32::MAX,
        ensures
            self@.len() == 0 ==> r == u32::MAX && final(file)@ == old(file)@,
            self@.len() > 0 ==> r == old(file)@.len() && final(file)@ == old(file)@
                + encode_map_chunks(self@, old(file)@.len() as int),
            decode_map(final(file)@, r) == Ok::<Seq<EntryView>, CacheError>(self@),
    {
        let n = self.entries.len();
        if n == 0 {
            assert(self@ =~= Seq::<EntryView>::empty());
            return u32::MAX;
        }
        let ghost es = self@;
        let start = file.len();
        let ghost target = old(file)@ + encode_map_chunks(es, start as int);
        proof {
            lemma_map_encoded_len(es, start as int);
            assert(es.skip(0) =~= es);
        }
        let mut cs: usize = 0;
        let mut done = false;
        while !done
            invariant
                n == es.len(),
                es == self@,
                entries_fit(es),
                target.len() <= u32::MAX,
                !done ==> cs < n && file@ + encode_map_chunks(es.skip(cs as int), file@.len() as int) == target,
                done ==> file@ == target,
            decreases n - cs + (if done { 0int } else { 1int }),
        {
            let chunk_start = file.len();
            let ghost rest = es.skip(cs as int);
            let ghost base = file@;
            let ghost keys = keys_bytes(rest, CHUNK_SIZE as nat);
            proof {
                lemma_map_encoded_len(rest, chunk_start as int);
                lemma_map_slots_len(rest, CHUNK_SIZE as nat, chunk_start + MAP_CHUNK_BYTES);
                assert(chunk_start + MAP_CHUNK_BYTES + keys.len() <= target.len());
            }
            let kb = (chunk_start + MAP_CHUNK_BYTES) as u32;
            let mut cum: u32 = 0;
            let mut i: usize = 0;
            while i < CHUNK_SIZE
                invariant
                    i <= CHUNK_SIZE,
                    cs < n,
                    n == es.len(),
                    es == self@,
                    entries_fit(es),
                    rest == es.skip(cs as int),
                    keys == keys_bytes(rest, CHUNK_SIZE as nat),
                    kb + keys.len() <= u32::MAX,
                    kb == chunk_start + MAP_CHUNK_BYTES,
                    cum == keys_bytes(rest, i as nat).len(),
                    file@ == base + map_slots(rest, i as nat, kb as int),
                decreases CHUNK_SIZE - i,
            {
                let ghost before = file@;
                proof {
                    lemma_keys_prefix(rest, (i + 1) as nat, CHUNK_SIZE as nat);
                }
                if i < n - cs {
                    let e = &self.entries[cs + i];
                    assert(rest[i as int] == es[cs + i]);
                    push_u32(file, kb + cum);
                    push_u32(file, e.1.offset);
                    push_u16(file, e.1.version_number);
                    push_u32(file, e.1.version_id);
                    assert(file@ =~= before + map_slot_for(rest, i as int, kb as int));
                    proof {
                        lemma_keys_prefix(rest, i as nat, (i + 1) as nat);
                    }
                    let kl = key_len(&e.0);
                    cum = cum + kl;
                } else {
                    push_u32(file, u32::MAX);
                    push_u32(file, u32::MAX);
                    push_u16(file, u16::MAX);
                    push_u32(file, u32::MAX);
                    assert(file@ =~= before + empty_map_slot());
                }
                i = i + 1;
                assert(file@ =~= base + map_slots(rest, i as nat, kb as int));
            }
            let last = n - cs <= CHUNK_SIZE;
            let link = if last { u32::MAX } else { kb + cum };
            push_u32(file, link);
            let ghost mid = file@;
            let mut j: usize = 0;
            while j < CHUNK_SIZE
                invariant
                    j <= CHUNK_SIZE,
                    cs < n,
                    n == es.len(),
                    es == self@,
                    entries_fit(es),
                    rest == es.skip(cs as int),
                    keys == keys_bytes(rest, CHUNK_SIZE as nat),
                    mid.len() + keys.len() <= target.len(),
                    target.len() <= u32::MAX,
                    file@ == mid + keys_bytes(rest, j as nat),
                decreases CHUNK_SIZE - j,
            {
                proof {
                    lemma_keys_prefix(rest, (j + 1) as nat, CHUNK_SIZE as nat);
                }
                if j < n - cs {
                    let e = &self.entries[cs + j];
                    assert(rest[j as int] == es[cs + j]);
                    e.0.serialize(file);
                }
                j = j + 1;
                assert(file@ =~= mid + keys_bytes(rest, j as nat));
            }
            if last {
                assert(file@ =~= target);
                done = true;
            } else {
                proof {
                    assert(rest.skip(CHUNK_SIZE as int) =~= es.skip(cs + CHUNK_SIZE));
                }
                cs = cs + CHUNK_SIZE;
                assert(file@ + encode_map_chunks(es.skip(cs as int), file@.len() as int) =~= target);
            }
        }
        proof {
            lemma_map_round_trip(old(file)@, es);
        }
        start as u32
    }

    /// Reads the map stored at `offset`, following the chunk links and reading
    /// each live slot's key.
    pub fn deserialize(file: &Vec<u8>, offset: u32) -> (r: Result<LazyItemMap, CacheError>)
        ensures
            match decode_map(file@, offset) {
                Ok(es) => r is Ok && r->Ok_0@ == es,
                Err(e) => r == Err::<LazyItemMap, CacheError>(e),
            },
    {
        if offset == u32::MAX {
            let m = LazyItemMap::new();
            assert(m@ =~= Seq::<EntryView>::empty());
            return Ok(m);
        }
        let mut entries: Vec<(IdentityMapKey, ChildRef)> = Vec::new();
        let mut at: u64 = offset as u64;
        proof {
            let d = decode_map_chunks(file@, offset as int);
            if d is Ok {
                assert(entries_view(entries@) + d->Ok_0 =~= d->Ok_0);
            }
        }
        loop
            invariant
                at < file@.len() || at == offset,
                offset != u32::MAX,
                decode_map_chunks(file@, offset as int) == prepend(
                    entries_view(entries@),
                    decode_map_chunks(file@, at as int),
                ),
            decreases file@.len() - at,
        {
            if at >= file.len() as u64 || (file.len() as u64) - at < MAP_CHUNK_BYTES as u64 {
                return Err(CacheError::IoFailure);
            }
            let ghost items0 = entries_view(entries@);
            assert(file@.len() <= usize::MAX);
            let mut i: usize = 0;
            while i < CHUNK_SIZE
                invariant
                    i <= CHUNK_SIZE,
                    at + MAP_CHUNK_BYTES <= file@.len(),
                    file@.len() <= usize::MAX,
                    offset != u32::MAX,
                    decode_map_chunks(file@, offset as int) == prepend(items0, decode_map_chunks(file@, at as int)),
                    map_chunk_entries(file@, at as int, i as nat) is Ok,
                    entries_view(entries@) == items0 + map_chunk_entries(file@, at as int, i as nat)->Ok_0,
                decreases CHUNK_SIZE - i,
            {
                let ghost before = entries@;
                let p = at + 14 * (i as u64);
                let ko = read_u32(file, p);
                let vo = read_u32(file, p + 4);
                let vn = read_u16(file, p + 8);
                let vi = read_u32(file, p + 10);
                match (ko, vo, vn, vi) {
                    (Ok(ko), Ok(vo), Ok(vn), Ok(vi)) => {
                        if ko != u32::MAX {
                            match IdentityMapKey::deserialize(file, ko) {
                                Ok(k) => {
                                    entries.push((k, ChildRef { offset: vo, version_number: vn, version_id: vi }));
                                    assert(entries_view(entries@) =~= entries_view(before).push(
                                        (k@, ChildRef { offset: vo, version_number: vn, version_id: vi }),
                                    ));
                                },
                                Err(e) => {
                                    proof {
                                        lemma_map_chunk_error_stays(file@, at as int, (i + 1) as nat, CHUNK_SIZE as nat);
                                    }
                                    return Err(e);
                                },
                            }
                        }
                    },
                    _ => {
                        return Err(CacheError::IoFailure);
                    },
                }
                i = i + 1;
                assert(entries_view(entries@) =~= items0 + map_chunk_entries(file@, at as int, i as nat)->Ok_0);
            }
            let next = match read_u32(file, at + 14 * (CHUNK_SIZE as u64)) {
                Ok(v) => v,
                Err(e) => {
                    return Err(e);
                },
            };
            let ghost ch = map_chunk_entries(file@, at as int, CHUNK_SIZE as nat)->Ok_0;
            if next == u32::MAX {
                return Ok(LazyItemMap { entries });
            }
            if next as u64 <= at {
                return Err(CacheError::Corruption);
            }
            if next as u64 >= file.len() as u64 {
                return Err(CacheError::IoFailure);
            }
            proof {
                assert(decode_map_chunks(file@, at as int) == prepend(ch, decode_map_chunks(file@, next as int)));
                match decode_map_chunks(file@, next as int) {
                    Ok(rest) => {
                        assert(items0 + (ch + rest) =~= entries_view(entries@) + rest);
                    },
                    Err(e) => {},
                }
            }
            at = next as u64;
        }
    }
}

} // verus!
