use lazy_node_cache::bytes::CacheError;
use lazy_node_cache::chunked::{ChildRef, LazyItemVec};
use lazy_node_cache::keyed::{IdentityMapKey, LazyItemMap};

fn child(i: u32) -> ChildRef {
    ChildRef { offset: i * 7, version_number: (i % 5) as u16, version_id: i + 100 }
}

fn u32_at(file: &[u8], p: usize) -> u32 {
    u32::from_le_bytes([file[p], file[p + 1], file[p + 2], file[p + 3]])
}

#[test]
fn vec_round_trip_keeps_items_in_order() {
    for n in [1u32, 3, 256, 257, 600] {
        let v = LazyItemVec { items: (0..n).map(child).collect() };
        let mut file = vec![9u8; 13];
        let at = v.serialize(&mut file);
        assert_eq!(at, 13);
        let back = LazyItemVec::deserialize(&file, at).unwrap();
        assert_eq!(back.items, v.items);
    }
}

#[test]
fn empty_vec_is_the_sentinel() {
    let mut file = vec![1u8, 2, 3];
    let at = LazyItemVec::new().serialize(&mut file);
    assert_eq!(at, u32::MAX);
    assert_eq!(file, vec![1u8, 2, 3]);
    assert!(LazyItemVec::deserialize(&file, u32::MAX).unwrap().items.is_empty());
}

#[test]
fn vec_layout_has_chunks_and_links() {
    let v = LazyItemVec { items: (0..300).map(child).collect() };
    let mut file = Vec::new();
    v.serialize(&mut file);
    assert_eq!(file.len(), 2 * 2564);
    assert_eq!(u32_at(&file, 2560), 2564);
    assert_eq!(u32_at(&file, 2564 + 2560), u32::MAX);
    // slot 44 of the second chunk is the first empty one
    assert_eq!(u32_at(&file, 2564 + 44 * 10), u32::MAX);
    assert_eq!(u32_at(&file, 2564 + 43 * 10), 299 * 7);
}

#[test]
fn short_file_is_an_io_failure() {
    let v = LazyItemVec { items: vec![child(1)] };
    let mut file = Vec::new();
    v.serialize(&mut file);
    file.truncate(100);
    assert_eq!(LazyItemVec::deserialize(&file, 0).unwrap_err(), CacheError::IoFailure);
}

#[test]
fn backward_chunk_link_is_corruption() {
    let v = LazyItemVec { items: vec![child(1)] };
    let mut file = Vec::new();
    v.serialize(&mut file);
    file[2560..2564].copy_from_slice(&0u32.to_le_bytes());
    assert_eq!(LazyItemVec::deserialize(&file, 0).unwrap_err(), CacheError::Corruption);
}

#[test]
fn int_and_string_keys_round_trip() {
    let keys = vec![
        IdentityMapKey::Int(0),
        IdentityMapKey::Int(0x7fff_ffff),
        IdentityMapKey::String(String::new()),
        IdentityMapKey::String("héllo wörld".to_string()),
    ];
    for k in keys {
        let mut file = vec![0u8; 5];
        let at = k.serialize(&mut file);
        assert_eq!(at, 5);
        let back = IdentityMapKey::deserialize(&file, at).unwrap();
        match (&k, &back) {
            (IdentityMapKey::Int(a), IdentityMapKey::Int(b)) => assert_eq!(a, b),
            (IdentityMapKey::String(a), IdentityMapKey::String(b)) => assert_eq!(a, b),
            _ => panic!("key kind changed"),
        }
    }
}

#[test]
fn string_key_header_carries_the_tag_bit() {
    let mut file = Vec::new();
    IdentityMapKey::String("abc".to_string()).serialize(&mut file);
    assert_eq!(u32_at(&file, 0), 0x8000_0003);
    assert_eq!(&file[4..], b"abc");
}

#[test]
fn invalid_utf8_key_is_invalid_input() {
    let mut file = Vec::new();
    file.extend_from_slice(&0x8000_0002u32.to_le_bytes());
    file.extend_from_slice(&[0xff, 0xfe]);
    assert_eq!(IdentityMapKey::deserialize(&file, 0).unwrap_err(), CacheError::InvalidInput);
}

fn key_of(i: u32) -> IdentityMapKey {
    if i % 2 == 0 { IdentityMapKey::Int(i) } else { IdentityMapKey::String(format!("key-{}", i)) }
}

fn same_entries(a: &LazyItemMap, b: &LazyItemMap) -> bool {
    a.entries.len() == b.entries.len()
        && a.entries.iter().zip(b.entries.iter()).all(|(x, y)| {
            x.1 == y.1
                && match (&x.0, &y.0) {
                    (IdentityMapKey::Int(p), IdentityMapKey::Int(q)) => p == q,
                    (IdentityMapKey::String(p), IdentityMapKey::String(q)) => p == q,
                    _ => false,
                }
        })
}

#[test]
fn map_round_trip_keeps_entries() {
    let m = LazyItemMap { entries: (0..40).map(|i| (key_of(i), child(i + 1))).collect() };
    let mut file = vec![0u8; 3];
    let at = m.serialize(&mut file);
    assert_eq!(at, 3);
    let back = LazyItemMap::deserialize(&file, at).unwrap();
    assert!(same_entries(&m, &back));
}

#[test]
fn empty_map_is_the_sentinel() {
    let mut file = Vec::new();
    assert_eq!(LazyItemMap::new().serialize(&mut file), u32::MAX);
    assert!(file.is_empty());
    assert!(LazyItemMap::deserialize(&file, u32::MAX).unwrap().entries.is_empty());
}

#[test]
fn map_of_513_entries_takes_three_linked_chunks() {
    let m = LazyItemMap { entries: (0..513).map(|i| (IdentityMapKey::Int(i), child(i + 1))).collect() };
    let mut file = Vec::new();
    let at = m.serialize(&mut file);
    assert_eq!(at, 0);
    let mut chunk = 0usize;
    let mut live_per_chunk = Vec::new();
    loop {
        let live = (0..256).filter(|s| u32_at(&file, chunk + s * 14) != u32::MAX).count();
        live_per_chunk.push(live);
        let next = u32_at(&file, chunk + 256 * 14);
        if next == u32::MAX {
            break;
        }
        assert!(next as usize > chunk);
        chunk = next as usize;
    }
    assert_eq!(live_per_chunk, vec![256, 256, 1]);
    let back = LazyItemMap::deserialize(&file, at).unwrap();
    assert!(same_entries(&m, &back));
}

#[test]
fn map_value_may_be_an_empty_collection() {
    let empty = ChildRef { offset: u32::MAX, version_number: 0, version_id: 0 };
    let m = LazyItemMap { entries: vec![(IdentityMapKey::Int(1), empty), (IdentityMapKey::Int(2), child(3))] };
    let mut file = Vec::new();
    let at = m.serialize(&mut file);
    let back = LazyItemMap::deserialize(&file, at).unwrap();
    assert!(same_entries(&m, &back));
    assert_eq!(back.entries[0].1.offset, u32::MAX);
}
