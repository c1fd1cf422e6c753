use std::collections::HashSet;
use std::sync::Arc;

use lazy_node_cache::bytes::CacheError;
use lazy_node_cache::chunked::{ChildRef, LazyItemVec};
use lazy_node_cache::dense::{BatchLock, DenseIndexCache, DenseNode};
use lazy_node_cache::file_index::FileIndex;
use lazy_node_cache::inverted::InvertedIndexCache;
use lazy_node_cache::keyed::{IdentityMapKey, LazyItemMap};
use lazy_node_cache::lazy::{BufferManagerFactory, LazyItem, VersionFile};
use lazy_node_cache::node_registry::NodeRegistry;

const VERSION: u32 = 1;

fn put_u32(file: &mut [u8], at: usize, v: u32) {
    file[at..at + 4].copy_from_slice(&v.to_le_bytes());
}

/// A file of node records: each at its offset, with the blob `(0, 4)` and the given neighbors.
fn graph_file(nodes: &[(u32, Vec<u32>)]) -> Vec<u8> {
    let mut file = vec![0u8; 1024];
    for (offset, neighbors) in nodes {
        let list = LazyItemVec {
            items: neighbors
                .iter()
                .map(|n| ChildRef { offset: *n, version_number: 0, version_id: VERSION })
                .collect(),
        };
        let at = list.serialize(&mut file);
        let o = *offset as usize;
        put_u32(&mut file, o, 0);
        put_u32(&mut file, o + 4, 4);
        put_u32(&mut file, o + 8, at);
    }
    file
}

fn dense_cache(file: Vec<u8>) -> DenseIndexCache {
    DenseIndexCache::new(
        BufferManagerFactory::new(vec![VersionFile { version_id: VERSION, bytes: file }]),
        BufferManagerFactory::new(Vec::new()),
        b"prop".to_vec(),
    )
}

fn at(offset: u32) -> FileIndex {
    FileIndex::Valid { offset, version_id: VERSION, version_number: 0 }
}

fn data(item: &LazyItem<DenseNode>) -> &DenseNode {
    match item {
        LazyItem::Ready { data, .. } => data,
        LazyItem::Pending { .. } => panic!("expected a ready node"),
    }
}

#[test]
fn cold_load_registers_one_node() {
    let mut cache = dense_cache(graph_file(&[(64, vec![])]));
    let item = cache.get_object(at(64), false, BatchLock::Acquired).unwrap();
    assert_eq!(cache.registry.len(), 1);
    assert!(cache.registry.contains_key(&((64u64 << 32) | 1)));
    let node = data(&item);
    assert!(node.neighbors.is_empty());
    assert_eq!(node.prop.value, b"prop".to_vec());
}

#[test]
fn warm_hit_returns_the_same_handle() {
    let mut cache = dense_cache(graph_file(&[(64, vec![])]));
    let first = cache.get_object(at(64), false, BatchLock::Acquired).unwrap();
    let second = cache.get_object(at(64), false, BatchLock::Acquired).unwrap();
    assert!(Arc::ptr_eq(&first, &second));
    assert_eq!(cache.registry.len(), 1);
}

#[test]
fn cycle_closes_with_a_pending_stub() {
    let mut cache = dense_cache(graph_file(&[(100, vec![200]), (200, vec![100])]));
    let a = cache.load_item(at(100), false).unwrap();
    assert_eq!(a.neighbors.len(), 1);
    assert!(a.neighbors[0].ready);
    let b = cache.registry.get(&(200u64 << 32 | 1)).unwrap().clone();
    let b = data(&b);
    assert_eq!(b.neighbors[0].file_index, at(100));
    assert!(!b.neighbors[0].ready);
}

#[test]
fn budget_stops_a_chain() {
    let mut cache = dense_cache(graph_file(&[(100, vec![200]), (200, vec![300]), (300, vec![400]), (400, vec![])]));
    let mut skipm = HashSet::new();
    let a = cache.get_lazy_object(at(100), 2, &mut skipm, false).unwrap();
    assert!(data(&a).neighbors[0].ready);
    let b = cache.registry.get(&(200u64 << 32 | 1)).unwrap().clone();
    assert!(!data(&b).neighbors[0].ready);
    assert_eq!(cache.registry.len(), 2);
    assert!(!cache.registry.contains_key(&(300u64 << 32 | 1)));
    assert!(!cache.registry.contains_key(&(400u64 << 32 | 1)));
    assert_eq!(skipm.len(), 2);
}

#[test]
fn shallow_load_when_batch_lock_is_taken() {
    let nodes = [(100, vec![200]), (200, vec![300]), (300, vec![400]), (400, vec![500]), (500, vec![])];
    let mut shallow = dense_cache(graph_file(&nodes));
    shallow.get_object(at(100), false, BatchLock::WouldBlock).unwrap();
    assert_eq!(shallow.registry.len(), 1);
    let mut deep = dense_cache(graph_file(&nodes));
    deep.get_object(at(100), false, BatchLock::Acquired).unwrap();
    assert_eq!(deep.registry.len(), 5);
}

#[test]
fn zero_budget_gives_a_stub_without_reading() {
    let mut cache = dense_cache(graph_file(&[(64, vec![])]));
    let mut skipm = HashSet::new();
    let item = cache.get_lazy_object(at(64), 0, &mut skipm, false).unwrap();
    assert!(matches!(*item, LazyItem::Pending { file_index } if file_index == at(64)));
    assert!(cache.registry.is_empty());
}

#[test]
fn evicted_handle_stays_valid() {
    let mut cache = dense_cache(graph_file(&[(64, vec![])]));
    let item = cache.get_object(at(64), false, BatchLock::Acquired).unwrap();
    cache.registry.clear();
    assert_eq!(data(&item).prop.value, b"prop".to_vec());
    let again = cache.get_object(at(64), false, BatchLock::Acquired).unwrap();
    assert!(!Arc::ptr_eq(&item, &again));
}

#[test]
fn level_0_key_is_separate() {
    let f = at(64);
    assert_eq!(DenseIndexCache::combine_index(&f, false), DenseIndexCache::combine_index(&f, false));
    assert_eq!(DenseIndexCache::combine_index(&f, false), (64u64 << 32) | 1);
    assert_eq!(DenseIndexCache::combine_index(&f, true), (1u64 << 63) | (64u64 << 32) | 1);
    assert_eq!(DenseIndexCache::combine_index(&FileIndex::Invalid, true), u64::MAX);
    let g = FileIndex::Valid { offset: 64, version_id: VERSION, version_number: 9 };
    assert_eq!(DenseIndexCache::combine_index(&f, false), DenseIndexCache::combine_index(&g, false));
}

#[test]
fn prop_key_packs_offset_and_length() {
    assert_eq!(DenseIndexCache::get_prop_key(3, 5), (3u64 << 32) | 5);
    assert_eq!(InvertedIndexCache::get_prop_key(7, 1), (7u64 << 32) | 1);
}

#[test]
fn invalid_index_is_refused() {
    let mut cache = dense_cache(graph_file(&[(64, vec![])]));
    assert_eq!(cache.load_item(FileIndex::Invalid, false).unwrap_err(), CacheError::InvalidInput);
    assert_eq!(
        cache.get_object(FileIndex::Invalid, false, BatchLock::Acquired).unwrap_err(),
        CacheError::InvalidInput
    );
    assert!(cache.registry.is_empty());
}

#[test]
fn read_past_end_is_an_io_failure() {
    let mut cache = dense_cache(graph_file(&[(64, vec![])]));
    let far = FileIndex::Valid { offset: 1_000_000, version_id: VERSION, version_number: 0 };
    assert_eq!(cache.get_object(far, false, BatchLock::Acquired).unwrap_err(), CacheError::IoFailure);
    let missing = FileIndex::Valid { offset: 64, version_id: 7, version_number: 0 };
    assert_eq!(cache.get_object(missing, false, BatchLock::Acquired).unwrap_err(), CacheError::IoFailure);
}

#[test]
fn props_are_shared_while_held() {
    let mut cache = dense_cache(graph_file(&[]));
    let p = cache.get_prop(1, 2).unwrap();
    let q = cache.get_prop(1, 2).unwrap();
    assert!(Arc::ptr_eq(&p, &q));
    assert_eq!(p.value, b"ro".to_vec());
    drop(p);
    drop(q);
    let r = cache.get_prop(1, 2).unwrap();
    assert_eq!(r.value, b"ro".to_vec());
    assert_eq!(cache.get_prop(2, 9).unwrap_err(), CacheError::IoFailure);
}

#[test]
fn force_load_and_region_prefetch() {
    let mut cache = dense_cache(graph_file(&[(0, vec![16]), (16, vec![]), (32, vec![])]));
    let item = cache.force_load_single_object(at(0), false).unwrap();
    assert!(!data(&item).neighbors[0].ready);
    let mut small = dense_cache(vec![0u8; 40]);
    let nodes = small.load_region(0, 0, VERSION, 16, false);
    // offsets 0, 16, 32: the last record runs past the end of the file
    assert_eq!(nodes.unwrap_err(), CacheError::IoFailure);
    let mut packed = Vec::new();
    for _ in 0..5 {
        packed.extend_from_slice(&0u32.to_le_bytes());
        packed.extend_from_slice(&4u32.to_le_bytes());
        packed.extend_from_slice(&u32::MAX.to_le_bytes());
    }
    let mut cache = dense_cache(packed);
    let region = cache.load_region(0, 0, VERSION, 12, false).unwrap();
    assert_eq!(region.len(), 5);
    assert_eq!(cache.registry.len(), 5);
    let region = cache.load_region(24, 0, VERSION, 12, false).unwrap();
    assert_eq!(region.len(), 3);
    assert!(cache.load_region(5000, 0, VERSION, 12, false).unwrap().is_empty());
}

#[test]
fn caller_built_node_is_registered() {
    let mut cache = dense_cache(graph_file(&[]));
    let item = Arc::new(LazyItem::Pending { file_index: at(8) });
    cache.insert_lazy_object(VERSION, 8, item.clone());
    let got = cache.get_object(at(8), false, BatchLock::Acquired).unwrap();
    assert!(Arc::ptr_eq(&item, &got));
}

fn inverted() -> InvertedIndexCache {
    let mut data = vec![0u8; 8];
    let map = LazyItemMap {
        entries: vec![(IdentityMapKey::Int(5), ChildRef { offset: 1, version_number: 0, version_id: 0 })],
    };
    let map_at = map.serialize(&mut data);
    let set = LazyItemVec { items: vec![ChildRef { offset: 2, version_number: 3, version_id: 4 }] };
    let set_at = set.serialize(&mut data);
    assert_eq!(map_at, 8);
    let mut dim = vec![0u8; 8];
    put_u32(&mut dim, 4, set_at);
    InvertedIndexCache::new(dim, vec![Vec::new(), data], 2)
}

#[test]
fn inverted_data_and_sets_are_cached() {
    let mut cache = inverted();
    let d = cache.get_data(8, 1).unwrap();
    match &*d {
        LazyItem::Ready { data, file_offset, .. } => {
            assert_eq!(*file_offset, 8);
            assert_eq!(data.entries.len(), 1);
        }
        LazyItem::Pending { .. } => panic!("expected ready data"),
    }
    let d2 = cache.get_data(8, 1).unwrap();
    assert!(Arc::ptr_eq(&d, &d2));
    let s = cache.get_sets(4, 1).unwrap();
    match &*s {
        LazyItem::Ready { data, .. } => {
            assert_eq!(data.items, vec![ChildRef { offset: 2, version_number: 3, version_id: 4 }])
        }
        LazyItem::Pending { .. } => panic!("expected ready sets"),
    }
    assert_eq!(cache.data_registry.len(), 1);
    assert_eq!(cache.sets_registry.len(), 1);
    assert_eq!(InvertedIndexCache::combine_index(8, 1), (1u64 << 32) | 8);
    assert_eq!(cache.get_data(8, 9).unwrap_err(), CacheError::IoFailure);
    assert_eq!(cache.load_item::<LazyItemMap>(8, 1).unwrap().entries.len(), 1);
    assert_eq!(
        cache.load_item::<LazyItemVec>(4, 1).unwrap().items,
        vec![ChildRef { offset: 2, version_number: 3, version_id: 4 }]
    );
    assert_eq!(cache.load_item::<LazyItemVec>(100, 1).unwrap_err(), CacheError::IoFailure);
}

#[test]
fn registry_hit_after_filter_insert() {
    let mut file = vec![0u8; 4];
    file.extend_from_slice(&77u32.to_le_bytes());
    let mut reg =
        NodeRegistry::new(100, BufferManagerFactory::new(vec![VersionFile { version_id: VERSION, bytes: file }]));
    let mut skipm = HashSet::new();
    let a = reg.get_object::<u32>(at(4), 3, &mut skipm).unwrap();
    assert!(matches!(*a, LazyItem::Ready { data: 77, .. }));
    let mut skipm2 = HashSet::new();
    let b = reg.get_object::<u32>(at(4), 3, &mut skipm2).unwrap();
    assert!(Arc::ptr_eq(&a, &b));
    assert!(skipm2.is_empty());
    let stub = reg.get_object::<u32>(at(0), 3, &mut skipm).unwrap();
    assert!(matches!(*stub, LazyItem::Ready { data: 0, .. }));
    let again = reg.get_object::<u32>(at(8), 0, &mut HashSet::new()).unwrap();
    assert!(matches!(*again, LazyItem::Pending { .. }));
    assert_eq!(NodeRegistry::combine_index(&at(4)), (4u64 << 32) | 1);
    assert_eq!(reg.load_item::<u32>(FileIndex::Invalid).unwrap_err(), CacheError::InvalidInput);
    assert_eq!(reg.load_item::<u32>(at(4)).unwrap(), 77);
}

#[test]
fn sentinel_key_is_never_registered() {
    let mut cache = dense_cache(graph_file(&[]));
    let item = Arc::new(LazyItem::Pending { file_index: at(8) });
    cache.insert_lazy_object(u32::MAX, u32::MAX, item);
    assert!(cache.registry.is_empty());
    let mut skipm = HashSet::new();
    assert_eq!(
        cache.get_lazy_object(FileIndex::Invalid, 3, &mut skipm, false).unwrap_err(),
        CacheError::InvalidInput
    );
    assert!(cache.registry.is_empty());
}

#[test]
fn failed_loads_leave_the_registry_unchanged() {
    let mut cache = dense_cache(graph_file(&[(64, vec![])]));
    let missing = FileIndex::Valid { offset: 64, version_id: 7, version_number: 0 };
    assert_eq!(cache.force_load_single_object(missing, false).unwrap_err(), CacheError::IoFailure);
    assert_eq!(cache.force_load_single_object(FileIndex::Invalid, false).unwrap_err(), CacheError::InvalidInput);
    let mut skipm = HashSet::new();
    assert_eq!(cache.get_lazy_object(missing, 4, &mut skipm, false).unwrap_err(), CacheError::IoFailure);
    assert!(cache.registry.is_empty());
    assert!(cache.get_lazy_object(at(64), 4, &mut skipm, false).is_ok());
    assert_eq!(cache.registry.len(), 1);
}

#[test]
fn empty_collection_sentinel_needs_no_file() {
    let mut reg = NodeRegistry::new(10, BufferManagerFactory::new(Vec::new()));
    let nowhere = FileIndex::Valid { offset: u32::MAX, version_id: 99, version_number: 0 };
    let v = reg.get_object::<LazyItemVec>(nowhere, 2, &mut HashSet::new()).unwrap();
    assert!(matches!(&*v, LazyItem::Ready { data, .. } if data.items.is_empty()));
    let m = reg.load_item::<LazyItemMap>(nowhere).unwrap();
    assert!(m.entries.is_empty());
    let elsewhere = FileIndex::Valid { offset: 0, version_id: 99, version_number: 0 };
    assert_eq!(reg.get_object::<LazyItemVec>(elsewhere, 2, &mut HashSet::new()).unwrap_err(), CacheError::IoFailure);
}

#[test]
fn registry_resolves_children_with_the_remaining_budget() {
    let mut file = Vec::new();
    file.extend_from_slice(&11u32.to_le_bytes());
    file.extend_from_slice(&22u32.to_le_bytes());
    let list = LazyItemVec {
        items: vec![
            ChildRef { offset: 0, version_number: 0, version_id: VERSION },
            ChildRef { offset: 4, version_number: 0, version_id: VERSION },
        ],
    };
    let list_at = list.serialize(&mut file);
    let files = || BufferManagerFactory::new(vec![VersionFile { version_id: VERSION, bytes: file.clone() }]);
    let mut deep = NodeRegistry::new(10, files());
    let mut skipm = HashSet::new();
    let v = deep.get_object::<LazyItemVec>(at(list_at), 2, &mut skipm).unwrap();
    assert!(matches!(&*v, LazyItem::Ready { data, .. } if data.items.len() == 2));
    assert_eq!(deep.registry.len(), 3);
    assert_eq!(skipm.len(), 3);
    let child = deep.get_object::<u32>(at(4), 1, &mut HashSet::new()).unwrap();
    assert!(matches!(*child, LazyItem::Ready { data: 22, .. }));
    let mut shallow = NodeRegistry::new(10, files());
    shallow.get_object::<LazyItemVec>(at(list_at), 1, &mut HashSet::new()).unwrap();
    assert_eq!(shallow.registry.len(), 1);
}

#[test]
fn registry_load_item_resolves_children() {
    let mut file = Vec::new();
    file.extend_from_slice(&5u32.to_le_bytes());
    let list = LazyItemVec { items: vec![ChildRef { offset: 0, version_number: 0, version_id: VERSION }] };
    let list_at = list.serialize(&mut file);
    let mut reg = NodeRegistry::new(
        10,
        BufferManagerFactory::new(vec![VersionFile { version_id: VERSION, bytes: file }]),
    );
    let v = reg.load_item::<LazyItemVec>(at(list_at)).unwrap();
    assert_eq!(v.items.len(), 1);
    assert_eq!(reg.registry.len(), 1);
    assert!(reg.registry.contains_key(&((0u64 << 32) | 1)));
    assert_eq!(
        reg.get_object::<LazyItemVec>(FileIndex::Invalid, 3, &mut HashSet::new()).unwrap_err(),
        CacheError::InvalidInput
    );
}
