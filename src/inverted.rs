//! Cache of sparse inverted-index records: data maps and fixed sets, read from
//! data files sharded by index, through a dimension file of pointers.
use vstd::prelude::*;
use std::collections::HashMap;
use std::sync::Arc;
use crate::bytes::{read_u32, u32_at, CacheError};
use crate::chunked::{decode_vec, LazyItemVec};
use crate::file_index::{inverted_key, prop_key, spec_inverted_key, spec_prop_key};
use crate::keyed::{decode_map, EntryView, LazyItemMap};
use crate::lazy::{share, LazyItem};

verus! {

broadcast use vstd::std_specs::hash::group_hash_axioms;

pub struct InvertedIndexCache {
    pub data_registry: HashMap<u64, Arc<LazyItem<LazyItemMap>>>,
    pub sets_registry: HashMap<u64, Arc<LazyItem<LazyItemVec>>>,
    /// The dimension file: at a set's offset, the offset of its data in a data file.
    pub dim_bufman: Vec<u8>,
    /// The data files, by data-file index.
    pub data_bufmans: Vec<Vec<u8>>,
    pub data_file_parts: u8,
}

/// The bytes of data file `idx`, if there is one.
pub open spec fn data_file(files: Seq<Vec<u8>>, idx: u8) -> Option<Seq<u8>> {
    if (idx as int) < files.len() { Some(files[idx as int]@) } else { None }
}

/// What a data record at `offset` of data file `idx` holds.
pub open spec fn read_data(files: Seq<Vec<u8>>, offset: u32, idx: u8) -> Result<Seq<EntryView>, CacheError> {
    match data_file(files, idx) {
        None => Err(CacheError::IoFailure),
        Some(s) => decode_map(s, offset),
    }
}

/// What the set whose pointer sits at `offset` of the dimension file holds.
pub open spec fn read_sets(dim: Seq<u8>, files: Seq<Vec<u8>>, offset: u32, idx: u8) -> Result<Seq<crate::chunked::ChildRef>, CacheError> {
    if offset + 4 > dim.len() {
        Err(CacheError::IoFailure)
    } else {
        match data_file(files, idx) {
            None => Err(CacheError::IoFailure),
            Some(s) => decode_vec(s, u32_at(dim, offset as int)),
        }
    }
}

/// The ready item for data read at `file_offset` of this single-version cache.
pub open spec fn ready_with<T>(item: LazyItem<T>, file_offset: u32) -> bool {
    match item {
        LazyItem::Ready { file_offset: o, version_id, version_number, .. } => o == file_offset && version_id
            == 0 && version_number == 0,
        LazyItem::Pending { .. } => false,
    }
}

impl InvertedIndexCache {
    pub fn new(dim_bufman: Vec<u8>, data_bufmans: Vec<Vec<u8>>, data_file_parts: u8) -> (r: InvertedIndexCache)
        ensures
            r.data_registry@ == Map::<u64, Arc<LazyItem<LazyItemMap>>>::empty(),
            r.sets_registry@ == Map::<u64, Arc<LazyItem<LazyItemVec>>>::empty(),
            r.dim_bufman == dim_bufman,
            r.data_bufmans == data_bufmans,
            r.data_file_parts == data_file_parts,
    {
        InvertedIndexCache {
            data_registry: HashMap::new(),
            sets_registry: HashMap::new(),
            dim_bufman,
            data_bufmans,
            data_file_parts,
        }
    }

    pub fn combine_index(file_offset: u32, data_file_idx: u8) -> (r: u64)
        ensures
            r == spec_inverted_key(file_offset, data_file_idx),
    {
        inverted_key(file_offset, data_file_idx)
    }

    pub fn get_prop_key(offset: u32, length: u32) -> (r: u64)
        ensures
            r == spec_prop_key(offset, length),
    {
        prop_key(offset, length)
    }

    /// The data record at `file_offset` of data file `data_file_idx`: the registered
    /// one, else read and registered.
    pub fn get_data(&mut self, file_offset: u32, data_file_idx: u8) -> (r: Result<Arc<LazyItem<LazyItemMap>>, CacheError>)
        ensures
            final(self).sets_registry == old(self).sets_registry,
            final(self).dim_bufman == old(self).dim_bufman,
            final(self).data_bufmans == old(self).data_bufmans,
            final(self).data_file_parts == old(self).data_file_parts,
            ({
                let key = spec_inverted_key(file_offset, data_file_idx);
                let read = read_data(old(self).data_bufmans@, file_offset, data_file_idx);
                &&& old(self).data_registry@.contains_key(key) ==> r == Ok::<
                    Arc<LazyItem<LazyItemMap>>,
                    CacheError,
                >(old(self).data_registry@[key]) && final(self).data_registry == old(self).data_registry
                &&& !old(self).data_registry@.contains_key(key) && read is Err ==> r == Err::<
                    Arc<LazyItem<LazyItemMap>>,
                    CacheError,
                >(read->Err_0) && final(self).data_registry == old(self).data_registry
                &&& !old(self).data_registry@.contains_key(key) && read is Ok ==> r is Ok && ready_with(
                    *r->Ok_0,
                    file_offset,
                ) && r->Ok_0->data@ == read->Ok_0 && final(self).data_registry@ == old(
                    self,
                ).data_registry@.insert(key, r->Ok_0)
            }),
    {
        let key = inverted_key(file_offset, data_file_idx);
        match self.data_registry.get(&key) {
            Some(item) => {
                return Ok(share(item));
            },
            None => {},
        }
        if data_file_idx as usize >= self.data_bufmans.len() {
            return Err(CacheError::IoFailure);
        }
        let data = match LazyItemMap::deserialize(&self.data_bufmans[data_file_idx as usize], file_offset) {
            Ok(d) => d,
            Err(e) => {
                return Err(e);
            },
        };
        let item = Arc::new(LazyItem::Ready { data, file_offset, version_id: 0, version_number: 0 });
        self.data_registry.insert(key, share(&item));
        Ok(item)
    }

    /// The fixed set whose pointer sits at `file_offset` of the dimension file, its
    /// data in data file `data_file_idx`: the registered one, else read and registered.
    pub fn get_sets(&mut self, file_offset: u32, data_file_idx: u8) -> (r: Result<Arc<LazyItem<LazyItemVec>>, CacheError>)
        ensures
            final(self).data_registry == old(self).data_registry,
            final(self).dim_bufman == old(self).dim_bufman,
            final(self).data_bufmans == old(self).data_bufmans,
            final(self).data_file_parts == old(self).data_file_parts,
            ({
                let key = spec_inverted_key(file_offset, data_file_idx);
                let read = read_sets(old(self).dim_bufman@, old(self).data_bufmans@, file_offset, data_file_idx);
                &&& old(self).sets_registry@.contains_key(key) ==> r == Ok::<
                    Arc<LazyItem<LazyItemVec>>,
                    CacheError,
                >(old(self).sets_registry@[key]) && final(self).sets_registry == old(self).sets_registry
                &&& !old(self).sets_registry@.contains_key(key) && read is Err ==> r == Err::<
                    Arc<LazyItem<LazyItemVec>>,
                    CacheError,
                >(read->Err_0) && final(self).sets_registry == old(self).sets_registry
                &&& !old(self).sets_registry@.contains_key(key) && read is Ok ==> r is Ok && ready_with(
                    *r->Ok_0,
                    file_offset,
                ) && r->Ok_0->data.items@ == read->Ok_0 && final(self).sets_registry@ == old(
                    self,
                ).sets_registry@.insert(key, r->Ok_0)
            }),
    {
        let key = inverted_key(file_offset, data_file_idx);
        match self.sets_registry.get(&key) {
            Some(item) => {
                return Ok(share(item));
            },
            None => {},
        }
        let data_offset = match read_u32(&self.dim_bufman, file_offset as u64) {
            Ok(v) => v,
            Err(e) => {
                return Err(e);
            },
        };
        if data_file_idx as usize >= self.data_bufmans.len() {
            return Err(CacheError::IoFailure);
        }
        let data = match LazyItemVec::deserialize(&self.data_bufmans[data_file_idx as usize], data_offset) {
            Ok(d) => d,
            Err(e) => {
                return Err(e);
            },
        };
        let item = Arc::new(LazyItem::Ready { data, file_offset, version_id: 0, version_number: 0 });
        self.sets_registry.insert(key, share(&item));
        Ok(item)
    }

    /// Reads an item of kind `T` at `file_offset`, with data file `data_file_idx`,
    /// without the registries.
    pub fn load_item<T: InvertedIndexSerialize>(&self, file_offset: u32, data_file_idx: u8) -> (r: Result<
        T,
        CacheError,
    >)
        ensures
            T::read_inverted(self.dim_bufman@, self.data_bufmans@, file_offset, data_file_idx, r),
    {
        T::deserialize(&self.dim_bufman, &self.data_bufmans, file_offset, data_file_idx)
    }
}

/// Kinds of item that can be read from the dimension file and the data files.
pub trait InvertedIndexSerialize: Sized {
    /// `r` is what reading an item of this kind at `offset` gives.
    spec fn read_inverted(dim: Seq<u8>, files: Seq<Vec<u8>>, offset: u32, idx: u8, r: Result<Self, CacheError>) -> bool;

    fn deserialize(dim: &Vec<u8>, files: &Vec<Vec<u8>>, file_offset: u32, data_file_idx: u8) -> (r: Result<
        Self,
        CacheError,
    >)
        ensures
            Self::read_inverted(dim@, files@, file_offset, data_file_idx, r);
}

/// A data record: a keyed map at the offset in the data file.
impl InvertedIndexSerialize for LazyItemMap {
    open spec fn read_inverted(dim: Seq<u8>, files: Seq<Vec<u8>>, offset: u32, idx: u8, r: Result<LazyItemMap, CacheError>) -> bool {
        match read_data(files, offset, idx) {
            Ok(es) => r is Ok && r->Ok_0@ == es,
            Err(e) => r == Err::<LazyItemMap, CacheError>(e),
        }
    }

    fn deserialize(dim: &Vec<u8>, files: &Vec<Vec<u8>>, file_offset: u32, data_file_idx: u8) -> (r: Result<
        LazyItemMap,
        CacheError,
    >) {
        if data_file_idx as usize >= files.len() {
            return Err(CacheError::IoFailure);
        }
        LazyItemMap::deserialize(&files[data_file_idx as usize], file_offset)
    }
}

/// A fixed set: a sequence in the data file, found through the dimension file.
impl InvertedIndexSerialize for LazyItemVec {
    open spec fn read_inverted(dim: Seq<u8>, files: Seq<Vec<u8>>, offset: u32, idx: u8, r: Result<LazyItemVec, CacheError>) -> bool {
        match read_sets(dim, files, offset, idx) {
            Ok(xs) => r is Ok && r->Ok_0.items@ == xs,
            Err(e) => r == Err::<LazyItemVec, CacheError>(e),
        }
    }

    fn deserialize(dim: &Vec<u8>, files: &Vec<Vec<u8>>, file_offset: u32, data_file_idx: u8) -> (r: Result<
        LazyItemVec,
        CacheError,
    >) {
        let data_offset = match read_u32(dim, file_offset as u64) {
            Ok(v) => v,
            Err(e) => {
                return Err(e);
            },
        };
        if data_file_idx as usize >= files.len() {
            return Err(CacheError::IoFailure);
        }
        LazyItemVec::deserialize(&files[data_file_idx as usize], data_offset)
    }
}

} // verus!
