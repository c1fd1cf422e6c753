//! Registry of items of several kinds under one key space, with a cuckoo filter
//! in front of it as a membership pre-check.
use vstd::prelude::*;
use std::collections::{HashMap, HashSet};
use std::sync::Arc;
use probabilistic_collections::cuckoo::CuckooFilter;
use crate::bytes::{read_u32, u32_at, CacheError};
use crate::chunked::{decode_vec, LazyItemVec};
use crate::file_index::{registry_key, spec_registry_key, FileIndex};
use crate::chunked::ChildRef;
use crate::dense::child_index;
use crate::keyed::{decode_map, EntryView, LazyItemMap};
use crate::lazy::{share, BufferManagerFactory, LazyItem};

verus! {

broadcast use vstd::std_specs::hash::group_hash_axioms;

#[verifier::external_type_specification]
#[verifier::external_body]
#[verifier::reject_recursive_types(T)]
#[verifier::reject_recursive_types(B)]
pub struct ExCuckooFilter<T, B>(CuckooFilter<T, B>);

#[verifier::external_type_specification]
#[verifier::external_body]
pub struct ExSipHasherBuilder(probabilistic_collections::SipHasherBuilder);

/// The keys inserted into a filter so far.
pub uninterp spec fn filter_keys(f: CuckooFilter<u64>) -> Set<u64>;

/// Relies on `CuckooFilter::new`, which panics on a zero capacity: the filter starts empty.
#[verifier::external_body]
fn filter_new(capacity: usize) -> (r: CuckooFilter<u64>)
    requires
        capacity > 0,
    ensures
        filter_keys(r) == Set::<u64>::empty(),
{
    CuckooFilter::new(capacity)
}

/// Relies on `CuckooFilter::contains`: an inserted key is always reported
/// (other keys may be reported too).
#[verifier::external_body]
fn filter_contains(f: &CuckooFilter<u64>, key: u64) -> (r: bool)
    ensures
        filter_keys(*f).contains(key) ==> r,
{
    f.contains(&key)
}

/// Relies on `CuckooFilter::insert`: the key becomes a member, and a fingerprint
/// kicked out of its bucket is moved or kept aside, never dropped.
#[verifier::external_body]
fn filter_insert(f: &mut CuckooFilter<u64>, key: u64)
    ensures
        filter_keys(*final(f)) == filter_keys(*old(f)).insert(key),
{
    f.insert(&key)
}

/// One registry value, tagged by the kind of item it holds.
#[derive(Debug)]
pub enum CacheItem {
    Unsigned32(Arc<LazyItem<u32>>),
    ItemVec(Arc<LazyItem<LazyItemVec>>),
    ItemMap(Arc<LazyItem<LazyItemMap>>),
}

/// A second handle on the same item.
fn share_item(c: &CacheItem) -> (r: CacheItem)
    ensures
        r == *c,
{
    match c {
        CacheItem::Unsigned32(a) => CacheItem::Unsigned32(share(a)),
        CacheItem::ItemVec(a) => CacheItem::ItemVec(share(a)),
        CacheItem::ItemMap(a) => CacheItem::ItemMap(share(a)),
    }
}

/// Kinds of item that the registry can hold.
pub trait Cacheable: Sized {
    /// The item of this kind that `c` holds, if `c` is of this kind.
    spec fn spec_from(c: CacheItem) -> Option<Arc<LazyItem<Self>>>;

    fn from_cache_item(c: CacheItem) -> (r: Option<Arc<LazyItem<Self>>>)
        ensures
            r == Self::spec_from(c);

    fn into_cache_item(item: Arc<LazyItem<Self>>) -> (r: CacheItem)
        ensures
            Self::spec_from(r) == Some(item);
}

impl Cacheable for u32 {
    open spec fn spec_from(c: CacheItem) -> Option<Arc<LazyItem<u32>>> {
        match c {
            CacheItem::Unsigned32(a) => Some(a),
            _ => None,
        }
    }

    fn from_cache_item(c: CacheItem) -> (r: Option<Arc<LazyItem<u32>>>) {
        match c {
            CacheItem::Unsigned32(a) => Some(a),
            _ => None,
        }
    }

    fn into_cache_item(item: Arc<LazyItem<u32>>) -> (r: CacheItem) {
        CacheItem::Unsigned32(item)
    }
}

impl Cacheable for LazyItemVec {
    open spec fn spec_from(c: CacheItem) -> Option<Arc<LazyItem<LazyItemVec>>> {
        match c {
            CacheItem::ItemVec(a) => Some(a),
            _ => None,
        }
    }

    fn from_cache_item(c: CacheItem) -> (r: Option<Arc<LazyItem<LazyItemVec>>>) {
        match c {
            CacheItem::ItemVec(a) => Some(a),
            _ => None,
        }
    }

    fn into_cache_item(item: Arc<LazyItem<LazyItemVec>>) -> (r: CacheItem) {
        CacheItem::ItemVec(item)
    }
}

impl Cacheable for LazyItemMap {
    open spec fn spec_from(c: CacheItem) -> Option<Arc<LazyItem<LazyItemMap>>> {
        match c {
            CacheItem::ItemMap(a) => Some(a),
            _ => None,
        }
    }

    fn from_cache_item(c: CacheItem) -> (r: Option<Arc<LazyItem<LazyItemMap>>>) {
        match c {
            CacheItem::ItemMap(a) => Some(a),
            _ => None,
        }
    }

    fn into_cache_item(item: Arc<LazyItem<LazyItemMap>>) -> (r: CacheItem) {
        CacheItem::ItemMap(item)
    }
}

/// Kinds of item that can be read from a versioned file.
pub trait CustomSerialize: Sized {
    /// `r` is what reading an item of this kind at `fi` of `files` gives.
    spec fn read_as(files: BufferManagerFactory, fi: FileIndex, r: Result<Self, CacheError>) -> bool;

    fn deserialize(files: &BufferManagerFactory, fi: FileIndex) -> (r: Result<Self, CacheError>)
        ensures
            Self::read_as(*files, fi, r);

    /// Where the 32-bit child records of this item live.
    spec fn spec_children(&self) -> Seq<FileIndex>;

    fn children(&self) -> (r: Vec<FileIndex>)
        ensures
            r@ == self.spec_children();
}

/// The index of each recorded child, in order.
fn child_indexes(refs: &Vec<ChildRef>) -> (r: Vec<FileIndex>)
    ensures
        r@ == refs@.map_values(|c: ChildRef| child_index(c)),
{
    let mut r: Vec<FileIndex> = Vec::new();
    let mut i: usize = 0;
    while i < refs.len()
        invariant
            i <= refs@.len(),
            r@ == refs@.subrange(0, i as int).map_values(|c: ChildRef| child_index(c)),
        decreases refs@.len() - i,
    {
        let c = refs[i];
        r.push(FileIndex::Valid { offset: c.offset, version_id: c.version_id, version_number: c.version_number });
        i = i + 1;
        assert(r@ =~= refs@.subrange(0, i as int).map_values(|c: ChildRef| child_index(c)));
    }
    assert(refs@.subrange(0, i as int) =~= refs@);
    r
}

/// The bytes of the file that a valid index points into.
pub open spec fn file_at(files: BufferManagerFactory, fi: FileIndex) -> Option<Seq<u8>> {
    match fi {
        FileIndex::Valid { version_id, .. } => files.spec_get(version_id),
        FileIndex::Invalid => None,
    }
}

impl CustomSerialize for u32 {
    open spec fn read_as(files: BufferManagerFactory, fi: FileIndex, r: Result<u32, CacheError>) -> bool {
        match fi {
            FileIndex::Invalid => r == Err::<u32, CacheError>(CacheError::InvalidInput),
            FileIndex::Valid { offset, .. } => match file_at(files, fi) {
                None => r == Err::<u32, CacheError>(CacheError::IoFailure),
                Some(s) => if offset + 4 <= s.len() {
                    r == Ok::<u32, CacheError>(u32_at(s, offset as int))
                } else {
                    r == Err::<u32, CacheError>(CacheError::IoFailure)
                },
            },
        }
    }

    fn deserialize(files: &BufferManagerFactory, fi: FileIndex) -> (r: Result<u32, CacheError>) {
        match fi {
            FileIndex::Invalid => Err(CacheError::InvalidInput),
            FileIndex::Valid { offset, version_id, .. } => match files.get(version_id) {
                None => Err(CacheError::IoFailure),
                Some(f) => read_u32(f, offset as u64),
            },
        }
    }

    open spec fn spec_children(&self) -> Seq<FileIndex> {
        Seq::empty()
    }

    fn children(&self) -> (r: Vec<FileIndex>) {
        Vec::new()
    }
}

impl CustomSerialize for LazyItemVec {
    open spec fn read_as(files: BufferManagerFactory, fi: FileIndex, r: Result<LazyItemVec, CacheError>) -> bool {
        match fi {
            FileIndex::Invalid => r == Err::<LazyItemVec, CacheError>(CacheError::InvalidInput),
            FileIndex::Valid { offset, .. } => if offset == u32::MAX {
                r is Ok && r->Ok_0.items@.len() == 0
            } else {
                match file_at(files, fi) {
                    None => r == Err::<LazyItemVec, CacheError>(CacheError::IoFailure),
                    Some(s) => match decode_vec(s, offset) {
                        Ok(xs) => r is Ok && r->Ok_0.items@ == xs,
                        Err(e) => r == Err::<LazyItemVec, CacheError>(e),
                    },
                }
            },
        }
    }

    fn deserialize(files: &BufferManagerFactory, fi: FileIndex) -> (r: Result<LazyItemVec, CacheError>) {
        match fi {
            FileIndex::Invalid => Err(CacheError::InvalidInput),
            FileIndex::Valid { offset, .. } if offset == u32::MAX => Ok(LazyItemVec::new()),
            FileIndex::Valid { offset, version_id, .. } => match files.get(version_id) {
                None => Err(CacheError::IoFailure),
                Some(f) => LazyItemVec::deserialize(f, offset),
            },
        }
    }

    open spec fn spec_children(&self) -> Seq<FileIndex> {
        self.items@.map_values(|c: ChildRef| child_index(c))
    }

    fn children(&self) -> (r: Vec<FileIndex>) {
        child_indexes(&self.items)
    }
}

impl CustomSerialize for LazyItemMap {
    open spec fn read_as(files: BufferManagerFactory, fi: FileIndex, r: Result<LazyItemMap, CacheError>) -> bool {
        match fi {
            FileIndex::Invalid => r == Err::<LazyItemMap, CacheError>(CacheError::InvalidInput),
            FileIndex::Valid { offset, .. } => if offset == u32::MAX {
                r is Ok && r->Ok_0@.len() == 0
            } else {
                match file_at(files, fi) {
                    None => r == Err::<LazyItemMap, CacheError>(CacheError::IoFailure),
                    Some(s) => match decode_map(s, offset) {
                        Ok(es) => r is Ok && r->Ok_0@ == es,
                        Err(e) => r == Err::<LazyItemMap, CacheError>(e),
                    },
                }
            },
        }
    }

    fn deserialize(files: &BufferManagerFactory, fi: FileIndex) -> (r: Result<LazyItemMap, CacheError>) {
        match fi {
            FileIndex::Invalid => Err(CacheError::InvalidInput),
            FileIndex::Valid { offset, .. } if offset == u32::MAX => Ok(LazyItemMap::new()),
            FileIndex::Valid { offset, version_id, .. } => match files.get(version_id) {
                None => Err(CacheError::IoFailure),
                Some(f) => LazyItemMap::deserialize(f, offset),
            },
        }
    }

    open spec fn spec_children(&self) -> Seq<FileIndex> {
        self@.map_values(|e: EntryView| child_index(e.1))
    }

    fn children(&self) -> (r: Vec<FileIndex>) {
        let mut refs: Vec<ChildRef> = Vec::new();
        let mut i: usize = 0;
        while i < self.entries.len()
            invariant
                i <= self.entries@.len(),
                refs@ == self@.subrange(0, i as int).map_values(|e: EntryView| e.1),
            decreases self.entries@.len() - i,
        {
            refs.push(self.entries[i].1);
            i = i + 1;
            assert(refs@ =~= self@.subrange(0, i as int).map_values(|e: EntryView| e.1));
        }
        assert(self@.subrange(0, i as int) =~= self@);
        let r = child_indexes(&refs);
        assert(r@ =~= self@.map_values(|e: EntryView| child_index(e.1)));
        r
    }
}

/// Budget of a one-shot item read.
pub const ITEM_LOADS: u16 = 1000;

/// Registry of items of several kinds, keyed by their location.
pub struct NodeRegistry {
    pub cuckoo_filter: CuckooFilter<u64>,
    pub registry: HashMap<u64, CacheItem>,
    pub bufmans: BufferManagerFactory,
}

/// Reading the item at `fi` fails with `e`, or it reads and one of its child
/// records fails with `e`.
pub open spec fn read_failed<T: CustomSerialize>(files: BufferManagerFactory, fi: FileIndex, e: CacheError) -> bool {
    T::read_as(files, fi, Err(e)) || exists|d: T, j: int|
        #![trigger T::read_as(files, fi, Ok(d)), d.spec_children()[j]]
        T::read_as(files, fi, Ok(d)) && 0 <= j < d.spec_children().len() && u32::read_as(
            files,
            d.spec_children()[j],
            Err(e),
        )
}

/// Keys added to the load path were registered.
pub open spec fn path_registered(old_skip: Set<u64>, new_skip: Set<u64>, c: &NodeRegistry) -> bool {
    forall|k: u64| #[trigger] new_skip.contains(k) && !old_skip.contains(k) ==> c.registry@.contains_key(k)
}

/// Both maps hold the same entry, or neither holds one, at `k`.
pub open spec fn same_entry(a: Map<u64, CacheItem>, b: Map<u64, CacheItem>, k: u64) -> bool {
    a.contains_key(k) == b.contains_key(k) && (a.contains_key(k) ==> a[k] == b[k])
}

/// A child is registered, or its key is on the load path.
pub open spec fn child_reached(c: &NodeRegistry, skip: Set<u64>, fi: FileIndex) -> bool {
    c.registry@.contains_key(spec_registry_key(fi)) || skip.contains(spec_registry_key(fi))
}

/// Every child of a load was resolved through the registry with the remaining budget.
pub open spec fn children_reached(c: &NodeRegistry, skip: Set<u64>, kids: Seq<FileIndex>) -> bool {
    forall|j: int| 0 <= j < kids.len() ==> #[trigger] child_reached(c, skip, kids[j])
}

/// `item` is the ready item read at `fi` of `files`.
pub open spec fn ready_read<T: CustomSerialize>(item: LazyItem<T>, files: BufferManagerFactory, fi: FileIndex) -> bool {
    match item {
        LazyItem::Ready { data, file_offset, version_id, version_number } => {
            &&& fi == FileIndex::Valid { offset: file_offset, version_id, version_number }
            &&& T::read_as(files, fi, Ok(data))
        },
        LazyItem::Pending { .. } => false,
    }
}

impl NodeRegistry {
    /// Every registered key is in the filter, so the filter never hides a registered item.
    pub open spec fn wf(&self) -> bool {
        forall|k: u64| #[trigger] self.registry@.contains_key(k) ==> filter_keys(self.cuckoo_filter).contains(k)
    }

    pub fn new(cuckoo_filter_capacity: usize, bufmans: BufferManagerFactory) -> (r: NodeRegistry)
        requires
            cuckoo_filter_capacity > 0,
        ensures
            r.wf(),
            r.registry@ == Map::<u64, CacheItem>::empty(),
            r.bufmans == bufmans,
    {
        NodeRegistry { cuckoo_filter: filter_new(cuckoo_filter_capacity), registry: HashMap::new(), bufmans }
    }

    pub fn get_bufmans(&self) -> (r: &BufferManagerFactory)
        ensures
            *r == self.bufmans,
    {
        &self.bufmans
    }

    pub fn combine_index(file_index: &FileIndex) -> (r: u64)
        ensures
            r == spec_registry_key(*file_index),
    {
        registry_key(file_index)
    }

    /// The item of kind `T` at `file_index`: the registered one; a pending stub when
    /// the budget is spent or the key is already on this load's path; else read,
    /// registered, and its key added to the filter.
    pub fn get_object<T: Cacheable + CustomSerialize>(
        &mut self,
        file_index: FileIndex,
        max_loads: u16,
        skipm: &mut HashSet<u64>,
    ) -> (r: Result<Arc<LazyItem<T>>, CacheError>)
        requires
            old(self).wf(),
        ensures
            final(self).wf(),
            final(self).bufmans == old(self).bufmans,
            filter_keys(old(self).cuckoo_filter).subset_of(filter_keys(final(self).cuckoo_filter)),
            old(skipm)@.subset_of(final(skipm)@),
            forall|k: u64| #[trigger] old(self).registry@.contains_key(k) ==> final(self).registry@.contains_key(k),
            forall|k: u64| #[trigger] old(skipm)@.contains(k) ==> same_entry(old(self).registry@, final(self).registry@, k),
            r is Ok ==> path_registered(old(skipm)@, final(skipm)@, final(self)),
            ({
                let key = spec_registry_key(file_index);
                let hit = old(self).registry@.contains_key(key) && T::spec_from(old(self).registry@[key]) is Some;
                &&& hit ==> r == Ok::<Arc<LazyItem<T>>, CacheError>(T::spec_from(old(self).registry@[key])->Some_0)
                    && *final(self) == *old(self) && final(skipm)@ == old(skipm)@
                &&& !hit && (max_loads == 0 || old(skipm)@.contains(key)) ==> r is Ok && *r->Ok_0
                    == LazyItem::<T>::Pending { file_index } && *final(self) == *old(self) && final(skipm)@
                    == old(skipm)@
                &&& !hit && max_loads > 0 && !old(skipm)@.contains(key) ==> final(skipm)@.contains(key)
                    && (file_index is Invalid ==> r == Err::<Arc<LazyItem<T>>, CacheError>(CacheError::InvalidInput)
                        && *final(self) == *old(self))
                    && (file_index is Valid && r is Err && max_loads == 1 ==> T::read_as(
                        old(self).bufmans,
                        file_index,
                        Err(r->Err_0),
                    ) && *final(self) == *old(self))
                    && (r is Err ==> same_entry(old(self).registry@, final(self).registry@, key))
                    && (file_index is Valid && r is Err ==> read_failed::<T>(old(self).bufmans, file_index, r->Err_0))
                    && (r is Ok ==> ready_read(*r->Ok_0, old(self).bufmans, file_index)
                        && final(self).registry@.contains_key(key)
                        && T::spec_from(final(self).registry@[key]) == Some(r->Ok_0)
                        && filter_keys(final(self).cuckoo_filter).contains(key))
                    && (r is Ok && max_loads > 1 ==> children_reached(final(self), final(skipm)@, r->Ok_0->data.spec_children()))
            }),
        decreases max_loads,
    {
        let key = registry_key(&file_index);
        if filter_contains(&self.cuckoo_filter, key) {
            match self.registry.get(&key) {
                Some(obj) => {
                    match T::from_cache_item(share_item(obj)) {
                        Some(item) => {
                            return Ok(item);
                        },
                        None => {},
                    }
                },
                None => {},
            }
        }
        if max_loads == 0 || !skipm.insert(key) {
            return Ok(Arc::new(LazyItem::Pending { file_index }));
        }
        let (offset, version_id, version_number) = match file_index {
            FileIndex::Valid { offset, version_id, version_number } => (offset, version_id, version_number),
            FileIndex::Invalid => {
                return Err(CacheError::InvalidInput);
            },
        };
        let data = match T::deserialize(&self.bufmans, file_index) {
            Ok(d) => d,
            Err(e) => {
                return Err(e);
            },
        };
        let kids = data.children();
        let ghost skip1 = skipm@;
        let mut i: usize = 0;
        while i < kids.len()
            invariant
                i <= kids@.len(),
                kids@ == data.spec_children(),
                T::read_as(old(self).bufmans, file_index, Ok(data)),
                self.wf(),
                self.bufmans == old(self).bufmans,
                max_loads > 0,
                skip1 == old(skipm)@.insert(key),
                key == spec_registry_key(file_index),
                file_index is Valid,
                !old(skipm)@.contains(key),
                !(old(self).registry@.contains_key(key) && T::spec_from(old(self).registry@[key]) is Some),
                filter_keys(old(self).cuckoo_filter).subset_of(filter_keys(self.cuckoo_filter)),
                skip1.subset_of(skipm@),
                forall|k: u64| #[trigger] old(self).registry@.contains_key(k) ==> self.registry@.contains_key(k),
                forall|k: u64| #[trigger] skip1.contains(k) ==> same_entry(old(self).registry@, self.registry@, k),
                max_loads == 1 ==> *self == *old(self),
                max_loads > 1 ==> children_reached(self, skipm@, kids@.subrange(0, i as int)),
                path_registered(skip1, skipm@, self),
            decreases kids@.len() - i,
        {
            let ghost before = *self;
            let ghost skip_before = skipm@;
            match self.get_object::<u32>(kids[i], max_loads - 1, skipm) {
                Ok(_) => {},
                Err(e) => {
                    proof {
                        let ck = spec_registry_key(kids@[i as int]);
                        if before.registry@.contains_key(ck) && u32::spec_from(before.registry@[ck]) is Some {
                        } else {
                            assert(max_loads - 1 > 0);
                        }
                        assert(max_loads > 1);
                        assert(u32::read_as(self.bufmans, kids@[i as int], Err(e)));
                        assert(T::read_as(old(self).bufmans, file_index, Ok(data)));
                        assert(data.spec_children()[i as int] == kids@[i as int]);
                        assert forall|k: u64| #[trigger] old(skipm)@.contains(k) implies same_entry(
                            old(self).registry@,
                            self.registry@,
                            k,
                        ) by {
                            assert(skip1.contains(k));
                            assert(same_entry(old(self).registry@, before.registry@, k));
                            assert(skip_before.contains(k));
                        }
                        assert(skip1.contains(key));
                        assert(skip_before.contains(key));
                        assert(same_entry(old(self).registry@, before.registry@, key));
                        assert(same_entry(before.registry@, self.registry@, key));
                        assert(same_entry(old(self).registry@, self.registry@, key));
                        assert(skipm@.contains(key));
                    }
                    return Err(e);
                },
            }
            proof {
                assert forall|k: u64| #[trigger] skipm@.contains(k) && !skip1.contains(k) implies self.registry@.contains_key(k) by {
                    if skip_before.contains(k) {
                        assert(before.registry@.contains_key(k));
                    }
                }
                assert forall|k: u64| #[trigger] skip1.contains(k) implies same_entry(
                    old(self).registry@,
                    self.registry@,
                    k,
                ) by {
                    assert(same_entry(old(self).registry@, before.registry@, k));
                    assert(skip_before.contains(k));
                }
            }
            proof {
                if max_loads > 1 {
                    let ck = spec_registry_key(kids@[i as int]);
                    assert(before.registry@.contains_key(ck) || skipm@.contains(ck));
                    assert forall|j: int| 0 <= j < i + 1 implies #[trigger] child_reached(
                        self,
                        skipm@,
                        kids@.subrange(0, i + 1)[j],
                    ) by {
                        if j < i {
                            assert(kids@.subrange(0, i + 1)[j] == kids@.subrange(0, i as int)[j]);
                            assert(child_reached(&before, skip_before, kids@.subrange(0, i as int)[j]));
                        }
                    }
                }
            }
            i = i + 1;
        }
        let item = Arc::new(LazyItem::Ready { data, file_offset: offset, version_id, version_number });
        let cached = T::into_cache_item(share(&item));
        let ghost pre = *self;
        self.registry.insert(key, cached);
        filter_insert(&mut self.cuckoo_filter, key);
        proof {
            assert forall|k: u64| #[trigger] old(skipm)@.contains(k) implies same_entry(
                old(self).registry@,
                self.registry@,
                k,
            ) by {
                assert(skip1.contains(k));
                assert(same_entry(old(self).registry@, pre.registry@, k));
            }
            assert forall|k: u64| #[trigger] skipm@.contains(k) && !old(skipm)@.contains(k) implies self.registry@.contains_key(k) by {
                if k != key {
                    assert(!skip1.contains(k));
                    assert(pre.registry@.contains_key(k));
                }
            }
            if max_loads > 1 {
                assert forall|j: int| 0 <= j < kids@.len() implies #[trigger] child_reached(self, skipm@, kids@[j]) by {
                    assert(kids@.subrange(0, kids@.len() as int)[j] == kids@[j]);
                    assert(child_reached(&pre, skipm@, kids@.subrange(0, kids@.len() as int)[j]));
                }
            }
        }
        Ok(item)
    }

    /// Reads the item of kind `T` at `file_index` without registering it, and
    /// resolves its child records through the registry with the full item budget;
    /// an `Invalid` index is refused.
    pub fn load_item<T: CustomSerialize>(&mut self, file_index: FileIndex) -> (r: Result<T, CacheError>)
        requires
            old(self).wf(),
        ensures
            final(self).wf(),
            final(self).bufmans == old(self).bufmans,
            filter_keys(old(self).cuckoo_filter).subset_of(filter_keys(final(self).cuckoo_filter)),
            forall|k: u64| #[trigger] old(self).registry@.contains_key(k) ==> final(self).registry@.contains_key(k),
            file_index is Invalid ==> r == Err::<T, CacheError>(CacheError::InvalidInput) && *final(self) == *old(self),
            file_index is Valid && r is Err ==> read_failed::<T>(old(self).bufmans, file_index, r->Err_0),
            r is Ok ==> T::read_as(old(self).bufmans, file_index, Ok(r->Ok_0)),
            r is Ok ==> forall|j: int|
                0 <= j < r->Ok_0.spec_children().len() ==> final(self).registry@.contains_key(
                    spec_registry_key(#[trigger] r->Ok_0.spec_children()[j]),
                ) || spec_registry_key(r->Ok_0.spec_children()[j]) == spec_registry_key(file_index),
    {
        if file_index == FileIndex::Invalid {
            return Err(CacheError::InvalidInput);
        }
        let key = registry_key(&file_index);
        let mut skipm: HashSet<u64> = HashSet::new();
        skipm.insert(key);
        let ghost skip0 = skipm@;
        let data = match T::deserialize(&self.bufmans, file_index) {
            Ok(d) => d,
            Err(e) => {
                return Err(e);
            },
        };
        let kids = data.children();
        let mut i: usize = 0;
        while i < kids.len()
            invariant
                i <= kids@.len(),
                kids@ == data.spec_children(),
                T::read_as(old(self).bufmans, file_index, Ok(data)),
                file_index is Valid,
                self.wf(),
                self.bufmans == old(self).bufmans,
                skip0 == Set::<u64>::empty().insert(key),
                key == spec_registry_key(file_index),
                filter_keys(old(self).cuckoo_filter).subset_of(filter_keys(self.cuckoo_filter)),
                skip0.subset_of(skipm@),
                forall|k: u64| #[trigger] old(self).registry@.contains_key(k) ==> self.registry@.contains_key(k),
                path_registered(skip0, skipm@, self),
                children_reached(self, skipm@, kids@.subrange(0, i as int)),
            decreases kids@.len() - i,
        {
            let ghost before = *self;
            let ghost skip_before = skipm@;
            match self.get_object::<u32>(kids[i], ITEM_LOADS, &mut skipm) {
                Ok(_) => {},
                Err(e) => {
                    proof {
                        assert(u32::read_as(self.bufmans, kids@[i as int], Err(e)));
                        assert(data.spec_children()[i as int] == kids@[i as int]);
                    }
                    return Err(e);
                },
            }
            proof {
                assert forall|k: u64| #[trigger] skipm@.contains(k) && !skip0.contains(k) implies self.registry@.contains_key(k) by {
                    if skip_before.contains(k) {
                        assert(before.registry@.contains_key(k));
                    }
                }
                let ck = spec_registry_key(kids@[i as int]);
                assert(before.registry@.contains_key(ck) || skipm@.contains(ck));
                assert forall|j: int| 0 <= j < i + 1 implies #[trigger] child_reached(
                    self,
                    skipm@,
                    kids@.subrange(0, i + 1)[j],
                ) by {
                    if j < i {
                        assert(kids@.subrange(0, i + 1)[j] == kids@.subrange(0, i as int)[j]);
                        assert(child_reached(&before, skip_before, kids@.subrange(0, i as int)[j]));
                    }
                }
            }
            i = i + 1;
        }
        proof {
            assert forall|j: int| 0 <= j < kids@.len() implies self.registry@.contains_key(
                spec_registry_key(#[trigger] kids@[j]),
            ) || spec_registry_key(kids@[j]) == key by {
                assert(kids@.subrange(0, kids@.len() as int)[j] == kids@[j]);
                assert(child_reached(self, skipm@, kids@.subrange(0, kids@.len() as int)[j]));
            }
        }
        Ok(data)
    }
}

} // verus!
