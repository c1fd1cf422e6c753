//! Cache of dense graph nodes: a recursive loader bounded by a load budget and
//! a cycle-skip set, region prefetch, and the property-blob registry.
use vstd::prelude::*;
use std::collections::{HashMap, HashSet};
use std::sync::Arc;
use crate::bytes::{read_u32, u32_at, CacheError};
use crate::chunked::{decode_vec, ChildRef, LazyItemVec};
use crate::file_index::{dense_key, prop_key, registry_key, spec_dense_key, spec_prop_key, FileIndex};
use crate::lazy::{share, BufferManagerFactory, LazyItem};
use crate::props::{
    prop_view, prop_entries, prop_registry_insert, prop_registry_lookup, prop_registry_new, NodeProp, PropRegistry,
};

verus! {

broadcast use vstd::std_specs::hash::group_hash_axioms;

/// Budget of a load that holds the batch-load lock.
pub const DEEP_LOADS: u16 = 1000;

/// Budget of a load that found the batch-load lock taken.
pub const SHALLOW_LOADS: u16 = 1;

/// Most nodes that one region prefetch reads.
pub const REGION_NODES: u32 = 1000;

/// A neighbor of a node: where it lives, and whether it was materialised in the
/// cache when the node was read (else it was left as a pending stub).
#[derive(Clone, Copy, Debug, PartialEq, Eq, Structural)]
pub struct Neighbor {
    pub file_index: FileIndex,
    pub ready: bool,
}

/// A dense graph node: its property blob and its neighbors.
#[derive(Debug)]
pub struct DenseNode {
    pub prop: Arc<NodeProp>,
    pub neighbors: Vec<Neighbor>,
}

/// Outcome of trying the process-wide batch-load lock without waiting.
#[derive(Clone, Copy, Debug, PartialEq, Eq, Structural)]
pub enum BatchLock {
    Acquired,
    WouldBlock,
}

/// The index a slot's child is loaded by.
pub open spec fn child_index(c: ChildRef) -> FileIndex {
    FileIndex::Valid { offset: c.offset, version_id: c.version_id, version_number: c.version_number }
}

/// A node record: property offset, property length, offset of its neighbor sequence.
pub open spec fn node_header(s: Seq<u8>, p: int) -> Result<(u32, u32, u32), CacheError> {
    if p + 12 > s.len() {
        Err(CacheError::IoFailure)
    } else {
        Ok((u32_at(s, p), u32_at(s, p + 4), u32_at(s, p + 8)))
    }
}

/// The record at `fi` can be read with neighbor depth `d`: its file exists, its
/// header and neighbor sequence read, its blob lies inside a property file of
/// `plen` bytes, and, when `d > 1`, every neighbor can be read with depth `d - 1`.
pub open spec fn loadable(files: BufferManagerFactory, plen: int, fi: FileIndex, d: nat) -> bool
    decreases d,
{
    if !(fi is Valid) || files.spec_get(fi->version_id) is None {
        false
    } else {
        let s = files.spec_get(fi->version_id)->Some_0;
        let h = node_header(s, fi->offset as int);
        if h is Err {
            false
        } else {
            &&& h->Ok_0.0 + h->Ok_0.1 <= plen
            &&& decode_vec(s, h->Ok_0.2) is Ok
            &&& d > 1 ==> forall|j: int|
                0 <= j < node_children(files, fi).len() ==> loadable(
                    files,
                    plen,
                    child_index(#[trigger] node_children(files, fi)[j]),
                    (d - 1) as nat,
                )
        }
    }
}

/// The neighbor sequence of the record at a valid `fi`.
pub open spec fn node_children(files: BufferManagerFactory, fi: FileIndex) -> Seq<ChildRef> {
    let s = files.spec_get(fi->version_id)->Some_0;
    decode_vec(s, node_header(s, fi->offset as int)->Ok_0.2)->Ok_0
}

proof fn lemma_loadable_child(files: BufferManagerFactory, plen: int, fi: FileIndex, d: nat, j: int)
    requires
        loadable(files, plen, fi, d),
        d > 1,
        0 <= j < node_children(files, fi).len(),
    ensures
        loadable(files, plen, child_index(node_children(files, fi)[j]), (d - 1) as nat),
{
    // mentioning the child term lets the definition's quantifier fire
    assert(node_children(files, fi)[j] == node_children(files, fi)[j]);
}

/// Every record reachable from `fi` within depth `d` has at most one neighbor;
/// a record that cannot be read constrains nothing.
pub open spec fn chain_at(files: BufferManagerFactory, fi: FileIndex, d: nat) -> bool
    decreases d,
{
    if !(fi is Valid) || files.spec_get(fi->version_id) is None {
        true
    } else {
        let s = files.spec_get(fi->version_id)->Some_0;
        let h = node_header(s, fi->offset as int);
        if h is Err || decode_vec(s, h->Ok_0.2) is Err {
            true
        } else {
            &&& node_children(files, fi).len() <= 1
            &&& d > 1 ==> forall|j: int|
                0 <= j < node_children(files, fi).len() ==> chain_at(
                    files,
                    child_index(#[trigger] node_children(files, fi)[j]),
                    (d - 1) as nat,
                )
        }
    }
}

pub struct DenseIndexCache {
    pub registry: HashMap<u64, Arc<LazyItem<DenseNode>>>,
    pub props_registry: PropRegistry,
    pub bufmans: BufferManagerFactory,
    pub level_0_bufmans: BufferManagerFactory,
    pub prop_file: Vec<u8>,
    /// Number of node records read so far.
    pub loads: Ghost<nat>,
}

impl DenseIndexCache {
    /// Each registered blob is registered under the key of its own location, and
    /// no node is registered under the key that `Invalid` maps to.
    pub open spec fn wf(&self) -> bool {
        &&& !self.registry@.contains_key(u64::MAX)
        &&& forall|k: u64|
            #[trigger] prop_entries(self.props_registry).contains_key(k) ==> spec_prop_key(
                prop_entries(self.props_registry)[k].0,
                prop_entries(self.props_registry)[k].1,
            ) == k
    }

    pub open spec fn files(&self, is_level_0: bool) -> BufferManagerFactory {
        if is_level_0 { self.level_0_bufmans } else { self.bufmans }
    }

    /// `new` differs from `old` only by registry entries and blobs added, and by loads.
    pub open spec fn grows(old: &DenseIndexCache, new: &DenseIndexCache) -> bool {
        &&& new.bufmans == old.bufmans
        &&& new.level_0_bufmans == old.level_0_bufmans
        &&& new.prop_file == old.prop_file
        &&& new.loads@ >= old.loads@
        &&& forall|k: u64| #[trigger]
            old.registry@.contains_key(k) ==> new.registry@.contains_key(k) && new.registry@[k]
                == old.registry@[k]
    }

    pub fn new(bufmans: BufferManagerFactory, level_0_bufmans: BufferManagerFactory, prop_file: Vec<u8>) -> (r:
        DenseIndexCache)
        ensures
            r.wf(),
            r.registry@ == Map::<u64, Arc<LazyItem<DenseNode>>>::empty(),
            r.bufmans == bufmans,
            r.level_0_bufmans == level_0_bufmans,
            r.prop_file == prop_file,
            r.loads@ == 0,
    {
        DenseIndexCache {
            registry: HashMap::new(),
            props_registry: prop_registry_new(),
            bufmans,
            level_0_bufmans,
            prop_file,
            loads: Ghost(0),
        }
    }

    pub fn combine_index(file_index: &FileIndex, is_level_0: bool) -> (r: u64)
        ensures
            r == spec_dense_key(*file_index, is_level_0),
    {
        dense_key(file_index, is_level_0)
    }

    pub fn get_prop_key(offset: u32, length: u32) -> (r: u64)
        ensures
            r == spec_prop_key(offset, length),
    {
        prop_key(offset, length)
    }

    /// The blob at `(offset, length)` of the property file: the live copy if some
    /// node still holds one, else a fresh read that is then registered.
    pub fn get_prop(&mut self, offset: u32, length: u32) -> (r: Result<Arc<NodeProp>, CacheError>)
        requires
            old(self).wf(),
        ensures
            final(self).wf(),
            final(self).registry == old(self).registry,
            final(self).bufmans == old(self).bufmans,
            final(self).level_0_bufmans == old(self).level_0_bufmans,
            final(self).prop_file == old(self).prop_file,
            final(self).loads == old(self).loads,
            r is Ok ==> r->Ok_0.offset == offset && r->Ok_0.length == length,
            offset + length > old(self).prop_file@.len() && r is Ok ==> prop_entries(
                old(self).props_registry,
            ).contains_key(spec_prop_key(offset, length)),
            offset + length <= old(self).prop_file@.len() ==> r is Ok,
            r is Err ==> prop_entries(final(self).props_registry) == prop_entries(old(self).props_registry),
            r is Ok ==> (prop_entries(old(self).props_registry).contains_key(spec_prop_key(offset, length))
                && prop_view(*r->Ok_0) == prop_entries(old(self).props_registry)[spec_prop_key(offset, length)])
                || r->Ok_0.value@ == old(self).prop_file@.subrange(offset as int, offset + length),
            r is Ok && !prop_entries(old(self).props_registry).contains_key(spec_prop_key(offset, length))
                ==> r->Ok_0.value@ == old(self).prop_file@.subrange(offset as int, offset + length),
            r is Ok ==> prop_entries(final(self).props_registry).contains_key(spec_prop_key(offset, length))
                && prop_entries(final(self).props_registry)[spec_prop_key(offset, length)] == prop_view(*r->Ok_0),
            offset + length > old(self).prop_file@.len() && r is Err ==> r == Err::<Arc<NodeProp>, CacheError>(
                CacheError::IoFailure,
            ),
    {
        let key = prop_key(offset, length);
        match prop_registry_lookup(&self.props_registry, key) {
            Some(p) => {
                proof {
                    crate::file_index::lemma_registry_key_halves(p.offset, p.length);
                    crate::file_index::lemma_registry_key_halves(offset, length);
                }
                return Ok(p);
            },
            None => {},
        }
        if offset as usize > self.prop_file.len() || length as usize > self.prop_file.len() - offset as usize {
            return Err(CacheError::IoFailure);
        }
        let mut value: Vec<u8> = Vec::new();
        let flen = self.prop_file.len();
        let mut i: usize = 0;
        while i < length as usize
            invariant
                i <= length,
                flen == self.prop_file@.len(),
                offset + length <= self.prop_file@.len(),
                value@ == self.prop_file@.subrange(offset as int, offset + i),
            decreases length - i,
        {
            value.push(self.prop_file[offset as usize + i]);
            i = i + 1;
            assert(value@ =~= self.prop_file@.subrange(offset as int, offset + i));
        }
        let p = Arc::new(NodeProp { offset, length, value });
        prop_registry_insert(&mut self.props_registry, key, &p);
        Ok(p)
    }

    /// Registers a node built by the caller at `offset` of version `version`,
    /// and its blob if the node is ready.
    pub fn insert_lazy_object(&mut self, version: u32, offset: u32, item: Arc<LazyItem<DenseNode>>)
        requires
            old(self).wf(),
        ensures
            final(self).wf(),
            registry_key_of(offset, version) != u64::MAX ==> final(self).registry@ == old(self).registry@.insert(
                registry_key_of(offset, version),
                item,
            ),
            registry_key_of(offset, version) == u64::MAX ==> final(self).registry@ == old(self).registry@,
            match *item {
                LazyItem::Ready { data, .. } => prop_entries(final(self).props_registry) == prop_entries(
                    old(self).props_registry,
                ).insert(spec_prop_key(data.prop.offset, data.prop.length), prop_view(*data.prop)),
                LazyItem::Pending { .. } => prop_entries(final(self).props_registry) == prop_entries(
                    old(self).props_registry,
                ),
            },
            final(self).bufmans == old(self).bufmans,
            final(self).level_0_bufmans == old(self).level_0_bufmans,
            final(self).prop_file == old(self).prop_file,
            final(self).loads == old(self).loads,
    {
        let key = registry_key(&FileIndex::Valid { offset, version_id: version, version_number: 0 });
        match &*item {
            LazyItem::Ready { data, .. } => {
                let pk = prop_key(data.prop.offset, data.prop.length);
                prop_registry_insert(&mut self.props_registry, pk, &data.prop);
            },
            LazyItem::Pending { .. } => {},
        }
        if key != u64::MAX {
            self.registry.insert(key, item);
        }
    }
}

impl DenseIndexCache {
    /// Reads the node record at `file_index` and resolves each neighbor through
    /// the cache with budget `max_loads`.
    fn deserialize_node(
        &mut self,
        file_index: FileIndex,
        max_loads: u16,
        skipm: &mut HashSet<u64>,
        is_level_0: bool,
    ) -> (r: Result<DenseNode, CacheError>)
        requires
            old(self).wf(),
        ensures
            final(self).wf(),
            DenseIndexCache::grows(old(self), final(self)),
            old(skipm)@.subset_of(final(skipm)@),
            file_index is Invalid ==> r == Err::<DenseNode, CacheError>(CacheError::InvalidInput),
            r is Ok ==> node_read(old(self).files(is_level_0), file_index, r->Ok_0),
            loadable(old(self).files(is_level_0), old(self).prop_file@.len() as int, file_index, (max_loads + 1) as nat)
                ==> r is Ok,
            max_loads == 0 ==> final(self).registry == old(self).registry,
            skip_frame(old(self), final(self), old(skipm)@),
            r is Ok ==> ready_registered(final(self), r->Ok_0.neighbors@, is_level_0),
            r is Ok && max_loads > 0 ==> forall|j: int|
                0 <= j < r->Ok_0.neighbors@.len() ==> neighbor_reached(
                    final(self),
                    final(skipm)@,
                    #[trigger] r->Ok_0.neighbors@[j],
                    is_level_0,
                ),
            r is Ok && r->Ok_0.neighbors@.len() == 0 ==> final(self).registry == old(self).registry,
            r is Ok ==> skip_registered(old(skipm)@, final(skipm)@, final(self)),
            chain_at(old(self).files(is_level_0), file_index, (max_loads + 1) as nat) ==> final(self).loads@
                <= old(self).loads@ + max_loads + 1,
        decreases max_loads, 2int,
    {
        self.loads = Ghost(self.loads@ + 1);
        let ghost files = self.files(is_level_0);
        let (offset, version_id) = match file_index {
            FileIndex::Invalid => {
                return Err(CacheError::InvalidInput);
            },
            FileIndex::Valid { offset, version_id, .. } => (offset, version_id),
        };
        let (po, pl, no, list) = {
            let bm = if is_level_0 { &self.level_0_bufmans } else { &self.bufmans };
            let file = match bm.get(version_id) {
                Some(f) => f,
                None => {
                    return Err(CacheError::IoFailure);
                },
            };
            let po = match read_u32(file, offset as u64) { Ok(v) => v, Err(e) => { return Err(e); } };
            let pl = match read_u32(file, offset as u64 + 4) { Ok(v) => v, Err(e) => { return Err(e); } };
            let no = match read_u32(file, offset as u64 + 8) { Ok(v) => v, Err(e) => { return Err(e); } };
            let list = match LazyItemVec::deserialize(file, no) { Ok(l) => l, Err(e) => { return Err(e); } };
            proof {
                let s = file@;
                assert(node_header(s, offset as int) == Ok::<(u32, u32, u32), CacheError>((po, pl, no)));
                assert(decode_vec(s, no) == Ok::<Seq<ChildRef>, CacheError>(list.items@));
            }
            (po, pl, no, list)
        };
        let ghost s = files.spec_get(version_id)->Some_0;
        let ghost xs = list.items@;
        assert(node_header(s, offset as int) == Ok::<(u32, u32, u32), CacheError>((po, pl, no)));
        assert(decode_vec(s, no) == Ok::<Seq<ChildRef>, CacheError>(xs));
        let ghost plen = old(self).prop_file@.len() as int;
        proof {
            if chain_at(files, file_index, (max_loads + 1) as nat) {
                assert(files.spec_get(file_index->version_id) == Some(s));
                assert(node_children(files, file_index) == xs);
                if max_loads > 0 {
                    assert forall|j: int| 0 <= j < xs.len() implies chain_at(
                        files,
                        child_index(#[trigger] xs[j]),
                        max_loads as nat,
                    ) by {
                        assert(node_children(files, file_index)[j] == xs[j]);
                        assert(chain_at(files, child_index(node_children(files, file_index)[j]), (((max_loads + 1) as nat) - 1) as nat));
                    }
                }
            }
            if loadable(files, plen, file_index, (max_loads + 1) as nat) && max_loads > 0 {
                assert(file_index is Valid);
                assert(files.spec_get(file_index->version_id) == Some(s));
                assert(file_index->offset == offset);
                let h = node_header(s, file_index->offset as int);
                assert(h == Ok::<(u32, u32, u32), CacheError>((po, pl, no)));
                assert(decode_vec(s, h->Ok_0.2) is Ok);
                assert((max_loads + 1) as nat > 1);
                assert(po + pl <= plen);
                assert forall|j: int| 0 <= j < xs.len() implies #[trigger] loadable(
                    files,
                    plen,
                    child_index(xs[j]),
                    max_loads as nat,
                ) by {
                    assert(node_children(files, file_index) == xs);
                    lemma_loadable_child(files, plen, file_index, (max_loads + 1) as nat, j);
                }
            }
        }
        let prop = match self.get_prop(po, pl) { Ok(p) => p, Err(e) => { return Err(e); } };
        let ghost start = *self;
        let ghost skip0 = skipm@;
        let mut neighbors: Vec<Neighbor> = Vec::new();
        let mut i: usize = 0;
        while i < list.items.len()
            invariant
                i <= xs.len(),
                xs == list.items@,
                file_index is Valid,
                self.wf(),
                DenseIndexCache::grows(old(self), &start),
                DenseIndexCache::grows(&start, self),
                start.loads@ == old(self).loads@ + 1,
                i == 0 ==> self.registry == old(self).registry,
                skip_registered(old(skipm)@, skipm@, self),
                max_loads > 0 ==> forall|j: int|
                    0 <= j < i ==> neighbor_reached(self, skipm@, #[trigger] neighbors@[j], is_level_0),
                start.bufmans == old(self).bufmans,
                start.level_0_bufmans == old(self).level_0_bufmans,
                files == old(self).files(is_level_0),
                old(skipm)@.subset_of(skip0),
                skip0.subset_of(skipm@),
                neighbors@.len() == i,
                forall|j: int| 0 <= j < i ==> #[trigger] neighbors@[j].file_index == child_index(xs[j]),
                chain_at(files, file_index, (max_loads + 1) as nat) ==> xs.len() <= 1,
                chain_at(files, file_index, (max_loads + 1) as nat) ==> self.loads@ <= start.loads@ + (if i == 0 {
                    0int
                } else {
                    max_loads as int
                }),
                chain_at(files, file_index, (max_loads + 1) as nat) && max_loads > 0 ==> forall|j: int|
                    0 <= j < xs.len() ==> chain_at(files, child_index(#[trigger] xs[j]), max_loads as nat),
                self.prop_file == old(self).prop_file,
                max_loads == 0 ==> self.registry == old(self).registry,
                skip_frame(old(self), self, old(skipm)@),
                ready_registered(self, neighbors@, is_level_0),
                loadable(files, old(self).prop_file@.len() as int, file_index, (max_loads + 1) as nat) && max_loads > 0
                    ==> forall|j: int| 0 <= j < xs.len() ==> #[trigger] loadable(
                    files,
                    old(self).prop_file@.len() as int,
                    child_index(xs[j]),
                    max_loads as nat,
                ),
            decreases xs.len() - i,
        {
            let c = list.items[i];
            let cfi = FileIndex::Valid { offset: c.offset, version_id: c.version_id, version_number: c.version_number };
            let ghost before = *self;
            let ghost skip_before = skipm@;
            proof {
                if loadable(files, old(self).prop_file@.len() as int, file_index, (max_loads + 1) as nat) && max_loads > 0 {
                    assert(loadable(files, old(self).prop_file@.len() as int, child_index(xs[i as int]), max_loads as nat));
                }
            }
            let item = match self.get_lazy_object(cfi, max_loads, skipm, is_level_0) {
                Ok(it) => it,
                Err(e) => {
                    proof {
                        lemma_skip_frame_trans(old(self), &before, self, old(skipm)@, skip0);
                    }
                    return Err(e);
                },
            };
            proof {
                lemma_skip_frame_trans(old(self), &before, self, old(skipm)@, skip0);
                lemma_ready_registered_grows(&before, self, neighbors@, is_level_0);
                lemma_skip_registered_trans(old(skipm)@, skip_before, skipm@, &before, self);
                if max_loads > 0 {
                    assert forall|j: int| 0 <= j < i implies neighbor_reached(
                        self,
                        skipm@,
                        #[trigger] neighbors@[j],
                        is_level_0,
                    ) by {
                        lemma_neighbor_reached_grows(&before, self, skip_before, skipm@, neighbors@[j], is_level_0);
                    }
                }
            }
            neighbors.push(Neighbor { file_index: cfi, ready: item.is_ready() });
            i = i + 1;
            assert(ready_registered(self, neighbors@, is_level_0));
        }
        let node = DenseNode { prop, neighbors };
        proof {
            assert(node_read(files, file_index, node));
        }
        Ok(node)
    }

    /// The node at `file_index`: the registered one; a pending stub when the budget
    /// is spent or the key is already on this load's path; else read from its file
    /// (neighbors resolved with one less budget) and registered.
    pub fn get_lazy_object(
        &mut self,
        file_index: FileIndex,
        max_loads: u16,
        skipm: &mut HashSet<u64>,
        is_level_0: bool,
    ) -> (r: Result<Arc<LazyItem<DenseNode>>, CacheError>)
        requires
            old(self).wf(),
        ensures
            final(self).wf(),
            DenseIndexCache::grows(old(self), final(self)),
            old(skipm)@.subset_of(final(skipm)@),
            ({
                let key = spec_dense_key(file_index, is_level_0);
                &&& old(self).registry@.contains_key(key) ==> r == Ok::<
                    Arc<LazyItem<DenseNode>>,
                    CacheError,
                >(old(self).registry@[key]) && *final(self) == *old(self) && final(skipm)@ == old(skipm)@
                &&& !old(self).registry@.contains_key(key) && (max_loads == 0 || old(skipm)@.contains(key))
                    ==> r is Ok && *r->Ok_0 == LazyItem::<DenseNode>::Pending { file_index }
                    && *final(self) == *old(self) && final(skipm)@ == old(skipm)@
                &&& !old(self).registry@.contains_key(key) && max_loads > 0 && !old(skipm)@.contains(key)
                    ==> final(skipm)@.contains(key) && (file_index is Invalid ==> r
                    == Err::<Arc<LazyItem<DenseNode>>, CacheError>(CacheError::InvalidInput)) && (r is Ok
                    ==> ready_at(*r->Ok_0, old(self).files(is_level_0), file_index)) && (r is Ok && key
                    != u64::MAX ==> final(self).registry@.contains_key(key) && final(self).registry@[key]
                    == r->Ok_0) && (r is Err || key == u64::MAX ==> !final(self).registry@.contains_key(key))
                &&& loadable(old(self).files(is_level_0), old(self).prop_file@.len() as int, file_index, max_loads as nat)
                    ==> r is Ok
                &&& r is Ok && *r->Ok_0 is Ready ==> final(self).registry@.contains_key(key) || key == u64::MAX
                &&& max_loads > 0 && r is Ok ==> *r->Ok_0 is Ready || final(skipm)@.contains(key) || (final(self).registry@.contains_key(key) && final(self).registry@[key] == r->Ok_0 && *r->Ok_0 is Pending)
                &&& !old(self).registry@.contains_key(key) && max_loads > 1 && r is Ok && *r->Ok_0 is Ready
                    ==> forall|j: int|
                    0 <= j < r->Ok_0->data.neighbors@.len() ==> neighbor_reached(
                        final(self),
                        final(skipm)@,
                        #[trigger] r->Ok_0->data.neighbors@[j],
                        is_level_0,
                    )
                &&& !old(self).registry@.contains_key(key) && r is Ok && *r->Ok_0 is Ready
                    && r->Ok_0->data.neighbors@.len() == 0 && key != u64::MAX ==> final(self).registry@
                    == old(self).registry@.insert(key, r->Ok_0)
                &&& !old(self).registry@.contains_key(key) && max_loads > 1 && r is Ok && *r->Ok_0 is Ready
                    ==> forall|j: int|
                    0 <= j < r->Ok_0->data.neighbors@.len() ==> (#[trigger] r->Ok_0->data.neighbors@[j]).ready
                        || final(self).registry@.contains_key(
                        spec_dense_key(r->Ok_0->data.neighbors@[j].file_index, is_level_0),
                    ) || spec_dense_key(r->Ok_0->data.neighbors@[j].file_index, is_level_0) == u64::MAX
                        || old(skipm)@.contains(spec_dense_key(r->Ok_0->data.neighbors@[j].file_index, is_level_0))
                &&& !old(self).registry@.contains_key(key) && max_loads == 1 && r is Ok && *r->Ok_0 is Ready
                    ==> ready_registered(
                    old(self),
                    r->Ok_0->data.neighbors@,
                    is_level_0,
                )
            }),
            skip_frame(old(self), final(self), old(skipm)@),
            r is Ok ==> skip_registered(old(skipm)@, final(skipm)@, final(self)),
            chain_at(old(self).files(is_level_0), file_index, max_loads as nat) ==> final(self).loads@ <= old(self).loads@ + max_loads,
        decreases max_loads, 1int,
    {
        let key = dense_key(&file_index, is_level_0);
        match self.registry.get(&key) {
            Some(item) => {
                return Ok(share(item));
            },
            None => {},
        }
        if max_loads == 0 || !skipm.insert(key) {
            return Ok(Arc::new(LazyItem::Pending { file_index }));
        }
        let ghost before = *self;
        let ghost mid = *self;
        let ghost skip1 = skipm@;
        let data = match self.deserialize_node(file_index, max_loads - 1, skipm, is_level_0) {
            Ok(d) => d,
            Err(e) => {
                proof {
                    lemma_grows_trans(&before, &mid, self);
                    assert(skip1.contains(key));
                }
                return Err(e);
            },
        };
        proof {
            lemma_grows_trans(&before, &mid, self);
            assert(skip1.contains(key));
            assert(!self.registry@.contains_key(key));
        }
        let ghost after = *self;
        let ghost ns = data.neighbors@;
        let item = match file_index {
            FileIndex::Valid { offset, version_id, version_number } => Arc::new(
                LazyItem::Ready { data, file_offset: offset, version_id, version_number },
            ),
            FileIndex::Invalid => {
                return Err(CacheError::InvalidInput);
            },
        };
        if key != u64::MAX {
            self.registry.insert(key, share(&item));
        }
        proof {
            if max_loads > 1 {
                assert forall|j: int| 0 <= j < ns.len() implies (#[trigger] ns[j]).ready || self.registry@.contains_key(
                    spec_dense_key(ns[j].file_index, is_level_0),
                ) || spec_dense_key(ns[j].file_index, is_level_0) == u64::MAX || old(skipm)@.contains(
                    spec_dense_key(ns[j].file_index, is_level_0),
                ) by {
                    let k = spec_dense_key(ns[j].file_index, is_level_0);
                    assert(neighbor_reached(&after, skipm@, ns[j], is_level_0));
                    if after.registry@.contains_key(k) {
                        assert(self.registry@.contains_key(k));
                    }
                    if skipm@.contains(k) && !skip1.contains(k) {
                        assert(skip_registered(skip1, skipm@, &after));
                    }
                }
            }
        }
        Ok(item)
    }
}

impl DenseIndexCache {
    /// Reads the node at `file_index` with no budget for its neighbors, bypassing
    /// the registry check, and registers it.
    pub fn force_load_single_object(&mut self, file_index: FileIndex, is_level_0: bool) -> (r: Result<
        Arc<LazyItem<DenseNode>>,
        CacheError,
    >)
        requires
            old(self).wf(),
        ensures
            final(self).wf(),
            final(self).bufmans == old(self).bufmans,
            final(self).level_0_bufmans == old(self).level_0_bufmans,
            final(self).prop_file == old(self).prop_file,
            file_index is Invalid ==> r == Err::<Arc<LazyItem<DenseNode>>, CacheError>(CacheError::InvalidInput),
            r is Ok ==> ready_at(*r->Ok_0, old(self).files(is_level_0), file_index)
                && ready_registered(old(self), r->Ok_0->data.neighbors@, is_level_0),
            r is Ok && spec_dense_key(file_index, is_level_0) != u64::MAX ==> final(self).registry@ == old(self).registry@.insert(spec_dense_key(file_index, is_level_0), r->Ok_0),
            r is Err || spec_dense_key(file_index, is_level_0) == u64::MAX ==> final(self).registry == old(self).registry,
            loadable(old(self).files(is_level_0), old(self).prop_file@.len() as int, file_index, 1) ==> r is Ok,
    {
        let key = dense_key(&file_index, is_level_0);
        let mut skipm: HashSet<u64> = HashSet::new();
        skipm.insert(key);
        let data = match self.deserialize_node(file_index, 0, &mut skipm, is_level_0) {
            Ok(d) => d,
            Err(e) => {
                return Err(e);
            },
        };
        let item = match file_index {
            FileIndex::Valid { offset, version_id, version_number } => Arc::new(
                LazyItem::Ready { data, file_offset: offset, version_id, version_number },
            ),
            FileIndex::Invalid => {
                return Err(CacheError::InvalidInput);
            },
        };
        if key != u64::MAX {
            self.registry.insert(key, share(&item));
        }
        Ok(item)
    }

    /// Prefetches the nodes of size `node_size` laid out one after another from
    /// `region_start`: at most `REGION_NODES` of them, stopping at the end of the file.
    pub fn load_region(
        &mut self,
        region_start: u32,
        version_number: u16,
        version_id: u32,
        node_size: u32,
        is_level_0: bool,
    ) -> (r: Result<Vec<Arc<LazyItem<DenseNode>>>, CacheError>)
        requires
            old(self).wf(),
            node_size > 0,
        ensures
            final(self).wf(),
            final(self).bufmans == old(self).bufmans,
            final(self).level_0_bufmans == old(self).level_0_bufmans,
            old(self).files(is_level_0).spec_get(version_id) is None ==> r == Err::<
                Vec<Arc<LazyItem<DenseNode>>>,
                CacheError,
            >(CacheError::IoFailure),
            r is Ok ==> old(self).files(is_level_0).spec_get(version_id) is Some && r->Ok_0@.len()
                == region_count(
                region_start as int,
                node_size as int,
                old(self).files(is_level_0).spec_get(version_id)->Some_0.len() as int,
            ),
            region_loadable(
                old(self).files(is_level_0),
                old(self).prop_file@.len() as int,
                region_start,
                version_number,
                version_id,
                node_size,
            ) ==> r is Ok,
            r is Ok ==> forall|i: int|
                0 <= i < r->Ok_0@.len() ==> ready_at(
                    *(#[trigger] r->Ok_0@[i]),
                    old(self).files(is_level_0),
                    FileIndex::Valid {
                        offset: (region_start + i * node_size) as u32,
                        version_id,
                        version_number,
                    },
                ),
    {
        let file_size: u64 = {
            let bm = if is_level_0 { &self.level_0_bufmans } else { &self.bufmans };
            match bm.get(version_id) {
                Some(f) => f.len() as u64,
                None => {
                    return Err(CacheError::IoFailure);
                },
            }
        };
        let ghost files = self.files(is_level_0);
        let mut nodes: Vec<Arc<LazyItem<DenseNode>>> = Vec::new();
        if region_start as u64 > file_size {
            return Ok(nodes);
        }
        let mut i: u32 = 0;
        assert(file_size <= u64::MAX);
        while i < REGION_NODES
            invariant
                i <= REGION_NODES,
                self.wf(),
                node_size > 0,
                self.bufmans == old(self).bufmans,
                self.level_0_bufmans == old(self).level_0_bufmans,
                files == old(self).files(is_level_0),
                files.spec_get(version_id) is Some,
                file_size == files.spec_get(version_id)->Some_0.len(),
                region_start <= file_size,
                nodes@.len() == i,
                self.prop_file == old(self).prop_file,
                region_loadable(files, old(self).prop_file@.len() as int, region_start, version_number, version_id, node_size)
                    ==> forall|j: int|
                    0 <= j < region_count(region_start as int, node_size as int, file_size as int) ==> loadable(
                        files,
                        old(self).prop_file@.len() as int,
                        FileIndex::Valid {
                            offset: #[trigger] region_offset(region_start as int, node_size as int, j),
                            version_id,
                            version_number,
                        },
                        1,
                    ),
                forall|j: int| 0 <= j < i ==> #[trigger] slot_fits(region_start as int, node_size as int, file_size as int, j),
                forall|j: int|
                    0 <= j < i ==> ready_at(
                        *(#[trigger] nodes@[j]),
                        files,
                        FileIndex::Valid { offset: (region_start + j * node_size) as u32, version_id, version_number },
                    ),
            decreases REGION_NODES - i,
        {
            assert((i as u64) * (node_size as u64) <= 1000 * 0xffff_ffffu64) by (nonlinear_arith)
                requires
                    i < 1000,
            ;
            let off: u64 = region_start as u64 + (i as u64) * (node_size as u64);
            if off >= file_size || off > u32::MAX as u64 {
                proof {
                    lemma_region_count_stop(region_start as int, node_size as int, file_size as int, i as int);
                }
                return Ok(nodes);
            }
            let fi = FileIndex::Valid { offset: off as u32, version_id, version_number };
            proof {
                lemma_region_count_gt(region_start as int, node_size as int, file_size as int, i as int);
                assert(region_offset(region_start as int, node_size as int, i as int) == off as u32);
            }
            let node = match self.force_load_single_object(fi, is_level_0) {
                Ok(n) => n,
                Err(e) => {
                    return Err(e);
                },
            };
            nodes.push(node);
            i = i + 1;
        }
        proof {
            lemma_region_count_full(region_start as int, node_size as int, file_size as int);
        }
        Ok(nodes)
    }

    /// The node at `file_index`, loaded deep when the batch-load lock was taken
    /// and shallow when another thread holds it.
    pub fn get_object(&mut self, file_index: FileIndex, is_level_0: bool, batch_lock: BatchLock) -> (r: Result<
        Arc<LazyItem<DenseNode>>,
        CacheError,
    >)
        requires
            old(self).wf(),
        ensures
            final(self).wf(),
            DenseIndexCache::grows(old(self), final(self)),
            ({
                let key = spec_dense_key(file_index, is_level_0);
                &&& old(self).registry@.contains_key(key) ==> r == Ok::<
                    Arc<LazyItem<DenseNode>>,
                    CacheError,
                >(old(self).registry@[key]) && *final(self) == *old(self)
                &&& !old(self).registry@.contains_key(key) && file_index is Invalid ==> r == Err::<
                    Arc<LazyItem<DenseNode>>,
                    CacheError,
                >(CacheError::InvalidInput)
                &&& !old(self).registry@.contains_key(key) && r is Ok ==> ready_at(
                    *r->Ok_0,
                    old(self).files(is_level_0),
                    file_index,
                ) && (key != u64::MAX ==> final(self).registry@[key] == r->Ok_0)
                &&& !old(self).registry@.contains_key(key) && r is Err ==> !final(self).registry@.contains_key(key)
                &&& !old(self).registry@.contains_key(key) && r is Ok && *r->Ok_0 is Ready
                    && r->Ok_0->data.neighbors@.len() == 0 && key != u64::MAX ==> final(self).registry@
                    == old(self).registry@.insert(key, r->Ok_0)
                &&& !old(self).registry@.contains_key(key) && r is Ok && *r->Ok_0 is Ready && batch_lock
                    == BatchLock::Acquired ==> forall|j: int|
                    0 <= j < r->Ok_0->data.neighbors@.len() ==> (#[trigger] r->Ok_0->data.neighbors@[j]).ready
                        || final(self).registry@.contains_key(
                        spec_dense_key(r->Ok_0->data.neighbors@[j].file_index, is_level_0),
                    ) || spec_dense_key(r->Ok_0->data.neighbors@[j].file_index, is_level_0) == u64::MAX
                &&& !old(self).registry@.contains_key(key) && r is Ok && *r->Ok_0 is Ready && batch_lock
                    == BatchLock::WouldBlock ==> ready_registered(old(self), r->Ok_0->data.neighbors@, is_level_0)
            }),
            loadable(
                old(self).files(is_level_0),
                old(self).prop_file@.len() as int,
                file_index,
                max_loads_for(batch_lock) as nat,
            ) ==> r is Ok,
            chain_at(old(self).files(is_level_0), file_index, max_loads_for(batch_lock) as nat) ==> final(self).loads@ <= old(self).loads@ + max_loads_for(
                batch_lock,
            ),
    {
        let max_loads = match batch_lock {
            BatchLock::Acquired => DEEP_LOADS,
            BatchLock::WouldBlock => SHALLOW_LOADS,
        };
        let mut skipm: HashSet<u64> = HashSet::new();
        self.get_lazy_object(file_index, max_loads, &mut skipm, is_level_0)
    }

    /// Reads the node at `file_index` directly, with the deep budget for its
    /// neighbors; a neighbor path that leads back to this node ends in a stub.
    pub fn load_item(&mut self, file_index: FileIndex, is_level_0: bool) -> (r: Result<DenseNode, CacheError>)
        requires
            old(self).wf(),
        ensures
            final(self).wf(),
            DenseIndexCache::grows(old(self), final(self)),
            file_index is Invalid ==> r == Err::<DenseNode, CacheError>(CacheError::InvalidInput),
            r is Ok ==> node_read(old(self).files(is_level_0), file_index, r->Ok_0),
            chain_at(old(self).files(is_level_0), file_index, DEEP_LOADS as nat) ==> final(self).loads@
                <= old(self).loads@ + DEEP_LOADS,
            loadable(old(self).files(is_level_0), old(self).prop_file@.len() as int, file_index, DEEP_LOADS as nat)
                ==> r is Ok,
            !old(self).registry@.contains_key(spec_dense_key(file_index, is_level_0)) ==> !final(self).registry@.contains_key(
                spec_dense_key(file_index, is_level_0),
            ),
            r is Ok ==> forall|j: int|
                0 <= j < r->Ok_0.neighbors@.len() ==> #[trigger] r->Ok_0.neighbors@[j].ready || spec_dense_key(
                    r->Ok_0.neighbors@[j].file_index,
                    is_level_0,
                ) == spec_dense_key(file_index, is_level_0) || final(self).registry@.contains_key(
                    spec_dense_key(r->Ok_0.neighbors@[j].file_index, is_level_0),
                ) || spec_dense_key(r->Ok_0.neighbors@[j].file_index, is_level_0) == u64::MAX,
    {
        if file_index == FileIndex::Invalid {
            return Err(CacheError::InvalidInput);
        }
        let mut skipm: HashSet<u64> = HashSet::new();
        let key = dense_key(&file_index, is_level_0);
        skipm.insert(key);
        let ghost skip0 = skipm@;
        let r = self.deserialize_node(file_index, DEEP_LOADS - 1, &mut skipm, is_level_0);
        proof {
            assert(skip0.contains(key));
            if r is Ok {
                let ns = r->Ok_0.neighbors@;
                assert forall|j: int| 0 <= j < ns.len() implies #[trigger] ns[j].ready || spec_dense_key(
                    ns[j].file_index,
                    is_level_0,
                ) == key || self.registry@.contains_key(spec_dense_key(ns[j].file_index, is_level_0))
                    || spec_dense_key(ns[j].file_index, is_level_0) == u64::MAX by {
                    assert(neighbor_reached(self, skipm@, ns[j], is_level_0));
                    let k = spec_dense_key(ns[j].file_index, is_level_0);
                    if skipm@.contains(k) && k != key {
                        assert(skip0 =~= Set::<u64>::empty().insert(key));
                        assert(!skip0.contains(k));
                    }
                }
            }
        }
        r
    }
}

/// Budget that a load gets for a batch-lock outcome.
pub open spec fn max_loads_for(b: BatchLock) -> int {
    match b {
        BatchLock::Acquired => DEEP_LOADS as int,
        BatchLock::WouldBlock => SHALLOW_LOADS as int,
    }
}

/// Number of nodes that a region prefetch reads from a file of `size` bytes.
pub open spec fn region_count(start: int, node_size: int, size: int) -> int {
    if start > size {
        0
    } else {
        region_count_from(start, node_size, size, 0)
    }
}

/// Number of slots `i..REGION_NODES` before the first that starts at or past the end.
pub open spec fn region_count_from(start: int, node_size: int, size: int, i: int) -> int
    decreases REGION_NODES - i,
{
    if i >= REGION_NODES || !slot_fits(start, node_size, size, i) {
        i
    } else {
        region_count_from(start, node_size, size, i + 1)
    }
}

/// Offset of slot `j` of a region.
pub open spec fn region_offset(start: int, node_size: int, j: int) -> u32 {
    (start + j * node_size) as u32
}

/// Every slot that a region prefetch reads holds a record readable with depth 1.
pub open spec fn region_loadable(
    files: BufferManagerFactory,
    plen: int,
    start: u32,
    version_number: u16,
    version_id: u32,
    node_size: u32,
) -> bool {
    &&& files.spec_get(version_id) is Some
    &&& forall|j: int|
        0 <= j < region_count(start as int, node_size as int, files.spec_get(version_id)->Some_0.len() as int)
            ==> loadable(
            files,
            plen,
            FileIndex::Valid {
                offset: #[trigger] region_offset(start as int, node_size as int, j),
                version_id,
                version_number,
            },
            1,
        )
}

proof fn lemma_region_count_at_least(start: int, node_size: int, size: int, k: int)
    requires
        0 <= k <= REGION_NODES,
    ensures
        region_count_from(start, node_size, size, k) >= k,
    decreases REGION_NODES - k,
{
    if k < REGION_NODES && slot_fits(start, node_size, size, k) {
        lemma_region_count_at_least(start, node_size, size, k + 1);
    }
}

proof fn lemma_region_count_above(start: int, node_size: int, size: int, k: int, i: int)
    requires
        0 <= k <= i + 1,
        i < REGION_NODES,
        forall|j: int| k <= j <= i ==> #[trigger] slot_fits(start, node_size, size, j),
    ensures
        region_count_from(start, node_size, size, k) > i,
    decreases i + 1 - k,
{
    if k <= i {
        lemma_region_count_above(start, node_size, size, k + 1, i);
    } else {
        lemma_region_count_at_least(start, node_size, size, k);
    }
}

proof fn lemma_region_count_gt(start: int, node_size: int, size: int, i: int)
    requires
        0 <= i < REGION_NODES,
        start <= size,
        forall|j: int| 0 <= j <= i ==> #[trigger] slot_fits(start, node_size, size, j),
    ensures
        region_count(start, node_size, size) > i,
{
    lemma_region_count_above(start, node_size, size, 0, i);
}

/// Slot `j` of a region starts inside the file and at an offset that fits in 32 bits.
pub open spec fn slot_fits(start: int, node_size: int, size: int, j: int) -> bool {
    start + j * node_size < size && start + j * node_size <= u32::MAX
}

proof fn lemma_region_count_stop(start: int, node_size: int, size: int, i: int)
    requires
        0 <= i <= REGION_NODES,
        start <= size,
        !slot_fits(start, node_size, size, i),
        forall|j: int| 0 <= j < i ==> #[trigger] slot_fits(start, node_size, size, j),
    ensures
        region_count(start, node_size, size) == i,
{
    lemma_region_count_walk(start, node_size, size, 0, i);
}

proof fn lemma_region_count_walk(start: int, node_size: int, size: int, k: int, i: int)
    requires
        0 <= k <= i <= REGION_NODES,
        !slot_fits(start, node_size, size, i) || i == REGION_NODES,
        forall|j: int| k <= j < i ==> #[trigger] slot_fits(start, node_size, size, j),
    ensures
        region_count_from(start, node_size, size, k) == i,
    decreases i - k,
{
    if k < i {
        lemma_region_count_walk(start, node_size, size, k + 1, i);
    }
}

proof fn lemma_region_count_full(start: int, node_size: int, size: int)
    requires
        start <= size,
        forall|j: int| 0 <= j < REGION_NODES ==> #[trigger] slot_fits(start, node_size, size, j),
    ensures
        region_count(start, node_size, size) == REGION_NODES,
{
    lemma_region_count_walk(start, node_size, size, 0, REGION_NODES as int);
}

/// Keys on the load path that were not registered stay unregistered.
pub open spec fn skip_frame(old: &DenseIndexCache, new: &DenseIndexCache, skip: Set<u64>) -> bool {
    forall|k: u64|
        skip.contains(k) && !old.registry@.contains_key(k) ==> !(#[trigger] new.registry@.contains_key(k))
}

/// Every neighbor marked ready is registered, unless its key is the sentinel.
pub open spec fn ready_registered(c: &DenseIndexCache, ns: Seq<Neighbor>, is_level_0: bool) -> bool {
    forall|j: int|
        0 <= j < ns.len() && (#[trigger] ns[j]).ready ==> c.registry@.contains_key(
            spec_dense_key(ns[j].file_index, is_level_0),
        ) || spec_dense_key(ns[j].file_index, is_level_0) == u64::MAX
}

/// A neighbor was materialised, or left pending because its key is on the load
/// path or a pending item is registered under it.
pub open spec fn neighbor_reached(c: &DenseIndexCache, skip: Set<u64>, n: Neighbor, l: bool) -> bool {
    let k = spec_dense_key(n.file_index, l);
    n.ready || skip.contains(k) || (c.registry@.contains_key(k) && *c.registry@[k] is Pending)
}

/// Keys added to the load path were registered, unless they are the sentinel.
pub open spec fn skip_registered(old_skip: Set<u64>, new_skip: Set<u64>, c: &DenseIndexCache) -> bool {
    forall|k: u64|
        #[trigger] new_skip.contains(k) && !old_skip.contains(k) ==> c.registry@.contains_key(k) || k == u64::MAX
}

proof fn lemma_skip_registered_trans(
    s0: Set<u64>,
    s1: Set<u64>,
    s2: Set<u64>,
    b: &DenseIndexCache,
    c: &DenseIndexCache,
)
    requires
        skip_registered(s0, s1, b),
        skip_registered(s1, s2, c),
        DenseIndexCache::grows(b, c),
    ensures
        skip_registered(s0, s2, c),
{
    assert forall|k: u64| #[trigger] s2.contains(k) && !s0.contains(k) implies c.registry@.contains_key(k)
        || k == u64::MAX by {
        if s1.contains(k) {
            if b.registry@.contains_key(k) {
                assert(c.registry@.contains_key(k));
            }
        }
    }
}

proof fn lemma_neighbor_reached_grows(
    a: &DenseIndexCache,
    b: &DenseIndexCache,
    sa: Set<u64>,
    sb: Set<u64>,
    n: Neighbor,
    l: bool,
)
    requires
        neighbor_reached(a, sa, n, l),
        DenseIndexCache::grows(a, b),
        sa.subset_of(sb),
    ensures
        neighbor_reached(b, sb, n, l),
{
    let k = spec_dense_key(n.file_index, l);
    if a.registry@.contains_key(k) {
        assert(b.registry@.contains_key(k));
    }
}

proof fn lemma_skip_frame_trans(
    a: &DenseIndexCache,
    b: &DenseIndexCache,
    c: &DenseIndexCache,
    sa: Set<u64>,
    sb: Set<u64>,
)
    requires
        skip_frame(a, b, sa),
        skip_frame(b, c, sb),
        sa.subset_of(sb),
    ensures
        skip_frame(a, c, sa),
{
    assert forall|k: u64| sa.contains(k) && !a.registry@.contains_key(k) implies !(
    #[trigger] c.registry@.contains_key(k)) by {
        assert(!b.registry@.contains_key(k));
        assert(sb.contains(k));
    }
}

proof fn lemma_ready_registered_grows(a: &DenseIndexCache, b: &DenseIndexCache, ns: Seq<Neighbor>, l: bool)
    requires
        ready_registered(a, ns, l),
        DenseIndexCache::grows(a, b),
    ensures
        ready_registered(b, ns, l),
{
    assert forall|j: int| 0 <= j < ns.len() && (#[trigger] ns[j]).ready implies b.registry@.contains_key(
        spec_dense_key(ns[j].file_index, l),
    ) || spec_dense_key(ns[j].file_index, l) == u64::MAX by {
        if spec_dense_key(ns[j].file_index, l) != u64::MAX {
            assert(a.registry@.contains_key(spec_dense_key(ns[j].file_index, l)));
        }
    }
}

proof fn lemma_grows_trans(a: &DenseIndexCache, b: &DenseIndexCache, c: &DenseIndexCache)
    requires
        DenseIndexCache::grows(a, b),
        DenseIndexCache::grows(b, c),
    ensures
        DenseIndexCache::grows(a, c),
{
    assert forall|k: u64| #[trigger] a.registry@.contains_key(k) implies c.registry@.contains_key(k)
        && c.registry@[k] == a.registry@[k] by {
        assert(b.registry@.contains_key(k));
    }
}

/// `node` is what the record at `fi` in `files` holds: its blob's location and
/// one neighbor per child of its neighbor sequence, in order.
pub open spec fn node_read(files: BufferManagerFactory, fi: FileIndex, node: DenseNode) -> bool {
    &&& fi is Valid
    &&& files.spec_get(fi->version_id) is Some
    &&& ({
        let s = files.spec_get(fi->version_id)->Some_0;
        let h = node_header(s, fi->offset as int);
        &&& h is Ok
        &&& node.prop.offset == h->Ok_0.0
        &&& node.prop.length == h->Ok_0.1
        &&& decode_vec(s, h->Ok_0.2) is Ok
        &&& node.neighbors@.len() == decode_vec(s, h->Ok_0.2)->Ok_0.len()
        &&& forall|j: int|
            0 <= j < node.neighbors@.len() ==> #[trigger] node.neighbors@[j].file_index == child_index(
                decode_vec(s, h->Ok_0.2)->Ok_0[j],
            )
    })
}

/// `item` is the ready node read from `fi` in `files`.
pub open spec fn ready_at(item: LazyItem<DenseNode>, files: BufferManagerFactory, fi: FileIndex) -> bool {
    match item {
        LazyItem::Ready { data, file_offset, version_id, version_number } => {
            &&& fi == FileIndex::Valid { offset: file_offset, version_id, version_number }
            &&& node_read(files, fi, data)
        },
        LazyItem::Pending { .. } => false,
    }
}

/// Key under which a caller-built node at `offset` of version `version` is registered.
pub open spec fn registry_key_of(offset: u32, version: u32) -> u64 {
    ((offset as u64) << 32u64) | (version as u64)
}

} // verus!
