//! Lazily materialised items, shared handles to them, and the versioned files
//! they are read from.
use vstd::prelude::*;
use std::sync::Arc;
use crate::file_index::FileIndex;

verus! {

/// An item that is either known only by its location or fully read.
#[derive(Debug)]
pub enum LazyItem<T> {
    Pending { file_index: FileIndex },
    Ready { data: T, file_offset: u32, version_id: u32, version_number: u16 },
}

impl<T> LazyItem<T> {
    /// The ready item for the data read from a valid index.
    pub open spec fn spec_ready(data: T, fi: FileIndex) -> LazyItem<T> {
        LazyItem::Ready {
            data,
            file_offset: fi->offset,
            version_id: fi->version_id,
            version_number: fi->version_number,
        }
    }

    pub fn is_ready(&self) -> (r: bool)
        ensures
            r == (self is Ready),
    {
        match self {
            LazyItem::Ready { .. } => true,
            LazyItem::Pending { .. } => false,
        }
    }
}

/// Relies on std's `Arc::clone`: the new handle points at the same value.
#[verifier::external_body]
pub fn share<T>(a: &Arc<T>) -> (r: Arc<T>)
    ensures
        r == *a,
{
    Arc::clone(a)
}

/// One version of a file.
#[derive(Debug)]
pub struct VersionFile {
    pub version_id: u32,
    pub bytes: Vec<u8>,
}

/// The files of all versions, found by version id; the first file with an id wins.
#[derive(Debug)]
pub struct BufferManagerFactory {
    pub files: Vec<VersionFile>,
}

/// The bytes of the first file in `files` with version id `vid`.
pub open spec fn file_of(files: Seq<VersionFile>, vid: u32) -> Option<Seq<u8>>
    decreases files.len(),
{
    if files.len() == 0 {
        None
    } else if files[0].version_id == vid {
        Some(files[0].bytes@)
    } else {
        file_of(files.drop_first(), vid)
    }
}

impl BufferManagerFactory {
    pub open spec fn spec_get(&self, vid: u32) -> Option<Seq<u8>> {
        file_of(self.files@, vid)
    }

    pub fn new(files: Vec<VersionFile>) -> (r: BufferManagerFactory)
        ensures
            r.files@ == files@,
    {
        BufferManagerFactory { files }
    }

    /// The file of version `vid`.
    pub fn get(&self, vid: u32) -> (r: Option<&Vec<u8>>)
        ensures
            match r {
                Some(b) => self.spec_get(vid) == Some(b@),
                None => self.spec_get(vid) is None,
            },
    {
        let mut i: usize = 0;
        assert(self.files@.skip(0) =~= self.files@);
        while i < self.files.len()
            invariant
                i <= self.files@.len(),
                file_of(self.files@, vid) == file_of(self.files@.skip(i as int), vid),
            decreases self.files@.len() - i,
        {
            let ghost rest = self.files@.skip(i as int);
            if self.files[i].version_id == vid {
                return Some(&self.files[i].bytes);
            }
            assert(rest.drop_first() =~= self.files@.skip(i + 1));
            i = i + 1;
        }
        None
    }
}

} // verus!
