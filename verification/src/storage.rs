//! The byte provider: one `slice(start, end)` operation served by either a
//! fully resident heap buffer or a privately mapped file. Both variants
//! present identical semantics to the lookup engine, which never branches
//! on which one is in use.

use vstd::prelude::*;

verus! {

use crate::CdbError;
use crate::bytebuf::{bytes_contents, bytes_new, bytes_from_vec, bytes_len, bytes_slice};
use crate::mapfile::{map_contents, map_len, map_read};

/// How many bytes one pretouch read covers.
pub const BUF_LEN: usize = 8192;

/// A backing store serving raw byte ranges of the database file.
pub enum SliceFactory {
    /// A contiguous buffer loaded at open time; slices share ownership
    /// with it.
    HeapStorage(bytes::Bytes),
    /// A private read-only map of the file; slices are fresh copies of the
    /// mapped bytes.
    MmapStorage(memmap::Mmap),
}

impl View for SliceFactory {
    type V = Seq<u8>;

    /// The full byte string of the backing store.
    open spec fn view(&self) -> Seq<u8> {
        match self {
            SliceFactory::HeapStorage(b) => bytes_contents(*b),
            SliceFactory::MmapStorage(m) => map_contents(*m),
        }
    }
}

impl SliceFactory {
    /// Wraps a fully resident buffer as a heap-backed store.
    pub fn load(data: bytes::Bytes) -> (r: SliceFactory)
        ensures
            r@ == bytes_contents(data),
    {
        SliceFactory::HeapStorage(data)
    }

    /// Wraps a read-only memory map as a mapped store, touching every page
    /// once so page faults are paid at open time rather than during
    /// lookups.
    pub fn make_map(m: memmap::Mmap) -> (r: SliceFactory)
        ensures
            r@ == map_contents(m),
    {
        let len = map_len(&m);
        let mut pos: usize = 0;
        while pos < len
            invariant
                len == map_contents(m).len(),
            decreases len - pos,
        {
            let end = if len - pos < BUF_LEN {
                len
            } else {
                pos + BUF_LEN
            };
            let _page = map_read(&m, pos, end);
            pos = end;
        }
        SliceFactory::MmapStorage(m)
    }

    /// The total number of bytes the store serves.
    pub fn len(&self) -> (r: usize)
        ensures
            r == self@.len(),
    {
        match self {
            SliceFactory::HeapStorage(b) => bytes_len(b),
            SliceFactory::MmapStorage(m) => map_len(m),
        }
    }

    /// Returns a view of exactly the bytes of `[start, end)`, or `IoError`
    /// when the backing store cannot satisfy the range. An empty range is
    /// served without touching the backing store.
    pub fn slice(&self, start: usize, end: usize) -> (r: Result<bytes::Bytes, CdbError>)
        requires
            start <= end,
        ensures
            match r {
                Ok(b) => if start == end {
                    bytes_contents(b) == Seq::<u8>::empty()
                } else {
                    end <= self@.len() && bytes_contents(b) == self@.subrange(
                        start as int,
                        end as int,
                    )
                },
                Err(e) => e == CdbError::IoError && end > self@.len() && start < end,
            },
    {
        if end == start {
            return Ok(bytes_new());
        }
        match self {
            SliceFactory::HeapStorage(b) => {
                if end > bytes_len(b) {
                    Err(CdbError::IoError)
                } else {
                    Ok(bytes_slice(b, start, end))
                }
            },
            SliceFactory::MmapStorage(m) => {
                if end > map_len(m) {
                    Err(CdbError::IoError)
                } else {
                    Ok(bytes_from_vec(map_read(m, start, end)))
                }
            },
        }
    }
}

} // verus!
