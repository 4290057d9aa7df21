//! Trusted view of `memmap::Mmap`, the read-only memory map that backs the
//! mapped storage variant. The contracts hold under the database's stated
//! immutability: nothing writes the mapped file while the map is alive
//! (a loaded database is immutable until closed).

use vstd::prelude::*;

verus! {

#[verifier::external_type_specification]
#[verifier::external_body]
pub struct ExMmap(memmap::Mmap);

/// The byte string a read-only memory map holds.
pub uninterp spec fn map_contents(m: memmap::Mmap) -> Seq<u8>;

/// Relies on `memmap::Mmap::len`: the length of the mapped region.
#[verifier::external_body]
pub fn map_len(m: &memmap::Mmap) -> (r: usize)
    ensures
        r == map_contents(*m).len(),
{
    m.len()
}

/// Relies on `impl Deref<Target = [u8]> for Mmap` and slice indexing: a
/// fresh copy of exactly the mapped bytes of `[start, end)`. Panics
/// outside the map, which the precondition rules out.
#[verifier::external_body]
pub fn map_read(m: &memmap::Mmap, start: usize, end: usize) -> (r: Vec<u8>)
    requires
        start <= end <= map_contents(*m).len(),
    ensures
        r@ == map_contents(*m).subrange(start as int, end as int),
{
    m[start..end].to_vec()
}

} // verus!
