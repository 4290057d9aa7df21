//! Read-side engine for the constant on-disk key/value database format
//! introduced by cdb: a file written once and queried many times, with a
//! 256-entry root table at offset 0, per-bucket index tables of
//! `(hash, data_ptr)` entries, and records laid out as
//! `(klen, vlen, key, value)` with all 32-bit fields little-endian.

use vstd::prelude::*;

pub mod hash;
pub mod layout;
pub mod bytebuf;
pub mod mapfile;
pub mod storage;
pub mod db;
pub mod input;
pub mod positional;
pub mod laws;

verus! {

/// The starting value of the DJB hash recurrence.
pub const STARTING_HASH: u32 = 5381;

/// Errors a loaded database can report.
///
/// `IoError`: the backing store could not satisfy a byte range.
/// `FormatError`: the root table is shorter than 2048 bytes, or a pointer
/// or length field inside the file implies a read past end-of-file.
/// A missing key is not an error; `get` reports it as `None`.
#[derive(Clone, Copy, Debug, PartialEq, Eq, Structural)]
pub enum CdbError {
    IoError,
    FormatError,
}

} // verus!
