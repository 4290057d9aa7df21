//! The mathematical model of the on-disk layout: little-endian decoding,
//! the root table, index entries, records, the probe that `get` performs,
//! the full scan, and the invariants a well-formed image satisfies.

use vstd::prelude::*;

verus! {

use crate::hash::{djb, table_of, slot_of};

/// A 32-bit value assembled from four bytes, least significant first.
pub open spec fn u32_from_le(b0: u8, b1: u8, b2: u8, b3: u8) -> u32 {
    ((b0 as int) + (b1 as int) * 0x100 + (b2 as int) * 0x1_0000 + (b3 as int) * 0x100_0000) as u32
}

/// The little-endian `u32` stored at offset `off` of the file image.
pub open spec fn u32_le_at(f: Seq<u8>, off: int) -> u32
    recommends
        0 <= off,
        off + 4 <= f.len(),
{
    u32_from_le(f[off], f[off + 1], f[off + 2], f[off + 3])
}

/// Reads the little-endian `u32` at offset `off` of `data`.
pub fn read_u32_le(data: &[u8], off: usize) -> (r: u32)
    requires
        off + 4 <= data@.len(),
    ensures
        r == u32_le_at(data@, off as int),
{
    let b0 = data[off];
    let b1 = data[off + 1];
    let b2 = data[off + 2];
    let b3 = data[off + 3];
    (b0 as u32) + (b1 as u32) * 0x100 + (b2 as u32) * 0x1_0000 + (b3 as u32) * 0x100_0000
}

/// Compares two byte strings for bytewise equality.
pub fn bytes_eq(a: &[u8], b: &[u8]) -> (r: bool)
    ensures
        r <==> a@ == b@,
{
    if a.len() != b.len() {
        assert(a@ != b@);
        return false;
    }
    let mut i: usize = 0;
    while i < a.len()
        invariant
            i <= a@.len(),
            a@.len() == b@.len(),
            forall|j: int| 0 <= j < i ==> a@[j] == b@[j],
        decreases a@.len() - i,
    {
        if a[i] != b[i] {
            assert(a@ != b@);
            return false;
        }
        i = i + 1;
    }
    assert(a@ =~= b@);
    true
}

/// The file offset of bucket `b`'s descriptor in the root table.
pub open spec fn bucket_ptr(f: Seq<u8>, b: int) -> u32 {
    u32_le_at(f, 8 * b)
}

/// The number of index entries in bucket `b`, from the root table.
pub open spec fn bucket_count(f: Seq<u8>, b: int) -> u32 {
    u32_le_at(f, 8 * b + 4)
}

/// The stored hash of the index entry at slot `s` of bucket `b`.
pub open spec fn entry_hash(f: Seq<u8>, b: int, s: int) -> u32 {
    u32_le_at(f, bucket_ptr(f, b) + 8 * s)
}

/// The record pointer of the index entry at slot `s` of bucket `b`;
/// zero marks an empty slot.
pub open spec fn entry_ptr(f: Seq<u8>, b: int, s: int) -> u32 {
    u32_le_at(f, bucket_ptr(f, b) + 8 * s + 4)
}

/// Whether slot `s` of bucket `b` holds a live (non-sentinel) index entry.
pub open spec fn live(f: Seq<u8>, b: int, s: int) -> bool {
    &&& 0 <= b < 256
    &&& 0 <= s < bucket_count(f, b)
    &&& entry_ptr(f, b, s) != 0
}

/// The key length stored in the record header at `dp`.
pub open spec fn rec_klen(f: Seq<u8>, dp: int) -> int {
    u32_le_at(f, dp) as int
}

/// The value length stored in the record header at `dp`.
pub open spec fn rec_vlen(f: Seq<u8>, dp: int) -> int {
    u32_le_at(f, dp + 4) as int
}

/// Whether the whole record at `dp` (header, key and value) lies inside
/// the file.
pub open spec fn rec_in_bounds(f: Seq<u8>, dp: int) -> bool {
    &&& dp + 8 <= f.len()
    &&& dp + 8 + rec_klen(f, dp) + rec_vlen(f, dp) <= f.len()
}

/// The key bytes of the record at `dp`.
pub open spec fn rec_key(f: Seq<u8>, dp: int) -> Seq<u8> {
    f.subrange(dp + 8, dp + 8 + rec_klen(f, dp))
}

/// The value bytes of the record at `dp`.
pub open spec fn rec_value(f: Seq<u8>, dp: int) -> Seq<u8> {
    f.subrange(dp + 8 + rec_klen(f, dp), dp + 8 + rec_klen(f, dp) + rec_vlen(f, dp))
}

/// What a lookup reports: the value of the record found, a miss, or a
/// format error because a pointer or length implied a read past
/// end-of-file.
pub enum GetOutcome {
    Found(Seq<u8>),
    Miss,
    BadFormat,
}

/// The open-addressed walk of one bucket, from probe index `i` on.
///
/// Slot `(s0 + i) mod count` is inspected at each step: an empty slot is a
/// miss, a matching stored hash selects a candidate record whose stored key
/// decides the outcome, and anything else moves to the next slot. Reads
/// that would cross end-of-file stop the walk with `BadFormat`.
pub open spec fn spec_probe(
    f: Seq<u8>,
    key: Seq<u8>,
    h: u32,
    ptr: int,
    count: int,
    s0: int,
    i: int,
) -> GetOutcome
    recommends
        0 <= ptr,
        0 < count,
        0 <= s0 < count,
        0 <= i,
    decreases count - i,
{
    if i >= count {
        GetOutcome::Miss
    } else {
        let s = (s0 + i) % count;
        let eoff = ptr + 8 * s;
        if eoff + 8 > f.len() {
            GetOutcome::BadFormat
        } else {
            let eh = u32_le_at(f, eoff);
            let dp = u32_le_at(f, eoff + 4) as int;
            if dp == 0 {
                GetOutcome::Miss
            } else if eh == h {
                if !rec_in_bounds(f, dp) {
                    GetOutcome::BadFormat
                } else if rec_key(f, dp) == key {
                    GetOutcome::Found(rec_value(f, dp))
                } else {
                    spec_probe(f, key, h, ptr, count, s0, i + 1)
                }
            } else {
                spec_probe(f, key, h, ptr, count, s0, i + 1)
            }
        }
    }
}

/// The outcome of looking `key` up in the file image `f`.
pub open spec fn spec_get(f: Seq<u8>, key: Seq<u8>) -> GetOutcome {
    if f.len() < 2048 {
        GetOutcome::BadFormat
    } else {
        let h = djb(key);
        let b = table_of(h);
        let ptr = bucket_ptr(f, b) as int;
        let count = bucket_count(f, b) as int;
        if count == 0 {
            GetOutcome::Miss
        } else {
            spec_probe(f, key, h, ptr, count, slot_of(h, count), 0)
        }
    }
}

/// The `(key, value)` pairs a full scan yields from bucket `b`, slot `s`
/// onward: buckets in increasing order, slots in increasing order, empty
/// slots skipped. The scan stops early at the first entry or record that
/// would require a read past end-of-file; `scan_ok_from` tells whether
/// that happens.
pub open spec fn scan_from(f: Seq<u8>, b: int, s: int) -> Seq<(Seq<u8>, Seq<u8>)>
    decreases 256 - b, bucket_count(f, b) - s + 1,
{
    if b < 0 || b >= 256 || s < 0 {
        Seq::empty()
    } else if s >= bucket_count(f, b) {
        scan_from(f, b + 1, 0)
    } else {
        let eoff = bucket_ptr(f, b) + 8 * s;
        if eoff + 8 > f.len() {
            Seq::empty()
        } else {
            let dp = entry_ptr(f, b, s) as int;
            if dp == 0 {
                scan_from(f, b, s + 1)
            } else if !rec_in_bounds(f, dp) {
                Seq::empty()
            } else {
                seq![(rec_key(f, dp), rec_value(f, dp))] + scan_from(f, b, s + 1)
            }
        }
    }
}

/// Whether a full scan from bucket `b`, slot `s` onward reaches the end of
/// the table walk without any out-of-bounds read.
pub open spec fn scan_ok_from(f: Seq<u8>, b: int, s: int) -> bool
    decreases 256 - b, bucket_count(f, b) - s + 1,
{
    if b < 0 || b >= 256 || s < 0 {
        true
    } else if s >= bucket_count(f, b) {
        scan_ok_from(f, b + 1, 0)
    } else {
        let eoff = bucket_ptr(f, b) + 8 * s;
        if eoff + 8 > f.len() {
            false
        } else {
            let dp = entry_ptr(f, b, s) as int;
            if dp == 0 {
                scan_ok_from(f, b, s + 1)
            } else if !rec_in_bounds(f, dp) {
                false
            } else {
                scan_ok_from(f, b, s + 1)
            }
        }
    }
}

/// The bounds invariants of a well-formed image: the root table fits, every
/// non-empty bucket's index table lies inside the file, and every live
/// entry points at a record that lies inside the file.
pub open spec fn wf_bounds(f: Seq<u8>) -> bool {
    &&& 2048 <= f.len()
    &&& f.len() <= 0xFFFF_FFFF
    &&& forall|b: int|
        0 <= b < 256 && bucket_count(f, b) > 0 ==> {
            &&& 2048 <= #[trigger] bucket_ptr(f, b)
            &&& bucket_ptr(f, b) + 8 * bucket_count(f, b) <= f.len()
        }
    &&& forall|b: int, s: int|
        #[trigger] live(f, b, s) ==> {
            &&& 2048 <= entry_ptr(f, b, s)
            &&& rec_in_bounds(f, entry_ptr(f, b, s) as int)
        }
}

/// The hash invariants a writer establishes: every live entry stores the
/// DJB hash of its record's key, and sits in the bucket that hash selects.
pub open spec fn wf_hashes(f: Seq<u8>) -> bool {
    forall|b: int, s: int|
        #[trigger] live(f, b, s) ==> {
            &&& entry_hash(f, b, s) == djb(rec_key(f, entry_ptr(f, b, s) as int))
            &&& table_of(entry_hash(f, b, s)) == b
        }
}

/// The open-addressing invariant a writer establishes: walking from a live
/// entry's initial slot, every slot strictly before it in probe order is
/// also live (the writer never leaves a hole before a live entry).
pub open spec fn wf_probe_order(f: Seq<u8>) -> bool {
    forall|b: int, s: int|
        #[trigger] live(f, b, s) ==> {
            let count = bucket_count(f, b) as int;
            let s0 = slot_of(entry_hash(f, b, s), count);
            forall|j: int| 0 <= j < (s - s0) % count ==> #[trigger] live(f, b, (s0 + j) % count)
        }
}

/// All invariants of a well-formed image together.
pub open spec fn wf_image(f: Seq<u8>) -> bool {
    wf_bounds(f) && wf_hashes(f) && wf_probe_order(f)
}

} // verus!
