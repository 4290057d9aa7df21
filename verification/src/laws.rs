//! The engine's guarantees over well-formed images, stated and proved once
//! over the file model: lookups on a well-formed image never read out of
//! bounds, a key the image does not hold is reported missing, a key it
//! does hold is found, and the full scan covers every live record.

use vstd::prelude::*;

verus! {

use crate::hash::{djb, table_of, slot_of};
use crate::layout::{
    bucket_ptr, bucket_count, entry_hash, entry_ptr, live, rec_in_bounds, rec_key, rec_value,
    GetOutcome, spec_get, spec_probe, scan_from, scan_ok_from, wf_bounds, wf_hashes,
    wf_probe_order, wf_image,
};
use vstd::arithmetic::div_mod::{lemma_mod_bound, lemma_add_mod_noop, lemma_small_mod};

/// On a well-formed image, no step of the probe walk reads out of bounds.
proof fn lemma_probe_in_bounds(
    f: Seq<u8>,
    key: Seq<u8>,
    h: u32,
    b: int,
    ptr: int,
    count: int,
    s0: int,
    i: int,
)
    requires
        wf_bounds(f),
        0 <= b < 256,
        ptr == bucket_ptr(f, b) as int,
        count == bucket_count(f, b) as int,
        count > 0,
        0 <= s0 < count,
        0 <= i,
    ensures
        !(spec_probe(f, key, h, ptr, count, s0, i) is BadFormat),
    decreases count - i,
{
    if i < count {
        lemma_mod_bound(s0 + i, count);
        let s = (s0 + i) % count;
        assert(ptr + 8 * s + 8 <= ptr + 8 * count <= f.len());
        let dp = entry_ptr(f, b, s) as int;
        if dp != 0 {
            assert(live(f, b, s));
            assert(rec_in_bounds(f, dp));
        }
        lemma_probe_in_bounds(f, key, h, b, ptr, count, s0, i + 1);
    }
}

/// Bounded reads: on a well-formed image, no lookup reports a format
/// error (it finds a value or reports a miss); every read the walk makes
/// stays inside the file.
pub proof fn lemma_wf_get_in_bounds(f: Seq<u8>, key: Seq<u8>)
    requires
        wf_bounds(f),
    ensures
        !(spec_get(f, key) is BadFormat),
{
    let h = djb(key);
    let b = table_of(h);
    lemma_mod_bound(h as int, 256);
    let count = bucket_count(f, b) as int;
    if count > 0 {
        lemma_mod_bound((h as int) / 256, count);
        lemma_probe_in_bounds(f, key, h, b, bucket_ptr(f, b) as int, count, slot_of(h, count), 0);
    }
}

/// On a well-formed image, a probe walk over a bucket none of whose live
/// entries stores `key` ends in a miss.
proof fn lemma_probe_misses(
    f: Seq<u8>,
    key: Seq<u8>,
    h: u32,
    b: int,
    ptr: int,
    count: int,
    s0: int,
    i: int,
)
    requires
        wf_bounds(f),
        0 <= b < 256,
        ptr == bucket_ptr(f, b) as int,
        count == bucket_count(f, b) as int,
        count > 0,
        0 <= s0 < count,
        0 <= i,
        forall|s: int| #[trigger] live(f, b, s) ==> rec_key(f, entry_ptr(f, b, s) as int) != key,
    ensures
        spec_probe(f, key, h, ptr, count, s0, i) == GetOutcome::Miss,
    decreases count - i,
{
    if i < count {
        lemma_mod_bound(s0 + i, count);
        let s = (s0 + i) % count;
        assert(ptr + 8 * s + 8 <= ptr + 8 * count <= f.len());
        let dp = entry_ptr(f, b, s) as int;
        if dp != 0 {
            assert(live(f, b, s));
            assert(rec_in_bounds(f, dp));
            assert(rec_key(f, dp) != key);
        }
        lemma_probe_misses(f, key, h, b, ptr, count, s0, i + 1);
    }
}

/// Closed world: a key that no live entry of a well-formed image stores
/// is reported missing.
pub proof fn lemma_absent_key_misses(f: Seq<u8>, key: Seq<u8>)
    requires
        wf_bounds(f),
        forall|b: int, s: int| #[trigger] live(f, b, s) ==> rec_key(f, entry_ptr(f, b, s) as int)
            != key,
    ensures
        spec_get(f, key) == GetOutcome::Miss,
{
    let h = djb(key);
    let b = table_of(h);
    lemma_mod_bound(h as int, 256);
    let count = bucket_count(f, b) as int;
    if count > 0 {
        lemma_mod_bound((h as int) / 256, count);
        lemma_probe_misses(f, key, h, b, bucket_ptr(f, b) as int, count, slot_of(h, count), 0);
    }
}

/// From probe index `i`, if a live entry storing `key` sits at distance
/// `dist` at or beyond `i` on the probe path, the walk finds the value of
/// some live entry storing `key`.
proof fn lemma_probe_finds(
    f: Seq<u8>,
    key: Seq<u8>,
    h: u32,
    b: int,
    ptr: int,
    count: int,
    s0: int,
    i: int,
    sw: int,
)
    requires
        wf_bounds(f),
        wf_hashes(f),
        wf_probe_order(f),
        h == djb(key),
        0 <= b < 256,
        ptr == bucket_ptr(f, b) as int,
        count == bucket_count(f, b) as int,
        count > 0,
        s0 == slot_of(h, count),
        0 <= s0 < count,
        live(f, b, sw),
        rec_key(f, entry_ptr(f, b, sw) as int) == key,
        0 <= i <= (sw - s0) % count,
    ensures
        exists|s: int|
            {
                &&& #[trigger] live(f, b, s)
                &&& rec_key(f, entry_ptr(f, b, s) as int) == key
                &&& spec_probe(f, key, h, ptr, count, s0, i) == GetOutcome::Found(
                    rec_value(f, entry_ptr(f, b, s) as int),
                )
            },
    decreases (sw - s0) % count - i,
{
    let d = (sw - s0) % count;
    lemma_mod_bound(sw - s0, count);
    lemma_mod_bound(s0 + i, count);
    let s = (s0 + i) % count;
    assert(ptr + 8 * s + 8 <= ptr + 8 * count <= f.len());
    assert(entry_hash(f, b, sw) == h);
    assert(slot_of(entry_hash(f, b, sw), count) == s0);
    if i == d {
        assert(s == sw) by {
            lemma_add_mod_noop(s0, sw - s0, count);
            lemma_small_mod(s0 as nat, count as nat);
            lemma_small_mod(sw as nat, count as nat);
        }
        assert(rec_in_bounds(f, entry_ptr(f, b, sw) as int));
        assert(spec_probe(f, key, h, ptr, count, s0, i) == GetOutcome::Found(
            rec_value(f, entry_ptr(f, b, sw) as int),
        ));
    } else {
        assert(live(f, b, (s0 + i) % count));
        let dp = entry_ptr(f, b, s) as int;
        assert(rec_in_bounds(f, dp));
        if entry_hash(f, b, s) == h && rec_key(f, dp) == key {
            assert(spec_probe(f, key, h, ptr, count, s0, i) == GetOutcome::Found(
                rec_value(f, dp),
            ));
        } else {
            lemma_probe_finds(f, key, h, b, ptr, count, s0, i + 1, sw);
        }
    }
}

/// Round trip: a key some live entry of a well-formed image stores is
/// found, and the value returned is the stored value of a live entry
/// storing that key (the first such entry in probe order).
pub proof fn lemma_present_key_found(f: Seq<u8>, key: Seq<u8>)
    requires
        wf_image(f),
        exists|b: int, s: int| #[trigger] live(f, b, s) && rec_key(f, entry_ptr(f, b, s) as int)
            == key,
    ensures
        exists|s: int|
            {
                &&& #[trigger] live(f, table_of(djb(key)), s)
                &&& rec_key(f, entry_ptr(f, table_of(djb(key)), s) as int) == key
                &&& spec_get(f, key) == GetOutcome::Found(
                    rec_value(f, entry_ptr(f, table_of(djb(key)), s) as int),
                )
            },
{
    let h = djb(key);
    let b = table_of(h);
    lemma_mod_bound(h as int, 256);
    let (bw, sw) = choose|bw: int, sw: int|
        #[trigger] live(f, bw, sw) && rec_key(f, entry_ptr(f, bw, sw) as int) == key;
    assert(entry_hash(f, bw, sw) == djb(rec_key(f, entry_ptr(f, bw, sw) as int)));
    assert(bw == b);
    let count = bucket_count(f, b) as int;
    assert(count > 0);
    let s0 = slot_of(h, count);
    lemma_mod_bound((h as int) / 256, count);
    lemma_mod_bound(sw - s0, count);
    lemma_probe_finds(f, key, h, b, bucket_ptr(f, b) as int, count, s0, 0, sw);
}

/// On a well-formed image the full scan reaches the end of the table walk
/// without any out-of-bounds read.
proof fn lemma_scan_ok(f: Seq<u8>, b: int, s: int)
    requires
        wf_bounds(f),
        0 <= b,
        0 <= s,
    ensures
        scan_ok_from(f, b, s),
    decreases 256 - b, bucket_count(f, b) - s + 1,
{
    if 0 <= b < 256 {
        let count = bucket_count(f, b) as int;
        if s >= count {
            lemma_scan_ok(f, b + 1, 0);
        } else {
            assert(bucket_ptr(f, b) + 8 * s + 8 <= bucket_ptr(f, b) + 8 * count <= f.len());
            let dp = entry_ptr(f, b, s) as int;
            if dp != 0 {
                assert(live(f, b, s));
                assert(rec_in_bounds(f, dp));
            }
            lemma_scan_ok(f, b, s + 1);
        }
    }
}

/// Iterator safety on a well-formed image: the scan needs no
/// out-of-bounds read.
pub proof fn lemma_wf_scan_ok(f: Seq<u8>)
    requires
        wf_bounds(f),
    ensures
        scan_ok_from(f, 0, 0),
{
    lemma_scan_ok(f, 0, 0);
}

/// The scan from a position at or before a live entry contains that
/// entry's record.
proof fn lemma_scan_from_contains(f: Seq<u8>, b0: int, s0: int, b: int, s: int)
    requires
        wf_bounds(f),
        live(f, b, s),
        0 <= b0,
        0 <= s0,
        b0 < b || (b0 == b && s0 <= s),
    ensures
        scan_from(f, b0, s0).contains(
            (rec_key(f, entry_ptr(f, b, s) as int), rec_value(f, entry_ptr(f, b, s) as int)),
        ),
    decreases 256 - b0, bucket_count(f, b0) - s0 + 1,
{
    let pair = (rec_key(f, entry_ptr(f, b, s) as int), rec_value(f, entry_ptr(f, b, s) as int));
    let count0 = bucket_count(f, b0) as int;
    if s0 >= count0 {
        lemma_scan_from_contains(f, b0 + 1, 0, b, s);
    } else {
        assert(bucket_ptr(f, b0) + 8 * s0 + 8 <= bucket_ptr(f, b0) + 8 * count0 <= f.len());
        let dp0 = entry_ptr(f, b0, s0) as int;
        if b0 == b && s0 == s {
            assert(rec_in_bounds(f, dp0));
            assert(scan_from(f, b0, s0)[0] == pair);
            assert(scan_from(f, b0, s0).contains(pair));
        } else if dp0 == 0 {
            lemma_scan_from_contains(f, b0, s0 + 1, b, s);
        } else {
            assert(live(f, b0, s0));
            assert(rec_in_bounds(f, dp0));
            lemma_scan_from_contains(f, b0, s0 + 1, b, s);
            let tail = scan_from(f, b0, s0 + 1);
            let i = choose|i: int| 0 <= i < tail.len() && tail[i] == pair;
            assert(scan_from(f, b0, s0)[1 + i] == pair);
            assert(scan_from(f, b0, s0).contains(pair));
        }
    }
}

/// Iterator completeness: on a well-formed image, the full scan contains
/// the record of every live index entry.
pub proof fn lemma_scan_complete(f: Seq<u8>, b: int, s: int)
    requires
        wf_bounds(f),
        live(f, b, s),
    ensures
        scan_from(f, 0, 0).contains(
            (rec_key(f, entry_ptr(f, b, s) as int), rec_value(f, entry_ptr(f, b, s) as int)),
        ),
{
    lemma_scan_from_contains(f, 0, 0, b, s);
}

/// Every record the full scan yields is the record of some live index
/// entry of the image.
proof fn lemma_scan_from_sound(f: Seq<u8>, b0: int, s0: int, i: int)
    requires
        0 <= b0,
        0 <= s0,
        0 <= i < scan_from(f, b0, s0).len(),
    ensures
        exists|b: int, s: int|
            {
                &&& #[trigger] live(f, b, s)
                &&& scan_from(f, b0, s0)[i] == (
                    rec_key(f, entry_ptr(f, b, s) as int),
                    rec_value(f, entry_ptr(f, b, s) as int),
                )
            },
    decreases 256 - b0, bucket_count(f, b0) - s0 + 1,
{
    let count0 = bucket_count(f, b0) as int;
    if b0 < 256 {
        if s0 >= count0 {
            lemma_scan_from_sound(f, b0 + 1, 0, i);
        } else {
            let eoff = bucket_ptr(f, b0) + 8 * s0;
            if eoff + 8 <= f.len() {
                let dp0 = entry_ptr(f, b0, s0) as int;
                if dp0 == 0 {
                    lemma_scan_from_sound(f, b0, s0 + 1, i);
                } else if rec_in_bounds(f, dp0) {
                    if i == 0 {
                        assert(live(f, b0, s0));
                        assert(scan_from(f, b0, s0)[0] == (
                            rec_key(f, dp0),
                            rec_value(f, dp0),
                        ));
                    } else {
                        lemma_scan_from_sound(f, b0, s0 + 1, i - 1);
                    }
                }
            }
        }
    }
}

/// Iterator soundness: every record the full scan yields is the record of
/// some live index entry.
pub proof fn lemma_scan_sound(f: Seq<u8>, i: int)
    requires
        0 <= i < scan_from(f, 0, 0).len(),
    ensures
        exists|b: int, s: int|
            {
                &&& #[trigger] live(f, b, s)
                &&& scan_from(f, 0, 0)[i] == (
                    rec_key(f, entry_ptr(f, b, s) as int),
                    rec_value(f, entry_ptr(f, b, s) as int),
                )
            },
{
    lemma_scan_from_sound(f, 0, 0, i);
}

} // verus!
