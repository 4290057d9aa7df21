//! The DJB "times 33 xor" hash used by the cdb format, with explicit
//! modular-arithmetic semantics on 32-bit unsigned values.

use vstd::prelude::*;

verus! {

use crate::STARTING_HASH;

/// One step of the hash recurrence: `h <- ((h << 5) +m h) ^ b`, where the
/// shift and the addition are taken modulo 2^32.
pub open spec fn hash_step(h: u32, b: u8) -> u32 {
    (((((h as u64) << 5u64) as int + h as int) % 0x1_0000_0000) as u32) ^ (b as u32)
}

/// The DJB hash of a byte string: fold `hash_step` over the bytes from the
/// left, starting at 5381.
pub open spec fn djb(s: Seq<u8>) -> u32
    decreases s.len(),
{
    if s.len() == 0 {
        STARTING_HASH
    } else {
        hash_step(djb(s.drop_last()), s.last())
    }
}

/// The root-table index selected by a hash: its low eight bits.
pub open spec fn table_of(h: u32) -> int {
    (h as int) % 256
}

/// The initial bucket slot selected by a hash: its high 24 bits, reduced
/// modulo the bucket's entry count.
pub open spec fn slot_of(h: u32, num_ents: int) -> int {
    ((h as int) / 256) % num_ents
}

/// Computes the DJB hash of `bytes`, widened to `usize`.
pub fn djb_hash(bytes: &[u8]) -> (r: usize)
    ensures
        r == djb(bytes@) as usize,
{
    let h = CDBHash::new(bytes);
    h.0 as usize
}

/// A computed DJB hash, together with the bucket and slot selections the
/// lookup engine derives from it.
#[derive(Copy, Clone, Debug)]
pub struct CDBHash(u32);

impl CDBHash {
    /// The 32-bit hash value this wraps.
    pub closed spec fn value(&self) -> u32 {
        self.0
    }

    /// Hashes a byte string.
    pub fn new(d: &[u8]) -> (r: Self)
        ensures
            r.value() == djb(d@),
    {
        let mut h: u32 = STARTING_HASH;
        let mut i: usize = 0;
        while i < d.len()
            invariant
                i <= d@.len(),
                h == djb(d@.subrange(0, i as int)),
            decreases d@.len() - i,
        {
            let shifted: u64 = (h as u64) << 5u64;
            assert(shifted + (h as u64) < 0x40_0000_0000u64) by (bit_vector)
                requires
                    shifted == (h as u64) << 5u64,
            ;
            h = (((shifted + (h as u64)) % 0x1_0000_0000u64) as u32) ^ (d[i] as u32);
            i = i + 1;
            assert(d@.subrange(0, i as int).drop_last() =~= d@.subrange(0, i - 1));
            assert(d@.subrange(0, i as int).last() == d@[i - 1]);
        }
        assert(d@.subrange(0, d@.len() as int) =~= d@);
        CDBHash(h)
    }

    /// The 32-bit hash value, for comparison against stored entry hashes.
    pub fn raw(&self) -> (r: u32)
        ensures
            r == self.value(),
    {
        self.0
    }

    /// The root-table index this hash selects.
    pub fn table(&self) -> (r: usize)
        ensures
            r == table_of(self.value()),
    {
        (self.0 % 256) as usize
    }

    /// The initial slot this hash selects within a bucket of `num_ents`
    /// entries. Undefined (and rejected) for an empty bucket.
    pub fn slot(&self, num_ents: usize) -> (r: usize)
        requires
            num_ents > 0,
        ensures
            r == slot_of(self.value(), num_ents as int),
    {
        let h0: u32 = self.0;
        let high: u32 = h0 >> 8u32;
        assert(high == h0 / 256) by (bit_vector)
            requires
                high == h0 >> 8u32,
        ;
        (high as usize) % num_ents
    }
}

} // verus!
