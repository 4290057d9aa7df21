//! The lookup engine for positional-I/O backings. The engine cannot read
//! a file handle itself, so a lookup is driven as a state machine: it
//! names the byte range it needs, the caller performs the positional read
//! and feeds the bytes back, and the machine decides the next step. The
//! decisions are exactly those of `spec_get`: whatever backing serves the
//! reads, if every response reports the file's true bytes, the outcome is
//! the lookup outcome on that file.

use vstd::prelude::*;

verus! {

use crate::CdbError;
use crate::hash::{CDBHash, djb, table_of, slot_of};
use crate::layout::{
    u32_le_at, read_u32_le, bucket_ptr, bucket_count, rec_in_bounds, rec_key, rec_value,
    GetOutcome, spec_get, spec_probe, bytes_eq, scan_from, scan_ok_from, entry_ptr,
};
use vstd::slice::{slice_subrange, slice_to_vec};

/// What the machine asks of its driver next: read exactly the bytes
/// `[off, off + len)` of the file and feed them back; or the lookup is
/// over, with a value, a miss, or a format error.
pub enum LookupStep {
    Need { off: u64, len: u64 },
    Done(Option<Vec<u8>>),
    Fail(CdbError),
}

/// Where the machine stands inside one probe walk.
#[derive(Clone, Copy)]
enum Phase {
    WantBucket,
    WantEntry,
    WantRecHdr { dp: u32 },
    WantRecBody { dp: u32, klen: u32, vlen: u32 },
    Finished,
}

/// Whether every recorded read reported the file's true bytes.
pub open spec fn reads_consistent(tr: Seq<(int, int, Seq<u8>)>, file: Seq<u8>) -> bool {
    forall|j: int|
        0 <= j < tr.len() ==> {
            let t = #[trigger] tr[j];
            &&& 0 <= t.0
            &&& t.0 + t.1 <= file.len()
            &&& t.2 == file.subrange(t.0, t.0 + t.1)
        }
}

/// Removing the newest read keeps a trace consistent, and the newest read
/// itself reported true bytes.
proof fn lemma_consistent_unpush(tr: Seq<(int, int, Seq<u8>)>, e: (int, int, Seq<u8>), file: Seq<u8>)
    requires
        reads_consistent(tr.push(e), file),
    ensures
        reads_consistent(tr, file),
        0 <= e.0,
        e.0 + e.1 <= file.len(),
        e.2 == file.subrange(e.0, e.0 + e.1),
{
    assert(tr.push(e)[tr.len() as int] == e);
    assert forall|j: int| 0 <= j < tr.len() implies {
        let t = #[trigger] tr[j];
        &&& 0 <= t.0
        &&& t.0 + t.1 <= file.len()
        &&& t.2 == file.subrange(t.0, t.0 + t.1)
    } by {
        assert(tr.push(e)[j] == tr[j]);
    }
}

/// One in-flight lookup against a positional backing.
pub struct PosLookup {
    key: Vec<u8>,
    hash: u32,
    file_len: u64,
    ptr: u32,
    count: u32,
    s0: u32,
    i: u32,
    phase: Phase,
    trace: Ghost<Seq<(int, int, Seq<u8>)>>,
}

impl PosLookup {
    /// The key being looked up.
    pub closed spec fn key_view(&self) -> Seq<u8> {
        self.key@
    }

    /// The file length the machine was opened with.
    pub closed spec fn spec_file_len(&self) -> int {
        self.file_len as int
    }

    /// Every read the machine has been fed, oldest first.
    pub closed spec fn trace(&self) -> Seq<(int, int, Seq<u8>)> {
        self.trace@
    }

    /// Whether the machine still waits for a read.
    pub closed spec fn in_progress(&self) -> bool {
        !(self.phase is Finished)
    }

    /// The byte range the machine waits for: `(offset, length)`.
    pub closed spec fn wanted(&self) -> (int, int) {
        match self.phase {
            Phase::WantBucket => (8 * table_of(self.hash), 8),
            Phase::WantEntry => (
                self.ptr + 8 * ((self.s0 + self.i) % (self.count as int)),
                8,
            ),
            Phase::WantRecHdr { dp } => (dp as int, 8),
            Phase::WantRecBody { dp, klen, vlen } => (dp + 8, klen + vlen),
            Phase::Finished => (0, 0),
        }
    }

    /// What must hold of the machine's fields for any file the recorded
    /// reads are consistent with, at each phase of the walk.
    spec fn state_ok(&self, file: Seq<u8>) -> bool {
        let key = self.key@;
        let h = self.hash;
        let ptr = self.ptr as int;
        let count = self.count as int;
        let s0 = self.s0 as int;
        let i = self.i as int;
        match self.phase {
            Phase::WantBucket => true,
            Phase::WantEntry => {
                &&& self.ptr == bucket_ptr(file, table_of(h))
                &&& self.count == bucket_count(file, table_of(h))
                &&& spec_get(file, key) == spec_probe(file, key, h, ptr, count, s0, i)
            },
            Phase::WantRecHdr { dp } => {
                &&& self.ptr == bucket_ptr(file, table_of(h))
                &&& self.count == bucket_count(file, table_of(h))
                &&& dp + 8 <= file.len()
                &&& spec_get(file, key) == if !rec_in_bounds(file, dp as int) {
                    GetOutcome::BadFormat
                } else if rec_key(file, dp as int) == key {
                    GetOutcome::Found(rec_value(file, dp as int))
                } else {
                    spec_probe(file, key, h, ptr, count, s0, i + 1)
                }
            },
            Phase::WantRecBody { dp, klen, vlen } => {
                &&& self.ptr == bucket_ptr(file, table_of(h))
                &&& self.count == bucket_count(file, table_of(h))
                &&& klen == u32_le_at(file, dp as int)
                &&& vlen == u32_le_at(file, dp as int + 4)
                &&& rec_in_bounds(file, dp as int)
                &&& spec_get(file, key) == if rec_key(file, dp as int) == key {
                    GetOutcome::Found(rec_value(file, dp as int))
                } else {
                    spec_probe(file, key, h, ptr, count, s0, i + 1)
                }
            },
            Phase::Finished => true,
        }
    }

    /// How many steps the lookup can still take: strictly decreasing
    /// across every `Need` step, so a driver that serves each request
    /// terminates.
    pub closed spec fn fuel(&self) -> int {
        match self.phase {
            Phase::WantBucket => 4int * 0x1_0000_0000int + 4int,
            Phase::WantEntry => 4 * (self.count - self.i) + 3,
            Phase::WantRecHdr { .. } => 4 * (self.count - self.i) + 2,
            Phase::WantRecBody { .. } => 4 * (self.count - self.i) + 1,
            Phase::Finished => 0,
        }
    }

    /// The machine's invariant between steps.
    pub closed spec fn inv(&self) -> bool {
        &&& self.hash == djb(self.key@)
        &&& 2048 <= self.file_len <= 0xFFFF_FFFF
        &&& match self.phase {
            Phase::WantBucket => true,
            Phase::Finished => true,
            Phase::WantEntry => 0 < self.count && (self.s0 as int) < (self.count as int) && (
            self.i as int) < (self.count as int),
            Phase::WantRecHdr { dp } => 0 < self.count && (self.s0 as int) < (self.count as int)
                && (self.i as int) < (self.count as int) && dp + 8 <= self.file_len,
            Phase::WantRecBody { dp, klen, vlen } => 0 < self.count && (self.s0 as int) < (
            self.count as int) && (self.i as int) < (self.count as int) && dp + 8 + klen + vlen
                <= self.file_len,
        }
        &&& (self.phase is WantBucket ==> 0 <= 8 * table_of(self.hash) && 8 * table_of(self.hash)
            + 8 <= self.file_len)
        &&& forall|file: Seq<u8>|
            (file.len() == self.file_len && #[trigger] reads_consistent(self.trace@, file))
                ==> self.state_ok(file)
    }

    /// Starts a lookup of `key` in a file of `file_len` bytes. When the
    /// length can hold no root table (or exceeds what the format's 32-bit
    /// pointers address), the lookup fails at once with `FormatError`;
    /// otherwise the machine asks for the key's bucket descriptor.
    pub fn new(key: &[u8], file_len: u64) -> (r: (PosLookup, LookupStep))
        ensures
            r.0.key_view() == key@,
            r.0.spec_file_len() == file_len as int,
            r.0.trace() == Seq::<(int, int, Seq<u8>)>::empty(),
            2048 <= file_len <= 0xFFFF_FFFF ==> (r.1 matches LookupStep::Need { off, len } && {
                &&& r.0.inv()
                &&& r.0.in_progress()
                &&& r.0.wanted() == (off as int, len as int)
                &&& off + len <= file_len
            }),
            !(2048 <= file_len <= 0xFFFF_FFFF) ==> (r.1 matches LookupStep::Fail(e) && e
                == CdbError::FormatError && !r.0.in_progress() && (file_len < 2048
                ==> forall|file: Seq<u8>|
                file.len() == file_len ==> spec_get(file, #[trigger] key@) == GetOutcome::BadFormat)),
    {
        let hash = CDBHash::new(key);
        let h = hash.raw();
        let b = hash.table();
        proof {
            vstd::arithmetic::div_mod::lemma_mod_bound(hash.value() as int, 256);
        }
        let mut machine = PosLookup {
            key: slice_to_vec(key),
            hash: h,
            file_len,
            ptr: 0,
            count: 0,
            s0: 0,
            i: 0,
            phase: Phase::WantBucket,
            trace: Ghost(Seq::empty()),
        };
        if file_len < 2048 || file_len > 0xFFFF_FFFF {
            machine.phase = Phase::Finished;
            return (machine, LookupStep::Fail(CdbError::FormatError));
        }
        let off = 8 * (b as u64);
        (machine, LookupStep::Need { off, len: 8 })
    }

    /// Emits the read request for probe index `i` of the current bucket,
    /// or ends the lookup with `FormatError` when that entry lies past
    /// end-of-file.
    fn request_entry(&mut self) -> (r: LookupStep)
        requires
            old(self).inv(),
            old(self).phase is WantEntry,
        ensures
            final(self).inv(),
            final(self).key_view() == old(self).key_view(),
            final(self).spec_file_len() == old(self).spec_file_len(),
            final(self).trace() == old(self).trace(),
            match r {
                LookupStep::Need { off, len } => {
                    &&& final(self).in_progress()
                    &&& final(self).wanted() == (off as int, len as int)
                    &&& off + len <= old(self).spec_file_len()
                    &&& *final(self) == *old(self)
                },
                LookupStep::Done(v) => false,
                LookupStep::Fail(e) => e == CdbError::FormatError && !final(self).in_progress()
                    && forall|file: Seq<u8>|
                    (file.len() == final(self).spec_file_len() && #[trigger] reads_consistent(
                        final(self).trace(),
                        file,
                    )) ==> spec_get(file, final(self).key_view()) == GetOutcome::BadFormat,
            },
    {
        let s = ((self.s0 as u64) + (self.i as u64)) % (self.count as u64);
        proof {
            vstd::arithmetic::div_mod::lemma_mod_bound(
                self.s0 as int + self.i as int,
                self.count as int,
            );
        }
        let eoff = (self.ptr as u64) + 8 * s;
        if eoff > self.file_len - 8 {
            self.phase = Phase::Finished;
            proof {
                assert forall|file: Seq<u8>|
                    (file.len() == self.file_len && #[trigger] reads_consistent(
                        self.trace@,
                        file,
                    )) implies spec_get(file, self.key@) == GetOutcome::BadFormat by {
                    assert(old(self).state_ok(file));
                }
            }
            return LookupStep::Fail(CdbError::FormatError);
        }
        LookupStep::Need { off: eoff, len: 8 }
    }

    /// The contract every step of the machine meets: the new state is
    /// sound, the read just fed is recorded, and a final step's verdict
    /// is the lookup outcome on every file the recorded reads are
    /// consistent with.
    pub open spec fn step_post(
        pre: PosLookup,
        post: PosLookup,
        datav: Seq<u8>,
        r: LookupStep,
    ) -> bool {
        &&& post.inv()
        &&& post.key_view() == pre.key_view()
        &&& post.spec_file_len() == pre.spec_file_len()
        &&& post.trace() == pre.trace().push((pre.wanted().0, pre.wanted().1, datav))
        &&& match r {
            LookupStep::Need { off, len } => {
                &&& post.in_progress()
                &&& post.wanted() == (off as int, len as int)
                &&& off + len <= pre.spec_file_len()
                &&& 0 <= post.fuel() < pre.fuel()
            },
            LookupStep::Done(v) => !post.in_progress() && forall|file: Seq<u8>|
                (file.len() == post.spec_file_len() && #[trigger] reads_consistent(
                    post.trace(),
                    file,
                )) ==> match v {
                    Some(bytes) => spec_get(file, post.key_view()) == GetOutcome::Found(bytes@),
                    None => spec_get(file, post.key_view()) == GetOutcome::Miss,
                },
            LookupStep::Fail(e) => e == CdbError::FormatError && !post.in_progress() && forall|
                file: Seq<u8>,
            |
                (file.len() == post.spec_file_len() && #[trigger] reads_consistent(
                    post.trace(),
                    file,
                )) ==> spec_get(file, post.key_view()) == GetOutcome::BadFormat,
        }
    }

    /// Feeds the machine the bytes of the range it asked for, exactly as
    /// they stand in the file, and takes the next step. For any file the
    /// fed reads are consistent with, a final `Done` or `Fail` step is
    /// exactly the outcome of `spec_get` on that file.
    pub fn feed(&mut self, data: &[u8]) -> (r: LookupStep)
        requires
            old(self).inv(),
            old(self).in_progress(),
            data@.len() == old(self).wanted().1,
        ensures
            PosLookup::step_post(*old(self), *final(self), data@, r),
    {
        match self.phase {
            Phase::Finished => {
                proof {
                    assert(false);
                }
                LookupStep::Fail(CdbError::FormatError)
            },
            Phase::WantBucket => self.feed_bucket(data),
            Phase::WantEntry => self.feed_entry(data),
            Phase::WantRecHdr { .. } => self.feed_rec_hdr(data),
            Phase::WantRecBody { .. } => self.feed_rec_body(data),
        }
    }

    /// Decodes the bucket descriptor and either reports a miss (an empty
    /// bucket) or asks for the initial probe entry.
    fn feed_bucket(&mut self, data: &[u8]) -> (r: LookupStep)
        requires
            old(self).inv(),
            old(self).phase is WantBucket,
            data@.len() == old(self).wanted().1,
        ensures
            PosLookup::step_post(*old(self), *final(self), data@, r),
    {
        let ghost entry = (self.wanted().0, self.wanted().1, data@);
        let ghost old_trace = self.trace@;
        proof {
            self.trace@ = self.trace@.push(entry);
        }
        let ptr = read_u32_le(data, 0);
        let count = read_u32_le(data, 4);
        if count == 0 {
            self.phase = Phase::Finished;
            proof {
                assert forall|file: Seq<u8>|
                    (file.len() == self.file_len && #[trigger] reads_consistent(
                        self.trace@,
                        file,
                    )) implies spec_get(file, self.key@) == GetOutcome::Miss by {
                    lemma_consistent_unpush(old_trace, entry, file);
                    assert(bucket_count(file, table_of(self.hash)) == count);
                }
            }
            return LookupStep::Done(None);
        }
        self.ptr = ptr;
        self.count = count;
        let h = self.hash;
        let high = h >> 8u32;
        assert(high == h / 256) by (bit_vector)
            requires
                high == h >> 8u32,
        ;
        self.s0 = high % count;
        self.i = 0;
        self.phase = Phase::WantEntry;
        proof {
            vstd::arithmetic::div_mod::lemma_mod_bound(high as int, count as int);
            assert forall|file: Seq<u8>|
                (file.len() == self.file_len && #[trigger] reads_consistent(
                    self.trace@,
                    file,
                )) implies self.state_ok(file) by {
                lemma_consistent_unpush(old_trace, entry, file);
                assert(bucket_ptr(file, table_of(self.hash)) == ptr);
                assert(bucket_count(file, table_of(self.hash)) == count);
                assert(slot_of(self.hash, count as int) == self.s0 as int);
            }
        }
        self.request_entry()
    }

    /// Decodes an index entry: an empty slot is a miss, a hash match asks
    /// for the record header, anything else moves to the next slot.
    fn feed_entry(&mut self, data: &[u8]) -> (r: LookupStep)
        requires
            old(self).inv(),
            old(self).phase is WantEntry,
            data@.len() == old(self).wanted().1,
        ensures
            PosLookup::step_post(*old(self), *final(self), data@, r),
    {
        let ghost entry = (self.wanted().0, self.wanted().1, data@);
        let ghost old_trace = self.trace@;
        proof {
            self.trace@ = self.trace@.push(entry);
        }
        let eh = read_u32_le(data, 0);
        let dp = read_u32_le(data, 4);
        if dp == 0 {
            self.phase = Phase::Finished;
            proof {
                assert forall|file: Seq<u8>|
                    (file.len() == self.file_len && #[trigger] reads_consistent(
                        self.trace@,
                        file,
                    )) implies spec_get(file, self.key@) == GetOutcome::Miss by {
                    lemma_consistent_unpush(old_trace, entry, file);
                    assert(old(self).state_ok(file));
                    assert(u32_le_at(file, entry.0 + 4) == dp);
                }
            }
            return LookupStep::Done(None);
        }
        if eh != self.hash {
            proof {
                assert forall|file: Seq<u8>|
                    (file.len() == self.file_len && #[trigger] reads_consistent(
                        self.trace@,
                        file,
                    )) implies {
                    &&& self.ptr == bucket_ptr(file, table_of(self.hash))
                    &&& self.count == bucket_count(file, table_of(self.hash))
                    &&& spec_get(file, self.key@) == spec_probe(
                        file,
                        self.key@,
                        self.hash,
                        self.ptr as int,
                        self.count as int,
                        self.s0 as int,
                        self.i as int + 1,
                    )
                } by {
                    lemma_consistent_unpush(old_trace, entry, file);
                    assert(old(self).state_ok(file));
                    assert(u32_le_at(file, entry.0) == eh);
                    assert(u32_le_at(file, entry.0 + 4) == dp);
                }
                assert forall|file: Seq<u8>|
                    (file.len() == self.file_len && #[trigger] reads_consistent(
                        self.trace@,
                        file,
                    )) implies self.state_ok(file) by {
                    lemma_consistent_unpush(old_trace, entry, file);
                    assert(old(self).state_ok(file));
                }
            }
            return self.advance();
        }
        let dp64 = dp as u64;
        if dp64 > self.file_len - 8 {
            self.phase = Phase::Finished;
            proof {
                assert forall|file: Seq<u8>|
                    (file.len() == self.file_len && #[trigger] reads_consistent(
                        self.trace@,
                        file,
                    )) implies spec_get(file, self.key@) == GetOutcome::BadFormat by {
                    lemma_consistent_unpush(old_trace, entry, file);
                    assert(old(self).state_ok(file));
                    assert(u32_le_at(file, entry.0) == eh);
                    assert(u32_le_at(file, entry.0 + 4) == dp);
                    assert(!rec_in_bounds(file, dp as int));
                }
            }
            return LookupStep::Fail(CdbError::FormatError);
        }
        self.phase = Phase::WantRecHdr { dp };
        proof {
            assert forall|file: Seq<u8>|
                (file.len() == self.file_len && #[trigger] reads_consistent(
                    self.trace@,
                    file,
                )) implies self.state_ok(file) by {
                lemma_consistent_unpush(old_trace, entry, file);
                assert(old(self).state_ok(file));
                assert(u32_le_at(file, entry.0) == eh);
                assert(u32_le_at(file, entry.0 + 4) == dp);
            }
        }
        LookupStep::Need { off: dp64, len: 8 }
    }

    /// Decodes the record's length header and asks for its key and value
    /// bytes, or fails when the record crosses end-of-file.
    fn feed_rec_hdr(&mut self, data: &[u8]) -> (r: LookupStep)
        requires
            old(self).inv(),
            old(self).phase is WantRecHdr,
            data@.len() == old(self).wanted().1,
        ensures
            PosLookup::step_post(*old(self), *final(self), data@, r),
    {
        let ghost entry = (self.wanted().0, self.wanted().1, data@);
        let ghost old_trace = self.trace@;
        proof {
            self.trace@ = self.trace@.push(entry);
        }
        let dp = match self.phase {
            Phase::WantRecHdr { dp } => dp,
            _ => {
                proof {
                    assert(false);
                }
                0
            },
        };
        let klen = read_u32_le(data, 0);
        let vlen = read_u32_le(data, 4);
        let dp64 = dp as u64;
        if (klen as u64) + (vlen as u64) > self.file_len - 8 - dp64 {
            self.phase = Phase::Finished;
            proof {
                assert forall|file: Seq<u8>|
                    (file.len() == self.file_len && #[trigger] reads_consistent(
                        self.trace@,
                        file,
                    )) implies spec_get(file, self.key@) == GetOutcome::BadFormat by {
                    lemma_consistent_unpush(old_trace, entry, file);
                    assert(old(self).state_ok(file));
                    assert(u32_le_at(file, dp as int) == klen);
                    assert(u32_le_at(file, dp as int + 4) == vlen);
                    assert(!rec_in_bounds(file, dp as int));
                }
            }
            return LookupStep::Fail(CdbError::FormatError);
        }
        self.phase = Phase::WantRecBody { dp, klen, vlen };
        proof {
            assert forall|file: Seq<u8>|
                (file.len() == self.file_len && #[trigger] reads_consistent(
                    self.trace@,
                    file,
                )) implies self.state_ok(file) by {
                lemma_consistent_unpush(old_trace, entry, file);
                assert(old(self).state_ok(file));
                assert(u32_le_at(file, dp as int) == klen);
                assert(u32_le_at(file, dp as int + 4) == vlen);
                assert(rec_in_bounds(file, dp as int));
            }
        }
        LookupStep::Need { off: dp64 + 8, len: (klen as u64) + (vlen as u64) }
    }

    /// Compares the record's stored key with the query key: a match ends
    /// the lookup with the record's value, a mismatch moves to the next
    /// slot.
    fn feed_rec_body(&mut self, data: &[u8]) -> (r: LookupStep)
        requires
            old(self).inv(),
            old(self).phase is WantRecBody,
            data@.len() == old(self).wanted().1,
        ensures
            PosLookup::step_post(*old(self), *final(self), data@, r),
    {
        let ghost entry = (self.wanted().0, self.wanted().1, data@);
        let ghost old_trace = self.trace@;
        proof {
            self.trace@ = self.trace@.push(entry);
        }
        let (dp, klen, vlen) = match self.phase {
            Phase::WantRecBody { dp, klen, vlen } => (dp, klen, vlen),
            _ => {
                proof {
                    assert(false);
                }
                (0, 0, 0)
            },
        };
        let klen_us = klen as usize;
        let kpart = slice_subrange(data, 0, klen_us);
        let matched = bytes_eq(kpart, self.key.as_slice());
        if matched {
            let value = slice_to_vec(slice_subrange(data, klen_us, data.len()));
            self.phase = Phase::Finished;
            proof {
                assert forall|file: Seq<u8>|
                    (file.len() == self.file_len && #[trigger] reads_consistent(
                        self.trace@,
                        file,
                    )) implies spec_get(file, self.key@) == GetOutcome::Found(value@) by {
                    lemma_consistent_unpush(old_trace, entry, file);
                    assert(old(self).state_ok(file));
                    assert(rec_key(file, dp as int) =~= data@.subrange(0, klen as int));
                    assert(rec_value(file, dp as int) =~= data@.subrange(
                        klen as int,
                        data@.len() as int,
                    ));
                }
            }
            return LookupStep::Done(Some(value));
        }
        proof {
            assert forall|file: Seq<u8>|
                (file.len() == self.file_len && #[trigger] reads_consistent(
                    self.trace@,
                    file,
                )) implies {
                &&& self.ptr == bucket_ptr(file, table_of(self.hash))
                &&& self.count == bucket_count(file, table_of(self.hash))
                &&& spec_get(file, self.key@) == spec_probe(
                    file,
                    self.key@,
                    self.hash,
                    self.ptr as int,
                    self.count as int,
                    self.s0 as int,
                    self.i as int + 1,
                )
            } by {
                lemma_consistent_unpush(old_trace, entry, file);
                assert(old(self).state_ok(file));
                assert(rec_key(file, dp as int) =~= data@.subrange(0, klen as int));
                assert(rec_key(file, dp as int) != self.key@);
            }
            assert forall|file: Seq<u8>|
                (file.len() == self.file_len && #[trigger] reads_consistent(
                    self.trace@,
                    file,
                )) implies self.state_ok(file) by {
                lemma_consistent_unpush(old_trace, entry, file);
                assert(old(self).state_ok(file));
            }
        }
        self.advance()
    }

    /// Moves to the next probe index: a miss when the bucket is
    /// exhausted, otherwise the read request for the next entry.
    fn advance(&mut self) -> (r: LookupStep)
        requires
            old(self).inv(),
            !(old(self).phase is Finished),
            !(old(self).phase is WantBucket),
            forall|file: Seq<u8>|
                (file.len() == old(self).spec_file_len() && #[trigger] reads_consistent(
                    old(self).trace(),
                    file,
                )) ==> {
                    &&& old(self).ptr == bucket_ptr(file, table_of(old(self).hash))
                    &&& old(self).count == bucket_count(file, table_of(old(self).hash))
                    &&& spec_get(file, old(self).key_view()) == spec_probe(
                        file,
                        old(self).key_view(),
                        old(self).hash,
                        old(self).ptr as int,
                        old(self).count as int,
                        old(self).s0 as int,
                        old(self).i as int + 1,
                    )
                },
        ensures
            final(self).inv(),
            final(self).key_view() == old(self).key_view(),
            final(self).spec_file_len() == old(self).spec_file_len(),
            final(self).trace() == old(self).trace(),
            match r {
                LookupStep::Need { off, len } => {
                    &&& final(self).in_progress()
                    &&& final(self).wanted() == (off as int, len as int)
                    &&& off + len <= old(self).spec_file_len()
                    &&& final(self).fuel() < old(self).fuel()
                },
                LookupStep::Done(v) => v is None && !final(self).in_progress() && forall|
                    file: Seq<u8>,
                |
                    (file.len() == final(self).spec_file_len() && #[trigger] reads_consistent(
                        final(self).trace(),
                        file,
                    )) ==> spec_get(file, final(self).key_view()) == GetOutcome::Miss,
                LookupStep::Fail(e) => e == CdbError::FormatError && !final(self).in_progress()
                    && forall|file: Seq<u8>|
                    (file.len() == final(self).spec_file_len() && #[trigger] reads_consistent(
                        final(self).trace(),
                        file,
                    )) ==> spec_get(file, final(self).key_view()) == GetOutcome::BadFormat,
            },
    {
        if self.i + 1 >= self.count {
            self.phase = Phase::Finished;
            return LookupStep::Done(None);
        }
        self.i = self.i + 1;
        self.phase = Phase::WantEntry;
        proof {
            assert forall|file: Seq<u8>|
                (file.len() == self.file_len && #[trigger] reads_consistent(
                    self.trace@,
                    file,
                )) implies self.state_ok(file) by {
                assert(file.len() == old(self).spec_file_len());
                assert(reads_consistent(old(self).trace(), file));
                assert(spec_get(file, old(self).key_view()) == spec_probe(
                    file,
                    old(self).key_view(),
                    old(self).hash,
                    old(self).ptr as int,
                    old(self).count as int,
                    old(self).s0 as int,
                    old(self).i as int + 1,
                ));
            }
        }
        self.request_entry()
    }
}

/// What the scan machine asks of its driver next: read exactly the
/// bytes `[off, off + len)` and feed them back; or the scan is over,
/// either cleanly or with a format error.
pub enum ScanStep {
    Need { off: u64, len: u64 },
    Done,
    Fail(CdbError),
}

/// Where the scan machine stands inside the table walk.
#[derive(Clone, Copy)]
enum ScanPhase {
    WantBucket,
    WantEntry,
    WantRecHdr { dp: u32 },
    WantRecBody { dp: u32, klen: u32, vlen: u32 },
    Finished,
}

/// One in-flight full scan against a positional backing: walks buckets in
/// increasing order and, inside each bucket, slots in increasing order,
/// yielding every live record once.
pub struct PosScan {
    file_len: u64,
    bucket: u32,
    ptr: u32,
    count: u32,
    slot: u32,
    phase: ScanPhase,
    trace: Ghost<Seq<(int, int, Seq<u8>)>>,
    emitted: Ghost<Seq<(Seq<u8>, Seq<u8>)>>,
}

impl PosScan {
    /// The file length the machine was opened with.
    pub closed spec fn spec_file_len(&self) -> int {
        self.file_len as int
    }

    /// Every read the machine has been fed, oldest first.
    pub closed spec fn trace(&self) -> Seq<(int, int, Seq<u8>)> {
        self.trace@
    }

    /// The records the machine has yielded so far, in scan order.
    pub closed spec fn emitted(&self) -> Seq<(Seq<u8>, Seq<u8>)> {
        self.emitted@
    }

    /// Whether the machine still waits for a read.
    pub closed spec fn in_progress(&self) -> bool {
        !(self.phase is Finished)
    }

    /// The byte range the machine waits for: `(offset, length)`.
    pub closed spec fn wanted(&self) -> (int, int) {
        match self.phase {
            ScanPhase::WantBucket => (8 * self.bucket, 8),
            ScanPhase::WantEntry => (self.ptr + 8 * self.slot, 8),
            ScanPhase::WantRecHdr { dp } => (dp as int, 8),
            ScanPhase::WantRecBody { dp, klen, vlen } => (dp + 8, klen + vlen),
            ScanPhase::Finished => (0, 0),
        }
    }

    /// What must hold of the machine's fields for any file the recorded
    /// reads are consistent with, at each phase of the walk.
    spec fn state_ok(&self, file: Seq<u8>) -> bool {
        let b = self.bucket as int;
        let s = self.slot as int;
        let whole = scan_from(file, 0, 0);
        let whole_ok = scan_ok_from(file, 0, 0);
        match self.phase {
            ScanPhase::WantBucket => {
                &&& whole == self.emitted@ + scan_from(file, b, 0)
                &&& whole_ok == scan_ok_from(file, b, 0)
            },
            ScanPhase::WantEntry => {
                &&& self.ptr == bucket_ptr(file, b)
                &&& self.count == bucket_count(file, b)
                &&& whole == self.emitted@ + scan_from(file, b, s)
                &&& whole_ok == scan_ok_from(file, b, s)
            },
            ScanPhase::WantRecHdr { dp } => {
                &&& self.ptr == bucket_ptr(file, b)
                &&& self.count == bucket_count(file, b)
                &&& whole == self.emitted@ + scan_from(file, b, s)
                &&& whole_ok == scan_ok_from(file, b, s)
                &&& dp == entry_ptr(file, b, s)
                &&& dp != 0
            },
            ScanPhase::WantRecBody { dp, klen, vlen } => {
                &&& self.ptr == bucket_ptr(file, b)
                &&& self.count == bucket_count(file, b)
                &&& whole == self.emitted@ + scan_from(file, b, s)
                &&& whole_ok == scan_ok_from(file, b, s)
                &&& dp == entry_ptr(file, b, s)
                &&& dp != 0
                &&& klen == u32_le_at(file, dp as int)
                &&& vlen == u32_le_at(file, dp as int + 4)
            },
            ScanPhase::Finished => true,
        }
    }

    /// How many steps the scan can still take: strictly decreasing across
    /// every `Need` step, so a driver that serves each request terminates.
    pub closed spec fn fuel(&self) -> int {
        let per_bucket = 5int * 0x1_0000_0000int;
        match self.phase {
            ScanPhase::WantBucket => (256 - self.bucket) * per_bucket,
            ScanPhase::WantEntry => (255 - self.bucket) * per_bucket + 4 * (self.count
                - self.slot) + 3,
            ScanPhase::WantRecHdr { .. } => (255 - self.bucket) * per_bucket + 4 * (self.count
                - self.slot) + 2,
            ScanPhase::WantRecBody { .. } => (255 - self.bucket) * per_bucket + 4 * (self.count
                - self.slot) + 1,
            ScanPhase::Finished => 0,
        }
    }

    /// The machine's invariant between steps.
    pub closed spec fn inv(&self) -> bool {
        &&& 2048 <= self.file_len <= 0xFFFF_FFFF
        &&& match self.phase {
            ScanPhase::Finished => true,
            ScanPhase::WantBucket => self.bucket < 256,
            ScanPhase::WantEntry => self.bucket < 256 && 0 < self.count && self.slot
                < self.count && self.ptr + 8 * self.slot + 8 <= self.file_len,
            ScanPhase::WantRecHdr { dp } => self.bucket < 256 && 0 < self.count && self.slot
                < self.count && self.ptr + 8 * self.slot + 8 <= self.file_len && dp + 8
                <= self.file_len,
            ScanPhase::WantRecBody { dp, klen, vlen } => self.bucket < 256 && 0 < self.count
                && self.slot < self.count && self.ptr + 8 * self.slot + 8 <= self.file_len && dp
                + 8 + klen + vlen <= self.file_len,
        }
        &&& forall|file: Seq<u8>|
            (file.len() == self.file_len && #[trigger] reads_consistent(self.trace@, file))
                ==> self.state_ok(file)
    }

    /// The contract every step of the scan machine meets.
    pub open spec fn step_post(
        pre: PosScan,
        post: PosScan,
        datav: Seq<u8>,
        yielded: Option<(Vec<u8>, Vec<u8>)>,
        r: ScanStep,
    ) -> bool {
        &&& post.inv()
        &&& post.spec_file_len() == pre.spec_file_len()
        &&& post.trace() == pre.trace().push((pre.wanted().0, pre.wanted().1, datav))
        &&& match yielded {
            None => post.emitted() == pre.emitted(),
            Some((k, v)) => post.emitted() == pre.emitted().push((k@, v@)),
        }
        &&& match r {
            ScanStep::Need { off, len } => {
                &&& post.in_progress()
                &&& post.wanted() == (off as int, len as int)
                &&& off + len <= pre.spec_file_len()
                &&& 0 <= post.fuel() < pre.fuel()
            },
            ScanStep::Done => !post.in_progress() && forall|file: Seq<u8>|
                (file.len() == post.spec_file_len() && #[trigger] reads_consistent(
                    post.trace(),
                    file,
                )) ==> post.emitted() == scan_from(file, 0, 0) && scan_ok_from(file, 0, 0),
            ScanStep::Fail(e) => e == CdbError::FormatError && !post.in_progress() && forall|
                file: Seq<u8>,
            |
                (file.len() == post.spec_file_len() && #[trigger] reads_consistent(
                    post.trace(),
                    file,
                )) ==> post.emitted() == scan_from(file, 0, 0) && !scan_ok_from(file, 0, 0),
        }
    }

    /// Starts a full scan of a file of `file_len` bytes. When the length
    /// can hold no root table (or exceeds what the format's 32-bit
    /// pointers address), the scan fails at once with `FormatError`;
    /// otherwise the machine asks for the first bucket's descriptor.
    pub fn new(file_len: u64) -> (r: (PosScan, ScanStep))
        ensures
            r.0.spec_file_len() == file_len as int,
            r.0.trace() == Seq::<(int, int, Seq<u8>)>::empty(),
            r.0.emitted() == Seq::<(Seq<u8>, Seq<u8>)>::empty(),
            2048 <= file_len <= 0xFFFF_FFFF ==> (r.1 matches ScanStep::Need { off, len } && {
                &&& r.0.inv()
                &&& r.0.in_progress()
                &&& r.0.wanted() == (off as int, len as int)
                &&& off + len <= file_len
            }),
            !(2048 <= file_len <= 0xFFFF_FFFF) ==> (r.1 matches ScanStep::Fail(e) && e
                == CdbError::FormatError && !r.0.in_progress()),
    {
        let mut machine = PosScan {
            file_len,
            bucket: 0,
            ptr: 0,
            count: 0,
            slot: 0,
            phase: ScanPhase::WantBucket,
            trace: Ghost(Seq::empty()),
            emitted: Ghost(Seq::empty()),
        };
        if file_len < 2048 || file_len > 0xFFFF_FFFF {
            machine.phase = ScanPhase::Finished;
            return (machine, ScanStep::Fail(CdbError::FormatError));
        }
        (machine, ScanStep::Need { off: 0, len: 8 })
    }

    /// Inspects the current slot: past the bucket's end it moves to the
    /// next bucket (or finishes after the last one); otherwise it asks for
    /// the slot's entry, or fails when that entry lies past end-of-file.
    fn next_position(&mut self) -> (r: ScanStep)
        requires
            old(self).phase is WantEntry,
            2048 <= old(self).file_len <= 0xFFFF_FFFF,
            old(self).bucket < 256,
            old(self).slot <= old(self).count,
            forall|file: Seq<u8>|
                (file.len() == old(self).spec_file_len() && #[trigger] reads_consistent(
                    old(self).trace(),
                    file,
                )) ==> {
                    &&& old(self).ptr == bucket_ptr(file, old(self).bucket as int)
                    &&& old(self).count == bucket_count(file, old(self).bucket as int)
                    &&& scan_from(file, 0, 0) == old(self).emitted() + scan_from(
                        file,
                        old(self).bucket as int,
                        old(self).slot as int,
                    )
                    &&& scan_ok_from(file, 0, 0) == scan_ok_from(
                        file,
                        old(self).bucket as int,
                        old(self).slot as int,
                    )
                },
        ensures
            final(self).inv(),
            final(self).spec_file_len() == old(self).spec_file_len(),
            final(self).trace() == old(self).trace(),
            final(self).emitted() == old(self).emitted(),
            match r {
                ScanStep::Need { off, len } => {
                    &&& final(self).in_progress()
                    &&& final(self).wanted() == (off as int, len as int)
                    &&& off + len <= old(self).spec_file_len()
                    &&& 0 <= final(self).fuel() <= old(self).fuel()
                },
                ScanStep::Done => !final(self).in_progress() && forall|file: Seq<u8>|
                    (file.len() == final(self).spec_file_len() && #[trigger] reads_consistent(
                        final(self).trace(),
                        file,
                    )) ==> final(self).emitted() == scan_from(file, 0, 0) && scan_ok_from(
                        file,
                        0,
                        0,
                    ),
                ScanStep::Fail(e) => e == CdbError::FormatError && !final(self).in_progress()
                    && forall|file: Seq<u8>|
                    (file.len() == final(self).spec_file_len() && #[trigger] reads_consistent(
                        final(self).trace(),
                        file,
                    )) ==> final(self).emitted() == scan_from(file, 0, 0) && !scan_ok_from(
                        file,
                        0,
                        0,
                    ),
            },
    {
        if self.slot >= self.count {
            if self.bucket >= 255 {
                self.phase = ScanPhase::Finished;
                proof {
                    assert forall|file: Seq<u8>|
                        (file.len() == self.file_len && #[trigger] reads_consistent(
                            self.trace@,
                            file,
                        )) implies self.emitted@ == scan_from(file, 0, 0) && scan_ok_from(
                        file,
                        0,
                        0,
                    ) by {
                        assert(file.len() == old(self).spec_file_len());
                        assert(reads_consistent(old(self).trace(), file));
                        assert(scan_from(file, old(self).bucket as int, old(self).slot as int)
                            == scan_from(file, old(self).bucket as int + 1, 0));
                        assert(scan_ok_from(file, old(self).bucket as int, old(self).slot as int)
                            == scan_ok_from(file, old(self).bucket as int + 1, 0));
                        assert(self.emitted@ + Seq::<(Seq<u8>, Seq<u8>)>::empty()
                            =~= self.emitted@);
                    }
                }
                return ScanStep::Done;
            }
            self.bucket = self.bucket + 1;
            self.slot = 0;
            self.phase = ScanPhase::WantBucket;
            proof {
                assert forall|file: Seq<u8>|
                    (file.len() == self.file_len && #[trigger] reads_consistent(
                        self.trace@,
                        file,
                    )) implies self.state_ok(file) by {
                    assert(file.len() == old(self).spec_file_len());
                    assert(reads_consistent(old(self).trace(), file));
                    assert(scan_from(file, old(self).bucket as int, old(self).slot as int)
                        == scan_from(file, self.bucket as int, 0));
                    assert(scan_ok_from(file, old(self).bucket as int, old(self).slot as int)
                        == scan_ok_from(file, self.bucket as int, 0));
                }
            }
            return ScanStep::Need { off: 8 * (self.bucket as u64), len: 8 };
        }
        let eoff = (self.ptr as u64) + 8 * (self.slot as u64);
        if eoff > self.file_len - 8 {
            self.phase = ScanPhase::Finished;
            proof {
                assert forall|file: Seq<u8>|
                    (file.len() == self.file_len && #[trigger] reads_consistent(
                        self.trace@,
                        file,
                    )) implies self.emitted@ == scan_from(file, 0, 0) && !scan_ok_from(
                    file,
                    0,
                    0,
                ) by {
                    assert(file.len() == old(self).spec_file_len());
                    assert(reads_consistent(old(self).trace(), file));
                    assert(scan_from(file, old(self).bucket as int, old(self).slot as int)
                        =~= Seq::<(Seq<u8>, Seq<u8>)>::empty());
                    assert(self.emitted@ + Seq::<(Seq<u8>, Seq<u8>)>::empty() =~= self.emitted@);
                }
            }
            return ScanStep::Fail(CdbError::FormatError);
        }
        proof {
            assert forall|file: Seq<u8>|
                (file.len() == self.file_len && #[trigger] reads_consistent(
                    self.trace@,
                    file,
                )) implies self.state_ok(file) by {
                assert(file.len() == old(self).spec_file_len());
                assert(reads_consistent(old(self).trace(), file));
            }
        }
        ScanStep::Need { off: eoff, len: 8 }
    }

    /// Feeds the machine the bytes of the range it asked for, exactly as
    /// they stand in the file, and takes the next step, possibly yielding
    /// a record. For any file the fed reads are consistent with, a final
    /// `Done` or `Fail` step certifies that the records yielded are
    /// exactly the full scan of that file (up to its first defect, on a
    /// malformed image).
    pub fn feed(&mut self, data: &[u8]) -> (r: (Option<(Vec<u8>, Vec<u8>)>, ScanStep))
        requires
            old(self).inv(),
            old(self).in_progress(),
            data@.len() == old(self).wanted().1,
        ensures
            PosScan::step_post(*old(self), *final(self), data@, r.0, r.1),
    {
        match self.phase {
            ScanPhase::Finished => {
                proof {
                    assert(false);
                }
                (None, ScanStep::Fail(CdbError::FormatError))
            },
            ScanPhase::WantBucket => (None, self.scan_bucket(data)),
            ScanPhase::WantEntry => (None, self.scan_entry(data)),
            ScanPhase::WantRecHdr { .. } => (None, self.scan_rec_hdr(data)),
            ScanPhase::WantRecBody { .. } => self.scan_rec_body(data),
        }
    }

    /// Decodes the bucket descriptor and walks on from its first slot.
    fn scan_bucket(&mut self, data: &[u8]) -> (r: ScanStep)
        requires
            old(self).inv(),
            old(self).phase is WantBucket,
            data@.len() == old(self).wanted().1,
        ensures
            PosScan::step_post(*old(self), *final(self), data@, None, r),
    {
        let ghost entry = (self.wanted().0, self.wanted().1, data@);
        let ghost old_trace = self.trace@;
        proof {
            self.trace@ = self.trace@.push(entry);
        }
        let ptr = read_u32_le(data, 0);
        let count = read_u32_le(data, 4);
        self.ptr = ptr;
        self.count = count;
        self.slot = 0;
        self.phase = ScanPhase::WantEntry;
        proof {
            assert forall|file: Seq<u8>|
                (file.len() == self.file_len && #[trigger] reads_consistent(
                    self.trace@,
                    file,
                )) implies {
                &&& self.ptr == bucket_ptr(file, self.bucket as int)
                &&& self.count == bucket_count(file, self.bucket as int)
                &&& scan_from(file, 0, 0) == self.emitted@ + scan_from(
                    file,
                    self.bucket as int,
                    0,
                )
                &&& scan_ok_from(file, 0, 0) == scan_ok_from(file, self.bucket as int, 0)
            } by {
                lemma_consistent_unpush(old_trace, entry, file);
                assert(old(self).state_ok(file));
                assert(bucket_ptr(file, self.bucket as int) == ptr);
                assert(bucket_count(file, self.bucket as int) == count);
            }
        }
        self.next_position()
    }

    /// Decodes an index entry: an empty slot is skipped, a live one has
    /// its record header read next.
    fn scan_entry(&mut self, data: &[u8]) -> (r: ScanStep)
        requires
            old(self).inv(),
            old(self).phase is WantEntry,
            data@.len() == old(self).wanted().1,
        ensures
            PosScan::step_post(*old(self), *final(self), data@, None, r),
    {
        let ghost entry = (self.wanted().0, self.wanted().1, data@);
        let ghost old_trace = self.trace@;
        proof {
            self.trace@ = self.trace@.push(entry);
        }
        let dp = read_u32_le(data, 4);
        if dp == 0 {
            let ghost old_slot = self.slot as int;
            self.slot = self.slot + 1;
            proof {
                assert forall|file: Seq<u8>|
                    (file.len() == self.file_len && #[trigger] reads_consistent(
                        self.trace@,
                        file,
                    )) implies {
                    &&& self.ptr == bucket_ptr(file, self.bucket as int)
                    &&& self.count == bucket_count(file, self.bucket as int)
                    &&& scan_from(file, 0, 0) == self.emitted@ + scan_from(
                        file,
                        self.bucket as int,
                        self.slot as int,
                    )
                    &&& scan_ok_from(file, 0, 0) == scan_ok_from(
                        file,
                        self.bucket as int,
                        self.slot as int,
                    )
                } by {
                    lemma_consistent_unpush(old_trace, entry, file);
                    assert(old(self).state_ok(file));
                    assert(u32_le_at(file, entry.0 + 4) == dp);
                    assert(scan_from(file, self.bucket as int, old_slot) == scan_from(
                        file,
                        self.bucket as int,
                        old_slot + 1,
                    ));
                }
            }
            return self.next_position();
        }
        let dp64 = dp as u64;
        if dp64 > self.file_len - 8 {
            self.phase = ScanPhase::Finished;
            proof {
                assert forall|file: Seq<u8>|
                    (file.len() == self.file_len && #[trigger] reads_consistent(
                        self.trace@,
                        file,
                    )) implies self.emitted@ == scan_from(file, 0, 0) && !scan_ok_from(
                    file,
                    0,
                    0,
                ) by {
                    lemma_consistent_unpush(old_trace, entry, file);
                    assert(old(self).state_ok(file));
                    assert(u32_le_at(file, entry.0 + 4) == dp);
                    assert(!rec_in_bounds(file, dp as int));
                    assert(scan_from(file, self.bucket as int, self.slot as int) =~= Seq::<
                        (Seq<u8>, Seq<u8>),
                    >::empty());
                    assert(self.emitted@ + Seq::<(Seq<u8>, Seq<u8>)>::empty() =~= self.emitted@);
                }
            }
            return ScanStep::Fail(CdbError::FormatError);
        }
        self.phase = ScanPhase::WantRecHdr { dp };
        proof {
            assert forall|file: Seq<u8>|
                (file.len() == self.file_len && #[trigger] reads_consistent(
                    self.trace@,
                    file,
                )) implies self.state_ok(file) by {
                lemma_consistent_unpush(old_trace, entry, file);
                assert(old(self).state_ok(file));
                assert(u32_le_at(file, entry.0 + 4) == dp);
            }
        }
        ScanStep::Need { off: dp64, len: 8 }
    }

    /// Decodes the record's length header and asks for its key and value
    /// bytes, or fails when the record crosses end-of-file.
    fn scan_rec_hdr(&mut self, data: &[u8]) -> (r: ScanStep)
        requires
            old(self).inv(),
            old(self).phase is WantRecHdr,
            data@.len() == old(self).wanted().1,
        ensures
            PosScan::step_post(*old(self), *final(self), data@, None, r),
    {
        let ghost entry = (self.wanted().0, self.wanted().1, data@);
        let ghost old_trace = self.trace@;
        proof {
            self.trace@ = self.trace@.push(entry);
        }
        let dp = match self.phase {
            ScanPhase::WantRecHdr { dp } => dp,
            _ => {
                proof {
                    assert(false);
                }
                0
            },
        };
        let klen = read_u32_le(data, 0);
        let vlen = read_u32_le(data, 4);
        let dp64 = dp as u64;
        if (klen as u64) + (vlen as u64) > self.file_len - 8 - dp64 {
            self.phase = ScanPhase::Finished;
            proof {
                assert forall|file: Seq<u8>|
                    (file.len() == self.file_len && #[trigger] reads_consistent(
                        self.trace@,
                        file,
                    )) implies self.emitted@ == scan_from(file, 0, 0) && !scan_ok_from(
                    file,
                    0,
                    0,
                ) by {
                    lemma_consistent_unpush(old_trace, entry, file);
                    assert(old(self).state_ok(file));
                    assert(u32_le_at(file, dp as int) == klen);
                    assert(u32_le_at(file, dp as int + 4) == vlen);
                    assert(!rec_in_bounds(file, dp as int));
                    assert(scan_from(file, self.bucket as int, self.slot as int) =~= Seq::<
                        (Seq<u8>, Seq<u8>),
                    >::empty());
                    assert(self.emitted@ + Seq::<(Seq<u8>, Seq<u8>)>::empty() =~= self.emitted@);
                }
            }
            return ScanStep::Fail(CdbError::FormatError);
        }
        self.phase = ScanPhase::WantRecBody { dp, klen, vlen };
        proof {
            assert forall|file: Seq<u8>|
                (file.len() == self.file_len && #[trigger] reads_consistent(
                    self.trace@,
                    file,
                )) implies self.state_ok(file) by {
                lemma_consistent_unpush(old_trace, entry, file);
                assert(old(self).state_ok(file));
                assert(u32_le_at(file, dp as int) == klen);
                assert(u32_le_at(file, dp as int + 4) == vlen);
            }
        }
        ScanStep::Need { off: dp64 + 8, len: (klen as u64) + (vlen as u64) }
    }

    /// Splits the record's bytes into its key and value, yields the pair,
    /// and walks on from the next slot.
    fn scan_rec_body(&mut self, data: &[u8]) -> (r: (Option<(Vec<u8>, Vec<u8>)>, ScanStep))
        requires
            old(self).inv(),
            old(self).phase is WantRecBody,
            data@.len() == old(self).wanted().1,
        ensures
            PosScan::step_post(*old(self), *final(self), data@, r.0, r.1),
    {
        let ghost entry = (self.wanted().0, self.wanted().1, data@);
        let ghost old_trace = self.trace@;
        proof {
            self.trace@ = self.trace@.push(entry);
        }
        let (dp, klen, vlen) = match self.phase {
            ScanPhase::WantRecBody { dp, klen, vlen } => (dp, klen, vlen),
            _ => {
                proof {
                    assert(false);
                }
                (0, 0, 0)
            },
        };
        let klen_us = klen as usize;
        let k = slice_to_vec(slice_subrange(data, 0, klen_us));
        let v = slice_to_vec(slice_subrange(data, klen_us, data.len()));
        let ghost old_emitted = self.emitted@;
        let ghost old_slot = self.slot as int;
        proof {
            self.emitted@ = self.emitted@.push((k@, v@));
        }
        self.slot = self.slot + 1;
        self.phase = ScanPhase::WantEntry;
        proof {
            assert forall|file: Seq<u8>|
                (file.len() == self.file_len && #[trigger] reads_consistent(
                    self.trace@,
                    file,
                )) implies {
                &&& self.ptr == bucket_ptr(file, self.bucket as int)
                &&& self.count == bucket_count(file, self.bucket as int)
                &&& scan_from(file, 0, 0) == self.emitted@ + scan_from(
                    file,
                    self.bucket as int,
                    self.slot as int,
                )
                &&& scan_ok_from(file, 0, 0) == scan_ok_from(
                    file,
                    self.bucket as int,
                    self.slot as int,
                )
            } by {
                lemma_consistent_unpush(old_trace, entry, file);
                assert(old(self).state_ok(file));
                let b = self.bucket as int;
                let dpi = dp as int;
                assert(rec_in_bounds(file, dpi));
                assert(rec_key(file, dpi) =~= data@.subrange(0, klen as int));
                assert(rec_value(file, dpi) =~= data@.subrange(klen as int, data@.len() as int));
                assert(scan_from(file, b, old_slot) == seq![(rec_key(file, dpi), rec_value(
                    file,
                    dpi,
                ))] + scan_from(file, b, old_slot + 1));
                assert(self.emitted@ + scan_from(file, b, old_slot + 1) =~= old_emitted
                    + scan_from(file, b, old_slot));
            }
        }
        (Some((k, v)), self.next_position())
    }
}

} // verus!
