//! The loaded database: the materialized root table over a byte provider,
//! the lookup engine, the record accessor, and the full-scan cursor.

use vstd::prelude::*;

verus! {

use crate::CdbError;
use crate::hash::{CDBHash, djb, table_of, slot_of};
use crate::layout::{
    u32_le_at, read_u32_le, bucket_ptr, bucket_count, rec_in_bounds, rec_key,
    rec_value, GetOutcome, spec_get, spec_probe, scan_from, scan_ok_from, bytes_eq,
};
use crate::bytebuf::{bytes_contents, bytes_as_slice, bytes_clone};
use crate::storage::SliceFactory;

/// One root-table descriptor: where a bucket's index table starts and how
/// many entries it holds.
#[derive(Copy, Clone, Debug)]
pub struct Bucket {
    pub ptr: u32,
    pub num_ents: u32,
}

impl Bucket {
    /// The file offset of entry `n` of this bucket.
    pub fn entry_n_pos(&self, n: u32) -> (r: u64)
        requires
            n < self.num_ents,
        ensures
            r == self.ptr + 8 * n,
    {
        (self.ptr as u64) + 8u64 * (n as u64)
    }
}

/// One index entry as stored in a bucket: the hash of the record's key and
/// the absolute position of the record (zero for an empty slot).
#[derive(Copy, Clone, Debug)]
pub struct IndexEntry {
    pub hash: u32,
    pub ptr: u32,
}

/// A key/value pair read from the database.
#[derive(Debug)]
pub struct KV {
    pub k: bytes::Bytes,
    pub v: bytes::Bytes,
}

impl KV {
    /// Appends this pair's text line, `+K,V:key->value\n`, to `out`.
    pub fn dump(&self, out: &mut Vec<u8>)
        ensures
            final(out)@ == old(out)@ + crate::input::record_line(
                bytes_contents(self.k),
                bytes_contents(self.v),
            ),
    {
        let ks = bytes_as_slice(&self.k);
        let vs = bytes_as_slice(&self.v);
        out.push(43);
        let klen = crate::input::usize_to_dec(ks.len());
        crate::input::push_bytes(out, klen.as_slice());
        out.push(44);
        let vlen = crate::input::usize_to_dec(vs.len());
        crate::input::push_bytes(out, vlen.as_slice());
        out.push(58);
        crate::input::push_bytes(out, ks);
        out.push(45);
        out.push(62);
        crate::input::push_bytes(out, vs);
        out.push(10);
        assert(out@ =~= old(out)@ + crate::input::record_line(
            bytes_contents(self.k),
            bytes_contents(self.v),
        ));
    }
}

/// A loaded database: the root table, materialized at open, over the byte
/// provider that serves the rest of the file.
pub struct CDB {
    main_table: Vec<Bucket>,
    data: SliceFactory,
}

/// An opaque handle around a loaded database, for embedders that hold the
/// database behind a single pointer-sized owner.
pub struct CDBHandle {
    pub db: CDB,
}

impl CDBHandle {
    /// Wraps a loaded database.
    pub fn new(db: CDB) -> (r: CDBHandle)
        ensures
            r.db == db,
    {
        CDBHandle { db }
    }
}

impl View for CDB {
    type V = Seq<u8>;

    /// The full byte string of the underlying file image.
    closed spec fn view(&self) -> Seq<u8> {
        self.data@
    }
}

impl CDB {
    /// A loaded database is well formed: the image is at least as large as
    /// the root table, no larger than the format can address, and the
    /// materialized root table agrees with the image.
    pub closed spec fn wf(&self) -> bool {
        &&& 2048 <= self.data@.len() <= 0xFFFF_FFFF
        &&& self.main_table@.len() == 256
        &&& forall|b: int|
            0 <= b < 256 ==> {
                &&& (#[trigger] self.main_table@[b]).ptr == bucket_ptr(self.data@, b)
                &&& self.main_table@[b].num_ents == bucket_count(self.data@, b)
            }
    }

    /// Opens a database over a byte provider: reads the 2048-byte root
    /// table and decodes its 256 `(ptr, count)` descriptors. Fails with
    /// `FormatError` exactly when fewer than 2048 bytes are available or
    /// the image is larger than the 32-bit pointers of the format can
    /// address.
    pub fn load(data: SliceFactory) -> (r: Result<CDB, CdbError>)
        ensures
            match r {
                Ok(db) => {
                    &&& 2048 <= data@.len() <= 0xFFFF_FFFF
                    &&& db.wf()
                    &&& db@ == data@
                },
                Err(e) => {
                    &&& e == CdbError::FormatError
                    &&& (data@.len() < 2048 || data@.len() > 0xFFFF_FFFF)
                },
            },
    {
        let len = data.len();
        if len < 2048 {
            return Err(CdbError::FormatError);
        }
        if (len as u64) > 0xFFFF_FFFFu64 {
            return Err(CdbError::FormatError);
        }
        let header = match data.slice(0, 2048) {
            Ok(b) => b,
            Err(_) => {
                return Err(CdbError::FormatError);
            },
        };
        let hs = bytes_as_slice(&header);
        let mut main_table: Vec<Bucket> = Vec::new();
        let mut i: usize = 0;
        while i < 256
            invariant
                i <= 256,
                main_table@.len() == i,
                hs@ == data@.subrange(0, 2048),
                data@.len() >= 2048,
                forall|b: int|
                    0 <= b < i ==> {
                        &&& (#[trigger] main_table@[b]).ptr == bucket_ptr(data@, b)
                        &&& main_table@[b].num_ents == bucket_count(data@, b)
                    },
            decreases 256 - i,
        {
            let ptr = read_u32_le(hs, 8 * i);
            let num_ents = read_u32_le(hs, 8 * i + 4);
            main_table.push(Bucket { ptr, num_ents });
            i = i + 1;
        }
        Ok(CDB { main_table, data })
    }

    /// Reads the index entry stored at absolute position `pos`, or
    /// `FormatError` exactly when its eight bytes cross end-of-file.
    fn index_entry_at(&self, pos: u64) -> (r: Result<IndexEntry, CdbError>)
        requires
            self.wf(),
        ensures
            match r {
                Ok(e) => {
                    &&& pos + 8 <= self@.len()
                    &&& e.hash == u32_le_at(self@, pos as int)
                    &&& e.ptr == u32_le_at(self@, pos as int + 4)
                },
                Err(e) => e == CdbError::FormatError && pos + 8 > self@.len(),
            },
    {
        let len64 = self.data.len() as u64;
        if pos > len64 - 8 {
            return Err(CdbError::FormatError);
        }
        let eb = match self.data.slice(pos as usize, (pos + 8) as usize) {
            Ok(b) => b,
            Err(_) => {
                return Err(CdbError::FormatError);
            },
        };
        let es = bytes_as_slice(&eb);
        let hash = read_u32_le(es, 0);
        let ptr = read_u32_le(es, 4);
        Ok(IndexEntry { hash, ptr })
    }

    /// Reads the `(klen, vlen)` record header at `posn`, or `FormatError`
    /// exactly when it crosses end-of-file.
    fn get_kv_len(&self, posn: u64) -> (r: Result<(u32, u32), CdbError>)
        requires
            self.wf(),
        ensures
            match r {
                Ok((k, v)) => {
                    &&& posn + 8 <= self@.len()
                    &&& k == u32_le_at(self@, posn as int)
                    &&& v == u32_le_at(self@, posn as int + 4)
                },
                Err(e) => e == CdbError::FormatError && posn + 8 > self@.len(),
            },
    {
        let len64 = self.data.len() as u64;
        if posn > len64 - 8 {
            return Err(CdbError::FormatError);
        }
        let hb = match self.data.slice(posn as usize, (posn + 8) as usize) {
            Ok(b) => b,
            Err(_) => {
                return Err(CdbError::FormatError);
            },
        };
        let hsl = bytes_as_slice(&hb);
        let k = read_u32_le(hsl, 0);
        let v = read_u32_le(hsl, 4);
        Ok((k, v))
    }

    /// Dereferences the record at `dp`: reads its length header and
    /// returns views of its key and value bytes. Fails with `FormatError`
    /// exactly when the record crosses end-of-file.
    fn get_kv(&self, dp: u32) -> (r: Result<KV, CdbError>)
        requires
            self.wf(),
        ensures
            match r {
                Ok(kv) => {
                    &&& rec_in_bounds(self@, dp as int)
                    &&& bytes_contents(kv.k) == rec_key(self@, dp as int)
                    &&& bytes_contents(kv.v) == rec_value(self@, dp as int)
                },
                Err(e) => e == CdbError::FormatError && !rec_in_bounds(self@, dp as int),
            },
    {
        let len64 = self.data.len() as u64;
        let dp64 = dp as u64;
        let (klen32, vlen32) = match self.get_kv_len(dp64) {
            Ok(p) => p,
            Err(e) => {
                return Err(e);
            },
        };
        let klen = klen32 as u64;
        let vlen = vlen32 as u64;
        if dp64 + 8 + klen + vlen > len64 {
            return Err(CdbError::FormatError);
        }
        let kstart = dp64 + 8;
        let vstart = kstart + klen;
        let k = match self.data.slice(kstart as usize, vstart as usize) {
            Ok(b) => b,
            Err(_) => {
                return Err(CdbError::FormatError);
            },
        };
        let v = match self.data.slice(vstart as usize, (vstart + vlen) as usize) {
            Ok(b) => b,
            Err(_) => {
                return Err(CdbError::FormatError);
            },
        };
        Ok(KV { k, v })
    }

    /// Looks `key` up: selects the bucket from the hash, walks the bucket
    /// in open-addressed probe order from the hash's initial slot, and
    /// returns the value of the first entry whose stored hash and stored
    /// key both match. Returns `None` on an empty slot or an exhausted
    /// bucket, and `FormatError` exactly when the walk would read past
    /// end-of-file.
    pub fn get(&self, key: &[u8]) -> (r: Result<Option<bytes::Bytes>, CdbError>)
        requires
            self.wf(),
        ensures
            match spec_get(self@, key@) {
                GetOutcome::Found(val) => r matches Ok(Some(b)) && bytes_contents(b) == val,
                GetOutcome::Miss => r matches Ok(o) && o is None,
                GetOutcome::BadFormat => r matches Err(e) && e == CdbError::FormatError,
            },
    {
        let hash = CDBHash::new(key);
        let hv = hash.raw();
        let b = hash.table();
        assert(0 <= table_of(hash.value()) < 256) by {
            vstd::arithmetic::div_mod::lemma_mod_bound(hash.value() as int, 256);
        }
        let bucket = self.main_table[b];
        if bucket.num_ents == 0 {
            return Ok(None);
        }
        let count = bucket.num_ents as u64;
        let s0 = hash.slot(bucket.num_ents as usize) as u64;
        assert(0 <= slot_of(hash.value(), count as int) < count as int) by {
            vstd::arithmetic::div_mod::lemma_mod_bound((hash.value() as int) / 256, count as int);
        }
        let ptr = bucket.ptr as u64;
        let len64 = self.data.len() as u64;
        let ghost f = self@;
        let ghost k = key@;
        let mut i: u64 = 0;
        while i < count
            invariant
                self.wf(),
                hv == djb(k),
                k == key@,
                f == self@,
                len64 == f.len(),
                0 < count <= 0xFFFF_FFFF,
                s0 < count,
                count == bucket_count(f, table_of(hv)),
                ptr == bucket_ptr(f, table_of(hv)),
                s0 == slot_of(hv, count as int),
                i <= count,
                spec_get(f, k) == spec_probe(
                    f,
                    k,
                    hv,
                    ptr as int,
                    count as int,
                    s0 as int,
                    i as int,
                ),
            decreases count - i,
        {
            let s = (s0 + i) % count;
            assert(s < count) by {
                vstd::arithmetic::div_mod::lemma_mod_bound((s0 + i) as int, count as int);
            }
            let eoff = ptr + 8 * s;
            let entry = match self.index_entry_at(eoff) {
                Ok(e) => e,
                Err(e) => {
                    return Err(e);
                },
            };
            if entry.ptr == 0 {
                return Ok(None);
            }
            if entry.hash == hv {
                let kv = match self.get_kv(entry.ptr) {
                    Ok(kv) => kv,
                    Err(e) => {
                        return Err(e);
                    },
                };
                let stored_key = bytes_as_slice(&kv.k);
                if bytes_eq(stored_key, key) {
                    return Ok(Some(kv.v));
                }
            }
            i = i + 1;
        }
        Ok(None)
    }
}

/// A cursor over the full scan: the next bucket and slot to inspect.
/// `bucket == 256` means the scan is finished.
pub struct ScanIter {
    pub bucket: usize,
    pub slot: u32,
}

impl ScanIter {
    /// A cursor positioned at the first bucket's first slot.
    pub fn new() -> (r: ScanIter)
        ensures
            r.bucket == 0 && r.slot == 0,
    {
        ScanIter { bucket: 0, slot: 0 }
    }
}

/// The key and value byte strings of a sequence of read records.
pub open spec fn kv_views(s: Seq<KV>) -> Seq<(Seq<u8>, Seq<u8>)> {
    s.map_values(|kv: KV| (bytes_contents(kv.k), bytes_contents(kv.v)))
}

/// Appending a record appends its views.
pub proof fn lemma_kv_views_push(s: Seq<KV>, kv: KV)
    ensures
        kv_views(s.push(kv)) == kv_views(s).push((bytes_contents(kv.k), bytes_contents(kv.v))),
{
    assert(kv_views(s.push(kv)) =~= kv_views(s).push((bytes_contents(kv.k), bytes_contents(kv.v))));
}

impl CDB {
    /// Advances the cursor to the next live record and returns it.
    /// Returns `None` once every bucket has been walked, and `FormatError`
    /// exactly when the next entry or record crosses end-of-file; after an
    /// error the cursor is exhausted.
    pub fn scan_next(&self, it: &mut ScanIter) -> (r: Option<Result<KV, CdbError>>)
        requires
            self.wf(),
        ensures
            ({
                let pre = scan_from(self@, old(it).bucket as int, old(it).slot as int);
                let preok = scan_ok_from(self@, old(it).bucket as int, old(it).slot as int);
                let post = scan_from(self@, final(it).bucket as int, final(it).slot as int);
                let postok = scan_ok_from(self@, final(it).bucket as int, final(it).slot as int);
                match r {
                    Some(Ok(kv)) => {
                        &&& pre.len() > 0
                        &&& pre[0] == (bytes_contents(kv.k), bytes_contents(kv.v))
                        &&& post == pre.drop_first()
                        &&& postok == preok
                    },
                    Some(Err(e)) => {
                        &&& e == CdbError::FormatError
                        &&& pre.len() == 0
                        &&& !preok
                        &&& post.len() == 0
                        &&& postok
                    },
                    None => {
                        &&& pre.len() == 0
                        &&& preok
                        &&& post.len() == 0
                        &&& postok
                    },
                }
            }),
    {
        let ghost pre = scan_from(self@, it.bucket as int, it.slot as int);
        let ghost preok = scan_ok_from(self@, it.bucket as int, it.slot as int);
        if it.bucket < 256 {
            let c = self.main_table[it.bucket].num_ents;
            if it.slot > c {
                it.slot = c;
            }
        }
        loop
            invariant
                self.wf(),
                pre == scan_from(self@, old(it).bucket as int, old(it).slot as int),
                preok == scan_ok_from(self@, old(it).bucket as int, old(it).slot as int),
                scan_from(self@, it.bucket as int, it.slot as int) == pre,
                scan_ok_from(self@, it.bucket as int, it.slot as int) == preok,
                it.bucket < 256 ==> it.slot <= bucket_count(self@, it.bucket as int),
            decreases 256 - it.bucket, bucket_count(self@, it.bucket as int) - it.slot,
        {
            if it.bucket >= 256 {
                return None;
            }
            let bucket = self.main_table[it.bucket];
            if it.slot >= bucket.num_ents {
                it.bucket = it.bucket + 1;
                it.slot = 0;
                continue ;
            }
            let eoff = bucket.entry_n_pos(it.slot);
            let entry = match self.index_entry_at(eoff) {
                Ok(e) => e,
                Err(_) => {
                    it.bucket = 256;
                    it.slot = 0;
                    return Some(Err(CdbError::FormatError));
                },
            };
            if entry.ptr == 0 {
                it.slot = it.slot + 1;
                continue ;
            }
            match self.get_kv(entry.ptr) {
                Ok(kv) => {
                    let ghost b0 = it.bucket as int;
                    let ghost s0 = it.slot as int;
                    it.slot = it.slot + 1;
                    proof {
                        let v0 = (bytes_contents(kv.k), bytes_contents(kv.v));
                        assert(scan_from(self@, b0, s0) == seq![v0] + scan_from(self@, b0, s0 + 1));
                        assert(pre[0] == v0);
                        assert(pre.drop_first() =~= scan_from(self@, b0, s0 + 1));
                    }
                    return Some(Ok(kv));
                },
                Err(_) => {
                    it.bucket = 256;
                    it.slot = 0;
                    return Some(Err(CdbError::FormatError));
                },
            }
        }
    }

    /// Reads every live record of the database, in scan order. Fails with
    /// `FormatError` exactly when some entry or record crosses
    /// end-of-file.
    pub fn kvs(&self) -> (r: Result<Vec<KV>, CdbError>)
        requires
            self.wf(),
        ensures
            match r {
                Ok(v) => scan_ok_from(self@, 0, 0) && kv_views(v@) == scan_from(self@, 0, 0),
                Err(e) => e == CdbError::FormatError && !scan_ok_from(self@, 0, 0),
            },
    {
        let mut it = ScanIter::new();
        let mut acc: Vec<KV> = Vec::new();
        loop
            invariant
                self.wf(),
                kv_views(acc@) + scan_from(self@, it.bucket as int, it.slot as int) =~= scan_from(
                    self@,
                    0,
                    0,
                ),
                scan_ok_from(self@, it.bucket as int, it.slot as int) == scan_ok_from(self@, 0, 0),
            decreases scan_from(self@, it.bucket as int, it.slot as int).len(),
        {
            let ghost pre = scan_from(self@, it.bucket as int, it.slot as int);
            match self.scan_next(&mut it) {
                None => {
                    assert(kv_views(acc@) =~= scan_from(self@, 0, 0));
                    return Ok(acc);
                },
                Some(Err(e)) => {
                    return Err(e);
                },
                Some(Ok(kv)) => {
                    let ghost v0 = (bytes_contents(kv.k), bytes_contents(kv.v));
                    let ghost accv = acc@;
                    let ghost kvg = kv;
                    acc.push(kv);
                    proof {
                        lemma_kv_views_push(accv, kvg);
                        assert(pre =~= seq![v0] + scan_from(
                            self@,
                            it.bucket as int,
                            it.slot as int,
                        ));
                        assert(kv_views(acc@) + scan_from(self@, it.bucket as int, it.slot as int)
                            =~= kv_views(accv) + pre);
                    }
                },
            }
        }
    }

    /// Reads the key of every live record, in scan order. Fails with
    /// `FormatError` exactly when some entry or record crosses
    /// end-of-file.
    pub fn keys(&self) -> (r: Result<Vec<bytes::Bytes>, CdbError>)
        requires
            self.wf(),
        ensures
            match r {
                Ok(ks) => {
                    &&& scan_ok_from(self@, 0, 0)
                    &&& ks@.len() == scan_from(self@, 0, 0).len()
                    &&& forall|i: int|
                        0 <= i < ks@.len() ==> bytes_contents(#[trigger] ks@[i]) == scan_from(
                            self@,
                            0,
                            0,
                        )[i].0
                },
                Err(e) => e == CdbError::FormatError && !scan_ok_from(self@, 0, 0),
            },
    {
        let kvs = match self.kvs() {
            Ok(v) => v,
            Err(e) => {
                return Err(e);
            },
        };
        let mut ks: Vec<bytes::Bytes> = Vec::new();
        let mut i: usize = 0;
        while i < kvs.len()
            invariant
                ks@.len() == i <= kvs@.len(),
                kv_views(kvs@) == scan_from(self@, 0, 0),
                forall|j: int|
                    0 <= j < i ==> bytes_contents(#[trigger] ks@[j]) == scan_from(self@, 0, 0)[j].0,
            decreases kvs@.len() - i,
        {
            ks.push(bytes_clone(&kvs[i].k));
            i = i + 1;
        }
        Ok(ks)
    }

    /// Writes the whole database in the text exchange format: one
    /// `+K,V:key->value\n` line per live record in scan order, then the
    /// blank line that marks end of stream. Fails with `FormatError`
    /// exactly when some entry or record crosses end-of-file.
    pub fn dump(&self) -> (r: Result<Vec<u8>, CdbError>)
        requires
            self.wf(),
        ensures
            match r {
                Ok(out) => scan_ok_from(self@, 0, 0) && out@ == crate::input::spec_dump(
                    scan_from(self@, 0, 0),
                ),
                Err(e) => e == CdbError::FormatError && !scan_ok_from(self@, 0, 0),
            },
    {
        let kvs = match self.kvs() {
            Ok(v) => v,
            Err(e) => {
                return Err(e);
            },
        };
        let mut out: Vec<u8> = Vec::new();
        let mut i: usize = 0;
        assert(kv_views(kvs@).subrange(0, 0) =~= Seq::empty());
        while i < kvs.len()
            invariant
                i <= kvs@.len(),
                kv_views(kvs@) == scan_from(self@, 0, 0),
                out@ == crate::input::dump_records(kv_views(kvs@).subrange(0, i as int)),
            decreases kvs@.len() - i,
        {
            let ghost views = kv_views(kvs@);
            let ghost done = views.subrange(0, i as int);
            kvs[i].dump(&mut out);
            proof {
                crate::input::lemma_dump_records_push(done, views[i as int].0, views[i as int].1);
                assert(done.push(views[i as int]) =~= views.subrange(0, i + 1));
            }
            i = i + 1;
        }
        out.push(10);
        proof {
            assert(kv_views(kvs@).subrange(0, kvs@.len() as int) =~= kv_views(kvs@));
            assert(out@ =~= crate::input::spec_dump(scan_from(self@, 0, 0)));
        }
        Ok(out)
    }
}

} // verus!
