use bytes::Bytes;
use cdb_rs::db::{CDB, CDBHandle, ScanIter, KV};
use cdb_rs::hash::{djb_hash, CDBHash};
use cdb_rs::positional::{LookupStep, PosLookup, PosScan, ScanStep};
use cdb_rs::storage::SliceFactory;
use cdb_rs::CdbError;
use std::collections::HashSet;
use std::io::{Read, Seek, SeekFrom, Write};

fn djb(bytes: &[u8]) -> u32 {
    let mut h: u32 = 5381;
    for b in bytes {
        h = h.wrapping_shl(5).wrapping_add(h) ^ (*b as u32);
    }
    h
}

/// Builds a cdb image: records from offset 2048, then one index table per
/// non-empty bucket (twice as many slots as entries, open-addressed from
/// each entry's initial slot), and the 256 descriptors in the root table.
fn build_cdb(pairs: &[(&[u8], &[u8])]) -> Vec<u8> {
    let mut file = vec![0u8; 2048];
    let mut entries: Vec<(u32, u32)> = Vec::new();
    for (k, v) in pairs {
        let pos = file.len() as u32;
        file.extend_from_slice(&(k.len() as u32).to_le_bytes());
        file.extend_from_slice(&(v.len() as u32).to_le_bytes());
        file.extend_from_slice(k);
        file.extend_from_slice(v);
        entries.push((djb(k), pos));
    }
    for b in 0..256u32 {
        let bucket: Vec<(u32, u32)> = entries
            .iter()
            .copied()
            .filter(|(h, _)| h % 256 == b)
            .collect();
        let count = 2 * bucket.len();
        let ptr = file.len() as u32;
        if count > 0 {
            let mut slots: Vec<(u32, u32)> = vec![(0, 0); count];
            for (h, p) in bucket {
                let mut s = ((h >> 8) as usize) % count;
                while slots[s].1 != 0 {
                    s = (s + 1) % count;
                }
                slots[s] = (h, p);
            }
            for (h, p) in slots {
                file.extend_from_slice(&h.to_le_bytes());
                file.extend_from_slice(&p.to_le_bytes());
            }
        }
        let b = b as usize;
        file[8 * b..8 * b + 4].copy_from_slice(&ptr.to_le_bytes());
        file[8 * b + 4..8 * b + 8].copy_from_slice(&(count as u32).to_le_bytes());
    }
    file
}

fn db_from(pairs: &[(&[u8], &[u8])]) -> CDB {
    CDB::load(SliceFactory::load(Bytes::from(build_cdb(pairs)))).expect("image should load")
}

/// Drives a positional lookup, serving each requested range from `file`.
fn pos_get(file: &[u8], key: &[u8]) -> Result<Option<Vec<u8>>, CdbError> {
    let (mut machine, mut step) = PosLookup::new(key, file.len() as u64);
    loop {
        match step {
            LookupStep::Need { off, len } => {
                let start = off as usize;
                let end = start + len as usize;
                step = machine.feed(&file[start..end]);
            }
            LookupStep::Done(v) => return Ok(v),
            LookupStep::Fail(e) => return Err(e),
        }
    }
}

fn all_kvs(db: &CDB) -> Vec<KV> {
    db.kvs().expect("scan should succeed")
}

/// Drives a positional full scan, serving each requested range from
/// `file`, and collects the yielded records.
fn pos_scan(file: &[u8]) -> Result<Vec<(Vec<u8>, Vec<u8>)>, CdbError> {
    let (mut machine, mut step) = PosScan::new(file.len() as u64);
    let mut out = Vec::new();
    loop {
        match step {
            ScanStep::Need { off, len } => {
                let start = off as usize;
                let end = start + len as usize;
                let (yielded, next) = machine.feed(&file[start..end]);
                if let Some(kv) = yielded {
                    out.push(kv);
                }
                step = next;
            }
            ScanStep::Done => return Ok(out),
            ScanStep::Fail(e) => return Err(e),
        }
    }
}

#[test]
fn hash_stability() {
    // The "times 33 xor" recurrence: h <- ((h << 5) + h) ^ b, from 5381.
    assert_eq!(djb_hash(b""), 5381);
    assert_eq!(djb_hash(b"a"), (5381u32.wrapping_mul(33) ^ 97) as usize);
    assert_eq!(djb_hash(b"a"), 177604);
    assert_eq!(djb_hash(b"abc"), 193409669);
    assert_eq!(djb_hash(b"cat"), 193416115);
    let h = CDBHash::new(b"cat");
    assert_eq!(h.raw(), 193416115);
    assert_eq!(h.table(), (193416115usize) % 256);
    assert_eq!(h.slot(7), ((193416115usize) >> 8) % 7);
}

#[test]
fn single_record() {
    let db = db_from(&[(b"cat", b"ball")]);
    assert_eq!(db.get(b"cat").unwrap().unwrap(), Bytes::copy_from_slice(b"ball"));
    assert_eq!(db.get(b"dog").unwrap(), None);
    let kvs = all_kvs(&db);
    assert_eq!(kvs.len(), 1);
    assert_eq!(kvs[0].k, Bytes::copy_from_slice(b"cat"));
    assert_eq!(kvs[0].v, Bytes::copy_from_slice(b"ball"));
}

#[test]
fn empty_key_is_legal() {
    let db = db_from(&[(b"", b"nothing")]);
    assert_eq!(db.get(b"").unwrap().unwrap(), Bytes::copy_from_slice(b"nothing"));
}

#[test]
fn duplicate_key_returns_first_in_probe_order() {
    let db = db_from(&[(b"a", b"1"), (b"a", b"2")]);
    let got = db.get(b"a").unwrap().expect("a stored twice must be found");
    // Both records share the same hash, so the first one written occupies
    // the initial probe slot and is the one the probe order reaches first.
    assert_eq!(got, Bytes::copy_from_slice(b"1"));
    // Deterministic: repeated lookups return the same value.
    assert_eq!(db.get(b"a").unwrap().unwrap(), got);
    // The iterator still sees both records.
    assert_eq!(all_kvs(&db).len(), 2);
}

#[test]
fn dictionary_roundtrip() {
    let words: Vec<String> = (0..50_000).map(|i| format!("word{:05}", i)).collect();
    let pairs: Vec<(&[u8], &[u8])> = words
        .iter()
        .map(|w| (w.as_bytes(), w.as_bytes()))
        .collect();
    let db = db_from(&pairs);
    for w in &words {
        let got = db.get(w.as_bytes()).unwrap();
        assert_eq!(got.unwrap(), Bytes::copy_from_slice(w.as_bytes()));
    }
    let mut distinct: HashSet<Vec<u8>> = HashSet::new();
    let mut it = ScanIter::new();
    let mut n = 0usize;
    while let Some(item) = db.scan_next(&mut it) {
        let kv = item.expect("scan of a well-formed image");
        distinct.insert(kv.k.as_ref().to_vec());
        n += 1;
    }
    assert_eq!(n, 50_000);
    assert_eq!(distinct.len(), 50_000);
}

#[test]
fn closed_world_misses() {
    let words: Vec<String> = (0..1000).map(|i| format!("key{:04}", i)).collect();
    let pairs: Vec<(&[u8], &[u8])> = words
        .iter()
        .map(|w| (w.as_bytes(), w.as_bytes()))
        .collect();
    let db = db_from(&pairs);
    for i in 0..1000 {
        let absent = format!("missing{:04}", i);
        assert_eq!(db.get(absent.as_bytes()).unwrap(), None);
    }
}

#[test]
fn provider_equivalence() {
    let words: Vec<String> = (0..5000).map(|i| format!("entry{:05}", i)).collect();
    let pairs: Vec<(&[u8], &[u8])> = words
        .iter()
        .map(|w| (w.as_bytes(), w.as_bytes()))
        .collect();
    let image = build_cdb(&pairs);
    let db = CDB::load(SliceFactory::load(Bytes::from(image.clone()))).unwrap();
    for i in 0..5000usize {
        let hit = format!("entry{:05}", i);
        let mem = db.get(hit.as_bytes()).unwrap().map(|b| b.as_ref().to_vec());
        let pos = pos_get(&image, hit.as_bytes()).unwrap();
        assert_eq!(mem, pos);
        let miss = format!("absent{:05}", i);
        let mem = db.get(miss.as_bytes()).unwrap().map(|b| b.as_ref().to_vec());
        let pos = pos_get(&image, miss.as_bytes()).unwrap();
        assert_eq!(mem, None);
        assert_eq!(pos, None);
    }
}

#[test]
fn scan_equivalence_across_providers() {
    let words: Vec<String> = (0..2000).map(|i| format!("item{:04}", i)).collect();
    let pairs: Vec<(&[u8], &[u8])> = words
        .iter()
        .map(|w| (w.as_bytes(), w.as_bytes()))
        .collect();
    let image = build_cdb(&pairs);
    let db = CDB::load(SliceFactory::load(Bytes::from(image.clone()))).unwrap();
    let mem: Vec<(Vec<u8>, Vec<u8>)> = all_kvs(&db)
        .iter()
        .map(|kv| (kv.k.as_ref().to_vec(), kv.v.as_ref().to_vec()))
        .collect();
    let pos = pos_scan(&image).unwrap();
    assert_eq!(mem, pos);
    assert_eq!(pos.len(), 2000);
}

#[test]
fn positional_scan_fails_on_truncated_image() {
    let mut image = build_cdb(&[(b"cat", b"ball")]);
    image.truncate(2048 + 7);
    assert_eq!(pos_scan(&image), Err(CdbError::FormatError));
}

#[test]
fn positional_reads_from_a_real_file() {
    let image = build_cdb(&[(b"cat", b"ball"), (b"dog", b"bone")]);
    let mut f = tempfile::tempfile().expect("temp file");
    f.write_all(&image).unwrap();
    f.sync_all().unwrap();
    let file_len = f.seek(SeekFrom::End(0)).unwrap();
    for (key, want) in [(&b"cat"[..], Some(&b"ball"[..])), (b"dog", Some(b"bone")), (b"eel", None)]
    {
        let (mut machine, mut step) = PosLookup::new(key, file_len);
        let got = loop {
            match step {
                LookupStep::Need { off, len } => {
                    let mut buf = vec![0u8; len as usize];
                    f.seek(SeekFrom::Start(off)).unwrap();
                    f.read_exact(&mut buf).unwrap();
                    step = machine.feed(&buf);
                }
                LookupStep::Done(v) => break v,
                LookupStep::Fail(e) => panic!("lookup failed: {:?}", e),
            }
        };
        assert_eq!(got.as_deref(), want);
    }
}

#[test]
fn truncated_root_table_fails_to_open() {
    let mut image = build_cdb(&[(b"cat", b"ball")]);
    image.truncate(2047);
    let r = CDB::load(SliceFactory::load(Bytes::from(image)));
    assert!(matches!(r, Err(CdbError::FormatError)));
}

#[test]
fn truncated_mid_entry_errors_only_on_that_bucket() {
    let image = build_cdb(&[(b"cat", b"ball")]);
    let mut short = image.clone();
    short.truncate(2048 + 7);
    let db = CDB::load(SliceFactory::load(Bytes::from(short))).expect("root table is whole");
    // The probe for "cat" needs bytes past the truncation point.
    assert_eq!(db.get(b"cat"), Err(CdbError::FormatError));
    // A key whose bucket is empty still misses normally.
    let full = CDB::load(SliceFactory::load(Bytes::from(image))).unwrap();
    let mut other = None;
    for i in 0..1000 {
        let cand = format!("probe{:03}", i);
        if djb(cand.as_bytes()) % 256 != djb(b"cat") % 256 {
            other = Some(cand);
            break;
        }
    }
    let other = other.unwrap();
    assert_eq!(full.get(other.as_bytes()).unwrap(), None);
    let db2 = {
        let mut short = build_cdb(&[(b"cat", b"ball")]);
        short.truncate(2048 + 7);
        CDB::load(SliceFactory::load(Bytes::from(short))).unwrap()
    };
    assert_eq!(db2.get(other.as_bytes()).unwrap(), None);
}

#[test]
fn bounded_reads_on_well_formed_image() {
    let words: Vec<String> = (0..500).map(|i| format!("w{:03}", i)).collect();
    let pairs: Vec<(&[u8], &[u8])> = words
        .iter()
        .map(|w| (w.as_bytes(), w.as_bytes()))
        .collect();
    let db = db_from(&pairs);
    for i in 0..2000 {
        let probe = format!("anything{:04}", i);
        // On a well-formed image no lookup reports an error.
        assert!(db.get(probe.as_bytes()).is_ok());
    }
}

#[test]
fn keys_lists_every_key() {
    let db = db_from(&[(b"cat", b"ball"), (b"dog", b"bone")]);
    let ks = db.keys().unwrap();
    let set: HashSet<Vec<u8>> = ks.iter().map(|k| k.as_ref().to_vec()).collect();
    assert_eq!(set.len(), 2);
    assert!(set.contains(&b"cat".to_vec()));
    assert!(set.contains(&b"dog".to_vec()));
}

#[test]
fn handle_wraps_a_database() {
    let handle = CDBHandle::new(db_from(&[(b"cat", b"ball")]));
    assert_eq!(
        handle.db.get(b"cat").unwrap().unwrap(),
        Bytes::copy_from_slice(b"ball")
    );
}

#[test]
fn read_small_list() {
    let strings = vec![
        "shngcmfkqjtvhnbgfcvbm",
        "qjflpsvacyhsgxykbvarbvmxapufmdt",
        "a",
        "a",
        "a",
        "a",
        "a",
        "a",
        "xfjhaqjkcjiepmcbhopgpxwwth",
        "a",
        "a",
    ];
    let arg: Vec<String> = strings.iter().map(|s| (*s).to_owned()).collect();
    let pairs: Vec<(&[u8], &[u8])> = arg.iter().map(|k| (k.as_bytes(), k.as_bytes())).collect();
    let cdb = db_from(&pairs);
    for q in &arg {
        let r = cdb
            .get(q.as_bytes())
            .unwrap()
            .map(|v| String::from_utf8(v.as_ref().to_vec()).unwrap());
        assert_eq!(Some(q.clone()), r);
    }
}
