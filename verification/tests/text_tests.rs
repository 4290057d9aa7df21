use bytes::Bytes;
use cdb_rs::db::{CDB, KV};
use cdb_rs::input::{parse, ParseErrorKind, Parser};
use cdb_rs::storage::SliceFactory;

fn djb(bytes: &[u8]) -> u32 {
    let mut h: u32 = 5381;
    for b in bytes {
        h = h.wrapping_shl(5).wrapping_add(h) ^ (*b as u32);
    }
    h
}

fn build_cdb(pairs: &[(&[u8], &[u8])]) -> Vec<u8> {
    let mut file = vec![0u8; 2048];
    let mut entries: Vec<(u32, u32)> = Vec::new();
    for (k, v) in pairs {
        let pos = file.len() as u32;
        file.extend_from_slice(&(k.len() as u32).to_le_bytes());
        file.extend_from_slice(&(v.len() as u32).to_le_bytes());
        file.extend_from_slice(k);
        file.extend_from_slice(v);
        entries.push((djb(k), pos));
    }
    for b in 0..256u32 {
        let bucket: Vec<(u32, u32)> = entries
            .iter()
            .copied()
            .filter(|(h, _)| h % 256 == b)
            .collect();
        let count = 2 * bucket.len();
        let ptr = file.len() as u32;
        if count > 0 {
            let mut slots: Vec<(u32, u32)> = vec![(0, 0); count];
            for (h, p) in bucket {
                let mut s = ((h >> 8) as usize) % count;
                while slots[s].1 != 0 {
                    s = (s + 1) % count;
                }
                slots[s] = (h, p);
            }
            for (h, p) in slots {
                file.extend_from_slice(&h.to_le_bytes());
                file.extend_from_slice(&p.to_le_bytes());
            }
        }
        let b = b as usize;
        file[8 * b..8 * b + 4].copy_from_slice(&ptr.to_le_bytes());
        file[8 * b + 4..8 * b + 8].copy_from_slice(&(count as u32).to_le_bytes());
    }
    file
}

#[test]
fn parser_read_sizes() {
    let input = b"+3,4:cat->ball\n\n";
    let mut parser = Parser::new();
    let _ = parser.read_one_record(input);
}

#[test]
fn input_parser_read_one_record() {
    let input = b"+3,4:cat->ball\n\n";
    let recs: Vec<KV> = match parse(input) {
        Ok(recs) => recs,
        Err(_) => panic!("should not have errored"),
    };
    assert_eq!(recs.len(), 1);
    assert_eq!(recs[0].k, Bytes::copy_from_slice(b"cat"));
    assert_eq!(recs[0].v, Bytes::copy_from_slice(b"ball"));
}

#[test]
fn writer_parser_read_one_record() {
    let input = b"+3,4:cat->ball\n\n";
    let mut parser = Parser::new();
    let mut recs: Vec<KV> = Vec::new();
    loop {
        match parser.read_one_record(input) {
            Ok(Some(kv)) => recs.push(kv),
            Ok(None) => break,
            Err(_) => panic!("should not have errored"),
        }
    }
    assert_eq!(recs.len(), 1);
    assert_eq!(recs[0].k, Bytes::copy_from_slice(b"cat"));
    assert_eq!(recs[0].v, Bytes::copy_from_slice(b"ball"));
}

#[test]
fn parses_several_records() {
    let input = b"+3,4:cat->ball\n+3,4:dog->bone\n+0,0:->\n\n";
    let recs = parse(input).unwrap();
    assert_eq!(recs.len(), 3);
    assert_eq!(recs[1].k, Bytes::copy_from_slice(b"dog"));
    assert_eq!(recs[2].k, Bytes::copy_from_slice(b""));
    assert_eq!(recs[2].v, Bytes::copy_from_slice(b""));
}

#[test]
fn blank_line_alone_is_an_empty_stream() {
    let recs = parse(b"\n").unwrap();
    assert_eq!(recs.len(), 0);
}

#[test]
fn empty_input_is_unexpected_eof() {
    let err = parse(b"").unwrap_err();
    assert_eq!(err.kind, ParseErrorKind::UnexpectedEof);
    assert_eq!(err.offset, 0);
}

#[test]
fn missing_plus_is_malformed_header() {
    let err = parse(b"x3,4:cat->ball\n\n").unwrap_err();
    assert_eq!(err.kind, ParseErrorKind::MalformedHeader);
    assert_eq!(err.offset, 0);
}

#[test]
fn non_decimal_length_is_bad_length() {
    let err = parse(b"+a,4:cat->ball\n\n").unwrap_err();
    assert_eq!(err.kind, ParseErrorKind::BadLength);
    assert_eq!(err.offset, 1);
}

#[test]
fn oversized_length_is_bad_length() {
    let err = parse(b"+99999999999,4:cat->ball\n\n").unwrap_err();
    assert_eq!(err.kind, ParseErrorKind::BadLength);
    assert_eq!(err.offset, 1);
}

#[test]
fn missing_arrow_is_reported() {
    let err = parse(b"+3,4:catXXball\n\n").unwrap_err();
    assert_eq!(err.kind, ParseErrorKind::MissingArrow);
    assert_eq!(err.offset, 8);
}

#[test]
fn truncated_record_is_unexpected_eof() {
    let err = parse(b"+3,4:ca").unwrap_err();
    assert_eq!(err.kind, ParseErrorKind::UnexpectedEof);
}

#[test]
fn wrong_length_is_caught_at_the_record_end() {
    // The declared value length stops short of the real value, so the
    // record's terminator is not where the parser expects it.
    let err = parse(b"+3,3:cat->ball\n\n").unwrap_err();
    assert_eq!(err.kind, ParseErrorKind::MalformedHeader);
    assert_eq!(err.offset, 13);
}

#[test]
fn text_roundtrip() {
    let pairs: Vec<(&[u8], &[u8])> = vec![
        (b"cat", b"ball"),
        (b"dog", b"bone"),
        (b"", b"empty key"),
        (b"zero", b""),
    ];
    let db = CDB::load(SliceFactory::load(Bytes::from(build_cdb(&pairs)))).unwrap();
    let text = db.dump().unwrap();
    let parsed = parse(&text).expect("a dump must parse back");
    assert_eq!(parsed.len(), pairs.len());
    let reparsed: Vec<(&[u8], &[u8])> = parsed
        .iter()
        .map(|kv| (kv.k.as_ref(), kv.v.as_ref()))
        .collect();
    let rebuilt = CDB::load(SliceFactory::load(Bytes::from(build_cdb(&reparsed)))).unwrap();
    for (k, _) in &pairs {
        assert_eq!(db.get(k).unwrap(), rebuilt.get(k).unwrap());
    }
}

#[test]
fn dump_format_is_the_exchange_format() {
    let db = CDB::load(SliceFactory::load(Bytes::from(build_cdb(&[(b"cat", b"ball")])))).unwrap();
    let text = db.dump().unwrap();
    assert_eq!(text, b"+3,4:cat->ball\n\n".to_vec());
}
