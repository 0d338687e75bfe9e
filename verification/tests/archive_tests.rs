use xp3::cxdec::{CxDec, CxDecScheme};
use xp3::decoder::Decoder;
use xp3::header;
use xp3::info;
use xp3::segment::Segment;
use xp3::solve::{self, XP3};

const MAGIC: [u8; 11] = [0x58, 0x50, 0x33, 0x0D, 0x0A, 0x20, 0x0A, 0x1A, 0x8B, 0x67, 0x01];

fn chunk(tag: &[u8; 4], body: &[u8]) -> Vec<u8> {
    let mut v = tag.to_vec();
    v.extend_from_slice(&(body.len() as u64).to_le_bytes());
    v.extend_from_slice(body);
    v
}

fn info_chunk(name: &str, protect: u32, rsize: u64, psize: u64) -> Vec<u8> {
    let units: Vec<u16> = name.encode_utf16().collect();
    let mut body = protect.to_le_bytes().to_vec();
    body.extend_from_slice(&rsize.to_le_bytes());
    body.extend_from_slice(&psize.to_le_bytes());
    body.extend_from_slice(&(units.len() as u16).to_le_bytes());
    for u in units {
        body.extend_from_slice(&u.to_le_bytes());
    }
    chunk(b"info", &body)
}

fn segm_chunk(segs: &[Segment]) -> Vec<u8> {
    let mut body = vec![];
    for s in segs {
        body.extend_from_slice(&s.flag.to_le_bytes());
        body.extend_from_slice(&s.offset.to_le_bytes());
        body.extend_from_slice(&s.origin_size.to_le_bytes());
        body.extend_from_slice(&s.storage_size.to_le_bytes());
    }
    chunk(b"segm", &body)
}

fn adlr_chunk(key: u32) -> Vec<u8> {
    chunk(b"adlr", &key.to_le_bytes())
}

fn entry(name: &str, segs: &[Segment], key: u32) -> Vec<u8> {
    let mut inner = info_chunk(name, 0, 0, 0);
    inner.extend(segm_chunk(segs));
    inner.extend(adlr_chunk(key));
    chunk(b"File", &inner)
}

/// An entry chunk list closed by a last `File` chunk, which starts the entry
/// that the index ends inside.
fn table(entries: &[Vec<u8>]) -> Vec<u8> {
    let mut t = vec![];
    for e in entries {
        t.extend_from_slice(e);
    }
    t.extend(chunk(b"File", &[]));
    t
}

fn zlib(data: &[u8]) -> Vec<u8> {
    let mut enc = libflate::zlib::Encoder::new(Vec::new()).unwrap();
    std::io::Write::write_all(&mut enc, data).unwrap();
    enc.finish().into_result().unwrap()
}

fn scheme() -> CxDecScheme {
    let control_block = (0..0x400u32).map(|i| i.wrapping_mul(0x9E37_79B1)).collect();
    CxDecScheme { shuffler0: vec![], shuffler1: vec![], control_block }
}

/// An archive of old layout with the given stored pieces and index table.
fn archive(pieces: &[Vec<u8>], table: &[u8], compress_index: bool) -> (Vec<u8>, Vec<u64>) {
    let mut buf = MAGIC.to_vec();
    buf.extend_from_slice(&[0u8; 8]);
    let mut offsets = vec![];
    for p in pieces {
        offsets.push(buf.len() as u64);
        buf.extend_from_slice(p);
    }
    let index_offset = buf.len() as u64;
    buf[11..19].copy_from_slice(&index_offset.to_le_bytes());
    if compress_index {
        let packed = zlib(table);
        buf.push(1);
        buf.extend_from_slice(&(packed.len() as u64).to_le_bytes());
        buf.extend_from_slice(&(table.len() as u64).to_le_bytes());
        buf.extend_from_slice(&packed);
    } else {
        buf.push(0);
        buf.extend_from_slice(&(table.len() as u64).to_le_bytes());
        buf.extend_from_slice(table);
    }
    (buf, offsets)
}

#[test]
fn header_of_old_layout() {
    let mut buf = MAGIC.to_vec();
    buf.extend_from_slice(&0x1234u64.to_le_bytes());
    let (h, p) = header::unpack(&buf);
    assert_eq!(h.offset, 0x1234);
    assert!(!h.yoshiri_version);
    assert_eq!(p, 11);
}

#[test]
fn header_of_cushioned_layout() {
    let mut buf = MAGIC.to_vec();
    buf.extend_from_slice(&0x17u64.to_le_bytes());
    buf.extend_from_slice(&1u32.to_le_bytes());
    buf.push(0x80);
    buf.extend_from_slice(&0u64.to_le_bytes());
    buf.extend_from_slice(&0x4321u64.to_le_bytes());
    let (h, p) = header::unpack(&buf);
    assert_eq!(h.offset, 0x4321);
    assert!(h.yoshiri_version);
    assert_eq!(p, 32);
}

#[test]
fn header_rejects_bad_magic_and_bad_cushion() {
    let mut buf = MAGIC.to_vec();
    buf[0] = b'Y';
    buf.extend_from_slice(&[0u8; 8]);
    assert!(header::parse(&buf).is_none());
    let mut buf = MAGIC.to_vec();
    buf.extend_from_slice(&0x17u64.to_le_bytes());
    buf.extend_from_slice(&2u32.to_le_bytes());
    buf.push(0x80);
    buf.extend_from_slice(&[0u8; 16]);
    assert!(header::parse(&buf).is_none());
    assert!(header::parse(&MAGIC.to_vec()).is_none());
}

#[test]
fn index_entries_are_read_and_the_open_last_entry_is_dropped() {
    let s1 = Segment { flag: 0, offset: 100, origin_size: 10, storage_size: 10 };
    let s2 = Segment { flag: 1, offset: 110, origin_size: 30, storage_size: 12 };
    let t = table(&[entry("a.txt", &[s1, s2], 0xabcd), entry("dir/b", &[s1], 7)]);
    let mut raw = t.clone();
    let files = xp3::file::unpack(&mut raw);
    assert_eq!(raw, t);
    assert_eq!(files.len(), 2);
    assert_eq!(files[0].file_name, "a.txt");
    assert_eq!(files[0].name_len, 5);
    assert_eq!(files[0].seg, vec![s1, s2]);
    assert_eq!(files[0].segment_size, 2);
    assert_eq!(files[0].key, 0xabcd);
    assert_eq!(files[0].adler_size, 4);
    assert_eq!(files[1].file_name, "dir/b");
    assert_eq!(files[1].key, 7);
    // without a closing `File` chunk the last entry is not kept
    let t = entry("only", &[s1], 1);
    assert_eq!(xp3::file::parse_index(&t).unwrap().len(), 0);
}

#[test]
fn index_skips_unknown_chunks_and_zero_padding() {
    let s1 = Segment { flag: 0, offset: 1, origin_size: 2, storage_size: 2 };
    let mut inner = info_chunk("x", 0, 5, 6);
    inner.extend_from_slice(&[0, 0, 0]);
    inner.extend(chunk(b"time", &[1, 2, 3, 4, 5, 6, 7, 8]));
    inner.extend(segm_chunk(&[s1]));
    inner.extend(adlr_chunk(9));
    let t = table(&[chunk(b"File", &inner)]);
    let files = xp3::file::parse_index(&t).unwrap();
    assert_eq!(files.len(), 1);
    assert_eq!(files[0].rsize, 5);
    assert_eq!(files[0].psize, 6);
    assert_eq!(files[0].seg, vec![s1]);
}

#[test]
fn index_rejects_malformed_chunks() {
    let s1 = Segment { flag: 0, offset: 1, origin_size: 2, storage_size: 2 };
    // a segment list whose size is not a multiple of 28
    let mut bad = segm_chunk(&[s1]);
    bad[4] = 27;
    let t = table(&[chunk(b"File", &bad)]);
    assert!(xp3::file::parse_index(&t).is_none());
    // a protect value other than 0 and 1 << 31
    let t = table(&[chunk(b"File", &info_chunk("p", 5, 0, 0))]);
    assert!(xp3::file::parse_index(&t).is_none());
    // an unknown tag that is not text
    let t = table(&[chunk(&[0xff, 0xfe, 0x00, 0x01], &[])]);
    assert!(xp3::file::parse_index(&t).is_none());
    // a tag cut short by the end of the index
    let mut t = table(&[entry("a", &[s1], 1)]);
    t.extend_from_slice(&[b'F', b'i']);
    assert!(xp3::file::parse_index(&t).is_none());
}

#[test]
fn index_keeps_protected_entries() {
    let t = table(&[chunk(b"File", &info_chunk("p", 1 << 31, 0, 0))]);
    let files = xp3::file::parse_index(&t).unwrap();
    assert_eq!(files[0].protect, 1 << 31);
}

#[test]
fn index_drops_entries_with_long_names() {
    let long: String = std::iter::repeat('n').take(0x100).collect();
    let s1 = Segment { flag: 0, offset: 1, origin_size: 2, storage_size: 2 };
    let t = table(&[entry(&long, &[s1], 1), entry("short", &[s1], 2)]);
    let files = xp3::file::parse_index(&t).unwrap();
    assert_eq!(files.len(), 1);
    assert_eq!(files[0].file_name, "short");
}

#[test]
fn info_reads_plain_and_compressed_indexes() {
    let s1 = Segment { flag: 0, offset: 1, origin_size: 2, storage_size: 2 };
    let t = table(&[entry("e", &[s1], 3)]);
    let (buf, _) = archive(&[], &t, false);
    let (inf, end) = info::unpack(&buf, 19);
    assert_eq!(inf.zlib, 0);
    assert_eq!(inf.psize, t.len() as u64);
    assert_eq!(inf.rsize, t.len() as u64);
    assert_eq!(inf.file.len(), 1);
    assert_eq!(end, buf.len());
    let (buf, _) = archive(&[], &t, true);
    let (inf, end) = info::unpack(&buf, 19);
    assert_eq!(inf.zlib, 1);
    assert_eq!(inf.rsize, t.len() as u64);
    assert_eq!(inf.file[0].file_name, "e");
    assert_eq!(end, buf.len());
}

#[test]
fn info_rejects_a_broken_compressed_index() {
    let t = table(&[]);
    let (mut buf, _) = archive(&[], &t, true);
    let last = buf.len() - 1;
    buf[last] ^= 0xff;
    assert!(info::parse_info(&buf, 19).is_none());
    assert!(XP3::open(&buf).is_err());
}

#[test]
fn archive_entries_are_extracted_and_decrypted() {
    let sch = scheme();
    let mut dec = CxDec::new(&sch);
    let key = 0x5a5a_1234u32;
    let part1: Vec<u8> = (0..150u32).map(|i| i as u8).collect();
    let part2: Vec<u8> = (0..400u32).map(|i| (i * 3) as u8).collect();
    // each piece is decrypted from its own start
    let mut enc1 = part1.clone();
    dec.decrypt(&mut enc1, key, 0);
    let mut enc2 = part2.clone();
    dec.decrypt(&mut enc2, key, 0);
    let stored2 = zlib(&enc2);
    let stored2_len = stored2.len() as u64;
    let (buf, offs) = archive(&[enc1.clone(), stored2], &[], false);
    let s1 = Segment { flag: 0, offset: offs[0], origin_size: 150, storage_size: 150 };
    let s2 = Segment { flag: 1, offset: offs[1], origin_size: 400, storage_size: stored2_len };
    let t = table(&[entry("data.bin", &[s1, s2], key)]);
    let (buf, _) = {
        let mut b = buf.clone();
        let index_offset = b.len() as u64;
        b[11..19].copy_from_slice(&index_offset.to_le_bytes());
        b.push(0);
        b.extend_from_slice(&(t.len() as u64).to_le_bytes());
        b.extend_from_slice(&t);
        (b, ())
    };
    let x = XP3::open(&buf).unwrap();
    assert_eq!(x.files().len(), 1);
    assert_eq!(x.header().offset as usize, buf.len() - 9 - t.len());
    let mut want = part1.clone();
    want.extend_from_slice(&part2);
    assert_eq!(x.entry_contents(0, &mut dec).unwrap(), want);
    assert_eq!(x.get(&s1, &mut dec, key), part1);
    assert_eq!(x.try_get(&s2, &mut dec, key).unwrap(), part2);
    // a segment past the end of the archive cannot be read
    let far = Segment { flag: 0, offset: buf.len() as u64, origin_size: 1, storage_size: 1 };
    assert!(x.try_get(&far, &mut dec, key).is_none());
    // a segment whose size disagrees with its stored bytes cannot be read
    let wrong = Segment { flag: 0, offset: offs[0], origin_size: 149, storage_size: 150 };
    assert!(x.try_get(&wrong, &mut dec, key).is_none());
    assert!(solve::unpack(&buf).is_ok());
}

#[test]
fn entry_with_an_unreadable_segment_has_no_contents() {
    let sch = scheme();
    let mut dec = CxDec::new(&sch);
    let bad = Segment { flag: 1, offset: 19, origin_size: 5, storage_size: 5 };
    let (buf, _) = archive(&[vec![1, 2, 3, 4, 5]], &table(&[entry("z", &[bad], 1)]), false);
    let x = XP3::open(&buf).unwrap();
    assert!(x.entry_contents(0, &mut dec).is_none());
}

#[test]
fn open_rejects_a_file_that_is_not_an_archive() {
    assert!(XP3::open(&b"PK\x03\x04 not an archive at all".to_vec()).is_err());
    assert!(XP3::open(&vec![]).is_err());
}

#[test]
fn index_accumulates_segments_over_segm_chunks() {
    let s1 = Segment { flag: 0, offset: 1, origin_size: 2, storage_size: 2 };
    let s2 = Segment { flag: 0, offset: 3, origin_size: 4, storage_size: 4 };
    let s3 = Segment { flag: 0, offset: 7, origin_size: 1, storage_size: 1 };
    let mut inner = info_chunk("m", 0, 0, 0);
    inner.extend(segm_chunk(&[s1, s2]));
    inner.extend(segm_chunk(&[s3]));
    let t = table(&[chunk(b"File", &inner)]);
    let files = xp3::file::parse_index(&t).unwrap();
    assert_eq!(files[0].seg, vec![s1, s2, s3]);
    assert_eq!(files[0].segment_size, 1);
    assert!(files[0].seg.len() as u64 >= files[0].segment_size);
}

#[test]
fn entry_contents_are_as_long_as_the_original_sizes() {
    let sch = scheme();
    let mut dec = CxDec::new(&sch);
    let pieces = vec![vec![9u8; 33], vec![8u8; 70], vec![7u8; 1]];
    let (buf0, offs) = archive(&pieces, &[], false);
    let segs: Vec<Segment> = offs
        .iter()
        .zip(pieces.iter())
        .map(|(&o, p)| Segment { flag: 0, offset: o, origin_size: p.len() as u64, storage_size: p.len() as u64 })
        .collect();
    let t = table(&[entry("three", &segs, 0x77)]);
    let mut buf = buf0.clone();
    let index_offset = buf.len() as u64;
    buf[11..19].copy_from_slice(&index_offset.to_le_bytes());
    buf.push(0);
    buf.extend_from_slice(&(t.len() as u64).to_le_bytes());
    buf.extend_from_slice(&t);
    let x = XP3::open(&buf).unwrap();
    assert_eq!(x.entry_contents(0, &mut dec).unwrap().len(), 33 + 70 + 1);
}

#[test]
fn an_inserted_unknown_chunk_changes_no_entry() {
    let s1 = Segment { flag: 0, offset: 1, origin_size: 2, storage_size: 2 };
    let plain = table(&[entry("a", &[s1], 1), entry("b", &[s1], 2)]);
    let mut inner = info_chunk("a", 0, 0, 0);
    inner.extend(chunk(b"note", &[9, 9, 9]));
    inner.extend(segm_chunk(&[s1]));
    inner.extend(adlr_chunk(1));
    let with_note = table(&[chunk(b"File", &inner), entry("b", &[s1], 2)]);
    let x = xp3::file::parse_index(&plain).unwrap();
    let y = xp3::file::parse_index(&with_note).unwrap();
    assert_eq!(x.len(), y.len());
    for (p, q) in x.iter().zip(y.iter()) {
        assert_eq!(p.file_name, q.file_name);
        assert_eq!(p.seg, q.seg);
        assert_eq!(p.key, q.key);
        assert_eq!(p.segment_size, q.segment_size);
    }
}

#[test]
fn an_inserted_unknown_chunk_keeps_a_malformed_index_malformed() {
    let s1 = Segment { flag: 0, offset: 1, origin_size: 2, storage_size: 2 };
    let mut bad = segm_chunk(&[s1]);
    bad[4] = 27;
    let mut inner = info_chunk("a", 0, 0, 0);
    inner.extend(bad.clone());
    let plain = table(&[chunk(b"File", &inner)]);
    let mut noted = info_chunk("a", 0, 0, 0);
    noted.extend(chunk(b"note", &[1, 2, 3, 4]));
    noted.extend(bad);
    let with_note = table(&[chunk(b"File", &noted)]);
    assert!(xp3::file::parse_index(&plain).is_none());
    assert!(xp3::file::parse_index(&with_note).is_none());
}

#[test]
fn an_unknown_chunk_at_the_start_of_an_index_changes_no_entry() {
    let s1 = Segment { flag: 0, offset: 1, origin_size: 2, storage_size: 2 };
    let plain = table(&[entry("a", &[s1], 1), entry("b", &[s1], 2)]);
    let mut noted = chunk(b"note", &[7, 7]);
    noted.extend(plain.clone());
    let x = xp3::file::parse_index(&plain).unwrap();
    let y = xp3::file::parse_index(&noted).unwrap();
    assert_eq!(x.len(), 2);
    assert_eq!(x.len(), y.len());
    for (p, q) in x.iter().zip(y.iter()) {
        assert_eq!(p.file_name, q.file_name);
        assert_eq!(p.seg, q.seg);
        assert_eq!(p.key, q.key);
    }
}
