use xp3::segment::{self, Segment};
use xp3::utils::{assert_at, decode_utf16_at, read_u16, read_u32, read_u64, read_u8, read_utf16};

#[test]
fn read_u8_reads_one_byte_and_advances() {
    let buf = vec![0x10u8, 0x20, 0x30];
    let mut off = 1usize;
    assert_eq!(read_u8(&buf, &mut off), 0x20);
    assert_eq!(off, 2);
}

#[test]
fn read_u16_is_little_endian() {
    let buf = vec![0xffu8, 0x34, 0x12];
    let mut off = 1usize;
    assert_eq!(read_u16(&buf, &mut off), 0x1234);
    assert_eq!(off, 3);
}

#[test]
fn read_u32_is_little_endian() {
    let buf = vec![0x78u8, 0x56, 0x34, 0x12, 0x99];
    let mut off = 0usize;
    assert_eq!(read_u32(&buf, &mut off), 0x1234_5678);
    assert_eq!(off, 4);
}

#[test]
fn read_u64_is_little_endian() {
    let buf = vec![0u8, 0x08, 0x07, 0x06, 0x05, 0x04, 0x03, 0x02, 0x81];
    let mut off = 1usize;
    assert_eq!(read_u64(&buf, &mut off), 0x8102_0304_0506_0708);
    assert_eq!(off, 9);
}

#[test]
fn assert_at_finds_and_rejects_patterns() {
    let buf = [1u8, 2, 3, 4, 5];
    assert!(assert_at(&buf, &[3, 4], 2));
    assert!(!assert_at(&buf, &[3, 5], 2));
    // a difference before the end is reported even where the pattern is longer
    assert!(!assert_at(&buf, &[4, 9, 9, 9], 3));
    assert!(assert_at(&buf, &[], 9));
}

#[test]
fn read_utf16_decodes_ascii_and_surrogate_pairs() {
    // "a", U+1F600 as a surrogate pair, "z"
    let buf = vec![0x61u8, 0x00, 0x3D, 0xD8, 0x00, 0xDE, 0x7A, 0x00];
    let mut off = 0usize;
    let s = read_utf16(&buf, &mut off, 4);
    assert_eq!(s, "a\u{1F600}z");
    assert_eq!(off, 8);
}

#[test]
fn decode_utf16_rejects_unpaired_surrogate() {
    let buf = vec![0x00u8, 0xD8, 0x41, 0x00];
    assert!(decode_utf16_at(&buf, 0, 2).is_none());
    let lone_low = vec![0x00u8, 0xDC];
    assert!(decode_utf16_at(&lone_low, 0, 1).is_none());
    assert_eq!(decode_utf16_at(&buf, 2, 1).unwrap(), "A");
}

#[test]
fn segment_unpack_reads_a_record() {
    let mut buf = vec![0xEEu8];
    buf.extend_from_slice(&1u32.to_le_bytes());
    buf.extend_from_slice(&0x1122u64.to_le_bytes());
    buf.extend_from_slice(&300u64.to_le_bytes());
    buf.extend_from_slice(&200u64.to_le_bytes());
    let (s, next) = segment::unpack(&buf, 1);
    assert_eq!(s, Segment { flag: 1, offset: 0x1122, origin_size: 300, storage_size: 200 });
    assert_eq!(next, 29);
}
