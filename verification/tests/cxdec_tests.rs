use xp3::cxdec::code::{Code, Rng};
use xp3::cxdec::{CxDec, CxDecScheme};
use xp3::decoder::Decoder;

fn control() -> Vec<u32> {
    (0..0x400u32).map(|i| i.wrapping_mul(0x9E37_79B1)).collect()
}

fn scheme() -> CxDecScheme {
    CxDecScheme { shuffler0: vec![], shuffler1: vec![], control_block: control() }
}

#[test]
fn rng_steps_are_the_linear_congruence() {
    let mut r = Rng::new(0);
    assert_eq!(r.next(), 12345);
    let mut r = Rng::new(1);
    assert_eq!(r.next(), 1103593126);
    assert_eq!(r.next(), {
        let mut again = Rng::new(1103527590);
        again.next()
    });
    let mut r = Rng::new(0);
    r.set_seed(0xdeadbeef);
    assert_eq!(r.next(), 2733544273);
}

#[test]
fn code_execute_gives_known_values() {
    let s = scheme();
    assert_eq!(Code::new(0, &s).execute(0), 3993730610);
    assert_eq!(Code::new(1, &s).execute(0x12345), 239419196);
    assert_eq!(Code::new(0x7f, &s).execute(0xdeadbeef), 3530062027);
    assert_eq!(Code::new(42, &s).execute(7), 158735);
}

#[test]
fn code_execute_does_not_depend_on_earlier_runs() {
    let s = scheme();
    let mut c = Code::new(1, &s);
    let first = c.execute(0x12345);
    c.execute(99);
    assert_eq!(c.execute(0x12345), first);
}

#[test]
fn control_block_is_built_from_little_endian_words() {
    let s = CxDecScheme::new(vec![1], vec![2, 3], &[1, 0, 0, 0, 0x78, 0x56, 0x34, 0x12, 0xff]);
    assert_eq!(s.control_block, vec![1, 0x1234_5678]);
    assert_eq!(s.shuffler0, vec![1]);
    assert_eq!(s.shuffler1, vec![2, 3]);
}

#[test]
fn decrypt_gives_known_bytes() {
    let s = scheme();
    let mut d = CxDec::new(&s);
    let mut buf: Vec<u8> = (0..40u8).collect();
    d.decrypt(&mut buf, 0x1234_5678, 0);
    assert_eq!(
        buf,
        vec![
            10, 11, 8, 9, 14, 15, 12, 13, 2, 3, 0, 1, 6, 7, 4, 5, 26, 27, 24, 25, 30, 31, 28, 29,
            18, 19, 16, 17, 22, 23, 20, 21, 42, 43, 40, 41, 46, 47, 44, 45
        ]
    );
}

#[test]
fn decrypt_crosses_the_boundary_with_the_rotated_key() {
    let s = scheme();
    let mut d = CxDec::new(&s);
    let mut buf = vec![0xAAu8; 600];
    d.decrypt(&mut buf, 0xdead_beef, 0);
    assert_eq!(&buf[..8], &[114u8; 8]);
    assert_eq!(&buf[592..], &[189u8; 8]);
    assert_eq!(buf.iter().map(|&b| b as u32).sum::<u32>(), 96375);
}

#[test]
fn decrypt_twice_restores_the_data() {
    let s = scheme();
    let mut d = CxDec::new(&s);
    let data: Vec<u8> = (0..1000u32).map(|i| (i * 7 + 3) as u8).collect();
    let mut buf = data.clone();
    d.decrypt(&mut buf, 0x0bad_cafe, 5);
    assert_ne!(buf, data);
    d.decrypt(&mut buf, 0x0bad_cafe, 5);
    assert_eq!(buf, data);
}

#[test]
fn decrypt_in_pieces_matches_decrypt_whole() {
    let s = scheme();
    let mut d = CxDec::new(&s);
    let data: Vec<u8> = (0..900u32).map(|i| (i * 13) as u8).collect();
    for key in [0u32, 0x1234_5678, 0xdead_beef, 0xffff_ffff] {
        let mut whole = data.clone();
        d.decrypt(&mut whole, key, 0);
        for m in [0usize, 1, 100, 300, 899, 900] {
            let mut head = data[..m].to_vec();
            let mut tail = data[m..].to_vec();
            d.decrypt(&mut head, key, 0);
            d.decrypt(&mut tail, key, m);
            head.extend_from_slice(&tail);
            assert_eq!(head, whole, "key {key:#x} split at {m}");
        }
    }
}

#[test]
fn decrypt_of_empty_buffer_is_empty() {
    let s = scheme();
    let mut d = CxDec::new(&s);
    let mut buf: Vec<u8> = vec![];
    d.decrypt(&mut buf, 7, 1000);
    assert!(buf.is_empty());
}

#[test]
fn decoder_history_does_not_change_results() {
    let s = scheme();
    let mut used = CxDec::new(&s);
    for key in [1u32, 0x81, 0x101, 0xffff_ff01] {
        let mut scratch = vec![5u8; 300];
        used.decrypt(&mut scratch, key, 3);
    }
    let mut fresh = CxDec::new(&s);
    let data: Vec<u8> = (0..500u32).map(|i| (i * 11) as u8).collect();
    let mut a = data.clone();
    let mut b = data.clone();
    used.decrypt(&mut a, 0x0123_4581, 0);
    fresh.decrypt(&mut b, 0x0123_4581, 0);
    assert_eq!(a, b);
}
