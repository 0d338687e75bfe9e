//! The cxdec scheme: each piece of an entry is XORed with bytes that x-code
//! programs derive from the entry's key.

pub mod code;

use vstd::prelude::*;
use crate::decoder::Decoder;
use crate::utils::le_at;
use code::{xcode, Code};

verus! {

/// The control block that `blob` holds: its little-endian 32-bit words (a
/// trailing partial word is dropped).
pub open spec fn control_block_of(blob: Seq<u8>) -> Seq<u32> {
    Seq::new(blob.len() / 4, |i: int| le_at(blob, 4 * i, 4) as u32)
}

proof fn lemma_word_from_bytes(b0: u8, b1: u8, b2: u8, b3: u8)
    by (bit_vector)
    ensures
        (b0 as u32) | ((b1 as u32) << 8u32) | ((b2 as u32) << 16u32) | ((b3 as u32) << 24u32)
            == b0 as u32 + 256 * (b1 as u32 + 256 * (b2 as u32 + 256 * (b3 as u32))),
{
}

proof fn lemma_le_four(s: Seq<u8>)
    requires
        s.len() == 4,
    ensures
        crate::utils::le_value(s) == s[0] as nat + 256 * (s[1] as nat + 256 * (s[2] as nat + 256 * (s[3] as nat))),
{
    reveal_with_fuel(crate::utils::le_value, 5);
    assert(s.drop_first().drop_first().drop_first().drop_first() =~= Seq::<u8>::empty());
}

/// Generates the control block from the scheme's blob.
fn generate_control_block(block: &[u8]) -> (r: Vec<u32>)
    ensures
        r@ == control_block_of(block@),
{
    let blen = block.len();
    let total_len = blen / 4;
    let mut ctrl_block: Vec<u32> = Vec::with_capacity(total_len);
    let mut i: usize = 0;
    while i < total_len
        invariant
            blen == block@.len(),
            total_len == blen / 4,
            0 <= i <= total_len,
            ctrl_block@ =~= control_block_of(block@).subrange(0, i as int),
        decreases total_len - i,
    {
        assert(i * 4 + 4 <= blen) by (nonlinear_arith)
            requires
                i < total_len,
                total_len == blen / 4,
        ;
        let offset = i * 4;
        let b0 = block[offset];
        let b1 = block[offset + 1];
        let b2 = block[offset + 2];
        let b3 = block[offset + 3];
        proof {
            lemma_word_from_bytes(b0, b1, b2, b3);
            let w = block@.subrange(4 * i, 4 * i + 4);
            lemma_le_four(w);
        }
        ctrl_block.push((b0 as u32) | ((b1 as u32) << 8) | ((b2 as u32) << 16) | ((b3 as u32) << 24));
        i = i + 1;
    }
    ctrl_block
}

/// A cxdec scheme.
pub struct CxDecScheme {
    pub shuffler0: Vec<i32>,
    pub shuffler1: Vec<i32>,
    pub control_block: Vec<u32>,
}

impl CxDecScheme {
    /// The scheme whose fields a scheme file gives: the two shufflers and the
    /// blob that holds the control block.
    pub fn new(shuffler0: Vec<i32>, shuffler1: Vec<i32>, blob: &[u8]) -> (r: CxDecScheme)
        ensures
            r.shuffler0@ == shuffler0@,
            r.shuffler1@ == shuffler1@,
            r.control_block@ == control_block_of(blob@),
    {
        CxDecScheme { shuffler0, shuffler1, control_block: generate_control_block(blob) }
    }
}

/// The two values that the x-code of `key` gives: on the key's upper bits
/// and on their complement.
pub open spec fn key_values(ctrl: Seq<u32>, key: u32) -> (u32, u32) {
    let seed = key & 0x7f;
    let value = key >> 7u32;
    (xcode(seed, value, ctrl), xcode(seed, !value, ctrl))
}

/// The five derived keys of one pass: two positions (`key1`, `key2`), the
/// byte XORed into every position (`key3`), and the bytes XORed into the
/// two positions (`key4` at `key2`, `key5` at `key1`).
pub open spec fn pass_keys(ctrl: Seq<u32>, key: u32) -> (u32, u32, u8, u8, u8) {
    let (v0, v1) = key_values(ctrl, key);
    let key1 = v1 >> 16u32;
    let low = v1 & 0xffff;
    let key2 = if key1 == low { (low + 1) as u32 } else { low };
    let key3 = if v0 & 0xff == 0 { 1u8 } else { (v0 & 0xff) as u8 };
    let key4 = ((v0 >> 16u32) & 0xff) as u8;
    let key5 = ((v0 >> 8u32) & 0xff) as u8;
    (key1, key2, key3, key4, key5)
}

proof fn lemma_key_arith(key: u32, v0: u32, v1: u32)
    by (bit_vector)
    ensures
        key & 0x7fu32 == key % 128,
        key >> 7u32 == key / 128,
        !(key >> 7u32) == 0xFFFF_FFFFu32 - key / 128,
        v1 >> 16u32 == v1 / 0x10000,
        v1 & 0xffffu32 == v1 % 0x10000,
        v0 & 0xffu32 == v0 % 256,
        (v0 >> 16u32) & 0xffu32 == (v0 / 0x10000) % 256,
        (v0 >> 8u32) & 0xffu32 == (v0 / 256) % 256,
{
}

/// The keys of a pass, from the two x-code values of `key` in plain
/// arithmetic: both programs are those of seed `key % 128`, run on
/// `key / 128` and on its complement `2^32 - 1 - key / 128`. The first value
/// gives the byte XORed into every position (its low byte, 1 where that is
/// 0) and the bytes XORed into the two keyed positions (its bits 16..23 at
/// `key2`, its bits 8..15 at `key1`); the second value gives the keyed
/// positions (its high half `key1`, its low half `key2`, moved on by one
/// where the halves are equal).
pub proof fn lemma_pass_keys_from_xcode(ctrl: Seq<u32>, key: u32)
    ensures
        ({
            let seed = (key % 128) as u32;
            let v0 = xcode(seed, (key / 128) as u32, ctrl);
            let v1 = xcode(seed, (0xFFFF_FFFF - key / 128) as u32, ctrl);
            let (key1, key2, key3, key4, key5) = pass_keys(ctrl, key);
            &&& key_values(ctrl, key) == (v0, v1)
            &&& key1 == v1 / 0x10000
            &&& key2 == if v1 / 0x10000 == v1 % 0x10000 { v1 % 0x10000 + 1 } else { (v1 % 0x10000) as int }
            &&& key3 == if v0 % 256 == 0 { 1 } else { (v0 % 256) as int }
            &&& key4 == (v0 / 0x10000) % 256
            &&& key5 == (v0 / 256) % 256
        }),
{
    let (v0, v1) = key_values(ctrl, key);
    lemma_key_arith(key, v0, v1);
}

/// Position `at` lies in a piece of `n` bytes that starts at `offset`, both
/// counted modulo 2^32 as the decoder counts them, and `j` is that position.
pub open spec fn hits(at: u32, offset: usize, n: usize, j: int) -> bool {
    let off = offset as u32;
    at >= off && at - off < (n as u32) && j == at - off
}

/// What one pass with `key` makes of byte `b` at index `j` of a piece of
/// `n` bytes that starts at stream position `offset`.
pub open spec fn pass_byte(ctrl: Seq<u32>, key: u32, offset: usize, n: usize, j: int, b: u8) -> u8 {
    let (key1, key2, key3, key4, key5) = pass_keys(ctrl, key);
    let b1 = if hits(key2, offset, n, j) { b ^ key4 } else { b };
    let b2 = if hits(key1, offset, n, j) { b1 ^ key5 } else { b1 };
    b2 ^ key3
}

/// Stream positions below this are decrypted with `key`, the rest with
/// `rotated_key(key)`.
pub open spec fn boundary(key: u32) -> int {
    (key & 0x17c) + 0x77
}

/// The key of the second part of the stream.
pub open spec fn rotated_key(key: u32) -> u32 {
    (key >> 16u32) ^ key
}

proof fn lemma_boundary_bits(key: u32)
    by (bit_vector)
    ensures
        key & 0x17cu32 == 4 * ((key / 4) % 32) + 256 * ((key / 256) % 2),
        ((key >> 16u32) ^ key) / 0x10000 == key / 0x10000,
        ((key >> 16u32) ^ key) % 0x10000 == ((key % 0x10000) ^ (key / 0x10000)),
{
}

/// The boundary is 0x77 plus bits 2..6 of the key (as a multiple of 4)
/// plus its bit 8 (as 256); the rotated key keeps the key's high half and
/// XORs it into the low half.
pub proof fn lemma_boundary_and_rotation(key: u32)
    ensures
        boundary(key) == 0x77 + 4 * ((key / 4) % 32) + 256 * ((key / 256) % 2),
        rotated_key(key) / 0x10000 == key / 0x10000,
        rotated_key(key) % 0x10000 == ((key % 0x10000) ^ (key / 0x10000)),
{
    lemma_boundary_bits(key);
}

/// What decryption makes of byte `b` at index `j` of a buffer of `len` bytes
/// that starts at stream position `offset`.
pub open spec fn decrypt_byte(ctrl: Seq<u32>, key: u32, offset: usize, len: int, j: int, b: u8) -> u8 {
    if offset < boundary(key) {
        let first = if len < boundary(key) - offset { len } else { boundary(key) - offset };
        if j < first {
            pass_byte(ctrl, key, offset, first as usize, j, b)
        } else {
            pass_byte(ctrl, rotated_key(key), (offset + first) as usize, (len - first) as usize, j - first, b)
        }
    } else {
        pass_byte(ctrl, rotated_key(key), offset, len as usize, j, b)
    }
}

/// The decryption of `data`, which starts at stream position `offset`.
pub open spec fn decrypt_spec(ctrl: Seq<u32>, data: Seq<u8>, key: u32, offset: usize) -> Seq<u8> {
    Seq::new(data.len(), |j: int| decrypt_byte(ctrl, key, offset, data.len() as int, j, data[j]))
}

proof fn lemma_low_seven_bits(x: u32)
    by (bit_vector)
    ensures
        x & 0x7fu32 < 0x80u32,
{
}

proof fn lemma_key_bits(key: u32, v1: u32)
    by (bit_vector)
    ensures
        key & 0x17cu32 <= 0x17cu32,
        v1 & 0xffffu32 <= 0xffffu32,
{
}

/// What decryption makes of byte `b` at stream position `p`: the pass of
/// `key` below the boundary and of the rotated key from there on, with the
/// two keyed positions counted from the start of the stream.
pub open spec fn position_byte(ctrl: Seq<u32>, key: u32, p: int, b: u8) -> u8 {
    let k = if p < boundary(key) { key } else { rotated_key(key) };
    let (key1, key2, key3, key4, key5) = pass_keys(ctrl, k);
    let b1 = if p == key2 { b ^ key4 } else { b };
    let b2 = if p == key1 { b1 ^ key5 } else { b1 };
    b2 ^ key3
}

proof fn lemma_xor_undo(b: u8, k3: u8, k4: u8, k5: u8, h2: bool, h1: bool)
    by (bit_vector)
    ensures
        ({
            let b1 = if h2 { b ^ k4 } else { b };
            let b2 = if h1 { b1 ^ k5 } else { b1 };
            let o = b2 ^ k3;
            let c1 = if h2 { o ^ k4 } else { o };
            let c2 = if h1 { c1 ^ k5 } else { c1 };
            c2 ^ k3
        }) == b,
{
}

/// One pass undoes itself: a byte passed twice with the same key, at the
/// same place of the same piece, comes back unchanged.
pub proof fn lemma_pass_byte_undo(ctrl: Seq<u32>, key: u32, offset: usize, n: usize, j: int, b: u8)
    ensures
        pass_byte(ctrl, key, offset, n, j, pass_byte(ctrl, key, offset, n, j, b)) == b,
{
    let (key1, key2, key3, key4, key5) = pass_keys(ctrl, key);
    lemma_xor_undo(b, key3, key4, key5, hits(key2, offset, n, j), hits(key1, offset, n, j));
}

/// Decryption undoes itself: XORing the same bytes twice gives the data back,
/// so the same call both encrypts and decrypts.
pub proof fn lemma_decrypt_involution(ctrl: Seq<u32>, data: Seq<u8>, key: u32, offset: usize)
    ensures
        decrypt_spec(ctrl, decrypt_spec(ctrl, data, key, offset), key, offset) == data,
{
    let once = decrypt_spec(ctrl, data, key, offset);
    let twice = decrypt_spec(ctrl, once, key, offset);
    assert forall|j: int| 0 <= j < data.len() implies #[trigger] twice[j] == data[j] by {
        let len = data.len() as int;
        if offset < boundary(key) {
            let first = if len < boundary(key) - offset { len } else { boundary(key) - offset };
            if j < first {
                lemma_pass_byte_undo(ctrl, key, offset, first as usize, j, data[j]);
            } else {
                lemma_pass_byte_undo(ctrl, rotated_key(key), (offset + first) as usize, (len - first) as usize, j - first, data[j]);
            }
        } else {
            lemma_pass_byte_undo(ctrl, rotated_key(key), offset, len as usize, j, data[j]);
        }
    }
    assert(twice =~= data);
}

proof fn lemma_hits_position(at: u32, offset: usize, n: usize, j: int)
    requires
        offset + n <= u32::MAX,
        0 <= j < n,
    ensures
        hits(at, offset, n, j) <==> at == offset + j,
{
}

/// Where the stream positions fit in 32 bits, each byte is decrypted by its
/// stream position alone, whatever buffer it arrives in.
pub proof fn lemma_decrypt_by_position(ctrl: Seq<u32>, data: Seq<u8>, key: u32, offset: usize, j: int)
    requires
        offset + data.len() <= u32::MAX,
        0 <= j < data.len(),
    ensures
        decrypt_spec(ctrl, data, key, offset)[j] == position_byte(ctrl, key, offset + j, data[j]),
{
    let len = data.len() as int;
    if offset < boundary(key) {
        let first = if len < boundary(key) - offset { len } else { boundary(key) - offset };
        if j < first {
            let (key1, key2, key3, key4, key5) = pass_keys(ctrl, key);
            lemma_hits_position(key2, offset, first as usize, j);
            lemma_hits_position(key1, offset, first as usize, j);
        } else {
            let (key1, key2, key3, key4, key5) = pass_keys(ctrl, rotated_key(key));
            lemma_hits_position(key2, (offset + first) as usize, (len - first) as usize, j - first);
            lemma_hits_position(key1, (offset + first) as usize, (len - first) as usize, j - first);
        }
    } else {
        let (key1, key2, key3, key4, key5) = pass_keys(ctrl, rotated_key(key));
        lemma_hits_position(key2, offset, len as usize, j);
        lemma_hits_position(key1, offset, len as usize, j);
    }
}

proof fn lemma_xor_zero(b: u8)
    by (bit_vector)
    ensures
        b ^ 0u8 == b,
{
}

/// Where stream positions fit in 32 bits, the byte at stream position `p`
/// decrypts, from the two x-code values `v0`, `v1` of the key that covers
/// `p` (the key below the boundary, the rotated key from there on), to
/// `b ^ x ^ y ^ k` where `x` is bits 16..23 of `v0` at position `key2` (the
/// low half of `v1`, one more where both halves are equal) and 0 elsewhere,
/// `y` is bits 8..15 of `v0` at position `key1` (the high half of `v1`) and
/// 0 elsewhere, and `k` is the low byte of `v0` (1 where that is 0).
pub proof fn lemma_decrypt_from_xcode(ctrl: Seq<u32>, data: Seq<u8>, key: u32, offset: usize, j: int)
    requires
        offset + data.len() <= u32::MAX,
        0 <= j < data.len(),
    ensures
        ({
            let p = offset + j;
            let k = if p < boundary(key) { key } else { rotated_key(key) };
            let seed = (k % 128) as u32;
            let v0 = xcode(seed, (k / 128) as u32, ctrl);
            let v1 = xcode(seed, (0xFFFF_FFFF - k / 128) as u32, ctrl);
            let key1 = v1 / 0x10000;
            let key2 = if v1 / 0x10000 == v1 % 0x10000 { v1 % 0x10000 + 1 } else { (v1 % 0x10000) as int };
            let x = if p == key2 { ((v0 / 0x10000) % 256) as u8 } else { 0u8 };
            let y = if p == key1 { ((v0 / 256) % 256) as u8 } else { 0u8 };
            let k3 = if v0 % 256 == 0 { 1u8 } else { (v0 % 256) as u8 };
            decrypt_spec(ctrl, data, key, offset)[j] == data[j] ^ x ^ y ^ k3
        }),
{
    lemma_decrypt_by_position(ctrl, data, key, offset, j);
    let p = offset + j;
    let k = if p < boundary(key) { key } else { rotated_key(key) };
    lemma_pass_keys_from_xcode(ctrl, k);
    lemma_xor_zero(data[j]);
    lemma_xor_zero(data[j] ^ ((xcode((k % 128) as u32, (k / 128) as u32, ctrl) / 0x10000) % 256) as u8);
}

/// Decrypting a buffer in two pieces, each at its own stream position, gives
/// what decrypting it whole gives.
pub proof fn lemma_decrypt_split(ctrl: Seq<u32>, data: Seq<u8>, key: u32, offset: usize, m: int)
    requires
        offset + data.len() <= u32::MAX,
        0 <= m <= data.len(),
    ensures
        decrypt_spec(ctrl, data, key, offset) == decrypt_spec(ctrl, data.subrange(0, m), key, offset)
            + decrypt_spec(ctrl, data.subrange(m, data.len() as int), key, (offset + m) as usize),
{
    let whole = decrypt_spec(ctrl, data, key, offset);
    let head = decrypt_spec(ctrl, data.subrange(0, m), key, offset);
    let tail = decrypt_spec(ctrl, data.subrange(m, data.len() as int), key, (offset + m) as usize);
    assert forall|j: int| 0 <= j < data.len() implies #[trigger] whole[j] == (head + tail)[j] by {
        lemma_decrypt_by_position(ctrl, data, key, offset, j);
        if j < m {
            lemma_decrypt_by_position(ctrl, data.subrange(0, m), key, offset, j);
        } else {
            lemma_decrypt_by_position(ctrl, data.subrange(m, data.len() as int), key, (offset + m) as usize, j - m);
        }
    }
    assert(whole =~= head + tail);
}

/// cxdec decoder scheme.
pub struct CxDec<'a> {
    code: Vec<Option<Code<'a>>>,
    scheme: &'a CxDecScheme,
}

impl<'a> CxDec<'a> {
    #[verifier::type_invariant]
    spec fn inv(self) -> bool {
        &&& self.scheme.control_block@.len() >= 0x400
        &&& forall|i: int|
            0 <= i < self.code@.len() ==> match #[trigger] self.code@[i] {
                Some(c) => c.seed() == i && c.control() == self.scheme.control_block@,
                None => true,
            }
    }

    /// The control block of the scheme this decoder uses.
    pub closed spec fn control(&self) -> Seq<u32> {
        self.scheme.control_block@
    }

    /// The cache of codes, one slot per seed.
    pub closed spec fn cache(&self) -> Seq<Option<Code<'a>>> {
        self.code@
    }

    /// The scheme this decoder uses.
    pub closed spec fn scheme(&self) -> &'a CxDecScheme {
        self.scheme
    }

    /// A decoder over `scheme`, whose control block must hold the 0x400 words
    /// that programs index.
    pub fn new(scheme: &'a CxDecScheme) -> (r: CxDec<'a>)
        requires
            scheme.control_block@.len() >= 0x400,
        ensures
            r.control() == scheme.control_block@,
            r.scheme() == scheme,
            r.cache().len() == 0x80,
            forall|i: int| 0 <= i < 0x80 ==> #[trigger] r.cache()[i] is None,
    {
        let mut code: Vec<Option<Code<'a>>> = Vec::new();
        let mut i: usize = 0;
        while i < 0x80
            invariant
                0 <= i <= 0x80,
                code@.len() == i,
                forall|k: int| 0 <= k < i ==> #[trigger] code@[k] is None,
            decreases 0x80 - i,
        {
            code.push(None);
            i = i + 1;
        }
        CxDec { code, scheme }
    }

    fn execute(&mut self, key: u32) -> (r: (u32, u32))
        ensures
            r == key_values(old(self).control(), key),
            final(self).control() == old(self).control(),
            final(self).scheme() == old(self).scheme(),
            final(self).cache().len() == old(self).cache().len(),
            (key & 0x7f) < old(self).cache().len() ==> (final(self).cache()[(key & 0x7f) as int] matches Some(c)
                && c.seed() == key & 0x7f && c.control() == old(self).control()),
            forall|j: int|
                0 <= j < old(self).cache().len() && j != (key & 0x7f) ==> #[trigger] final(self).cache()[j]
                    == old(self).cache()[j],
    {
        proof {
            use_type_invariant(&*self);
            lemma_low_seven_bits(key);
        }
        let index = key & 0x7f;
        let value = key >> 7;
        let i = index as usize;
        // take the cache out while the slot is filled
        let mut cache: Vec<Option<Code<'a>>> = Vec::new();
        std::mem::swap(&mut cache, &mut self.code);
        let cached = if i < cache.len() { cache[i] } else { None };
        let mut code = match cached {
            Some(c) => c,
            None => Code::new(index, self.scheme),
        };
        let v0 = code.execute(value);
        let v1 = code.execute(!value);
        if i < cache.len() {
            cache.set(i, Some(code));
        }
        std::mem::swap(&mut cache, &mut self.code);
        (v0, v1)
    }

    fn decrypt_inner(&mut self, buffer: &mut [u8], start: usize, end: usize, key: u32, offset: usize)
        requires
            start <= end <= old(buffer)@.len(),
        ensures
            final(self).control() == old(self).control(),
            final(buffer)@.len() == old(buffer)@.len(),
            forall|j: int|
                0 <= j < old(buffer)@.len() ==> #[trigger] final(buffer)@[j] == if start <= j < end {
                    pass_byte(old(self).control(), key, offset, (end - start) as usize, j - start, old(buffer)@[j])
                } else {
                    old(buffer)@[j]
                },
    {
        // convert offset to u32
        #[verifier::truncate]
        let offset = offset as u32;
        let n = end - start;
        let ghost orig = buffer@;

        // execute the code and obtain keys
        let (v0, v1) = self.execute(key);
        proof {
            lemma_key_bits(key, v1);
        }

        let key2 = v1 & 0xffff;
        let key3 = v0 & 0xff;

        let key1 = v1 >> 16;
        let key2 = if key1 == key2 { key2 + 1 } else { key2 };
        let key3 = if key3 == 0 { 1 } else { key3 as u8 };
        let key4 = ((v0 >> 16) & 0xff) as u8;
        let key5 = ((v0 >> 8) & 0xff) as u8;
        #[verifier::truncate]
        let n32 = n as u32;

        // perform decryption
        if key2 >= offset && (key2 - offset) < n32 {
            let idx = start + (key2 - offset) as usize;
            buffer[idx] = buffer[idx] ^ key4;
        }

        if key1 >= offset && (key1 - offset) < n32 {
            let idx = start + (key1 - offset) as usize;
            buffer[idx] = buffer[idx] ^ key5;
        }
        let ghost after1 = buffer@;

        let mut i = start;
        while i < end
            invariant
                start <= i <= end,
                end <= buffer@.len(),
                buffer@.len() == orig.len(),
                forall|j: int|
                    0 <= j < buffer@.len() ==> #[trigger] buffer@[j] == if start <= j < i {
                        after1[j] ^ key3
                    } else {
                        after1[j]
                    },
            decreases end - i,
        {
            buffer[i] = buffer[i] ^ key3;
            i = i + 1;
        }
    }
}

impl<'a> Decoder for CxDec<'a> {
    fn decrypt(&mut self, buffer: &mut [u8], key: u32, offset: usize)
        ensures
            final(self).control() == old(self).control(),
            final(buffer)@ == decrypt_spec(old(self).control(), old(buffer)@, key, offset),
    {
        proof {
            lemma_key_bits(key, 0);
        }
        let len = buffer.len();
        let boundary = ((key & 0x17c) + 0x77) as usize;
        let ghost orig = buffer@;
        let ghost ctrl = self.control();

        // decode the first chunk of the buffer
        if offset < boundary {
            let dec_len = if len < boundary - offset { len } else { boundary - offset };
            self.decrypt_inner(buffer, 0, dec_len, key, offset);

            // rotate key and decode the rest
            if len - dec_len != 0 {
                self.decrypt_inner(buffer, dec_len, len, (key >> 16) ^ key, offset + dec_len);
            }
        } else if len != 0 {
            // rotate key and decode the rest
            self.decrypt_inner(buffer, 0, len, (key >> 16) ^ key, offset);
        }
        assert(buffer@ =~= decrypt_spec(ctrl, orig, key, offset));
    }
}

} // verus!
