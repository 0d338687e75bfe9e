//! Little-endian readers and byte-pattern checks over an archive buffer.

use vstd::prelude::*;
use vstd::utf8::valid_utf8;

verus! {

/// The unsigned number whose little-endian encoding is `bytes`.
pub open spec fn le_value(bytes: Seq<u8>) -> nat
    decreases bytes.len(),
{
    if bytes.len() == 0 {
        0
    } else {
        bytes[0] as nat + 256 * le_value(bytes.drop_first())
    }
}

/// The little-endian number stored in `n` bytes of `buf` starting at `off`.
pub open spec fn le_at(buf: Seq<u8>, off: int, n: int) -> nat {
    le_value(buf.subrange(off, off + n))
}

/// `256` to the power `n`.
pub open spec fn pow256(n: nat) -> nat
    decreases n,
{
    if n == 0 {
        1
    } else {
        256 * pow256((n - 1) as nat)
    }
}

/// A little-endian number of `n` bytes is below 256 to the `n`.
pub proof fn lemma_le_bound(bytes: Seq<u8>)
    ensures
        le_value(bytes) < pow256(bytes.len()),
    decreases bytes.len(),
{
    if bytes.len() > 0 {
        lemma_le_bound(bytes.drop_first());
    }
}

/// Little-endian: a byte put after the others is the most significant,
/// worth 256 to the power of the number of bytes before it.
pub proof fn lemma_le_push(bytes: Seq<u8>, b: u8)
    ensures
        le_value(bytes.push(b)) == le_value(bytes) + b as nat * pow256(bytes.len()),
    decreases bytes.len(),
{
    if bytes.len() == 0 {
        assert(bytes.push(b).drop_first() =~= Seq::<u8>::empty());
        assert(pow256(0) == 1);
        assert(le_value(bytes.push(b)) == b as nat + 256 * le_value(Seq::<u8>::empty()));
    } else {
        assert(bytes.push(b).drop_first() =~= bytes.drop_first().push(b));
        assert(bytes.push(b)[0] == bytes[0]);
        assert(pow256(bytes.len()) == 256 * pow256((bytes.len() - 1) as nat));
        lemma_le_push(bytes.drop_first(), b);
        assert(256 * (b as nat * pow256(bytes.drop_first().len())) == b as nat * pow256(bytes.len())) by (nonlinear_arith)
            requires
                pow256(bytes.len()) == 256 * pow256(bytes.drop_first().len()),
        ;
    }
}

proof fn lemma_le_step(buf: Seq<u8>, a: int, b: int)
    requires
        0 <= a < b <= buf.len(),
    ensures
        le_value(buf.subrange(a, b)) == buf[a] as nat + 256 * le_value(buf.subrange(a + 1, b)),
{
    assert(buf.subrange(a, b).drop_first() =~= buf.subrange(a + 1, b));
}

proof fn lemma_pow256_small()
    ensures
        pow256(0) == 1,
        pow256(1) == 0x100,
        pow256(2) == 0x1_0000,
        pow256(3) == 0x100_0000,
        pow256(4) == 0x1_0000_0000,
        pow256(7) == 0x100_0000_0000_0000,
        pow256(8) == 0x1_0000_0000_0000_0000,
{
    reveal_with_fuel(pow256, 9);
}

proof fn lemma_shl8_u16(x: u16)
    by (bit_vector)
    requires
        x < 0x100,
    ensures
        (x << 8u16) == x * 256,
{
}

proof fn lemma_shl8_u32(x: u32)
    by (bit_vector)
    requires
        x < 0x100_0000,
    ensures
        (x << 8u32) == x * 256,
{
}

proof fn lemma_shl8_u64(x: u64)
    by (bit_vector)
    requires
        x < 0x100_0000_0000_0000,
    ensures
        (x << 8u64) == x * 256,
{
}

/// `assert_at` runs off the end of `buf`: some position of `pattern` lies past
/// the end of `buf` while every earlier position matched.
pub open spec fn assert_overruns(buf: Seq<u8>, pattern: Seq<u8>, off: int) -> bool {
    exists|j: int| #[trigger] runs_past_at(buf, pattern, off, j)
}

/// Position `j` of `pattern` lies past the end of `buf` and all before it match.
pub open spec fn runs_past_at(buf: Seq<u8>, pattern: Seq<u8>, off: int, j: int) -> bool {
    &&& 0 <= j < pattern.len()
    &&& off + j >= buf.len()
    &&& forall|i: int| 0 <= i < j ==> #[trigger] buf[off + i] == pattern[i]
}

/// `pattern` occurs in `buf` at `off`.
pub open spec fn occurs_at(buf: Seq<u8>, pattern: Seq<u8>, off: int) -> bool {
    forall|i: int| 0 <= i < pattern.len() ==> #[trigger] byte_matches(buf, pattern, off, i)
}

/// Position `i` of `pattern` lies inside `buf` at `off` and equals it there.
pub open spec fn byte_matches(buf: Seq<u8>, pattern: Seq<u8>, off: int, i: int) -> bool {
    off + i < buf.len() && buf[off + i] == pattern[i]
}

/// What `assert_at` gives: `None` where it runs off the buffer.
pub open spec fn assert_outcome(buf: Seq<u8>, pattern: Seq<u8>, off: int) -> Option<bool> {
    if assert_overruns(buf, pattern, off) {
        None
    } else {
        Some(occurs_at(buf, pattern, off))
    }
}

/// Tells whether `pattern` occurs in `buf` at `offset`, comparing byte by byte
/// and stopping at the first difference.
pub fn assert_at(buf: &[u8], pattern: &[u8], offset: usize) -> (r: bool)
    requires
        !assert_overruns(buf@, pattern@, offset as int),
    ensures
        r == occurs_at(buf@, pattern@, offset as int),
{
    let len = pattern.len();
    let blen = buf.len();
    let mut i: usize = 0;
    while i < len
        invariant
            0 <= i <= len,
            blen == buf@.len(),
            len == pattern@.len(),
            !assert_overruns(buf@, pattern@, offset as int),
            forall|k: int| 0 <= k < i ==> #[trigger] byte_matches(buf@, pattern@, offset as int, k),
        decreases len - i,
    {
        proof {
            if offset + i >= buf@.len() {
                assert forall|k: int| 0 <= k < i implies #[trigger] buf@[offset + k] == pattern@[k] by {
                    assert(byte_matches(buf@, pattern@, offset as int, k));
                }
                assert(runs_past_at(buf@, pattern@, offset as int, i as int));
            }
        }
        assert(offset + i < blen);
        if buf[offset + i] != pattern[i] {
            assert(!byte_matches(buf@, pattern@, offset as int, i as int));
            return false;
        }
        assert(byte_matches(buf@, pattern@, offset as int, i as int));
        i = i + 1;
    }
    true
}

/// Reads one byte at `*offset` and moves past it.
pub fn read_u8(buf: &Vec<u8>, offset: &mut usize) -> (r: u8)
    requires
        *old(offset) < buf.len(),
    ensures
        r == buf@[*old(offset) as int],
        *final(offset) == *old(offset) + 1,
{
    let ret: u8 = buf[*offset];
    *offset += 1;
    ret
}

/// Reads a little-endian `u16` at `*offset` and moves past it.
pub fn read_u16(buf: &Vec<u8>, offset: &mut usize) -> (r: u16)
    requires
        *old(offset) + 2 <= buf.len(),
    ensures
        r == le_at(buf@, *old(offset) as int, 2),
        *final(offset) == *old(offset) + 2,
{
    let off = *offset;
    let mut ret: u16 = 0;
    let mut i: usize = 2;
    proof {
        lemma_pow256_small();
        assert(buf@.subrange(off + 2, off + 2) =~= Seq::<u8>::empty());
    }
    while i > 0
        invariant
            0 <= i <= 2,
            off + 2 <= buf@.len(),
            ret as nat == le_value(buf@.subrange(off + i, off + 2)),
        decreases i,
    {
        i = i - 1;
        proof {
            lemma_le_bound(buf@.subrange(off + i + 1, off + 2));
            lemma_pow256_small();
            lemma_shl8_u16(ret);
            lemma_le_step(buf@, off + i, off + 2);
        }
        assert(i + off < buf.len());
        ret = (ret << 8) + buf[i + off] as u16;
    }
    *offset += 2;
    ret
}

/// Reads a little-endian `u32` at `*offset` and moves past it.
pub fn read_u32(buf: &Vec<u8>, offset: &mut usize) -> (r: u32)
    requires
        *old(offset) + 4 <= buf.len(),
    ensures
        r == le_at(buf@, *old(offset) as int, 4),
        *final(offset) == *old(offset) + 4,
{
    let off = *offset;
    let mut ret: u32 = 0;
    let mut i: usize = 4;
    proof {
        assert(buf@.subrange(off + 4, off + 4) =~= Seq::<u8>::empty());
    }
    while i > 0
        invariant
            0 <= i <= 4,
            off + 4 <= buf@.len(),
            ret as nat == le_value(buf@.subrange(off + i, off + 4)),
        decreases i,
    {
        i = i - 1;
        proof {
            lemma_le_bound(buf@.subrange(off + i + 1, off + 4));
            lemma_pow256_small();
            lemma_shl8_u32(ret);
            lemma_le_step(buf@, off + i, off + 4);
        }
        assert(i + off < buf.len());
        ret = (ret << 8) + buf[i + off] as u32;
    }
    *offset += 4;
    ret
}

/// Reads a little-endian `u64` at `*offset` and moves past it.
pub fn read_u64(buf: &Vec<u8>, offset: &mut usize) -> (r: u64)
    requires
        *old(offset) + 8 <= buf.len(),
    ensures
        r == le_at(buf@, *old(offset) as int, 8),
        *final(offset) == *old(offset) + 8,
{
    let off = *offset;
    let mut ret: u64 = 0;
    let mut i: usize = 8;
    proof {
        assert(buf@.subrange(off + 8, off + 8) =~= Seq::<u8>::empty());
    }
    while i > 0
        invariant
            0 <= i <= 8,
            off + 8 <= buf@.len(),
            ret as nat == le_value(buf@.subrange(off + i, off + 8)),
        decreases i,
    {
        i = i - 1;
        proof {
            lemma_le_bound(buf@.subrange(off + i + 1, off + 8));
            lemma_pow256_small();
            lemma_pow256_monotone((8 - i - 1) as nat, 7);
            lemma_shl8_u64(ret);
            lemma_le_step(buf@, off + i, off + 8);
        }
        assert(i + off < buf.len());
        ret = (ret << 8) + buf[i + off] as u64;
    }
    *offset += 8;
    ret
}

proof fn lemma_pow256_monotone(a: nat, b: nat)
    requires
        a <= b,
    ensures
        pow256(a) <= pow256(b),
    decreases b,
{
    if a < b {
        lemma_pow256_monotone(a, (b - 1) as nat);
    }
}

/// The UTF-16 code units stored little-endian in `bytes` (a trailing odd byte is ignored).
pub open spec fn utf16_units(bytes: Seq<u8>) -> Seq<u16> {
    Seq::new(bytes.len() / 2, |i: int| (bytes[2 * i] as int + 256 * bytes[2 * i + 1] as int) as u16)
}

/// The text whose UTF-16 encoding is `units`; `None` where a surrogate is unpaired.
pub open spec fn decode_utf16(units: Seq<u16>) -> Option<Seq<char>>
    decreases units.len(),
{
    if units.len() == 0 {
        Some(Seq::empty())
    } else {
        let u = units[0] as int;
        if u < 0xD800 || u > 0xDFFF {
            match decode_utf16(units.drop_first()) {
                Some(rest) => Some(seq![u as char] + rest),
                None => None,
            }
        } else if u <= 0xDBFF && units.len() >= 2 && 0xDC00 <= units[1] <= 0xDFFF {
            let c = 0x10000 + (u - 0xD800) * 0x400 + (units[1] as int - 0xDC00);
            match decode_utf16(units.subrange(2, units.len() as int)) {
                Some(rest) => Some(seq![c as char] + rest),
                None => None,
            }
        } else {
            None
        }
    }
}

/// The name stored as `len` UTF-16 code units at `off` in `buf`.
pub open spec fn utf16_at(buf: Seq<u8>, off: int, len: int) -> Option<Seq<char>> {
    decode_utf16(utf16_units(buf.subrange(off, off + 2 * len)))
}

/// Calls `String::from_utf16`, which decodes UTF-16 and fails exactly on an
/// unpaired surrogate. Trusted: that `decode_utf16` is what std decodes.
#[verifier::external_body]
fn string_from_utf16(units: &[u16]) -> (res: Option<String>)
    ensures
        match res {
            Some(s) => decode_utf16(units@) == Some(s@),
            None => decode_utf16(units@) is None,
        },
{
    String::from_utf16(units).ok()
}

/// Calls `std::str::from_utf8` and tells whether it accepted `bytes`.
/// Trusted: that std accepts exactly the well-formed UTF-8 that vstd's
/// `valid_utf8` describes.
#[verifier::external_body]
pub(crate) fn is_utf8(bytes: &[u8]) -> (r: bool)
    ensures
        r == valid_utf8(bytes@),
{
    std::str::from_utf8(bytes).is_ok()
}

proof fn lemma_u16_from_bytes(lo: u8, hi: u8)
    by (bit_vector)
    ensures
        ((hi as u16) << 8u16) | (lo as u16) == (hi as u16) * 256 + (lo as u16),
{
}

/// Reads `len` UTF-16LE code units at `*offset` as a string and moves past them.
pub fn read_utf16(buf: &Vec<u8>, offset: &mut usize, len: u16) -> (r: String)
    requires
        *old(offset) + 2 * len <= buf.len(),
        utf16_at(buf@, *old(offset) as int, len as int) is Some,
    ensures
        r@ == utf16_at(buf@, *old(offset) as int, len as int).unwrap(),
        *final(offset) == *old(offset) + 2 * len,
{
    let ret = match decode_utf16_at(buf, *offset, len) {
        Some(s) => s,
        None => {
            proof {
                assert(false);
            }
            String::new()
        },
    };
    *offset = *offset + 2 * (len as usize);
    ret
}

/// Decodes `len` UTF-16LE code units at `off`; `None` where a surrogate is
/// unpaired.
pub fn decode_utf16_at(buf: &Vec<u8>, off: usize, len: u16) -> (r: Option<String>)
    requires
        off + 2 * len <= buf.len(),
    ensures
        match r {
            Some(s) => utf16_at(buf@, off as int, len as int) == Some(s@),
            None => utf16_at(buf@, off as int, len as int) is None,
        },
{
    let n = len as usize;
    let ghost bytes = buf@.subrange(off as int, off + 2 * len);
    let blen = buf.len();
    let mut comb: Vec<u16> = Vec::new();
    let mut i: usize = 0;
    while i < n
        invariant
            0 <= i <= n,
            n == len,
            blen == buf@.len(),
            off + 2 * n <= blen,
            bytes == buf@.subrange(off as int, off + 2 * len),
            comb@ =~= utf16_units(bytes).subrange(0, i as int),
        decreases n - i,
    {
        let lo = buf[off + i * 2];
        let hi = buf[off + i * 2 + 1];
        proof {
            lemma_u16_from_bytes(lo, hi);
        }
        comb.push(((hi as u16) << 8) | (lo as u16));
        i = i + 1;
    }
    assert(comb@ =~= utf16_units(bytes));
    string_from_utf16(comb.as_slice())
}

} // verus!
