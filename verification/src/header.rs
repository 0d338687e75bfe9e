//! The archive header: magic, optional cushion, and where the index lies.

use vstd::prelude::*;
use crate::utils::{self, assert_outcome, le_at};

verus! {

/// `XP3\r\n \n\x1a\x8b\x67\x01`, the first bytes of every archive.
pub open spec fn spec_magic() -> Seq<u8> {
    seq![0x58u8, 0x50, 0x33, 0x0D, 0x0A, 0x20, 0x0A, 0x1A, 0x8B, 0x67, 0x01]
}

/// The cushion index (`0x17` as a little-endian `u64`) of newer archives.
pub open spec fn spec_cushion_index() -> Seq<u8> {
    seq![0x17u8, 0, 0, 0, 0, 0, 0, 0]
}

/// Minor version `1` as a little-endian `u32`.
pub open spec fn spec_minor_version() -> Seq<u8> {
    seq![0x1u8, 0, 0, 0]
}

/// The cushion header byte.
pub open spec fn spec_cushion_header() -> Seq<u8> {
    seq![0x80u8]
}

/// An index size of zero as a little-endian `u64`.
pub open spec fn spec_index_size() -> Seq<u8> {
    seq![0x0u8, 0, 0, 0, 0, 0, 0, 0]
}

fn magic() -> (r: Vec<u8>)
    ensures
        r@ == spec_magic(),
{
    vec![0x58, 0x50, 0x33, 0x0D, 0x0A, 0x20, 0x0A, 0x1A, 0x8B, 0x67, 0x01]
}

fn cushion_index() -> (r: Vec<u8>)
    ensures
        r@ == spec_cushion_index(),
{
    vec![0x17, 0x0, 0x0, 0x0, 0x0, 0x0, 0x0, 0x0]
}

fn minor_version() -> (r: Vec<u8>)
    ensures
        r@ == spec_minor_version(),
{
    vec![0x1, 0x0, 0x0, 0x0]
}

fn cushion_header() -> (r: Vec<u8>)
    ensures
        r@ == spec_cushion_header(),
{
    vec![0x80]
}

fn index_size() -> (r: Vec<u8>)
    ensures
        r@ == spec_index_size(),
{
    vec![0x0, 0x0, 0x0, 0x0, 0x0, 0x0, 0x0, 0x0]
}

/// What the archive header says.
#[derive(Debug, PartialEq, Eq)]
pub struct Header {
    /// Position of the index in the archive.
    pub offset: u64,
    /// The archive has the cushion of newer versions.
    pub yoshiri_version: bool,
}

/// The header of `buf` and the position of its index-offset field; `None`
/// where the header is not that of an archive (or the buffer ends inside it).
pub open spec fn header_parse(buf: Seq<u8>) -> Option<(Header, int)> {
    if assert_outcome(buf, spec_magic(), 0) != Some(true) {
        None
    } else {
        match assert_outcome(buf, spec_cushion_index(), 11) {
            None => None,
            Some(ver) => {
                if ver && (assert_outcome(buf, spec_minor_version(), 19) != Some(true)
                    || assert_outcome(buf, spec_cushion_header(), 23) != Some(true)
                    || assert_outcome(buf, spec_index_size(), 24) != Some(true)) {
                    None
                } else {
                    let p: int = if ver { 32 } else { 11 };
                    if p + 8 > buf.len() {
                        None
                    } else {
                        Some((Header { offset: le_at(buf, p, 8) as u64, yoshiri_version: ver }, p))
                    }
                }
            }
        }
    }
}

/// Checks `pattern` at `offset` the way `assert_at` does; `None` where the
/// comparison would run off the buffer.
fn check_at(buf: &Vec<u8>, pattern: &Vec<u8>, offset: usize) -> (r: Option<bool>)
    ensures
        r == assert_outcome(buf@, pattern@, offset as int),
{
    let blen = buf.len();
    let plen = pattern.len();
    if offset < blen && plen <= blen - offset {
        proof {
            if utils::assert_overruns(buf@, pattern@, offset as int) {
                let j = choose|j: int| utils::runs_past_at(buf@, pattern@, offset as int, j);
                assert(utils::runs_past_at(buf@, pattern@, offset as int, j));
            }
        }
        Some(utils::assert_at(buf.as_slice(), pattern.as_slice(), offset))
    } else {
        // the pattern reaches past the end: it runs off unless a byte differs first
        let mut i: usize = 0;
        while i < plen && offset < blen && i < blen - offset
            invariant
                blen == buf@.len(),
                plen == pattern@.len(),
                offset >= blen || plen > blen - offset,
                i <= plen,
                offset < blen ==> i <= blen - offset,
                forall|k: int| 0 <= k < i ==> #[trigger] buf@[offset + k] == pattern@[k],
            decreases plen - i,
        {
            if buf[offset + i] != pattern[i] {
                proof {
                    assert(!utils::byte_matches(buf@, pattern@, offset as int, i as int));
                    if utils::assert_overruns(buf@, pattern@, offset as int) {
                        let j = choose|j: int| utils::runs_past_at(buf@, pattern@, offset as int, j);
                        assert(buf@[offset + i] == pattern@[i as int]);
                    }
                }
                return Some(false);
            }
            i = i + 1;
        }
        proof {
            if plen > 0 || offset > blen {
                let j: int = if offset >= blen { 0 } else { blen - offset };
                if plen > 0 {
                    assert(utils::runs_past_at(buf@, pattern@, offset as int, j));
                }
            }
        }
        if plen == 0 {
            return Some(true);
        }
        None
    }
}

/// Reads the header; `None` where `header_parse` finds none.
pub fn parse(buf: &Vec<u8>) -> (r: Option<(Header, usize)>)
    ensures
        match r {
            Some((h, p)) => header_parse(buf@) == Some((h, p as int)),
            None => header_parse(buf@) is None,
        },
{
    if check_at(buf, &magic(), 0) != Some(true) {
        return None;
    }
    let ver = match check_at(buf, &cushion_index(), 11) {
        Some(ver) => ver,
        None => return None,
    };
    if ver {
        if check_at(buf, &minor_version(), 19) != Some(true) {
            return None;
        }
        if check_at(buf, &cushion_header(), 23) != Some(true) {
            return None;
        }
        if check_at(buf, &index_size(), 24) != Some(true) {
            return None;
        }
    }
    let mut p: usize = if ver { 32 } else { 11 };
    if buf.len() < p + 8 {
        return None;
    }
    let o = utils::read_u64(buf, &mut p);
    Some((Header { offset: o, yoshiri_version: ver }, p - 8))
}

/// Reads the header; gives it and the position of its index-offset field.
pub fn unpack(buf: &Vec<u8>) -> (r: (Header, usize))
    requires
        header_parse(buf@) is Some,
    ensures
        header_parse(buf@) == Some((r.0, r.1 as int)),
{
    match parse(buf) {
        Some(r) => r,
        None => {
            proof {
                assert(false);
            }
            (Header { offset: 0, yoshiri_version: false }, 0)
        },
    }
}

} // verus!
