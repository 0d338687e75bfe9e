//! One storage segment of an archive entry.

use vstd::prelude::*;
use crate::utils::{self, le_at};

verus! {

/// Where one piece of an entry is stored and how.
#[derive(Clone, Copy, Debug, PartialEq, Eq)]
pub struct Segment {
    /// `1` when the stored bytes are zlib-compressed.
    pub flag: u32,
    /// Position of the stored bytes in the archive.
    pub offset: u64,
    /// Size of the piece once decompressed.
    pub origin_size: u64,
    /// Size of the stored bytes.
    pub storage_size: u64,
}

/// The segment record of 28 bytes at `o` in `buf`.
pub open spec fn segment_at(buf: Seq<u8>, o: int) -> Segment {
    Segment {
        flag: le_at(buf, o, 4) as u32,
        offset: le_at(buf, o + 4, 8) as u64,
        origin_size: le_at(buf, o + 12, 8) as u64,
        storage_size: le_at(buf, o + 20, 8) as u64,
    }
}

/// Reads the segment record at `o`; gives it and the position after it.
pub fn unpack(buf: &Vec<u8>, o: usize) -> (r: (Segment, usize))
    requires
        o + 28 <= buf.len(),
    ensures
        r.0 == segment_at(buf@, o as int),
        r.1 == o + 28,
{
    let mut o = o;
    let flag = utils::read_u32(buf, &mut o);
    let offset = utils::read_u64(buf, &mut o);
    let origin_size = utils::read_u64(buf, &mut o);
    let storage_size = utils::read_u64(buf, &mut o);
    (Segment { flag, offset, origin_size, storage_size }, o)
}

} // verus!
