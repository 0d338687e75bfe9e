//! The index header: whether the index is compressed, its sizes, and the
//! entries it holds.

use vstd::prelude::*;
use vstd::slice::{slice_subrange, slice_to_vec};
use crate::file::{self, parse_files, FileView, XP3File, views};
use crate::inflate::{inflate, zlib_inflate};
use crate::utils::{self, le_at};

verus! {

/// The archive index.
pub struct XP3Info {
    /// Non-zero when the index is zlib-compressed.
    pub zlib: u8,
    /// Size of the index as stored in the archive.
    pub psize: u64,
    /// Size of the index once decompressed (the stored size when it is not
    /// compressed).
    pub rsize: u64,
    /// The entries.
    pub file: Vec<XP3File>,
}

/// An index as a value.
pub struct InfoView {
    pub zlib: u8,
    pub psize: u64,
    pub rsize: u64,
    pub file: Seq<FileView>,
}

impl View for XP3Info {
    type V = InfoView;

    open spec fn view(&self) -> InfoView {
        InfoView { zlib: self.zlib, psize: self.psize, rsize: self.rsize, file: views(self.file@) }
    }
}

/// Where the stored index that starts at `offset` begins, by its flag byte.
pub open spec fn table_start(buf: Seq<u8>, offset: int) -> int {
    if buf[offset] != 0 { offset + 17 } else { offset + 9 }
}

/// The index at `offset` in `buf` and the position after it; `None` where
/// the archive ends inside it, its compressed form does not decompress, or
/// its entries are malformed.
pub open spec fn info_parse(buf: Seq<u8>, offset: int) -> Option<(InfoView, int)> {
    if offset < 0 || offset + 9 > buf.len() {
        None
    } else {
        let zlib = buf[offset];
        let psize = le_at(buf, offset + 1, 8) as u64;
        let o = table_start(buf, offset);
        if o > buf.len() {
            None
        } else {
            let rsize = if zlib != 0 { le_at(buf, offset + 9, 8) as u64 } else { psize };
            let end = o + (psize as usize);
            if end > usize::MAX || end > buf.len() {
                None
            } else {
                let stored = buf.subrange(o, end);
                let table = if zlib != 0 { zlib_inflate(stored) } else { Some(stored) };
                match table {
                    None => None,
                    Some(t) => match parse_files(t) {
                        None => None,
                        Some(files) => Some((InfoView { zlib, psize, rsize, file: files }, end)),
                    },
                }
            }
        }
    }
}

/// Reads the index at `offset`; `None` where `info_parse` finds none.
pub fn parse_info(buf: &Vec<u8>, offset: usize) -> (r: Option<(XP3Info, usize)>)
    ensures
        match r {
            Some((info, end)) => info_parse(buf@, offset as int) == Some((info@, end as int)),
            None => info_parse(buf@, offset as int) is None,
        },
{
    let len = buf.len();
    if offset > len || len - offset < 9 {
        return None;
    }
    let mut offset = offset;
    let zlib = utils::read_u8(buf, &mut offset);
    let psize = utils::read_u64(buf, &mut offset);
    let rsize = if zlib != 0 {
        if len - offset < 8 {
            return None;
        }
        utils::read_u64(buf, &mut offset)
    } else {
        psize
    };
    #[verifier::truncate]
    let stored_len = psize as usize;
    if stored_len > usize::MAX - offset || offset + stored_len > len {
        return None;
    }
    let end = offset + stored_len;
    let mut raw = slice_to_vec(slice_subrange(buf.as_slice(), offset, end));
    if zlib != 0 {
        raw = match inflate(raw.as_slice()) {
            Some(copy) => copy,
            None => return None,
        };
    }
    let file = match file::parse_index(&raw) {
        Some(file) => file,
        None => return None,
    };
    Some((XP3Info { zlib, psize, rsize, file }, end))
}

/// Reads the index at `offset`; gives it and the position after it.
pub fn unpack(buf: &Vec<u8>, offset: usize) -> (r: (XP3Info, usize))
    requires
        info_parse(buf@, offset as int) is Some,
    ensures
        info_parse(buf@, offset as int) == Some((r.0@, r.1 as int)),
{
    match parse_info(buf, offset) {
        Some(r) => r,
        None => {
            proof {
                assert(false);
            }
            (XP3Info { zlib: 0, psize: 0, rsize: 0, file: Vec::new() }, 0)
        },
    }
}

} // verus!
