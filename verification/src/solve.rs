//! An opened archive: its header, its index, and its bytes, from which
//! entries are read and decrypted.

use vstd::prelude::*;
use vstd::slice::{slice_subrange, slice_to_vec};
use crate::cxdec::{decrypt_spec, CxDec};
use crate::decoder::Decoder;
use crate::file::{views, FileView, XP3File};
use crate::header::{self, header_parse, Header};
use crate::inflate::{inflate, zlib_inflate};
use crate::info::{self, info_parse, InfoView, XP3Info};
use crate::segment::Segment;

verus! {

/// An opened archive.
pub struct XP3 {
    header: Header,
    info: XP3Info,
    buf: Vec<u8>,
}

/// An archive as a value: its header, its index, and its bytes.
pub struct XP3View {
    pub header: Header,
    pub info: InfoView,
    pub buf: Seq<u8>,
}

impl View for XP3 {
    type V = XP3View;

    closed spec fn view(&self) -> XP3View {
        XP3View { header: self.header, info: self.info@, buf: self.buf@ }
    }
}

/// The archive that `buf` holds; `None` where its header or its index is
/// malformed.
pub open spec fn xp3_parse(buf: Seq<u8>) -> Option<XP3View> {
    match header_parse(buf) {
        None => None,
        Some((h, _)) => match info_parse(buf, (h.offset as usize) as int) {
            None => None,
            Some((info, _)) => Some(XP3View { header: h, info, buf }),
        },
    }
}

/// The bytes of segment `sg` once read from archive `buf` and decompressed
/// where its flag says so; `None` where they lie outside the archive, do not
/// decompress, or do not have the segment's original size.
pub open spec fn piece_of(buf: Seq<u8>, sg: Segment) -> Option<Seq<u8>> {
    if sg.offset + sg.storage_size > u64::MAX {
        None
    } else {
        let start = sg.offset as usize;
        let end = ((sg.offset + sg.storage_size) as u64) as usize;
        if start > end || end > buf.len() {
            None
        } else {
            let stored = buf.subrange(start as int, end as int);
            let data = if sg.flag == 1 { zlib_inflate(stored) } else { Some(stored) };
            match data {
                None => None,
                Some(d) => if d.len() != (sg.origin_size as usize) {
                    None
                } else {
                    Some(d)
                },
            }
        }
    }
}

/// The contents of the first `n` segments of `segs`, each decrypted with
/// `key` from its own start; `None` where one of them cannot be read.
pub open spec fn pieces(buf: Seq<u8>, ctrl: Seq<u32>, segs: Seq<Segment>, n: int, key: u32) -> Option<Seq<u8>>
    decreases n,
{
    if n <= 0 {
        Some(Seq::empty())
    } else {
        match pieces(buf, ctrl, segs, n - 1, key) {
            None => None,
            Some(acc) => match piece_of(buf, segs[n - 1]) {
                None => None,
                Some(d) => Some(acc + decrypt_spec(ctrl, d, key, 0)),
            },
        }
    }
}

/// The contents of entry `e` of archive `buf`: its first `segment_size`
/// segments, decrypted and joined; `None` where the entry lists fewer
/// segments or one of them cannot be read.
pub open spec fn entry_data(buf: Seq<u8>, ctrl: Seq<u32>, e: FileView) -> Option<Seq<u8>> {
    let n = (e.segment_size as usize) as int;
    if n > e.seg.len() {
        None
    } else {
        pieces(buf, ctrl, e.seg, n, e.key)
    }
}

impl XP3 {
    /// Opens the archive held in `buf`; `Err` where its header or index is
    /// malformed.
    pub fn open(buf: &Vec<u8>) -> (r: Result<XP3, ()>)
        ensures
            r is Ok <==> xp3_parse(buf@) is Some,
            r matches Ok(x) ==> x@ == xp3_parse(buf@).unwrap(),
    {
        let h = match header::parse(buf) {
            Some((h, _)) => h,
            None => return Err(()),
        };
        #[verifier::truncate]
        let offset = h.offset as usize;
        if info::parse_info(buf, offset).is_none() {
            return Err(());
        }
        unpack(buf)
    }

    /// The entries of the archive.
    pub fn files(&self) -> (r: &Vec<XP3File>)
        ensures
            views(r@) == self@.info.file,
    {
        &self.info.file
    }

    /// The archive header.
    pub fn header(&self) -> (r: &Header)
        ensures
            *r == self@.header,
    {
        &self.header
    }

    /// The stored bytes of `sg`, decompressed where its flag says so.
    fn stored_piece(&self, sg: &Segment) -> (r: Option<Vec<u8>>)
        ensures
            match r {
                Some(v) => piece_of(self@.buf, *sg) == Some(v@),
                None => piece_of(self@.buf, *sg) is None,
            },
    {
        if sg.storage_size > u64::MAX - sg.offset {
            return None;
        }
        #[verifier::truncate]
        let start = sg.offset as usize;
        #[verifier::truncate]
        let end = (sg.offset + sg.storage_size) as usize;
        if start > end || end > self.buf.len() {
            return None;
        }
        let mut raw = slice_to_vec(slice_subrange(self.buf.as_slice(), start, end));
        if sg.flag == 1 {
            raw = match inflate(raw.as_slice()) {
                Some(copy) => copy,
                None => return None,
            };
        }
        #[verifier::truncate]
        let size = sg.origin_size as usize;
        if raw.len() != size {
            return None;
        }
        Some(raw)
    }

    /// Reads segment `sg` and decrypts it with `key`.
    pub fn get(&self, sg: &Segment, decoder: &mut CxDec, key: u32) -> (r: Vec<u8>)
        requires
            piece_of(self@.buf, *sg) is Some,
        ensures
            r@ == decrypt_spec(old(decoder).control(), piece_of(self@.buf, *sg).unwrap(), key, 0),
            final(decoder).control() == old(decoder).control(),
    {
        let mut raw = match self.stored_piece(sg) {
            Some(raw) => raw,
            None => {
                proof {
                    assert(false);
                }
                Vec::new()
            },
        };
        decoder.decrypt(raw.as_mut_slice(), key, 0);
        raw
    }

    /// Reads segment `sg` and decrypts it with `key`; `None` where it cannot
    /// be read.
    pub fn try_get(&self, sg: &Segment, decoder: &mut CxDec, key: u32) -> (r: Option<Vec<u8>>)
        ensures
            r is Some <==> piece_of(self@.buf, *sg) is Some,
            r matches Some(v) ==> v@ == decrypt_spec(old(decoder).control(), piece_of(self@.buf, *sg).unwrap(), key, 0),
            final(decoder).control() == old(decoder).control(),
    {
        if self.stored_piece(sg).is_none() {
            return None;
        }
        Some(self.get(sg, decoder, key))
    }

    /// The contents of entry `index`: its segments read, decrypted with the
    /// entry's key and joined; `None` where one cannot be read.
    #[verifier::loop_isolation(false)]
    pub fn entry_contents(&self, index: usize, decoder: &mut CxDec) -> (r: Option<Vec<u8>>)
        requires
            index < self@.info.file.len(),
        ensures
            match r {
                Some(v) => entry_data(self@.buf, old(decoder).control(), self@.info.file[index as int]) == Some(v@),
                None => entry_data(self@.buf, old(decoder).control(), self@.info.file[index as int]) is None,
            },
            final(decoder).control() == old(decoder).control(),
    {
        let entry = &self.info.file[index];
        let ghost ctrl = decoder.control();
        let ghost e = self@.info.file[index as int];
        assert(entry@ == e);
        #[verifier::truncate]
        let n = entry.segment_size as usize;
        if n > entry.seg.len() {
            return None;
        }
        let mut file: Vec<u8> = Vec::new();
        let mut j: usize = 0;
        while j < n
            invariant
                j <= n,
                n <= entry.seg@.len(),
                n as int == (e.segment_size as usize) as int,
                entry@ == e,
                decoder.control() == ctrl,
                pieces(self@.buf, ctrl, e.seg, j as int, e.key) == Some(file@),
            decreases n - j,
        {
            let piece = match self.stored_piece(&entry.seg[j]) {
                Some(p) => p,
                None => {
                    proof {
                        lemma_pieces_fail(self@.buf, ctrl, e.seg, j as int + 1, n as int, e.key);
                    }
                    return None;
                },
            };
            let mut data = piece;
            decoder.decrypt(data.as_mut_slice(), entry.key, 0);
            file.extend_from_slice(data.as_slice());
            j = j + 1;
            assert(file@ =~= pieces(self@.buf, ctrl, e.seg, j as int, e.key).unwrap());
        }
        Some(file)
    }
}

/// The original sizes of the first `n` segments of `segs`, added up.
pub open spec fn origin_total(segs: Seq<Segment>, n: int) -> int
    decreases n,
{
    if n <= 0 {
        0
    } else {
        origin_total(segs, n - 1) + (segs[n - 1].origin_size as usize) as int
    }
}

proof fn lemma_pieces_len(buf: Seq<u8>, ctrl: Seq<u32>, segs: Seq<Segment>, n: int, key: u32)
    ensures
        pieces(buf, ctrl, segs, n, key) matches Some(c) ==> c.len() == origin_total(segs, n),
    decreases n,
{
    if n > 0 {
        lemma_pieces_len(buf, ctrl, segs, n - 1, key);
    }
}

/// The contents of an entry are exactly as long as the original sizes of
/// its segments add up to: decryption keeps the length of each piece.
pub proof fn lemma_entry_size(buf: Seq<u8>, ctrl: Seq<u32>, e: FileView)
    ensures
        entry_data(buf, ctrl, e) matches Some(c) ==> c.len() == origin_total(e.seg, (e.segment_size as usize) as int),
{
    lemma_pieces_len(buf, ctrl, e.seg, (e.segment_size as usize) as int, e.key);
}

/// Once a segment cannot be read, no longer run of segments can be.
proof fn lemma_pieces_fail(buf: Seq<u8>, ctrl: Seq<u32>, segs: Seq<Segment>, m: int, n: int, key: u32)
    requires
        0 < m <= n,
        pieces(buf, ctrl, segs, m, key) is None,
    ensures
        pieces(buf, ctrl, segs, n, key) is None,
    decreases n - m,
{
    if m < n {
        lemma_pieces_fail(buf, ctrl, segs, m + 1, n, key);
    }
}

/// Opens the archive held in `buf`, whose header and index must be well
/// formed.
pub fn unpack(buf: &Vec<u8>) -> (r: Result<XP3, ()>)
    requires
        xp3_parse(buf@) is Some,
    ensures
        r matches Ok(x) && x@ == xp3_parse(buf@).unwrap(),
{
    let (header, _) = header::unpack(buf);
    #[verifier::truncate]
    let offset = header.offset as usize;
    let (info, _) = info::unpack(buf, offset);
    let copy = buf.clone();
    assert(copy@ =~= buf@);
    Ok(XP3 { header, info, buf: copy })
}

} // verus!
