//! The archive index: a run of chunks (`File`, `info`, `segm`, `adlr`, and
//! others that are skipped), each entry starting at a `File` chunk.

use vstd::prelude::*;
use vstd::utf8::encode_utf8;
use crate::segment::{self, segment_at, Segment};
use crate::utils::{self, le_at, utf16_at};

verus! {

/// The tag of a `File` chunk.
pub open spec fn tag_file() -> Seq<u8> {
    seq![0x46u8, 0x69, 0x6C, 0x65]
}

/// The tag of an `info` chunk.
pub open spec fn tag_info() -> Seq<u8> {
    seq![0x69u8, 0x6E, 0x66, 0x6F]
}

/// The tag of a `segm` chunk.
pub open spec fn tag_segm() -> Seq<u8> {
    seq![0x73u8, 0x65, 0x67, 0x6D]
}

/// The tag of an `adlr` chunk.
pub open spec fn tag_adlr() -> Seq<u8> {
    seq![0x61u8, 0x64, 0x6c, 0x72]
}

fn file_tag() -> (r: Vec<u8>)
    ensures
        r@ == tag_file(),
{
    vec![0x46, 0x69, 0x6C, 0x65]
}

fn info_tag() -> (r: Vec<u8>)
    ensures
        r@ == tag_info(),
{
    vec![0x69, 0x6E, 0x66, 0x6F]
}

fn segm_tag() -> (r: Vec<u8>)
    ensures
        r@ == tag_segm(),
{
    vec![0x73, 0x65, 0x67, 0x6D]
}

fn adlr_tag() -> (r: Vec<u8>)
    ensures
        r@ == tag_adlr(),
{
    vec![0x61, 0x64, 0x6c, 0x72]
}

/// One entry of the archive.
pub struct XP3File {
    /// Size of the `File` section.
    pub file_size: u64,
    /// Size of the `info` section.
    pub info_size: u64,
    /// Whether the file is encrypted.
    pub protect: u32,
    /// Entry size after extraction.
    pub rsize: u64,
    /// Entry size before extraction
    pub psize: u64,
    /// The length of the name.
    pub name_len: u16,
    /// File name.
    pub file_name: String,
    /// Size of the `segm` section.
    pub segment_size: u64,
    /// Segments.
    pub seg: Vec<Segment>,
    /// Size of the `adlr` section. (4 bytes)
    pub adler_size: u64,
    /// Adler-32 checksum.
    pub key: u32,
}

/// An entry as a value: the name as text and the segments as a sequence.
pub struct FileView {
    pub file_size: u64,
    pub info_size: u64,
    pub protect: u32,
    pub rsize: u64,
    pub psize: u64,
    pub name_len: u16,
    pub file_name: Seq<char>,
    pub segment_size: u64,
    pub seg: Seq<Segment>,
    pub adler_size: u64,
    pub key: u32,
}

impl View for XP3File {
    type V = FileView;

    open spec fn view(&self) -> FileView {
        FileView {
            file_size: self.file_size,
            info_size: self.info_size,
            protect: self.protect,
            rsize: self.rsize,
            psize: self.psize,
            name_len: self.name_len,
            file_name: self.file_name@,
            segment_size: self.segment_size,
            seg: self.seg@,
            adler_size: self.adler_size,
            key: self.key,
        }
    }
}

/// The entries as values.
pub open spec fn views(files: Seq<XP3File>) -> Seq<FileView> {
    files.map_values(|f: XP3File| f@)
}

/// An entry before any of its chunks is read.
pub open spec fn empty_entry() -> FileView {
    FileView {
        file_size: 0,
        info_size: 0,
        protect: 0,
        rsize: 0,
        psize: 0,
        name_len: 0,
        file_name: Seq::empty(),
        segment_size: 0,
        seg: Seq::empty(),
        adler_size: 0,
        key: 0,
    }
}

/// The value that the `protect` field of a protected entry holds.
pub open spec fn protected_flag() -> u32 {
    0x8000_0000
}

/// Reads the chunk at `off` (other than a `File` chunk that starts the next
/// entry) into entry `e`: gives the updated entry and the position after the
/// chunk, or `None` where the chunk is malformed.
pub open spec fn read_chunk(buf: Seq<u8>, off: int, e: FileView) -> Option<(FileView, int)> {
    let tag = buf.subrange(off, off + 4);
    let p = off + 4;
    if tag == tag_file() {
        if p + 8 > buf.len() {
            None
        } else {
            Some((FileView { file_size: le_at(buf, p, 8) as u64, ..e }, p + 8))
        }
    } else if tag == tag_adlr() {
        if p + 12 > buf.len() {
            None
        } else {
            Some((FileView { adler_size: le_at(buf, p, 8) as u64, key: le_at(buf, p + 8, 4) as u32, ..e }, p + 12))
        }
    } else if tag == tag_segm() {
        if p + 8 > buf.len() {
            None
        } else {
            let size = le_at(buf, p, 8);
            let count = size / 28;
            let first = p + 8;
            if size % 28 != 0 || first + 28 * count > buf.len() {
                None
            } else {
                let added = Seq::new(count, |k: int| segment_at(buf, first + 28 * k));
                Some((FileView { segment_size: count as u64, seg: e.seg + added, ..e }, first + 28 * count))
            }
        }
    } else if tag == tag_info() {
        if p + 30 > buf.len() {
            None
        } else {
            let protect = le_at(buf, p + 8, 4) as u32;
            let name_len = le_at(buf, p + 28, 2) as u16;
            let q = p + 30;
            if q + 2 * name_len > buf.len() {
                None
            } else {
                match utf16_at(buf, q, name_len as int) {
                    None => None,
                    Some(name) => {
                        if protect != 0 && protect != protected_flag() {
                            None
                        } else {
                            Some((FileView {
                                info_size: le_at(buf, p, 8) as u64,
                                protect,
                                rsize: le_at(buf, p + 12, 8) as u64,
                                psize: le_at(buf, p + 20, 8) as u64,
                                name_len,
                                file_name: name,
                                ..e
                            }, q + 2 * name_len))
                        }
                    },
                }
            }
        }
    } else {
        // an unrecognized chunk: its tag must be text, and it is skipped
        if !vstd::utf8::valid_utf8(tag) || p + 8 > buf.len() {
            None
        } else {
            let skip = (le_at(buf, p, 8) as u64) as usize;
            if p + 8 + skip > usize::MAX {
                None
            } else {
                Some((e, p + 8 + skip))
            }
        }
    }
}

/// The first position at or after `off` that does not hold a zero byte.
pub open spec fn skip_zeros(buf: Seq<u8>, off: int) -> int
    decreases buf.len() - off,
{
    if 0 <= off < buf.len() && buf[off] == 0 {
        skip_zeros(buf, off + 1)
    } else {
        off
    }
}

/// Skipping zeros moves forward and stays within the buffer.
pub proof fn lemma_skip_zeros(buf: Seq<u8>, off: int)
    requires
        0 <= off <= buf.len(),
    ensures
        off <= skip_zeros(buf, off) <= buf.len(),
    decreases buf.len() - off,
{
    if off < buf.len() && buf[off] == 0 {
        lemma_skip_zeros(buf, off + 1);
    }
}

/// A finished entry is kept unless its name takes 0x100 bytes or more as
/// UTF-8, which marks a bogus entry.
pub open spec fn keeps(e: FileView) -> bool {
    (encode_utf8(e.file_name).len() as usize) < 0x100
}

/// The entries that the index holds from position `off` on, given the entry
/// `e` being read (`has_file` once its `File` chunk is read), whether `off`
/// starts a new entry, and the entries `out` finished so far; `None` where
/// the index is malformed.
///
/// An entry ends where a second `File` chunk begins; an entry that the index
/// ends inside is not kept.
pub open spec fn parse_from(
    buf: Seq<u8>,
    off: int,
    e: FileView,
    has_file: bool,
    start: bool,
    out: Seq<FileView>,
) -> Option<Seq<FileView>>
    decreases buf.len() - off, if has_file { 1int } else { 0int },
{
    if off < 0 || (start && off + 4 > buf.len()) || (!start && off >= buf.len()) {
        Some(out)
    } else if off + 4 > buf.len() {
        None
    } else {
        let tag = buf.subrange(off, off + 4);
        if tag == tag_file() && has_file {
            let out2 = if keeps(e) { out.push(e) } else { out };
            parse_from(buf, off, empty_entry(), false, true, out2)
        } else {
            match read_chunk(buf, off, e) {
                None => None,
                Some((e2, next)) => {
                    if next >= buf.len() {
                        Some(out)
                    } else {
                        proof {
                            lemma_skip_zeros(buf, next);
                        }
                        parse_from(buf, skip_zeros(buf, next), e2, has_file || tag == tag_file(), false, out)
                    }
                },
            }
        }
    }
}

/// The entries of index `buf`; `None` where it is malformed.
pub open spec fn parse_files(buf: Seq<u8>) -> Option<Seq<FileView>> {
    parse_from(buf, 0, empty_entry(), false, true, Seq::empty())
}

/// Where the walk of `parse_from` stops: the position after the chunk that
/// reaches or runs past the end of the index, or the position at which the
/// walk stops otherwise.
pub open spec fn walk_end(buf: Seq<u8>, off: int, e: FileView, has_file: bool, start: bool) -> int
    decreases buf.len() - off, if has_file { 1int } else { 0int },
{
    if off < 0 || (start && off + 4 > buf.len()) || (!start && off >= buf.len()) || off + 4
        > buf.len() {
        off
    } else {
        let tag = buf.subrange(off, off + 4);
        if tag == tag_file() && has_file {
            walk_end(buf, off, empty_entry(), false, true)
        } else {
            match read_chunk(buf, off, e) {
                None => off,
                Some((e2, next)) => {
                    if next >= buf.len() {
                        next
                    } else {
                        proof {
                            lemma_skip_zeros(buf, next);
                        }
                        walk_end(buf, skip_zeros(buf, next), e2, has_file || tag == tag_file(), false)
                    }
                },
            }
        }
    }
}

/// An entry lists at least as many segments as its `segment_size` says.
pub open spec fn lists_its_segments(e: FileView) -> bool {
    e.segment_size <= e.seg.len()
}

proof fn lemma_read_chunk_keeps_segments(buf: Seq<u8>, off: int, e: FileView)
    requires
        0 <= off,
        off + 4 <= buf.len(),
        lists_its_segments(e),
    ensures
        read_chunk(buf, off, e) matches Some((e2, _)) ==> lists_its_segments(e2),
{
    let p = off + 4;
    if buf.subrange(off, off + 4) == tag_segm() && p + 8 <= buf.len() {
        utils::lemma_le_bound(buf.subrange(p, p + 8));
        assert(utils::pow256(8) == 0x1_0000_0000_0000_0000) by {
            reveal_with_fuel(utils::pow256, 9);
        }
    }
}

proof fn lemma_parse_from_keeps_segments(
    buf: Seq<u8>,
    off: int,
    e: FileView,
    has_file: bool,
    start: bool,
    out: Seq<FileView>,
)
    requires
        lists_its_segments(e),
        forall|i: int| 0 <= i < out.len() ==> lists_its_segments(#[trigger] out[i]),
    ensures
        parse_from(buf, off, e, has_file, start, out) matches Some(files) ==> forall|i: int|
            0 <= i < files.len() ==> lists_its_segments(#[trigger] files[i]),
    decreases buf.len() - off, if has_file { 1int } else { 0int },
{
    if off < 0 || (start && off + 4 > buf.len()) || (!start && off >= buf.len()) {
    } else if off + 4 > buf.len() {
    } else {
        let tag = buf.subrange(off, off + 4);
        if tag == tag_file() && has_file {
            let out2 = if keeps(e) { out.push(e) } else { out };
            assert forall|i: int| 0 <= i < out2.len() implies lists_its_segments(#[trigger] out2[i]) by {
                if i < out.len() {
                    assert(out2[i] == out[i]);
                }
            }
            lemma_parse_from_keeps_segments(buf, off, empty_entry(), false, true, out2);
        } else {
            lemma_read_chunk_keeps_segments(buf, off, e);
            match read_chunk(buf, off, e) {
                None => {},
                Some((e2, next)) => {
                    if next < buf.len() {
                        lemma_skip_zeros(buf, next);
                        lemma_parse_from_keeps_segments(
                            buf,
                            skip_zeros(buf, next),
                            e2,
                            has_file || tag == tag_file(),
                            false,
                            out,
                        );
                    }
                },
            }
        }
    }
}

/// Every entry of a well-formed index lists at least `segment_size`
/// segments, so reading its segments never runs past its segment list.
pub proof fn lemma_entries_list_their_segments(buf: Seq<u8>)
    ensures
        parse_files(buf) matches Some(files) ==> forall|i: int|
            0 <= i < files.len() ==> lists_its_segments(#[trigger] files[i]),
{
    lemma_parse_from_keeps_segments(buf, 0, empty_entry(), false, true, Seq::empty());
}

proof fn lemma_parse_from_extends(
    buf: Seq<u8>,
    off: int,
    e: FileView,
    has_file: bool,
    start: bool,
    out: Seq<FileView>,
)
    ensures
        parse_from(buf, off, e, has_file, start, out) matches Some(v) ==> out.len() <= v.len() && v.subrange(
            0,
            out.len() as int,
        ) == out,
    decreases buf.len() - off, if has_file { 1int } else { 0int },
{
    if off < 0 || (start && off + 4 > buf.len()) || (!start && off >= buf.len()) || off + 4 > buf.len() {
        if let Some(v) = parse_from(buf, off, e, has_file, start, out) {
            assert(v.subrange(0, out.len() as int) =~= out);
        }
    } else {
        let tag = buf.subrange(off, off + 4);
        if tag == tag_file() && has_file {
            let out2 = if keeps(e) { out.push(e) } else { out };
            lemma_parse_from_extends(buf, off, empty_entry(), false, true, out2);
            if let Some(v) = parse_from(buf, off, e, has_file, start, out) {
                assert(v.subrange(0, out.len() as int) =~= v.subrange(0, out2.len() as int).subrange(
                    0,
                    out.len() as int,
                ));
                assert(out2.subrange(0, out.len() as int) =~= out);
            }
        } else {
            match read_chunk(buf, off, e) {
                None => {},
                Some((e2, next)) => {
                    if next >= buf.len() {
                        assert(out.subrange(0, out.len() as int) =~= out);
                    } else {
                        lemma_skip_zeros(buf, next);
                        lemma_parse_from_extends(buf, skip_zeros(buf, next), e2, has_file || tag == tag_file(), false, out);
                    }
                },
            }
        }
    }
}

/// Where the walk meets the `File` chunk that starts the next entry, the
/// entry it was reading is finished: one whose name takes fewer than 0x100
/// bytes as UTF-8 follows the entries finished before it, in the entries of
/// the index; one whose name takes 0x100 bytes or more is dropped, and the
/// walk goes on from the new entry as if it had not been read.
pub proof fn lemma_entry_closed(buf: Seq<u8>, off: int, e: FileView, start: bool, out: Seq<FileView>)
    requires
        0 <= off,
        off + 4 <= buf.len(),
        buf.subrange(off, off + 4) == tag_file(),
    ensures
        encode_utf8(e.file_name).len() < 0x100 ==> (parse_from(buf, off, e, true, start, out) matches Some(v) ==> {
            &&& out.len() < v.len()
            &&& v.subrange(0, out.len() as int) == out
            &&& v[out.len() as int] == e
        }),
        0x100 <= encode_utf8(e.file_name).len() <= usize::MAX ==> parse_from(buf, off, e, true, start, out)
            == parse_from(buf, off, empty_entry(), false, true, out),
{
    if encode_utf8(e.file_name).len() < 0x100 {
        lemma_parse_from_extends(buf, off, empty_entry(), false, true, out.push(e));
        if let Some(v) = parse_from(buf, off, e, true, start, out) {
            assert(v[out.len() as int] == v.subrange(0, out.len() + 1 as int)[out.len() as int]);
            assert(v.subrange(0, out.len() as int) =~= v.subrange(0, out.len() + 1 as int).subrange(0, out.len() as int));
            assert(out.push(e).subrange(0, out.len() as int) =~= out);
        }
    }
}

proof fn lemma_parse_from_short_names(
    buf: Seq<u8>,
    off: int,
    e: FileView,
    has_file: bool,
    start: bool,
    out: Seq<FileView>,
)
    requires
        forall|i: int| 0 <= i < out.len() ==> (encode_utf8(#[trigger] out[i].file_name).len() as usize) < 0x100,
    ensures
        parse_from(buf, off, e, has_file, start, out) matches Some(v) ==> forall|i: int|
            0 <= i < v.len() ==> (encode_utf8(#[trigger] v[i].file_name).len() as usize) < 0x100,
    decreases buf.len() - off, if has_file { 1int } else { 0int },
{
    if off < 0 || (start && off + 4 > buf.len()) || (!start && off >= buf.len()) || off + 4 > buf.len() {
    } else {
        let tag = buf.subrange(off, off + 4);
        if tag == tag_file() && has_file {
            let out2 = if keeps(e) { out.push(e) } else { out };
            assert forall|i: int| 0 <= i < out2.len() implies (encode_utf8(#[trigger] out2[i].file_name).len() as usize)
                < 0x100 by {
                if i < out.len() {
                    assert(out2[i] == out[i]);
                }
            }
            lemma_parse_from_short_names(buf, off, empty_entry(), false, true, out2);
        } else {
            match read_chunk(buf, off, e) {
                None => {},
                Some((e2, next)) => {
                    if next < buf.len() {
                        lemma_skip_zeros(buf, next);
                        lemma_parse_from_short_names(buf, skip_zeros(buf, next), e2, has_file || tag == tag_file(), false, out);
                    }
                },
            }
        }
    }
}

/// No entry of a well-formed index has a name of 0x100 bytes or more as
/// UTF-8 (counted in a `usize`).
pub proof fn lemma_entries_have_short_names(buf: Seq<u8>)
    ensures
        parse_files(buf) matches Some(v) ==> forall|i: int|
            0 <= i < v.len() ==> (encode_utf8(#[trigger] v[i].file_name).len() as usize) < 0x100,
{
    lemma_parse_from_short_names(buf, 0, empty_entry(), false, true, Seq::empty());
}

proof fn lemma_subrange_shift(x: Seq<u8>, r: Seq<u8>, a: int, b: int)
    requires
        0 <= a <= b <= r.len(),
    ensures
        (x + r).subrange(x.len() + a, x.len() + b) == r.subrange(a, b),
{
    assert((x + r).subrange(x.len() + a, x.len() + b) =~= r.subrange(a, b));
}

proof fn lemma_le_at_shift(x: Seq<u8>, r: Seq<u8>, a: int, n: int)
    requires
        0 <= a,
        0 <= n,
        a + n <= r.len(),
    ensures
        le_at(x + r, x.len() + a, n) == le_at(r, a, n),
{
    lemma_subrange_shift(x, r, a, a + n);
}

proof fn lemma_segment_at_shift(x: Seq<u8>, r: Seq<u8>, a: int)
    requires
        0 <= a,
        a + 28 <= r.len(),
    ensures
        segment_at(x + r, x.len() + a) == segment_at(r, a),
{
    lemma_le_at_shift(x, r, a, 4);
    lemma_le_at_shift(x, r, a + 4, 8);
    lemma_le_at_shift(x, r, a + 12, 8);
    lemma_le_at_shift(x, r, a + 20, 8);
}

proof fn lemma_skip_zeros_shift(x: Seq<u8>, r: Seq<u8>, o: int)
    requires
        0 <= o <= r.len(),
    ensures
        skip_zeros(x + r, x.len() + o) == x.len() + skip_zeros(r, o),
    decreases r.len() - o,
{
    if o < r.len() {
        assert((x + r)[x.len() + o] == r[o]);
        if r[o] == 0 {
            lemma_skip_zeros_shift(x, r, o + 1);
        }
    }
}

/// Reading a chunk goes by the bytes from the chunk on: the same bytes
/// after another prefix read the same, at a position moved by as much,
/// where the moved end of a skipped chunk still fits in `usize` (as it does
/// after a shorter prefix).
proof fn lemma_read_chunk_shift(x: Seq<u8>, y: Seq<u8>, r: Seq<u8>, o: int, e: FileView)
    requires
        0 <= o,
        o + 4 <= r.len(),
    ensures
        read_chunk(y + r, y.len() + o, e) matches Some((e2, n)) ==> n >= y.len() + o + 4 && ((x.len()
            <= y.len() || n - y.len() + x.len() <= usize::MAX) ==> read_chunk(x + r, x.len() + o, e)
            == Some((e2, n - y.len() + x.len()))),
{
    lemma_subrange_shift(x, r, o, o + 4);
    lemma_subrange_shift(y, r, o, o + 4);
    let tag = r.subrange(o, o + 4);
    let p = o + 4;
    if tag == tag_file() {
        if p + 8 <= r.len() {
            lemma_le_at_shift(x, r, p, 8);
            lemma_le_at_shift(y, r, p, 8);
        }
    } else if tag == tag_adlr() {
        if p + 12 <= r.len() {
            lemma_le_at_shift(x, r, p, 8);
            lemma_le_at_shift(y, r, p, 8);
            lemma_le_at_shift(x, r, p + 8, 4);
            lemma_le_at_shift(y, r, p + 8, 4);
        }
    } else if tag == tag_segm() {
        if p + 8 <= r.len() {
            lemma_le_at_shift(x, r, p, 8);
            lemma_le_at_shift(y, r, p, 8);
            let size = le_at(r, p, 8);
            let count = size / 28;
            let first = p + 8;
            if size % 28 == 0 && first + 28 * count <= r.len() {
                let ax = Seq::new(count, |k: int| segment_at(x + r, x.len() + first + 28 * k));
                let ay = Seq::new(count, |k: int| segment_at(y + r, y.len() + first + 28 * k));
                assert forall|k: int| 0 <= k < count implies ax[k] == ay[k] by {
                    lemma_segment_at_shift(x, r, first + 28 * k);
                    lemma_segment_at_shift(y, r, first + 28 * k);
                }
                assert(ax =~= ay);
            }
        }
    } else if tag == tag_info() {
        if p + 30 <= r.len() {
            lemma_le_at_shift(x, r, p, 8);
            lemma_le_at_shift(y, r, p, 8);
            lemma_le_at_shift(x, r, p + 8, 4);
            lemma_le_at_shift(y, r, p + 8, 4);
            lemma_le_at_shift(x, r, p + 12, 8);
            lemma_le_at_shift(y, r, p + 12, 8);
            lemma_le_at_shift(x, r, p + 20, 8);
            lemma_le_at_shift(y, r, p + 20, 8);
            lemma_le_at_shift(x, r, p + 28, 2);
            lemma_le_at_shift(y, r, p + 28, 2);
            let name_len = le_at(r, p + 28, 2) as u16;
            let q = p + 30;
            if q + 2 * name_len <= r.len() {
                lemma_subrange_shift(x, r, q, q + 2 * name_len);
                lemma_subrange_shift(y, r, q, q + 2 * name_len);
            }
        }
    } else {
        if p + 8 <= r.len() {
            lemma_le_at_shift(x, r, p, 8);
            lemma_le_at_shift(y, r, p, 8);
        }
    }
}

/// The walk goes by the bytes from its position on: the same bytes after
/// another prefix give the same entries, where they give any and the moved
/// positions still fit in `usize`. (After a shorter prefix they always do.)
proof fn lemma_parse_from_shift(
    x: Seq<u8>,
    y: Seq<u8>,
    r: Seq<u8>,
    o: int,
    e: FileView,
    has_file: bool,
    start: bool,
    out: Seq<FileView>,
)
    requires
        0 <= o,
        x.len() <= y.len() || ((x + r).len() <= usize::MAX && walk_end(
            y + r,
            y.len() + o,
            e,
            has_file,
            start,
        ) - y.len() + x.len() <= usize::MAX),
    ensures
        parse_from(y + r, y.len() + o, e, has_file, start, out) matches Some(v) ==> parse_from(
            x + r,
            x.len() + o,
            e,
            has_file,
            start,
            out,
        ) == Some(v),
    decreases r.len() - o, if has_file { 1int } else { 0int },
{
    if (start && o + 4 > r.len()) || (!start && o >= r.len()) {
    } else if o + 4 > r.len() {
    } else {
        lemma_subrange_shift(x, r, o, o + 4);
        lemma_subrange_shift(y, r, o, o + 4);
        let tag = r.subrange(o, o + 4);
        if tag == tag_file() && has_file {
            let out2 = if keeps(e) { out.push(e) } else { out };
            lemma_parse_from_shift(x, y, r, o, empty_entry(), false, true, out2);
        } else {
            lemma_read_chunk_shift(x, y, r, o, e);
            match read_chunk(y + r, y.len() + o, e) {
                None => {},
                Some((e2, ny)) => {
                    let nr = ny - y.len();
                    if nr < r.len() {
                        lemma_skip_zeros_shift(x, r, nr);
                        lemma_skip_zeros_shift(y, r, nr);
                        lemma_skip_zeros(r, nr);
                        lemma_parse_from_shift(
                            x,
                            y,
                            r,
                            skip_zeros(r, nr),
                            e2,
                            has_file || tag == tag_file(),
                            false,
                            out,
                        );
                    }
                },
            }
        }
    }
}

/// An unrecognized chunk whose tag is text, put between two chunks of the
/// index, changes no entry: it is skipped by its size. Where the index with
/// the chunk put in gives entries, the index without it gives the same.
pub proof fn lemma_unknown_chunk_skipped(
    a: Seq<u8>,
    c: Seq<u8>,
    rest: Seq<u8>,
    e: FileView,
    has_file: bool,
    out: Seq<FileView>,
)
    requires
        c.len() >= 12,
        vstd::utf8::valid_utf8(c.subrange(0, 4)),
        c.subrange(0, 4) != tag_file(),
        c.subrange(0, 4) != tag_info(),
        c.subrange(0, 4) != tag_segm(),
        c.subrange(0, 4) != tag_adlr(),
        le_at(c, 4, 8) == c.len() - 12,
        a.len() + c.len() + rest.len() <= usize::MAX,
        rest.len() == 0 || rest[0] != 0,
    ensures
        parse_from(a + c + rest, a.len() as int, e, has_file, false, out) matches Some(v) ==> parse_from(
            a + rest,
            a.len() as int,
            e,
            has_file,
            false,
            out,
        ) == Some(v),
{
    let buf2 = a + c + rest;
    let ac = a + c;
    assert(buf2 == ac + rest);
    let off = a.len() as int;
    assert(buf2.subrange(off, off + 4) =~= c.subrange(0, 4));
    assert(buf2.subrange(off + 4, off + 12) =~= c.subrange(4, 12));
    utils::lemma_le_bound(c.subrange(4, 12));
    assert(utils::pow256(8) == 0x1_0000_0000_0000_0000) by {
        reveal_with_fuel(utils::pow256, 9);
    }
    assert(read_chunk(buf2, off, e) == Some((e, off + c.len())));
    if rest.len() > 0 {
        assert(buf2[off + c.len()] == rest[0]);
        assert(skip_zeros(buf2, off + c.len()) == off + c.len());
        lemma_parse_from_shift(a, ac, rest, 0, e, has_file, false, out);
    }
}

/// An unrecognized chunk whose tag is text, put between two chunks of the
/// index, changes nothing: the index with the chunk put in is well-formed
/// exactly where the index without it is, and gives the same entries. This
/// holds wherever the walk without the chunk ends within `usize::MAX` less
/// the chunk's length (the chunk moves that end by its length).
pub proof fn lemma_unknown_chunk_changes_nothing(
    a: Seq<u8>,
    c: Seq<u8>,
    rest: Seq<u8>,
    e: FileView,
    has_file: bool,
    out: Seq<FileView>,
)
    requires
        c.len() >= 12,
        vstd::utf8::valid_utf8(c.subrange(0, 4)),
        c.subrange(0, 4) != tag_file(),
        c.subrange(0, 4) != tag_info(),
        c.subrange(0, 4) != tag_segm(),
        c.subrange(0, 4) != tag_adlr(),
        le_at(c, 4, 8) == c.len() - 12,
        a.len() + c.len() + rest.len() <= usize::MAX,
        rest.len() == 0 || rest[0] != 0,
        walk_end(a + rest, a.len() as int, e, has_file, false) + c.len() <= usize::MAX,
    ensures
        parse_from(a + c + rest, a.len() as int, e, has_file, false, out) == parse_from(
            a + rest,
            a.len() as int,
            e,
            has_file,
            false,
            out,
        ),
{
    lemma_unknown_chunk_skipped(a, c, rest, e, has_file, out);
    let buf2 = a + c + rest;
    let ac = a + c;
    assert(buf2 == ac + rest);
    let off = a.len() as int;
    assert(buf2.subrange(off, off + 4) =~= c.subrange(0, 4));
    assert(buf2.subrange(off + 4, off + 12) =~= c.subrange(4, 12));
    utils::lemma_le_bound(c.subrange(4, 12));
    assert(utils::pow256(8) == 0x1_0000_0000_0000_0000) by {
        reveal_with_fuel(utils::pow256, 9);
    }
    assert(read_chunk(buf2, off, e) == Some((e, off + c.len())));
    if rest.len() > 0 {
        assert(buf2[off + c.len()] == rest[0]);
        assert(skip_zeros(buf2, off + c.len()) == off + c.len());
        lemma_parse_from_shift(ac, a, rest, 0, e, has_file, false, out);
    }
}

/// The state in which the walk of `parse_from` from `off` first stands at
/// position `t` on a chunk boundary (not at the start of a new entry): the
/// entry being read, whether its `File` chunk was read, and the entries
/// finished so far; `None` where the walk stops or passes `t` first.
pub open spec fn walk_to(
    buf: Seq<u8>,
    off: int,
    e: FileView,
    has_file: bool,
    start: bool,
    out: Seq<FileView>,
    t: int,
) -> Option<(FileView, bool, Seq<FileView>)>
    decreases buf.len() - off, if has_file { 1int } else { 0int },
{
    if off == t && !start {
        Some((e, has_file, out))
    } else if off > t || off < 0 || (start && off + 4 > buf.len()) || (!start && off >= buf.len())
        || off + 4 > buf.len() {
        None
    } else {
        let tag = buf.subrange(off, off + 4);
        if tag == tag_file() && has_file {
            let out2 = if keeps(e) { out.push(e) } else { out };
            walk_to(buf, off, empty_entry(), false, true, out2, t)
        } else {
            match read_chunk(buf, off, e) {
                None => None,
                Some((e2, next)) => {
                    if next >= buf.len() {
                        None
                    } else {
                        proof {
                            lemma_skip_zeros(buf, next);
                        }
                        walk_to(buf, skip_zeros(buf, next), e2, has_file || tag == tag_file(), false, out, t)
                    }
                },
            }
        }
    }
}

/// Where the walk stands at `t`, the rest of the walk, and so its entries
/// and where it stops, are those of the walk from `t`.
proof fn lemma_walk_to_rest(
    buf: Seq<u8>,
    off: int,
    e: FileView,
    has_file: bool,
    start: bool,
    out: Seq<FileView>,
    t: int,
)
    requires
        walk_to(buf, off, e, has_file, start, out, t) is Some,
    ensures
        ({
            let (e1, h1, o1) = walk_to(buf, off, e, has_file, start, out, t).unwrap();
            &&& parse_from(buf, off, e, has_file, start, out) == parse_from(buf, t, e1, h1, false, o1)
            &&& walk_end(buf, off, e, has_file, start) == walk_end(buf, t, e1, h1, false)
        }),
        off <= t,
        off < t || start ==> off + 4 <= t,
    decreases buf.len() - off, if has_file { 1int } else { 0int },
{
    if off == t && !start {
    } else {
        let tag = buf.subrange(off, off + 4);
        if tag == tag_file() && has_file {
            let out2 = if keeps(e) { out.push(e) } else { out };
            lemma_walk_to_rest(buf, off, empty_entry(), false, true, out2, t);
        } else {
            let (e2, next) = read_chunk(buf, off, e).unwrap();
            lemma_skip_zeros(buf, next);
            lemma_walk_to_rest(buf, skip_zeros(buf, next), e2, has_file || tag == tag_file(), false, out, t);
        }
    }
}

proof fn lemma_prefix_subrange(a: Seq<u8>, r1: Seq<u8>, r2: Seq<u8>, i: int, j: int)
    requires
        0 <= i <= j <= a.len(),
    ensures
        (a + r1).subrange(i, j) == (a + r2).subrange(i, j),
{
    assert((a + r1).subrange(i, j) =~= (a + r2).subrange(i, j));
}

/// A chunk that ends within `a` reads the same whatever follows `a`.
proof fn lemma_read_chunk_prefix(a: Seq<u8>, r1: Seq<u8>, r2: Seq<u8>, off: int, e: FileView)
    requires
        0 <= off,
        off + 4 <= a.len(),
        read_chunk(a + r1, off, e) matches Some((_, n)) && n <= a.len(),
    ensures
        read_chunk(a + r2, off, e) == read_chunk(a + r1, off, e),
{
    let (x, y) = (a + r1, a + r2);
    let (_, n) = read_chunk(x, off, e).unwrap();
    lemma_prefix_subrange(a, r1, r2, off, off + 4);
    let tag = x.subrange(off, off + 4);
    let p = off + 4;
    if tag == tag_file() || tag == tag_segm() {
        lemma_prefix_subrange(a, r1, r2, p, p + 8);
        if tag == tag_segm() {
            let size = le_at(x, p, 8);
            let count = size / 28;
            let first = p + 8;
            let ax = Seq::new(count, |k: int| segment_at(x, first + 28 * k));
            let ay = Seq::new(count, |k: int| segment_at(y, first + 28 * k));
            assert forall|k: int| 0 <= k < count implies ax[k] == ay[k] by {
                let o = first + 28 * k;
                lemma_prefix_subrange(a, r1, r2, o, o + 4);
                lemma_prefix_subrange(a, r1, r2, o + 4, o + 12);
                lemma_prefix_subrange(a, r1, r2, o + 12, o + 20);
                lemma_prefix_subrange(a, r1, r2, o + 20, o + 28);
            }
            assert(ax =~= ay);
        }
    } else if tag == tag_adlr() {
        lemma_prefix_subrange(a, r1, r2, p, p + 8);
        lemma_prefix_subrange(a, r1, r2, p + 8, p + 12);
    } else if tag == tag_info() {
        lemma_prefix_subrange(a, r1, r2, p, p + 8);
        lemma_prefix_subrange(a, r1, r2, p + 8, p + 12);
        lemma_prefix_subrange(a, r1, r2, p + 12, p + 20);
        lemma_prefix_subrange(a, r1, r2, p + 20, p + 28);
        lemma_prefix_subrange(a, r1, r2, p + 28, p + 30);
        let name_len = le_at(x, p + 28, 2) as u16;
        let q = p + 30;
        lemma_prefix_subrange(a, r1, r2, q, q + 2 * name_len);
    } else {
        lemma_prefix_subrange(a, r1, r2, p, p + 8);
    }
}

/// Zeros skipped up to at most the end of `a` are skipped alike whatever
/// follows `a`, so long as it does not start with a zero.
proof fn lemma_skip_zeros_prefix(a: Seq<u8>, r1: Seq<u8>, r2: Seq<u8>, n: int)
    requires
        0 <= n <= a.len(),
        skip_zeros(a + r1, n) <= a.len(),
        r2.len() == 0 || r2[0] != 0,
    ensures
        skip_zeros(a + r2, n) == skip_zeros(a + r1, n),
    decreases a.len() - n,
{
    if n < a.len() {
        assert((a + r1)[n] == a[n]);
        assert((a + r2)[n] == a[n]);
        if a[n] == 0 {
            lemma_skip_zeros_prefix(a, r1, r2, n + 1);
        }
    } else {
        lemma_skip_zeros(a + r1, n);
        if r2.len() > 0 {
            assert((a + r2)[n] == r2[0]);
        }
    }
}

/// The walk up to a chunk boundary at the end of `a` goes by `a` alone:
/// it stands there in the same state whatever follows `a`, so long as
/// something does and it does not start with a zero.
proof fn lemma_walk_to_prefix(
    a: Seq<u8>,
    r1: Seq<u8>,
    r2: Seq<u8>,
    off: int,
    e: FileView,
    has_file: bool,
    start: bool,
    out: Seq<FileView>,
)
    requires
        walk_to(a + r1, off, e, has_file, start, out, a.len() as int) is Some,
        r2.len() > 0,
        r2[0] != 0,
    ensures
        walk_to(a + r2, off, e, has_file, start, out, a.len() as int) == walk_to(
            a + r1,
            off,
            e,
            has_file,
            start,
            out,
            a.len() as int,
        ),
    decreases a.len() + r1.len() - off, if has_file { 1int } else { 0int },
{
    let t = a.len() as int;
    let (x, y) = (a + r1, a + r2);
    lemma_walk_to_rest(x, off, e, has_file, start, out, t);
    if off == t && !start {
    } else {
        lemma_prefix_subrange(a, r1, r2, off, off + 4);
        let tag = x.subrange(off, off + 4);
        if tag == tag_file() && has_file {
            let out2 = if keeps(e) { out.push(e) } else { out };
            lemma_walk_to_prefix(a, r1, r2, off, empty_entry(), false, true, out2);
        } else {
            let (e2, next) = read_chunk(x, off, e).unwrap();
            lemma_skip_zeros(x, next);
            let o2 = skip_zeros(x, next);
            lemma_walk_to_rest(x, o2, e2, has_file || tag == tag_file(), false, out, t);
            lemma_read_chunk_prefix(a, r1, r2, off, e);
            lemma_skip_zeros_prefix(a, r1, r2, next);
            lemma_walk_to_prefix(a, r1, r2, o2, e2, has_file || tag == tag_file(), false, out);
        }
    }
}

/// Where a chunk starts, whether it also starts a new entry changes nothing.
proof fn lemma_start_at_a_chunk(buf: Seq<u8>, off: int, e: FileView, has_file: bool, out: Seq<FileView>)
    requires
        0 <= off,
        off + 4 <= buf.len(),
    ensures
        parse_from(buf, off, e, has_file, true, out) == parse_from(buf, off, e, has_file, false, out),
        walk_end(buf, off, e, has_file, true) == walk_end(buf, off, e, has_file, false),
{
}

/// An unrecognized chunk whose tag is text, put into an index at a chunk
/// boundary (where the walk over the index stands between two chunks, or at
/// the very start), changes nothing: the index with the chunk put in is
/// well-formed exactly where the index without it is, and gives the same
/// entries. Left out are the inputs on which this fails: a chunk whose
/// first byte is zero, put in after another chunk (the zeros that pad chunks
/// would be skipped into it), a chunk put in at the very start of an index
/// of 1 to 3 bytes, and a walk that ends beyond `usize::MAX` less the
/// chunk's length.
pub proof fn lemma_unknown_chunk_in_index(a: Seq<u8>, c: Seq<u8>, rest: Seq<u8>)
    requires
        c.len() >= 12,
        vstd::utf8::valid_utf8(c.subrange(0, 4)),
        c.subrange(0, 4) != tag_file(),
        c.subrange(0, 4) != tag_info(),
        c.subrange(0, 4) != tag_segm(),
        c.subrange(0, 4) != tag_adlr(),
        le_at(c, 4, 8) == c.len() - 12,
        a.len() + c.len() + rest.len() <= usize::MAX,
        rest.len() == 0 || rest[0] != 0,
        a.len() == 0 ==> rest.len() == 0 || rest.len() >= 4,
        a.len() > 0 ==> c[0] != 0 && walk_to(
            a + rest,
            0,
            empty_entry(),
            false,
            true,
            Seq::empty(),
            a.len() as int,
        ) is Some,
        walk_end(a + rest, 0, empty_entry(), false, true) + c.len() <= usize::MAX,
    ensures
        parse_files(a + c + rest) == parse_files(a + rest),
{
    let z = Seq::<FileView>::empty();
    if a.len() > 0 {
        let t = a.len() as int;
        assert(a + c + rest =~= a + (c + rest));
        let (e1, h1, o1) = walk_to(a + rest, 0, empty_entry(), false, true, z, t).unwrap();
        lemma_walk_to_rest(a + rest, 0, empty_entry(), false, true, z, t);
        lemma_walk_to_prefix(a, rest, c + rest, 0, empty_entry(), false, true, z);
        lemma_walk_to_rest(a + (c + rest), 0, empty_entry(), false, true, z, t);
        lemma_unknown_chunk_changes_nothing(a, c, rest, e1, h1, o1);
    } else {
        assert(a + c + rest =~= c + rest);
        assert(a + rest =~= rest);
        lemma_start_at_a_chunk(a + c + rest, 0, empty_entry(), false, z);
        if rest.len() >= 4 {
            lemma_start_at_a_chunk(a + rest, 0, empty_entry(), false, z);
        }
        lemma_unknown_chunk_changes_nothing(a, c, rest, empty_entry(), false, z);
    }
}

fn new_entry() -> (r: XP3File)
    ensures
        r@ == empty_entry(),
{
    XP3File {
        file_size: 0,
        info_size: 0,
        protect: 0,
        rsize: 0,
        psize: 0,
        name_len: 0,
        file_name: String::new(),
        segment_size: 0,
        seg: Vec::new(),
        adler_size: 0,
        key: 0,
    }
}

/// Tells whether the bytes of `buf` at `offset` are `tag`.
fn tag_is(buf: &Vec<u8>, offset: usize, tag: &Vec<u8>) -> (r: bool)
    requires
        offset + tag@.len() <= buf@.len(),
    ensures
        r == (buf@.subrange(offset as int, offset + tag@.len()) == tag@),
{
    proof {
        if utils::assert_overruns(buf@, tag@, offset as int) {
            let j = choose|j: int| utils::runs_past_at(buf@, tag@, offset as int, j);
            assert(utils::runs_past_at(buf@, tag@, offset as int, j));
        }
    }
    let r = utils::assert_at(buf.as_slice(), tag.as_slice(), offset);
    proof {
        let sub = buf@.subrange(offset as int, offset + tag@.len());
        if r {
            assert forall|i: int| 0 <= i < tag@.len() implies sub[i] == tag@[i] by {
                assert(utils::byte_matches(buf@, tag@, offset as int, i));
            }
            assert(sub =~= tag@);
        } else {
            if sub == tag@ {
                assert forall|i: int| 0 <= i < tag@.len() implies #[trigger] utils::byte_matches(buf@, tag@, offset as int, i) by {
                    assert(sub[i] == buf@[offset + i]);
                }
            }
        }
    }
    r
}

/// Reads the chunk at `offset` into `cur`; gives the position after it, or
/// `None` where the chunk is malformed.
#[verifier::loop_isolation(false)]
fn read_chunk_into(buf: &Vec<u8>, offset: usize, cur: &mut XP3File) -> (r: Option<usize>)
    requires
        offset + 4 <= buf@.len(),
    ensures
        match read_chunk(buf@, offset as int, old(cur)@) {
            None => r is None,
            Some((e, next)) => r matches Some(n) && n == next && final(cur)@ == e,
        },
{
    let len = buf.len();
    let ghost e = cur@;
    let ghost tag = buf@.subrange(offset as int, offset + 4);
    let start = offset;
    let mut offset = offset + 4;
    if tag_is(buf, start, &file_tag()) {
        if len - offset < 8 {
            return None;
        }
        cur.file_size = utils::read_u64(buf, &mut offset);
        Some(offset)
    } else if tag_is(buf, start, &adlr_tag()) {
        if len - offset < 12 {
            return None;
        }
        cur.adler_size = utils::read_u64(buf, &mut offset);
        cur.key = utils::read_u32(buf, &mut offset);
        Some(offset)
    } else if tag_is(buf, start, &segm_tag()) {
        if len - offset < 8 {
            return None;
        }
        let size = utils::read_u64(buf, &mut offset);
        if size % 28 != 0 {
            return None;
        }
        let count = size / 28;
        let ghost first = offset as int;
        let ghost seg0 = cur.seg@;
        let mut k: u64 = 0;
        while k < count
            invariant
                len == buf@.len(),
                first + 8 <= len + 8,
                offset == first + 28 * k,
                offset <= len,
                k <= count,
                count == le_at(buf@, start + 4, 8) / 28,
                cur.seg@ =~= seg0 + Seq::new(k as nat, |i: int| segment_at(buf@, first + 28 * i)),
                cur@ == (FileView { seg: cur.seg@, ..e }),
            decreases count - k,
        {
            if len - offset < 28 {
                return None;
            }
            let (s, o) = segment::unpack(buf, offset);
            offset = o;
            cur.seg.push(s);
            k = k + 1;
        }
        cur.segment_size = count;
        Some(offset)
    } else if tag_is(buf, start, &info_tag()) {
        if len - offset < 30 {
            return None;
        }
        let info_size = utils::read_u64(buf, &mut offset);
        let protect = utils::read_u32(buf, &mut offset);
        let rsize = utils::read_u64(buf, &mut offset);
        let psize = utils::read_u64(buf, &mut offset);
        let name_len = utils::read_u16(buf, &mut offset);
        if len - offset < 2 * (name_len as usize) {
            return None;
        }
        let file_name = match utils::decode_utf16_at(buf, offset, name_len) {
            Some(name) => name,
            None => return None,
        };
        offset = offset + 2 * (name_len as usize);
        if protect != 0 && protect != 0x8000_0000 {
            return None;
        }
        cur.info_size = info_size;
        cur.protect = protect;
        cur.rsize = rsize;
        cur.psize = psize;
        cur.name_len = name_len;
        cur.file_name = file_name;
        Some(offset)
    } else {
        let t = vec![buf[start], buf[start + 1], buf[start + 2], buf[start + 3]];
        assert(t@ =~= tag);
        if !utils::is_utf8(t.as_slice()) {
            return None;
        }
        if len - offset < 8 {
            return None;
        }
        let size = utils::read_u64(buf, &mut offset);
        #[verifier::truncate]
        let skip = size as usize;
        if skip > usize::MAX - offset {
            return None;
        }
        Some(offset + skip)
    }
}

/// Reads the index; `None` where it is malformed.
pub fn parse_index(buf: &Vec<u8>) -> (r: Option<Vec<XP3File>>)
    ensures
        match r {
            Some(v) => parse_files(buf@) == Some(views(v@)),
            None => parse_files(buf@) is None,
        },
{
    let len = buf.len();
    let mut offset: usize = 0;
    let mut ret: Vec<XP3File> = Vec::new();
    let mut cur = new_entry();
    let mut has_file = false;
    let mut start = true;
    assert(views(ret@) =~= Seq::<FileView>::empty());
    loop
        invariant
            len == buf@.len(),
            offset <= len,
            parse_from(buf@, offset as int, cur@, has_file, start, views(ret@)) == parse_files(buf@),
        decreases len - offset, if has_file { 1int } else { 0int },
    {
        if start {
            if len < 4 || offset > len - 4 {
                return Some(ret);
            }
        } else if offset >= len {
            return Some(ret);
        }
        if len - offset < 4 {
            return None;
        }
        let is_file = tag_is(buf, offset, &file_tag());
        if is_file && has_file {
            let name_bytes = cur.file_name.as_str().len();
            let done = cur;
            cur = new_entry();
            if name_bytes < 0x100 {
                proof {
                    assert(views(ret@.push(done)) =~= views(ret@).push(done@));
                }
                ret.push(done);
            }
            has_file = false;
            start = true;
        } else {
            match read_chunk_into(buf, offset, &mut cur) {
                None => {
                    return None;
                },
                Some(next) => {
                    if next >= len {
                        return Some(ret);
                    }
                    offset = next;
                    proof {
                        lemma_skip_zeros(buf@, next as int);
                    }
                    while offset < len && buf[offset] == 0
                        invariant
                            len == buf@.len(),
                            next <= offset <= len,
                            skip_zeros(buf@, offset as int) == skip_zeros(buf@, next as int),
                        decreases len - offset,
                    {
                        offset = offset + 1;
                    }
                    has_file = has_file || is_file;
                    start = false;
                }
            }
        }
    }
}

/// Reads the index of `buf`, whose entries must be well formed.
pub fn unpack(buf: &mut Vec<u8>) -> (r: Vec<XP3File>)
    requires
        parse_files(old(buf)@) is Some,
    ensures
        parse_files(old(buf)@) == Some(views(r@)),
        final(buf)@ == old(buf)@,
{
    match parse_index(buf) {
        Some(v) => v,
        None => {
            proof {
                assert(false);
            }
            Vec::new()
        },
    }
}

} // verus!
