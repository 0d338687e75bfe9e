//! zlib decompression, done by `libflate`.

use vstd::prelude::*;

verus! {

/// The bytes that decompressing the zlib stream `data` gives; `None` where
/// `data` is not a valid zlib stream (bad header, bad deflate data, or a
/// wrong Adler-32 checksum).
pub uninterp spec fn zlib_inflate(data: Seq<u8>) -> Option<Seq<u8>>;

/// Decompresses `data` with `libflate::zlib::Decoder::new` and `read_to_end`.
/// Trusted: the decoder is deterministic, so its outcome is a function of
/// `data` alone, named `zlib_inflate`; either call failing gives `None`.
#[verifier::external_body]
pub(crate) fn inflate(data: &[u8]) -> (r: Option<Vec<u8>>)
    ensures
        match r {
            Some(v) => zlib_inflate(data@) == Some(v@),
            None => zlib_inflate(data@) is None,
        },
{
    let mut decoder = match libflate::zlib::Decoder::new(data) {
        Ok(d) => d,
        Err(_) => return None,
    };
    let mut out = Vec::new();
    match std::io::Read::read_to_end(&mut decoder, &mut out) {
        Ok(_) => Some(out),
        Err(_) => None,
    }
}

} // verus!
