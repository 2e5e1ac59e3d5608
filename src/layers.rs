//! The outer encodings: base64 text and zlib compression, both provided by
//! outside crates and stated here over names for what they compute.
use std::io::Read;
use std::io::Write;
use vstd::prelude::*;
use vstd::utf8::valid_utf8;

verus! {

/// Standard padded base64 text of some bytes, as produced by `base64::encode`.
pub uninterp spec fn base64_of(b: Seq<u8>) -> Seq<u8>;

/// Outcome of `base64::decode` on some text: the bytes, or none when the
/// text is not valid standard padded base64.
pub uninterp spec fn base64_decoded(s: Seq<u8>) -> Option<Seq<u8>>;

/// The zlib stream that flate2's encoder writes, at the default level.
pub uninterp spec fn zlib_of(b: Seq<u8>) -> Seq<u8>;

/// Outcome of reading some bytes to the end through flate2's zlib decoder.
pub uninterp spec fn zlib_inflated(b: Seq<u8>) -> Option<Seq<u8>>;

/// A byte of the standard base64 alphabet, or the padding byte `=`.
pub open spec fn is_base64_byte(c: u8) -> bool {
    (65 <= c <= 90) || (97 <= c <= 122) || (48 <= c <= 57) || c == 43 || c == 47 || c == 61
}

/// Relies on `base64::encode` (standard alphabet, with padding): four
/// characters for each started group of three bytes, padding `=` only in the
/// last two places, and `base64::decode` gives the bytes back.
#[verifier::external_body]
pub(crate) fn base64_encode(b: &[u8]) -> (r: Vec<u8>)
    ensures
        r@ == base64_of(b@),
        r@.len() == 4 * ((b@.len() + 2) / 3),
        forall|i: int| 0 <= i < r@.len() ==> is_base64_byte(#[trigger] r@[i]),
        forall|i: int| 0 <= i < r@.len() - 2 ==> #[trigger] r@[i] != 61,
        base64_decoded(r@) == Some(b@),
{
    base64::encode(b).into_bytes()
}

/// Relies on `base64::decode` (standard alphabet, with padding): the
/// outcome depends on the text alone.
#[verifier::external_body]
pub(crate) fn base64_decode(s: &[u8]) -> (r: Option<Vec<u8>>)
    ensures
        match r {
            Some(v) => base64_decoded(s@) == Some(v@),
            None => base64_decoded(s@) is None,
        },
{
    base64::decode(s).ok()
}

/// Relies on flate2's `ZlibEncoder` at `Compression::default()`, writing into
/// a `Vec`: the stream depends on the bytes alone, and flate2's
/// `ZlibDecoder` reads the bytes back from it. Its only errors come from the
/// inner writer, and writing into a `Vec` does not fail.
#[verifier::external_body]
pub(crate) fn zlib_compress(b: &[u8]) -> (r: Vec<u8>)
    ensures
        r@ == zlib_of(b@),
        zlib_inflated(r@) == Some(b@),
{
    let mut e = flate2::write::ZlibEncoder::new(Vec::new(), flate2::Compression::default());
    e.write_all(b).expect("writing into a Vec does not fail");
    e.finish().expect("writing into a Vec does not fail")
}

/// Relies on flate2's `ZlibDecoder` over a byte slice, read to the end: the
/// outcome depends on the bytes alone.
#[verifier::external_body]
pub(crate) fn zlib_decompress(b: &[u8]) -> (r: Option<Vec<u8>>)
    ensures
        match r {
            Some(v) => zlib_inflated(b@) == Some(v@),
            None => zlib_inflated(b@) is None,
        },
{
    let mut z = flate2::read::ZlibDecoder::new(b);
    let mut v = Vec::new();
    match z.read_to_end(&mut v) {
        Ok(_) => Some(v),
        Err(_) => None,
    }
}

/// Relies on `std::str::from_utf8`: it accepts exactly the well-formed UTF-8
/// byte sequences.
#[verifier::external_body]
pub(crate) fn is_utf8(b: &[u8]) -> (r: bool)
    ensures
        r == valid_utf8(b@),
{
    std::str::from_utf8(b).is_ok()
}

/// Bytes below 128 are well-formed UTF-8.
pub proof fn lemma_ascii_utf8(s: Seq<u8>)
    requires
        forall|i: int| 0 <= i < s.len() ==> s[i] < 128,
    ensures
        valid_utf8(s),
    decreases s.len(),
{
    if s.len() > 0 {
        let b = s[0];
        assert(b & 0x7F <= 0x7F) by (bit_vector);
        assert(vstd::utf8::valid_first_scalar(s));
        let rest = s.subrange(1, s.len() as int);
        assert(vstd::utf8::pop_first_scalar(s) == rest);
        lemma_ascii_utf8(rest);
    }
}

} // verus!
