//! Trusted boundary to the legacy text codec. String-table content is
//! Shift-JIS on disk; the crate converts between those bytes and `String`
//! values through the two wrappers here and reasons about the conversion
//! through the two named results.

use vstd::prelude::*;

verus! {

/// The characters that decoding a byte sequence as Shift-JIS yields.
pub uninterp spec fn sjis_decode_of(bytes: Seq<u8>) -> Seq<char>;

/// The bytes that encoding a character sequence as Shift-JIS yields.
pub uninterp spec fn sjis_encode_of(s: Seq<char>) -> Seq<u8>;

/// Relies on encoding_rs `Encoding::decode` on `SHIFT_JIS`: decodes with
/// malformed sequences replaced, after BOM sniffing; the result depends on
/// the input bytes alone, and an empty input stays empty.
#[verifier::external_body]
pub(crate) fn sjis_decode(bytes: &Vec<u8>) -> (r: String)
    ensures
        r@ == sjis_decode_of(bytes@),
        bytes@.len() == 0 ==> r@.len() == 0,
{
    let (decoded, _, _) = encoding_rs::SHIFT_JIS.decode(bytes.as_slice());
    decoded.into_owned()
}

/// Relies on encoding_rs `Encoding::encode` on `SHIFT_JIS`: encodes with
/// unmappable characters replaced by numeric character references; the
/// result depends on the input characters alone, and an empty input stays
/// empty.
#[verifier::external_body]
pub(crate) fn sjis_encode(s: &str) -> (r: Vec<u8>)
    ensures
        r@ == sjis_encode_of(s@),
        s@.len() == 0 ==> r@.len() == 0,
{
    let (encoded, _, _) = encoding_rs::SHIFT_JIS.encode(s);
    encoded.into_owned()
}

} // verus!
