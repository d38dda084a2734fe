//! The source text encoding of the scripts (Shift-JIS), behind trusted
//! wrappers around encoding_rs.  What the codec proves about text is stated
//! over the two named results below; the wrappers only convert between the
//! library's plain values and encoding_rs's types.

use vstd::prelude::*;

verus! {

/// What Shift-JIS decoding gives for a byte sequence: its text, or nothing
/// when the bytes are not valid in the encoding.  The result depends on
/// the bytes alone.
pub uninterp spec fn sjis_decode_of(b: Seq<u8>) -> Option<Seq<char>>;

/// What Shift-JIS encoding gives for a text: its bytes, or nothing when a
/// character cannot be carried by the encoding.  The result depends on the
/// characters alone.
pub uninterp spec fn sjis_encode_of(s: Seq<char>) -> Option<Seq<u8>>;

/// Relies on encoding_rs's SHIFT_JIS decode_without_bom_handling: a pure
/// function of the input bytes; the flag it returns says whether any
/// malformed sequence had to be replaced, and such input is rejected here.
/// The documented panic is a size-calculation overflow on inputs near the
/// address-space limit, which the length bound excludes.
#[verifier::external_body]
pub(crate) fn decode_sjis(b: &Vec<u8>) -> (r: Option<String>)
    requires
        b@.len() < 0x1000_0000,
    ensures
        match r {
            Some(s) => sjis_decode_of(b@) == Some(s@),
            None => sjis_decode_of(b@) is None,
        },
{
    let (dec, rep) = encoding_rs::SHIFT_JIS.decode_without_bom_handling(b.as_slice());
    if rep {
        None
    } else {
        Some(dec.into_owned())
    }
}

/// Relies on encoding_rs's SHIFT_JIS encode: a pure function of the input
/// text; the flag it returns says whether any character was unmappable,
/// and such input is rejected here.  The length bound excludes the
/// documented size-calculation overflow.
#[verifier::external_body]
pub(crate) fn encode_sjis(s: &Vec<char>) -> (r: Option<Vec<u8>>)
    requires
        s@.len() < 0x1000_0000,
    ensures
        match r {
            Some(b) => sjis_encode_of(s@) == Some(b@),
            None => sjis_encode_of(s@) is None,
        },
{
    let text: String = s.iter().collect();
    let (enc, _, unmappable) = encoding_rs::SHIFT_JIS.encode(text.as_str());
    if unmappable {
        None
    } else {
        Some(enc.into_owned())
    }
}

} // verus!
