//! Turning raw file bytes into text: strict UTF-8 first, then a legacy
//! double-byte Chinese encoding accepted only when it decodes cleanly,
//! then its superset as a lossy last resort.  Decoding never fails.

use vstd::prelude::*;

verus! {

/// What strict UTF-8 decoding yields for the bytes, when they are
/// valid UTF-8.
pub uninterp spec fn utf8_of(b: Seq<u8>) -> Option<Seq<char>>;

/// What the legacy double-byte decoder yields for the bytes, when it
/// reports no errors.
pub uninterp spec fn gbk_of(b: Seq<u8>) -> Option<Seq<char>>;

/// What the lossy superset decoder yields for the bytes; it always
/// yields text, with replacement characters where needed.
pub uninterp spec fn gb18030_of(b: Seq<u8>) -> Seq<char>;

/// Relies on `String::from_utf8`: `Some` exactly when the bytes are
/// valid UTF-8, and then the decoded characters, a function of the
/// bytes alone.
#[verifier::external_body]
fn decode_utf8(b: &Vec<u8>) -> (r: Option<String>)
    ensures
        (r is Some) == (utf8_of(b@) is Some),
        r matches Option::Some(s) ==> utf8_of(b@) == Option::Some(s@),
{
    String::from_utf8(b.clone()).ok()
}

/// Relies on encoding_rs's GBK decoder: the decode is a function of the
/// bytes alone; `None` exactly when the decoder reported errors.
#[verifier::external_body]
fn decode_gbk(b: &Vec<u8>) -> (r: Option<String>)
    ensures
        (r is Some) == (gbk_of(b@) is Some),
        r matches Option::Some(s) ==> gbk_of(b@) == Option::Some(s@),
{
    let (text, _, had_errors) = encoding_rs::GBK.decode(b);
    if had_errors {
        None
    } else {
        Some(text.into_owned())
    }
}

/// Relies on encoding_rs's GB18030 decoder, which decodes any byte
/// sequence (lossily where needed): the result is a function of the
/// bytes alone.
#[verifier::external_body]
fn decode_gb18030(b: &Vec<u8>) -> (r: String)
    ensures
        r@ == gb18030_of(b@),
{
    let (text, _, _) = encoding_rs::GB18030.decode(b);
    text.into_owned()
}

/// The text the encoding cascade settles on for the bytes.
pub open spec fn spec_decode(b: Seq<u8>) -> Seq<char> {
    match utf8_of(b) {
        Option::Some(s) => s,
        Option::None => match gbk_of(b) {
            Option::Some(s) => s,
            Option::None => gb18030_of(b),
        },
    }
}

/// Decodes file bytes, trying strict UTF-8, then the clean legacy
/// decode, then the lossy last resort; some text always comes back.
pub fn decode_text(bytes: &Vec<u8>) -> (r: String)
    ensures
        r@ == spec_decode(bytes@),
{
    match decode_utf8(bytes) {
        Option::Some(s) => s,
        Option::None => match decode_gbk(bytes) {
            Option::Some(s) => s,
            Option::None => decode_gb18030(bytes),
        },
    }
}

} // verus!
