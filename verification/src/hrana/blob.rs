//! Binary values as text: base64 without padding.

use crate::text::{chars_of, text_of};
use base64::engine::general_purpose::STANDARD_NO_PAD;
use base64::Engine;
use vstd::prelude::*;

verus! {

/// The base64 text of bytes, without padding.
pub uninterp spec fn base64(data: Seq<u8>) -> Seq<char>;

/// The bytes that a base64 text without padding stands for, if it is one.
pub uninterp spec fn base64_bytes(text: Seq<char>) -> Option<Seq<u8>>;

/// `Engine::encode` of base64's `STANDARD_NO_PAD`: the text depends on the
/// bytes alone, holds no padding at its end, and decodes to them again.
#[verifier::external_body]
pub(crate) fn encode_base64(data: &[u8]) -> (r: String)
    requires
        data@.len() <= isize::MAX / 2,
    ensures
        r@ == base64(data@),
        base64_bytes(r@) == Some(data@),
        r@.len() > 0 ==> r@.last() != '=',
{
    STANDARD_NO_PAD.encode(data)
}

/// `Engine::decode` of base64's `STANDARD_NO_PAD`: whether a text decodes, and
/// to which bytes, depends on the text alone.
#[verifier::external_body]
pub(crate) fn decode_base64(text: &str) -> (r: Option<Vec<u8>>)
    ensures
        match base64_bytes(text@) {
            Some(bytes) => r is Some && r->0@ == bytes,
            None => r is None,
        },
{
    STANDARD_NO_PAD.decode(text).ok()
}

/// `s` without the padding at its end.
pub open spec fn unpadded(s: Seq<char>) -> Seq<char>
    decreases s.len(),
{
    if s.len() > 0 && s.last() == '=' {
        unpadded(s.drop_last())
    } else {
        s
    }
}

/// `text` without the padding at its end.
pub fn trim_padding(text: &str) -> (r: String)
    ensures
        r@ == unpadded(text@),
{
    let chars = chars_of(text);
    let mut n: usize = chars.len();
    assert(chars@.take(n as int) =~= chars@);
    while n > 0 && chars[n - 1] == '='
        invariant
            n <= chars@.len(),
            unpadded(chars@.take(n as int)) == unpadded(chars@),
        decreases n,
    {
        assert(chars@.take(n as int).drop_last() =~= chars@.take(n - 1));
        n = n - 1;
    }
    let r = text_of(vstd::slice::slice_subrange(chars.as_slice(), 0, n));
    assert(r@ =~= chars@.take(n as int));
    r
}

/// The bytes of a binary value as clients send it; padding does not matter.
pub fn read_blob(text: &str) -> (r: Option<Vec<u8>>)
    ensures
        match base64_bytes(unpadded(text@)) {
            Some(bytes) => r is Some && r->0@ == bytes,
            None => r is None,
        },
{
    decode_base64(trim_padding(text).as_str())
}

/// A binary value as clients get it. It reads back.
pub fn write_blob(data: &Vec<u8>) -> (r: String)
    requires
        data@.len() <= isize::MAX / 2,
    ensures
        r@ == base64(data@),
        base64_bytes(unpadded(r@)) == Some(data@),
{
    encode_base64(data.as_slice())
}

} // verus!
