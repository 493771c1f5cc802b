//! Byte-level vocabulary of the format, and text operations on byte spans.

use vstd::prelude::*;
use vstd::string::StringSliceAdditionalSpecFns;
use vstd::utf8::{decode_utf8, encode_utf8, valid_utf8};

verus! {

/// `\n`, the only line terminator of a sanitized buffer.
pub const LINE_FEED: u8 = 0x0A;

/// `\r`, which sanitizing turns into `\n`.
pub const CARRIAGE_RETURN: u8 = 0x0D;

/// `#`; two of them side by side open a comment.
pub const HASH_SIGN: u8 = 0x23;

/// `[`; two of them at the start of a line open a key.
pub const OPEN_BRACKET: u8 = 0x5B;

/// `]`; two of them side by side close a key.
pub const CLOSE_BRACKET: u8 = 0x5D;

/// What `str::trim` leaves of a text: the text without its leading and
/// trailing Unicode white space. The set of white-space characters is that
/// of the standard library and is not spelled out here.
pub uninterp spec fn trimmed_text(text: Seq<char>) -> Seq<char>;

/// `part` is a contiguous run of bytes of `whole`.
pub open spec fn is_span_of(part: Seq<u8>, whole: Seq<u8>) -> bool {
    exists|from: int, to: int|
        0 <= from <= to <= whole.len() && part == #[trigger] whole.subrange(from, to)
}

/// The bytes of a UTF-8 span after trimming its text.
pub open spec fn trimmed_bytes(span: Seq<u8>) -> Seq<u8> {
    encode_utf8(trimmed_text(decode_utf8(span)))
}

/// `std::str::from_utf8`: the bytes as text when they are valid UTF-8, and
/// nothing otherwise. The text encodes back to exactly the given bytes.
#[verifier::external_body]
pub(crate) fn decode_text<'a>(bytes: &'a [u8]) -> (text: Option<&'a str>)
    ensures
        text is Some <==> valid_utf8(bytes@),
        text matches Some(s) ==> s.spec_bytes() == bytes@,
{
    match std::str::from_utf8(bytes) {
        Ok(s) => Some(s),
        Err(_) => None,
    }
}

/// `str::trim`: the text without leading and trailing white space. The
/// result is a sub-slice of the argument, so its bytes are a contiguous run
/// of the argument's bytes.
#[verifier::external_body]
fn trim_text<'a>(text: &'a str) -> (inner: &'a str)
    ensures
        inner@ == trimmed_text(text@),
        is_span_of(inner.spec_bytes(), text.spec_bytes()),
{
    text.trim()
}

/// Whether the bytes are valid UTF-8.
pub fn is_utf8(bytes: &[u8]) -> (valid: bool)
    ensures
        valid == valid_utf8(bytes@),
{
    decode_text(bytes).is_some()
}

/// Trims a span of bytes as text. Returns `None` when the span is not valid
/// UTF-8; otherwise the trimmed bytes, which lie inside the span.
pub fn trim_span<'a>(span: &'a [u8]) -> (trimmed: Option<&'a [u8]>)
    ensures
        trimmed is Some <==> valid_utf8(span@),
        trimmed matches Some(t) ==> t@ == trimmed_bytes(span@) && is_span_of(t@, span@),
{
    broadcast use vstd::utf8::encode_utf8_decode_utf8;

    match decode_text(span) {
        Some(text) => {
            let inner = trim_text(text);
            assert(text@ == decode_utf8(encode_utf8(text@)));
            Some(inner.as_bytes())
        },
        None => None,
    }
}

} // verus!
