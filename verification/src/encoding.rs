//! The GBK text encoding of model files, through `encoding_rs`.

use encoding_rs::GBK;
use vstd::prelude::*;
use vstd::utf8::{encode_utf8, is_ascii_chars};

verus! {

/// The text that `encoding_rs` decodes from the given bytes with its `GBK`
/// encoding (BOM sniffing included, malformed sequences replaced by U+FFFD).
pub uninterp spec fn gbk_decode(bytes: Seq<u8>) -> Seq<char>;

/// The bytes that `encoding_rs` encodes from the given text with its `GBK`
/// encoding (unmappable characters written as HTML numeric references).
pub uninterp spec fn gbk_encode(text: Seq<char>) -> Seq<u8>;

/// The bytes start with a UTF-8 or UTF-16 byte-order mark, on which the
/// decoder switches to that encoding.
pub open spec fn starts_with_bom(b: Seq<u8>) -> bool {
    ||| b.len() >= 3 && b[0] == 0xEF && b[1] == 0xBB && b[2] == 0xBF
    ||| b.len() >= 2 && b[0] == 0xFF && b[1] == 0xFE
    ||| b.len() >= 2 && b[0] == 0xFE && b[1] == 0xFF
}

/// The index of the first byte at or after `i` that is not ASCII, or the
/// length of the bytes.
pub open spec fn ascii_end(b: Seq<u8>, i: int) -> int
    decreases b.len() - i,
{
    if 0 <= i < b.len() && b[i] < 0x80 {
        ascii_end(b, i + 1)
    } else {
        i
    }
}

/// The inputs on which decoding returns: ASCII-only bytes are handed back
/// without a buffer; otherwise the buffer of `v + 1 + 3 * (len - v)` bytes,
/// `v` the length of the ASCII start, must not exceed `isize::MAX`.  Behind a
/// byte-order mark, where the UTF-8 decoder may grow its buffer once more,
/// four times the length plus a margin must stay within `isize::MAX`.
pub open spec fn decode_admits(b: Seq<u8>) -> bool {
    if starts_with_bom(b) {
        4 * b.len() + 64 <= isize::MAX
    } else {
        let v = ascii_end(b, 0);
        v == b.len() || v + 1 + 3 * (b.len() - v) <= isize::MAX
    }
}

/// The texts on which encoding returns: ASCII-only text is handed back
/// without a buffer; otherwise sixteen times its UTF-8 length plus a margin
/// must stay within `isize::MAX`, which bounds every buffer the encoder asks
/// for (numeric references included).
pub open spec fn encode_admits(t: Seq<char>) -> bool {
    is_ascii_chars(t) || 16 * encode_utf8(t).len() + 128 <= isize::MAX
}

proof fn lemma_ascii_end(b: Seq<u8>, i: int)
    requires
        0 <= i <= b.len(),
    ensures
        i <= ascii_end(b, i) <= b.len(),
    decreases b.len() - i,
{
    if i < b.len() && b[i] < 0x80 {
        lemma_ascii_end(b, i + 1);
    }
}

/// A short run of bytes, such as the path of an MDX texture entry, is
/// always taken by the decoder.
pub proof fn lemma_short_bytes_admitted(b: Seq<u8>)
    requires
        b.len() <= 1024,
    ensures
        decode_admits(b),
{
    lemma_ascii_end(b, 0);
}

/// `encoding_rs::Encoding::decode` called on `GBK`.  The claim: the text
/// returned is `gbk_decode` of the bytes, a function of the bytes alone.  The
/// requirement keeps out the inputs on which the crate's size computation for
/// its output buffer overflows or exceeds `isize::MAX`, where it panics; for
/// bytes behind a byte-order mark it is stricter than that limit, since it
/// bounds the decoder's second allocation without knowing where it happens.
#[verifier::external_body]
pub(crate) fn decode_text(bytes: &[u8]) -> (text: String)
    requires
        decode_admits(bytes@),
    ensures
        text@ == gbk_decode(bytes@),
{
    let (text, _, _) = GBK.decode(bytes);
    text.into_owned()
}

/// `encoding_rs::Encoding::encode` called on `GBK`.  The claim: the bytes
/// returned are `gbk_encode` of the text, a function of the text alone.  The
/// requirement keeps out the inputs on which the crate's buffer sizes may
/// exceed `isize::MAX`, where it panics; it is stricter than that limit for
/// texts with few unmappable characters, since the growth of the buffer
/// depends on how many there are.
#[verifier::external_body]
pub(crate) fn encode_text(text: &str) -> (bytes: Vec<u8>)
    requires
        encode_admits(text@),
    ensures
        bytes@ == gbk_encode(text@),
{
    let (bytes, _, _) = GBK.encode(text);
    bytes.into_owned()
}

/// Whether `decode_text` may be called on these bytes.
pub fn decode_admitted(bytes: &[u8]) -> (r: bool)
    ensures
        r == decode_admits(bytes@),
{
    let len = bytes.len();
    let max = isize::MAX as usize;
    if len >= 3 && bytes[0] == 0xEF && bytes[1] == 0xBB && bytes[2] == 0xBF
        || len >= 2 && bytes[0] == 0xFF && bytes[1] == 0xFE
        || len >= 2 && bytes[0] == 0xFE && bytes[1] == 0xFF {
        return len <= (max - 64) / 4;
    }
    let mut v: usize = 0;
    while v < len && bytes[v] < 0x80
        invariant
            v <= len,
            len == bytes@.len(),
            ascii_end(bytes@, 0) == ascii_end(bytes@, v as int),
        decreases len - v,
    {
        v = v + 1;
    }
    if v == len {
        return true;
    }
    if v > max - 1 {
        return false;
    }
    len - v <= (max - 1 - v) / 3
}

/// Whether `encode_text` may be called on this text.
pub fn encode_admitted(text: &str) -> (r: bool)
    ensures
        r == encode_admits(text@),
{
    if text.is_ascii() {
        return true;
    }
    let n = text.as_bytes().len();
    n <= (isize::MAX as usize - 128) / 16
}

} // verus!
