//! Texts as UTF-8 bytes.
use vstd::prelude::*;
use vstd::utf8::{decode_utf8, encode_utf8, encode_utf8_decode_utf8, is_char_boundary};

use crate::text::string_of;

verus! {

/// The number of bytes of a text in UTF-8.
pub open spec fn byte_len(s: Seq<char>) -> nat {
    encode_utf8(s).len()
}

/// The text between two byte offsets, if both stand between characters.
pub open spec fn byte_slice(s: Seq<char>, from: int, to: int) -> Option<Seq<char>> {
    let bytes = encode_utf8(s);
    let rest = bytes.subrange(from, bytes.len() as int);
    if 0 <= from <= to <= bytes.len() && is_char_boundary(bytes, from) && is_char_boundary(
        rest,
        to - from,
    ) {
        Some(decode_utf8(rest.subrange(0, to - from)))
    } else {
        None
    }
}

/// The number of bytes of a string.
pub fn byte_count(s: &str) -> (r: usize)
    ensures
        r == byte_len(s@),
{
    s.as_bytes().len()
}

/// The number of bytes of a text.
pub fn text_byte_count(s: &[char]) -> (r: usize)
    ensures
        r == byte_len(s@),
{
    byte_count(string_of(s).as_str())
}

/// The text between two byte offsets.
pub fn slice_bytes(s: &str, from: usize, to: usize) -> (r: Option<&str>)
    ensures
        match r {
            Some(t) => byte_slice(s@, from as int, to as int) == Some(t@),
            None => byte_slice(s@, from as int, to as int) is None,
        },
{
    let n: usize = s.as_bytes().len();
    if from > to || to > n || !s.is_char_boundary(from) {
        return None;
    }
    let (_, rest) = s.split_at(from);
    if !rest.is_char_boundary(to - from) {
        return None;
    }
    let (mid, _) = rest.split_at(to - from);
    proof {
        encode_utf8_decode_utf8(mid@);
    }
    Some(mid)
}

} // verus!
