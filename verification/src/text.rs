//! Byte-offset model of the input text.
//!
//! The cursor walks the input character by character, but every diagnostic
//! reports a byte offset into the original text. `byte_offset` gives the byte
//! offset of the `i`-th character: the summed UTF-8 widths of the characters
//! before it.

use vstd::prelude::*;
use vstd::utf8::encode_scalar;
use vstd::utf8::encode_utf8;

verus! {

/// Width in bytes of one character under UTF-8.
pub open spec fn utf8_len(c: char) -> int {
    if c as u32 <= 0x7F {
        1
    } else if c as u32 <= 0x7FF {
        2
    } else if c as u32 <= 0xFFFF {
        3
    } else {
        4
    }
}

/// Byte offset of the `i`-th character of `s`: the number of bytes the first
/// `i` characters occupy under UTF-8.
pub open spec fn byte_offset(s: Seq<char>, i: int) -> int
    decreases i,
{
    if i <= 0 {
        0
    } else {
        byte_offset(s, i - 1) + utf8_len(s[i - 1])
    }
}

pub proof fn lemma_byte_offset_mono(s: Seq<char>, i: int, j: int)
    requires
        i <= j,
    ensures
        byte_offset(s, i) <= byte_offset(s, j),
    decreases j - i,
{
    if i < j {
        lemma_byte_offset_mono(s, i, j - 1);
    }
}

pub proof fn lemma_byte_offset_nonneg(s: Seq<char>, i: int)
    ensures
        byte_offset(s, i) >= 0,
{
    if i > 0 {
        lemma_byte_offset_mono(s, 0, i);
    }
}

proof fn lemma_encode_scalar_len(c: char)
    ensures
        encode_scalar(c as u32).len() == utf8_len(c),
{
}

proof fn lemma_byte_offset_drop_first(s: Seq<char>, i: int)
    requires
        1 <= i <= s.len(),
    ensures
        byte_offset(s, i) == utf8_len(s[0]) + byte_offset(s.drop_first(), i - 1),
    decreases i,
{
    if i == 1 {
        assert(byte_offset(s, 1) == byte_offset(s, 0) + utf8_len(s[0]));
        assert(byte_offset(s.drop_first(), 0) == 0);
    } else {
        lemma_byte_offset_drop_first(s, i - 1);
        assert(s.drop_first()[i - 2] == s[i - 1]);
        assert(byte_offset(s.drop_first(), i - 1) == byte_offset(s.drop_first(), i - 2)
            + utf8_len(s.drop_first()[i - 2]));
    }
}

/// The byte offset just past the last character is the length in bytes of the
/// UTF-8 encoding of the whole text.
pub proof fn lemma_byte_offset_full(s: Seq<char>)
    ensures
        byte_offset(s, s.len() as int) == encode_utf8(s).len(),
    decreases s.len(),
{
    if s.len() == 0 {
    } else {
        lemma_byte_offset_full(s.drop_first());
        lemma_byte_offset_drop_first(s, s.len() as int);
        lemma_encode_scalar_len(s[0]);
    }
}

/// Width in bytes of one character under UTF-8.
pub fn char_width(c: char) -> (n: usize)
    ensures
        n as int == utf8_len(c),
{
    let u = c as u32;
    if u <= 0x7F {
        1
    } else if u <= 0x7FF {
        2
    } else if u <= 0xFFFF {
        3
    } else {
        4
    }
}

/// Relies on `String::push`, which appends the given character to the end of
/// the string.
#[verifier::external_body]
pub(crate) fn push_char(s: &mut String, c: char)
    ensures
        final(s)@ == old(s)@.push(c),
{
    s.push(c);
}

} // verus!
