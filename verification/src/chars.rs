//! Character classification for the lexer, and byte offsets into the
//! input text (error values carry byte positions, while scanning walks
//! the text character by character).

use vstd::prelude::*;

verus! {

/// The Unicode characters with the `White_Space` property; the lexer
/// skips these between and inside rate-spans.
pub open spec fn is_ws(c: char) -> bool {
    let u = c as u32;
    (0x09 <= u && u <= 0x0d) || u == 0x20 || u == 0x85 || u == 0xa0 || u == 0x1680 || (0x2000 <= u
        && u <= 0x200a) || u == 0x2028 || u == 0x2029 || u == 0x202f || u == 0x205f || u == 0x3000
}

/// A decimal digit.
pub open spec fn is_digit(c: char) -> bool {
    '0' as u32 <= c as u32 && c as u32 <= '9' as u32
}

/// The value of a decimal digit character.
pub open spec fn digit_val(c: char) -> int {
    c as u32 - '0' as u32
}

/// A character that continues a unit token: an ASCII letter or `/`.
pub open spec fn is_unit_char(c: char) -> bool {
    let u = c as u32;
    ('a' as u32 <= u && u <= 'z' as u32) || ('A' as u32 <= u && u <= 'Z' as u32) || c == '/'
}

/// How many bytes the UTF-8 encoding of `c` takes.
pub open spec fn utf8_len(c: char) -> int {
    let u = c as u32;
    if u < 0x80 {
        1
    } else if u < 0x800 {
        2
    } else if u < 0x10000 {
        3
    } else {
        4
    }
}

/// The byte offset of the character at index `i` of `s`.
pub open spec fn byte_at(s: Seq<char>, i: int) -> int
    decreases i,
{
    if i <= 0 {
        0
    } else {
        byte_at(s, i - 1) + utf8_len(s[i - 1])
    }
}

/// `utf8_len` agrees with the length of the UTF-8 encoding of the character.
pub proof fn lemma_utf8_len_matches(c: char)
    ensures
        utf8_len(c) == vstd::utf8::encode_scalar(c as u32).len(),
{
    vstd::utf8::char_is_scalar(c);
}

/// Dropping the first character takes its length off every offset.
proof fn lemma_byte_at_drop(s: Seq<char>, i: int)
    requires
        1 <= i <= s.len(),
    ensures
        byte_at(s, i) == utf8_len(s[0]) + byte_at(s.drop_first(), i - 1),
    decreases i,
{
    let d = s.drop_first();
    if i == 1 {
        assert(byte_at(s, 1) == byte_at(s, 0) + utf8_len(s[0]));
        assert(byte_at(d, 0) == 0);
    } else {
        lemma_byte_at_drop(s, i - 1);
        assert(d[i - 2] == s[i - 1]);
        assert(byte_at(d, i - 1) == byte_at(d, i - 2) + utf8_len(d[i - 2]));
        assert(byte_at(s, i) == byte_at(s, i - 1) + utf8_len(s[i - 1]));
    }
}

/// Offsets grow along the text.
pub proof fn lemma_byte_at_mono(s: Seq<char>, i: int, j: int)
    requires
        0 <= i <= j <= s.len(),
    ensures
        byte_at(s, i) <= byte_at(s, j),
    decreases j,
{
    if i < j {
        lemma_byte_at_mono(s, i, j - 1);
    }
}

/// The offset past the last character is the byte length of the whole text.
pub proof fn lemma_byte_at_total(s: Seq<char>)
    ensures
        byte_at(s, s.len() as int) == vstd::utf8::encode_utf8(s).len(),
    decreases s.len(),
{
    if s.len() > 0 {
        lemma_byte_at_drop(s, s.len() as int);
        lemma_byte_at_total(s.drop_first());
        lemma_utf8_len_matches(s[0]);
    }
}

/// Executable test for `is_ws`.
pub fn ws_char(c: char) -> (r: bool)
    ensures
        r == is_ws(c),
{
    let u = c as u32;
    (0x09 <= u && u <= 0x0d) || u == 0x20 || u == 0x85 || u == 0xa0 || u == 0x1680 || (0x2000 <= u
        && u <= 0x200a) || u == 0x2028 || u == 0x2029 || u == 0x202f || u == 0x205f || u == 0x3000
}

/// Executable test for `is_digit`.
pub fn digit_char_test(c: char) -> (r: bool)
    ensures
        r == is_digit(c),
{
    let u = c as u32;
    '0' as u32 <= u && u <= '9' as u32
}

/// Executable digit value.
pub fn digit_value(c: char) -> (r: u32)
    requires
        is_digit(c),
    ensures
        r == digit_val(c),
        r <= 9,
{
    c as u32 - '0' as u32
}

/// Executable test for `is_unit_char`.
pub fn unit_char_test(c: char) -> (r: bool)
    ensures
        r == is_unit_char(c),
{
    let u = c as u32;
    ('a' as u32 <= u && u <= 'z' as u32) || ('A' as u32 <= u && u <= 'Z' as u32) || c == '/'
}

/// Executable UTF-8 length of a character.
pub fn utf8_len_of(c: char) -> (r: u32)
    ensures
        r == utf8_len(c),
        1 <= r <= 4,
{
    let u = c as u32;
    if u < 0x80 {
        1
    } else if u < 0x800 {
        2
    } else if u < 0x10000 {
        3
    } else {
        4
    }
}

} // verus!
