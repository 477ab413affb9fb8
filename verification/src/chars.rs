//! Character-level helpers shared by the lexer: digit classification and
//! digit values, comparison of scanned words against string literals, and
//! UTF-8 encoding of decoded string content into byte literals.

use vstd::prelude::*;
use vstd::string::StrSliceExecFns;

verus! {

/// A decimal digit `'0'..='9'`.
pub open spec fn is_digit(c: char) -> bool {
    48 <= c as u32 && c as u32 <= 57
}

/// The numeric value of a decimal digit.
pub open spec fn digit_val(c: char) -> int {
    c as u32 - 48
}

pub fn digit10(c: char) -> (r: bool)
    ensures
        r == is_digit(c),
{
    let u = c as u32;
    48 <= u && u <= 57
}

/// The value of a hexadecimal digit, `None` for any other character.
pub open spec fn hex_val(c: char) -> Option<u32> {
    let u = c as u32;
    if 48 <= u && u <= 57 {
        Some((u - 48) as u32)
    } else if 65 <= u && u <= 70 {
        Some((u - 55) as u32)
    } else if 97 <= u && u <= 102 {
        Some((u - 87) as u32)
    } else {
        None
    }
}

pub fn hex_digit(c: char) -> (r: Option<u32>)
    ensures
        r == hex_val(c),
{
    let u = c as u32;
    if 48 <= u && u <= 57 {
        Some(u - 48)
    } else if 65 <= u && u <= 70 {
        Some(u - 55)
    } else if 97 <= u && u <= 102 {
        Some(u - 87)
    } else {
        None
    }
}

/// An octal digit `'0'..='7'`.
pub open spec fn is_octal_digit(c: char) -> bool {
    48 <= c as u32 && c as u32 <= 55
}

pub fn digit8(c: char) -> (r: bool)
    ensures
        r == is_octal_digit(c),
{
    let u = c as u32;
    48 <= u && u <= 55
}

pub uninterp spec fn char_alphabetic(c: char) -> bool;

pub uninterp spec fn char_alphanumeric(c: char) -> bool;

/// Relies on char::is_alphabetic: whether the character is alphabetic
/// according to the Unicode character properties; the lexer uses it to
/// recognise the first character of a word. The result depends on the
/// character alone.
#[verifier::external_body]
pub fn is_alphabetic_char(c: char) -> (r: bool)
    ensures
        r == char_alphabetic(c),
{
    c.is_alphabetic()
}

/// Relies on char::is_alphanumeric: whether the character is alphabetic or
/// numeric according to the Unicode character properties; the lexer uses it
/// for word continuations and for unary reclassification. The result depends
/// on the character alone.
#[verifier::external_body]
pub fn is_alphanumeric_char(c: char) -> (r: bool)
    ensures
        r == char_alphanumeric(c),
{
    c.is_alphanumeric()
}

/// Relies on char::from_u32: the result is `Some` exactly when the value is
/// a Unicode scalar value (not a surrogate and at most 0x10FFFF), and the
/// returned character has that value.
#[verifier::external_body]
pub fn char_from_u32(n: u32) -> (r: Option<char>)
    ensures
        r is Some <==> (n < 0xD800 || (0xE000 <= n && n <= 0x10FFFF)),
        r matches Some(c) ==> c as u32 == n,
{
    char::from_u32(n)
}

/// Whether a scanned word equals a string literal, character for character.
pub fn chars_eq_str(w: &[char], s: &str) -> (r: bool)
    ensures
        r == (w@ == s@),
{
    let n = s.unicode_len();
    if w.len() != n {
        return false;
    }
    let mut i: usize = 0;
    while i < n
        invariant
            n == s@.len(),
            w@.len() == n,
            i <= n,
            forall|j: int| 0 <= j < i ==> w@[j] == s@[j],
        decreases n - i,
    {
        if w[i] != s.get_char(i) {
            return false;
        }
        i += 1;
    }
    proof {
        assert(w@ =~= s@);
    }
    true
}

/// The UTF-8 encoding of one character, most significant part first.
pub open spec fn utf8_seq(c: char) -> Seq<u8> {
    let n = c as u32;
    if n < 0x80 {
        seq![n as u8]
    } else if n < 0x800 {
        seq![(0xC0 + n / 0x40) as u8, (0x80 + n % 0x40) as u8]
    } else if n < 0x10000 {
        seq![
            (0xE0 + n / 0x1000) as u8,
            (0x80 + (n / 0x40) % 0x40) as u8,
            (0x80 + n % 0x40) as u8,
        ]
    } else {
        seq![
            (0xF0 + n / 0x40000) as u8,
            (0x80 + (n / 0x1000) % 0x40) as u8,
            (0x80 + (n / 0x40) % 0x40) as u8,
            (0x80 + n % 0x40) as u8,
        ]
    }
}

/// Appends the UTF-8 encoding of `c` to `out`.
pub fn push_utf8(out: &mut Vec<u8>, c: char)
    ensures
        final(out)@ == old(out)@ + utf8_seq(c),
{
    let n = c as u32;
    if n < 0x80 {
        out.push(n as u8);
    } else if n < 0x800 {
        out.push((0xC0 + n / 0x40) as u8);
        out.push((0x80 + n % 0x40) as u8);
    } else if n < 0x10000 {
        out.push((0xE0 + n / 0x1000) as u8);
        out.push((0x80 + (n / 0x40) % 0x40) as u8);
        out.push((0x80 + n % 0x40) as u8);
    } else {
        out.push((0xF0 + n / 0x40000) as u8);
        out.push((0x80 + (n / 0x1000) % 0x40) as u8);
        out.push((0x80 + (n / 0x40) % 0x40) as u8);
        out.push((0x80 + n % 0x40) as u8);
    }
    proof {
        assert(out@ =~= old(out)@ + utf8_seq(c));
    }
}

} // verus!
