//! The textual shapes of the four literal forms, and the regular expressions
//! that recognise them.

use vstd::prelude::*;
use vstd::string::StringSliceAdditionalSpecFns;
use crate::digits::all_digits;

verus! {

/// `0b` or `0B`, then one or more of `0` and `1`.
pub open spec fn binary_shape(b: Seq<u8>) -> bool {
    &&& b.len() >= 3
    &&& b[0] == '0' as u8
    &&& b[1] == 'b' as u8 || b[1] == 'B' as u8
    &&& all_digits(b.skip(2), 2)
}

/// `0x` or `0X`, then one or more of `0-9`, `a-f`, `A-F`.
pub open spec fn hexadecimal_shape(b: Seq<u8>) -> bool {
    &&& b.len() >= 3
    &&& b[0] == '0' as u8
    &&& b[1] == 'x' as u8 || b[1] == 'X' as u8
    &&& all_digits(b.skip(2), 16)
}

/// One or more of `0-9`, nothing else.
pub open spec fn decimal_shape(b: Seq<u8>) -> bool {
    b.len() >= 1 && all_digits(b, 10)
}

/// The bytes of `ASCII(`.
pub open spec fn marker_open() -> Seq<u8> {
    seq!['A' as u8, 'S' as u8, 'C' as u8, 'I' as u8, 'I' as u8, '(' as u8]
}

/// `b[i..j + 1]` is `ASCII(`, then at least one character of any kind, then `)`.
pub open spec fn marker_at(b: Seq<u8>, i: int, j: int) -> bool {
    &&& 0 <= i
    &&& i + 7 <= j < b.len()
    &&& b.subrange(i, i + 6) == marker_open()
    &&& b[j] == ')' as u8
}

/// Somewhere in `b` stands an `ASCII(...)` marker with a non-empty interior.
pub open spec fn ascii_marker_shape(b: Seq<u8>) -> bool {
    exists|i: int, j: int| marker_at(b, i, j)
}

/// Relies on `regex::Regex::new` and `regex::Regex::is_match` (whole-haystack
/// search, `.` matching every character, line feeds included, under the `s`
/// flag, `^`/`$` anchoring at the ends of the text): compiles one of the four fixed patterns, which are valid, and reports
/// whether `s` holds a match. On UTF-8 text the patterns' shapes read the same
/// over bytes as over characters, since every byte they name is ASCII.
#[verifier::external_body]
fn pattern_matches(pattern: &str, s: &str) -> (r: bool)
    requires
        pattern@ == "^(0b|0B)[10]+$"@ || pattern@ == "^(0x|0X)[a-fA-F0-9]+$"@ || pattern@
            == "^[0-9]+$"@ || pattern@ == "(?s)ASCII\\(.+\\)"@,
    ensures
        pattern@ == "^(0b|0B)[10]+$"@ ==> r == binary_shape(s.spec_bytes()),
        pattern@ == "^(0x|0X)[a-fA-F0-9]+$"@ ==> r == hexadecimal_shape(s.spec_bytes()),
        pattern@ == "^[0-9]+$"@ ==> r == decimal_shape(s.spec_bytes()),
        pattern@ == "(?s)ASCII\\(.+\\)"@ ==> r == ascii_marker_shape(s.spec_bytes()),
{
    regex::Regex::new(pattern).unwrap().is_match(s)
}

/// Whether `s` is a binary literal: `0b` or `0B` followed by binary digits.
pub fn is_binary(s: &str) -> (r: bool)
    ensures
        r == binary_shape(s.spec_bytes()),
{
    pattern_matches("^(0b|0B)[10]+$", s)
}

/// Whether `s` is a hexadecimal literal: `0x` or `0X` followed by hex digits.
pub fn is_hexadecimal(s: &str) -> (r: bool)
    ensures
        r == hexadecimal_shape(s.spec_bytes()),
{
    pattern_matches("^(0x|0X)[a-fA-F0-9]+$", s)
}

/// Whether `s` is a decimal literal: decimal digits only, at least one.
pub fn is_decimal(s: &str) -> (r: bool)
    ensures
        r == decimal_shape(s.spec_bytes()),
{
    pattern_matches("^[0-9]+$", s)
}

/// Whether `s` contains an `ASCII(...)` marker with a non-empty interior.
pub fn is_str_ascii(s: &str) -> (r: bool)
    ensures
        r == ascii_marker_shape(s.spec_bytes()),
{
    pattern_matches("(?s)ASCII\\(.+\\)", s)
}

} // verus!
