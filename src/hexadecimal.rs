//! Hexadecimal literals: `0x` or `0X`, then hex digits, read in pairs.

use vstd::prelude::*;
use vstd::string::StringSliceAdditionalSpecFns;
use crate::digits::{
    all_digits, chunk, chunk_count, chunk_values, digit_value, lemma_byte_powers,
    lemma_chunk_values_index, lemma_number_value_bound, number_value, read_chunks,
};
use crate::pattern::hexadecimal_shape;

verus! {

/// The bytes that `parse_hexadecimal` gives for the digits `digits` (the
/// literal without its prefix).
pub open spec fn hexadecimal_bytes(digits: Seq<u8>) -> Seq<u8> {
    chunk_values(digits, 2, 16)
}

/// Parses a hexadecimal literal into bytes: the digits after the prefix are cut
/// into pairs from the left, and each pair, or a lone last digit, is read as a
/// number in base 16.
pub fn parse_hexadecimal(n: &str) -> (r: Vec<u8>)
    requires
        hexadecimal_shape(n.spec_bytes()),
    ensures
        r@ == hexadecimal_bytes(n.spec_bytes().skip(2)),
{
    let b = n.as_bytes();
    proof { lemma_byte_powers(); }
    read_chunks(b, 2, 2, 16)
}

/// Hex digits give `ceil(len / 2)` bytes; for an even number of digits, byte
/// `i` is digits `2i` and `2i + 1` read in base 16.
pub proof fn lemma_hexadecimal_grouping(digits: Seq<u8>)
    requires
        all_digits(digits, 16),
    ensures
        hexadecimal_bytes(digits).len() == chunk_count(digits.len(), 2),
        digits.len() % 2 == 0 ==> forall|i: int|
            0 <= i < hexadecimal_bytes(digits).len() ==> #[trigger] hexadecimal_bytes(digits)[i]
                == number_value(digits.subrange(2 * i, 2 * i + 2), 16),
{
    lemma_chunk_values_index(digits, 2, 16);
    lemma_byte_powers();
    if digits.len() % 2 == 0 {
        let h = hexadecimal_bytes(digits);
        assert forall|i: int| 0 <= i < h.len() implies #[trigger] h[i] == number_value(
            digits.subrange(2 * i, 2 * i + 2),
            16,
        ) by {
            let c = digits.subrange(2 * i, 2 * i + 2);
            assert(2 * i + 2 <= digits.len());
            assert(chunk(digits, 2, i) =~= c);
            assert(all_digits(c, 16)) by {
                assert forall|k: int| 0 <= k < c.len() implies #[trigger] digit_value(c[k]) < 16 by {
                    assert(c[k] == digits[2 * i + k]);
                }
            }
            lemma_number_value_bound(c, 16);
        }
    }
}

} // verus!
