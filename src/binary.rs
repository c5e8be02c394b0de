//! Binary literals: `0b` or `0B`, then bits, read in groups of eight.

use vstd::prelude::*;
use vstd::string::StringSliceAdditionalSpecFns;
use crate::digits::{
    all_digits, chunk_count, chunk_values, digit_value, lemma_byte_powers, lemma_chunk_values_index,
    lemma_number_value_bound, lemma_power_monotone, number_value, read_chunks,
};
use crate::pattern::binary_shape;

verus! {

/// The bytes that `parse_binary` gives for the bits `bits` (the literal without
/// its prefix).
pub open spec fn binary_bytes(bits: Seq<u8>) -> Seq<u8> {
    chunk_values(bits, 8, 2)
}

/// The `k` low bits of `v`, most significant first, as `0`/`1` characters.
pub open spec fn bits_of(v: nat, k: nat) -> Seq<u8>
    decreases k,
{
    if k == 0 {
        Seq::empty()
    } else {
        bits_of(v / 2, (k - 1) as nat).push(if v % 2 == 0 { '0' as u8 } else { '1' as u8 })
    }
}

/// Writes each byte back as bits: eight for every byte but the last, and what
/// is left of `n` bits for the last.
pub open spec fn regroup_bits(bytes: Seq<u8>, n: nat) -> Seq<u8>
    decreases bytes.len(),
{
    if bytes.len() == 0 {
        Seq::empty()
    } else if n <= 8 {
        bits_of(bytes[0] as nat, n)
    } else {
        bits_of(bytes[0] as nat, 8) + regroup_bits(bytes.skip(1), (n - 8) as nat)
    }
}

/// Parses a binary literal into bytes: the bits after the prefix are cut into
/// groups of eight from the left, and each group, the last one possibly
/// shorter, is read as a number.
pub fn parse_binary(n: &str) -> (r: Vec<u8>)
    requires
        binary_shape(n.spec_bytes()),
    ensures
        r@ == binary_bytes(n.spec_bytes().skip(2)),
{
    let b = n.as_bytes();
    proof { lemma_byte_powers(); }
    read_chunks(b, 2, 8, 2)
}

proof fn lemma_bits_of_value(s: Seq<u8>)
    requires
        all_digits(s, 2),
    ensures
        bits_of(number_value(s, 2), s.len()) == s,
    decreases s.len(),
{
    if s.len() > 0 {
        let p = s.drop_last();
        assert(all_digits(p, 2)) by {
            assert forall|i: int| 0 <= i < p.len() implies #[trigger] digit_value(p[i]) < 2 by {
                assert(p[i] == s[i]);
            }
        }
        lemma_bits_of_value(p);
        assert(digit_value(s[s.len() - 1]) < 2);
        assert(s =~= p.push(s.last()));
    }
}

/// A bit string of length `n >= 1` gives `ceil(n / 8)` bytes, and writing those
/// bytes back as bits (eight per byte, the rest for the last one) gives the
/// bit string again.
pub proof fn lemma_binary_round_trip(bits: Seq<u8>)
    requires
        bits.len() >= 1,
        all_digits(bits, 2),
    ensures
        binary_bytes(bits).len() == chunk_count(bits.len(), 8),
        regroup_bits(binary_bytes(bits), bits.len()) == bits,
    decreases bits.len(),
{
    lemma_chunk_values_index(bits, 8, 2);
    lemma_byte_powers();
    if bits.len() <= 8 {
        lemma_number_value_bound(bits, 2);
        lemma_power_monotone(2, bits.len(), 8);
        lemma_bits_of_value(bits);
    } else {
        let head = bits.take(8);
        let tail = bits.skip(8);
        assert(all_digits(head, 2)) by {
            assert forall|i: int| 0 <= i < head.len() implies #[trigger] digit_value(head[i]) < 2 by {
                assert(head[i] == bits[i]);
            }
        }
        assert(all_digits(tail, 2)) by {
            assert forall|i: int| 0 <= i < tail.len() implies #[trigger] digit_value(tail[i]) < 2 by {
                assert(tail[i] == bits[i + 8]);
            }
        }
        lemma_number_value_bound(head, 2);
        lemma_bits_of_value(head);
        lemma_binary_round_trip(tail);
        let all = binary_bytes(bits);
        assert(all.skip(1) =~= binary_bytes(tail));
        assert(bits =~= head + tail);
    }
}

} // verus!
