//! Decimal literals: digits only, rendered big-endian in as few bytes as the
//! value needs.

use vstd::prelude::*;
use vstd::string::StringSliceAdditionalSpecFns;
use crate::digits::{all_digits, digit_value, number_value};
use crate::error::{ConvertError, ErrorKind};
use crate::pattern::decimal_shape;

verus! {

/// The value `v` in big-endian base 256, with no leading zero byte but for the
/// single byte of zero.
pub open spec fn minimal_bytes(v: nat) -> Seq<u8>
    decreases v,
{
    if v < 256 {
        seq![v as u8]
    } else {
        minimal_bytes(v / 256).push((v % 256) as u8)
    }
}

/// The value of a decimal literal fits in an unsigned 64-bit integer.
pub open spec fn decimal_in_range(b: Seq<u8>) -> bool {
    number_value(b, 10) <= u64::MAX
}

/// Parses a decimal literal into the fewest big-endian bytes that hold its
/// value (one byte for zero); a value beyond the unsigned 64-bit range is a
/// `NumericOverflow` error that carries the literal.
pub fn parse_decimal(n: &str) -> (r: Result<Vec<u8>, ConvertError>)
    requires
        decimal_shape(n.spec_bytes()),
    ensures
        r is Ok <==> decimal_in_range(n.spec_bytes()),
        r matches Ok(v) ==> v@ == minimal_bytes(number_value(n.spec_bytes(), 10)),
        r matches Err(e) ==> e.kind == ErrorKind::NumericOverflow && e.token@ == n@,
{
    let b = n.as_bytes();
    let mut v: u64 = 0;
    let mut i: usize = 0;
    while i < b.len()
        invariant
            i <= b@.len(),
            b@ == n.spec_bytes(),
            all_digits(b@, 10),
            v == number_value(b@.take(i as int), 10),
        decreases b@.len() - i,
    {
        assert(b@.take(i + 1).drop_last() =~= b@.take(i as int));
        assert(digit_value(b@[i as int]) < 10);
        let w: u128 = (v as u128) * 10 + (b[i] - 48) as u128;
        if w > u64::MAX as u128 {
            proof {
                lemma_prefix_value_bound(b@, i + 1);
                assert(b@.take(b@.len() as int) =~= b@);
            }
            return Err(ConvertError { kind: ErrorKind::NumericOverflow, token: n.to_owned() });
        }
        v = w as u64;
        i = i + 1;
    }
    assert(b@.take(i as int) =~= b@);
    Ok(value_bytes(v))
}

/// A longer digit string never reads as a smaller number.
proof fn lemma_prefix_value_bound(s: Seq<u8>, k: int)
    requires
        0 <= k <= s.len(),
    ensures
        number_value(s.take(k), 10) <= number_value(s, 10),
    decreases s.len(),
{
    if k < s.len() {
        let p = s.drop_last();
        assert(p.take(k) =~= s.take(k));
        lemma_prefix_value_bound(p, k);
    } else {
        assert(s.take(k) =~= s);
    }
}

/// The fewest big-endian bytes that hold `v`.
fn value_bytes(v: u64) -> (r: Vec<u8>)
    ensures
        r@ == minimal_bytes(v as nat),
    decreases v,
{
    if v < 256 {
        let mut r: Vec<u8> = Vec::new();
        r.push(v as u8);
        assert(r@ =~= seq![v as u8]);
        r
    } else {
        let mut r = value_bytes(v / 256);
        r.push((v % 256) as u8);
        r
    }
}

/// The bytes of a value start with a zero byte only when the value is zero,
/// and zero is the single byte `[0]`.
pub proof fn lemma_minimal_bytes_no_leading_zero(v: nat)
    ensures
        minimal_bytes(v).len() >= 1,
        v == 0 ==> minimal_bytes(v) == seq![0u8],
        v != 0 ==> minimal_bytes(v)[0] != 0,
    decreases v,
{
    if v >= 256 {
        lemma_minimal_bytes_no_leading_zero(v / 256);
    }
}

/// Read back in base 256, the bytes of a value give the value.
pub proof fn lemma_minimal_bytes_value(v: nat)
    ensures
        number_value_base256(minimal_bytes(v)) == v,
    decreases v,
{
    if v >= 256 {
        lemma_minimal_bytes_value(v / 256);
        assert(minimal_bytes(v).drop_last() =~= minimal_bytes(v / 256));
        assert(minimal_bytes(v).last() as nat == v % 256);
        let m = minimal_bytes(v);
        assert(m.len() > 0);
        assert(number_value_base256(m) == number_value_base256(m.drop_last()) * 256 + m.last() as nat);
        assert(v == (v / 256) * 256 + v % 256);
    } else {
        assert(minimal_bytes(v).drop_last() =~= Seq::<u8>::empty());
        assert(minimal_bytes(v).last() as nat == v);
        let m = minimal_bytes(v);
        assert(number_value_base256(m) == number_value_base256(m.drop_last()) * 256 + m.last() as nat);
    }
}

/// A byte string read as a big-endian number.
pub open spec fn number_value_base256(b: Seq<u8>) -> nat
    decreases b.len(),
{
    if b.len() == 0 {
        0
    } else {
        number_value_base256(b.drop_last()) * 256 + b.last() as nat
    }
}

} // verus!
