//! Digit values, positional numbers and fixed-width chunking of digit strings.

use vstd::prelude::*;

verus! {

/// The value of one ASCII digit byte, in any base up to 16 (`0-9`, `a-f`, `A-F`).
pub open spec fn digit_value(b: u8) -> nat {
    if 48 <= b <= 57 {
        (b - 48) as nat
    } else if 97 <= b <= 102 {
        (b - 87) as nat
    } else if 65 <= b <= 70 {
        (b - 55) as nat
    } else {
        16
    }
}

/// Every byte of `s` is a digit of `base`.
pub open spec fn all_digits(s: Seq<u8>, base: nat) -> bool {
    forall|i: int| 0 <= i < s.len() ==> #[trigger] digit_value(s[i]) < base
}

/// The number that the digit string `s` writes in `base`, most significant digit first.
pub open spec fn number_value(s: Seq<u8>, base: nat) -> nat
    decreases s.len(),
{
    if s.len() == 0 {
        0
    } else {
        number_value(s.drop_last(), base) * base + digit_value(s.last())
    }
}

pub open spec fn power(base: nat, e: nat) -> nat
    decreases e,
{
    if e == 0 {
        1
    } else {
        base * power(base, (e - 1) as nat)
    }
}

/// Splits `s` into consecutive groups of `width` digits from the left (the last
/// group may be shorter) and reads each group, unpadded, as one byte.
pub open spec fn chunk_values(s: Seq<u8>, width: nat, base: nat) -> Seq<u8>
    decreases s.len(),
{
    if s.len() == 0 || width == 0 {
        Seq::empty()
    } else if s.len() <= width {
        seq![number_value(s, base) as u8]
    } else {
        seq![number_value(s.take(width as int), base) as u8] + chunk_values(
            s.skip(width as int),
            width,
            base,
        )
    }
}

/// The `i`-th group of `width` digits of `s`.
pub open spec fn chunk(s: Seq<u8>, width: nat, i: int) -> Seq<u8> {
    let start = width * i;
    let end = if start + width <= s.len() { start + width } else { s.len() as int };
    s.subrange(start, end)
}

pub open spec fn chunk_count(n: nat, width: nat) -> nat {
    ((n + width - 1) / (width as int)) as nat
}

pub proof fn lemma_number_value_bound(s: Seq<u8>, base: nat)
    requires
        all_digits(s, base),
    ensures
        number_value(s, base) < power(base, s.len()),
    decreases s.len(),
{
    if s.len() > 0 {
        let p = s.drop_last();
        assert(all_digits(p, base)) by {
            assert forall|i: int| 0 <= i < p.len() implies #[trigger] digit_value(p[i]) < base by {
                assert(p[i] == s[i]);
            }
        }
        lemma_number_value_bound(p, base);
        assert(digit_value(s[s.len() - 1]) < base);
        let v = number_value(p, base);
        let q = power(base, p.len());
        assert(v + 1 <= q);
        let d = digit_value(s.last());
        assert(v * base + d < base * q) by (nonlinear_arith)
            requires v + 1 <= q, d < base;
        assert(power(base, s.len()) == base * q);
    }
}

/// Reads `d[from..to]` as a number in `base`.
pub fn read_number(d: &[u8], from: usize, to: usize, base: u8) -> (r: u64)
    requires
        from <= to <= d@.len(),
        2 <= base <= 16,
        all_digits(d@.subrange(from as int, to as int), base as nat),
        power(base as nat, (to - from) as nat) <= 256,
    ensures
        r == number_value(d@.subrange(from as int, to as int), base as nat),
        r < 256,
{
    let mut v: u64 = 0;
    let mut i: usize = from;
    while i < to
        invariant
            from <= i <= to <= d@.len(),
            2 <= base <= 16,
            all_digits(d@.subrange(from as int, to as int), base as nat),
            power(base as nat, (to - from) as nat) <= 256,
            v == number_value(d@.subrange(from as int, i as int), base as nat),
            v < 256,
        decreases to - i,
    {
        let ghost whole = d@.subrange(from as int, to as int);
        let ghost next = d@.subrange(from as int, i + 1);
        assert(next.drop_last() =~= d@.subrange(from as int, i as int));
        assert(next.last() == whole[i - from]);
        assert(digit_value(whole[i - from]) < base);
        assert(all_digits(next, base as nat)) by {
            assert forall|k: int| 0 <= k < next.len() implies #[trigger] digit_value(next[k]) < base by {
                assert(next[k] == whole[k]);
            }
        }
        proof {
            lemma_number_value_bound(next, base as nat);
            lemma_power_monotone(base as nat, next.len(), (to - from) as nat);
        }
        let b = d[i];
        let dv: u64 = if b >= 48 && b <= 57 {
            (b - 48) as u64
        } else if b >= 97 && b <= 102 {
            (b - 87) as u64
        } else {
            (b - 55) as u64
        };
        v = v * (base as u64) + dv;
        i = i + 1;
    }
    v
}

pub proof fn lemma_power_monotone(base: nat, a: nat, b: nat)
    requires
        base >= 1,
        a <= b,
    ensures
        power(base, a) <= power(base, b),
    decreases b,
{
    if a < b {
        lemma_power_monotone(base, a, (b - 1) as nat);
        assert(power(base, (b - 1) as nat) >= 1) by {
            lemma_power_positive(base, (b - 1) as nat);
        }
        let q = power(base, (b - 1) as nat);
        assert(q <= base * q) by (nonlinear_arith)
            requires base >= 1;
    }
}

pub proof fn lemma_power_positive(base: nat, e: nat)
    requires
        base >= 1,
    ensures
        power(base, e) >= 1,
    decreases e,
{
    if e > 0 {
        lemma_power_positive(base, (e - 1) as nat);
        let q = power(base, (e - 1) as nat);
        assert(base * q >= 1) by (nonlinear_arith)
            requires base >= 1, q >= 1;
    }
}

/// Reads `d[from..]` in groups of `width` digits of `base`, one byte per group.
pub fn read_chunks(d: &[u8], from: usize, width: usize, base: u8) -> (r: Vec<u8>)
    requires
        from <= d@.len(),
        1 <= width,
        2 <= base <= 16,
        all_digits(d@.skip(from as int), base as nat),
        power(base as nat, width as nat) <= 256,
    ensures
        r@ == chunk_values(d@.skip(from as int), width as nat, base as nat),
{
    let mut r: Vec<u8> = Vec::new();
    let mut i: usize = from;
    let ghost all = d@.skip(from as int);
    while i < d.len()
        invariant
            from <= i <= d@.len(),
            1 <= width,
            2 <= base <= 16,
            all == d@.skip(from as int),
            all_digits(all, base as nat),
            power(base as nat, width as nat) <= 256,
            r@ + chunk_values(d@.skip(i as int), width as nat, base as nat) == chunk_values(
                all,
                width as nat,
                base as nat,
            ),
        decreases d@.len() - i,
    {
        let end: usize = if d.len() - i <= width { d.len() } else { i + width };
        let ghost rest = d@.skip(i as int);
        let ghost part = d@.subrange(i as int, end as int);
        assert(all_digits(part, base as nat)) by {
            assert forall|k: int| 0 <= k < part.len() implies #[trigger] digit_value(part[k]) < base by {
                assert(part[k] == all[i - from + k]);
            }
        }
        proof {
            lemma_power_monotone(base as nat, (end - i) as nat, width as nat);
        }
        let x = read_number(d, i, end, base);
        proof {
            if rest.len() <= width {
                assert(part =~= rest);
            } else {
                assert(part =~= rest.take(width as int));
                assert(rest.skip(width as int) =~= d@.skip(end as int));
            }
            if end == d@.len() {
                assert(d@.skip(end as int) =~= Seq::<u8>::empty());
            }
        }
        r.push(x as u8);
        assert(r@ + chunk_values(d@.skip(end as int), width as nat, base as nat) =~= chunk_values(
            all,
            width as nat,
            base as nat,
        ));
        i = end;
    }
    assert(d@.skip(i as int) =~= Seq::<u8>::empty());
    assert(r@ + Seq::<u8>::empty() =~= r@);
    r
}

/// The groups read by [`chunk_values`] are, in order, the groups [`chunk`] names,
/// and there are `ceil(len / width)` of them.
pub proof fn lemma_chunk_values_index(s: Seq<u8>, width: nat, base: nat)
    requires
        width >= 1,
    ensures
        chunk_values(s, width, base).len() == chunk_count(s.len(), width),
        forall|i: int|
            0 <= i < chunk_values(s, width, base).len() ==> #[trigger] chunk_values(
                s,
                width,
                base,
            )[i] == number_value(chunk(s, width, i), base) as u8,
    decreases s.len(),
{
    let c = chunk_values(s, width, base);
    if s.len() == 0 {
        assert(chunk_count(0, width) == 0) by (nonlinear_arith)
            requires width >= 1;
    } else if s.len() <= width {
        assert(chunk_count(s.len(), width) == 1) by (nonlinear_arith)
            requires width >= 1, 1 <= s.len() <= width;
        assert(chunk(s, width, 0) =~= s);
    } else {
        let t = s.skip(width as int);
        lemma_chunk_values_index(t, width, base);
        assert(chunk_count(s.len(), width) == chunk_count(t.len(), width) + 1) by (nonlinear_arith)
            requires width >= 1, t.len() + width == s.len();
        assert(chunk(s, width, 0) =~= s.take(width as int));
        assert forall|i: int| 0 <= i < c.len() implies #[trigger] c[i] == number_value(
            chunk(s, width, i),
            base,
        ) as u8 by {
            if i > 0 {
                assert(c[i] == chunk_values(t, width, base)[i - 1]);
                assert(width * i == width * (i - 1) + width) by (nonlinear_arith);
                lemma_chunk_start(t.len(), width, i - 1);
                assert(chunk(t, width, i - 1) =~= chunk(s, width, i));
            }
        }
    }
}

proof fn lemma_chunk_start(n: nat, width: nat, j: int)
    requires
        width >= 1,
        0 <= j < chunk_count(n, width),
    ensures
        width * j < n,
{
    let q = (n + width - 1) / (width as int);
    assert(width * q <= n + width - 1) by (nonlinear_arith)
        requires width >= 1, q == (n + width - 1) / (width as int), n + width - 1 >= 0;
    assert(width * (j + 1) <= width * q) by (nonlinear_arith)
        requires width >= 1, j + 1 <= q;
    assert(width * (j + 1) == width * j + width) by (nonlinear_arith);
}

/// The two group widths fill exactly one byte.
pub proof fn lemma_byte_powers()
    ensures
        power(2, 8) == 256,
        power(16, 2) == 256,
{
    reveal_with_fuel(power, 9);
}

} // verus!
