//! `ASCII(...)` markers: the interior is taken byte for byte.

use vstd::prelude::*;
use vstd::string::StringSliceAdditionalSpecFns;
use crate::pattern::{ascii_marker_shape, marker_at, marker_open};

verus! {

/// `b[i..j + 1]` is the marker that a left-to-right search finds: it starts at
/// the first place where any marker starts, and ends at the last `)` that a
/// marker from there can end on.
pub open spec fn first_marker(b: Seq<u8>, i: int, j: int) -> bool {
    &&& marker_at(b, i, j)
    &&& forall|i2: int, j2: int| 0 <= i2 < i ==> !#[trigger] marker_at(b, i2, j2)
    &&& forall|j2: int| j < j2 ==> !#[trigger] marker_at(b, i, j2)
}

/// The bytes between `ASCII(` and `)` of the first marker in `b`.
pub open spec fn marker_interior(b: Seq<u8>) -> Seq<u8> {
    let (i, j) = choose|i: int, j: int| first_marker(b, i, j);
    b.subrange(i + 6, j)
}

/// There is only one first marker.
pub proof fn lemma_first_marker_unique(b: Seq<u8>, i: int, j: int)
    requires
        first_marker(b, i, j),
    ensures
        marker_interior(b) == b.subrange(i + 6, j),
{
    let (i2, j2) = choose|i2: int, j2: int| first_marker(b, i2, j2);
    assert(first_marker(b, i2, j2));
    if i2 < i {
        assert(!marker_at(b, i2, j2));
    } else if i < i2 {
        assert(!marker_at(b, i, j));
    } else if j < j2 {
        assert(!marker_at(b, i, j2));
    } else if j2 < j {
        assert(!marker_at(b, i2, j));
    }
}

fn copy_range(b: &[u8], from: usize, to: usize) -> (r: Vec<u8>)
    requires
        from <= to <= b@.len(),
    ensures
        r@ == b@.subrange(from as int, to as int),
{
    let mut r: Vec<u8> = Vec::new();
    let mut k: usize = from;
    while k < to
        invariant
            from <= k <= to <= b@.len(),
            r@ == b@.subrange(from as int, k as int),
        decreases to - k,
    {
        r.push(b[k]);
        assert(r@ =~= b@.subrange(from as int, k + 1));
        k = k + 1;
    }
    r
}

/// Parses a string that holds an `ASCII(...)` marker: the bytes of the first
/// marker's interior, with no numeric reading of them.
pub fn parse_str_ascii(s: &str) -> (r: Vec<u8>)
    requires
        ascii_marker_shape(s.spec_bytes()),
    ensures
        r@ == marker_interior(s.spec_bytes()),
{
    let b = s.as_bytes();
    let n = b.len();
    let mut i: usize = 0;
    while i < n && n - i >= 8
        invariant
            i <= n,
            b@ == s.spec_bytes(),
            n == b@.len(),
            forall|i2: int, j2: int| 0 <= i2 < i ==> !#[trigger] marker_at(b@, i2, j2),
        decreases n - i,
    {
        if b[i] == 65 && b[i + 1] == 83 && b[i + 2] == 67 && b[i + 3] == 73 && b[i + 4] == 73
            && b[i + 5] == 40 {
            assert(b@.subrange(i as int, i + 6) =~= marker_open());
            let mut k: usize = i + 6;
            let mut found: bool = false;
            let mut last: usize = 0;
            while k < n
                invariant
                    b@ == s.spec_bytes(),
                    n == b@.len(),
                    i + 8 <= n,
                    i + 6 <= k <= n,
                    b@.subrange(i as int, i + 6) == marker_open(),
                    found ==> i + 7 <= last < k && b@[last as int] == 41,
                    found ==> forall|j2: int| last < j2 < k ==> #[trigger] b@[j2] != 41,
                    !found ==> forall|j2: int| i + 7 <= j2 < k ==> #[trigger] b@[j2] != 41,
                decreases n - k,
            {
                if b[k] == 41 && k >= i + 7 {
                    found = true;
                    last = k;
                }
                k = k + 1;
            }
            if found {
                proof {
                    assert(marker_at(b@, i as int, last as int));
                    assert forall|j2: int| last < j2 implies !#[trigger] marker_at(b@, i as int, j2) by {
                        if marker_at(b@, i as int, j2) {
                            assert(b@[j2] == 41);
                        }
                    }
                    lemma_first_marker_unique(b@, i as int, last as int);
                }
                return copy_range(b, i + 6, last);
            }
            assert forall|j2: int| true implies !#[trigger] marker_at(b@, i as int, j2) by {
                if marker_at(b@, i as int, j2) {
                    assert(b@[j2] == 41);
                }
            }
        } else {
            assert forall|j2: int| true implies !#[trigger] marker_at(b@, i as int, j2) by {
                if marker_at(b@, i as int, j2) {
                    let w = b@.subrange(i as int, i + 6);
                    assert(w[0] == b@[i as int] && w[1] == b@[i + 1] && w[2] == b@[i + 2]);
                    assert(w[3] == b@[i + 3] && w[4] == b@[i + 4] && w[5] == b@[i + 5]);
                }
            }
        }
        i = i + 1;
    }
    proof {
        let (i0, j0) = choose|i0: int, j0: int| marker_at(b@, i0, j0);
        assert(marker_at(b@, i0, j0));
    }
    Vec::new()
}

} // verus!
