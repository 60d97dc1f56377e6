//! Splitting the byte buffer into record-aligned partitions.

use vstd::prelude::*;
use vstd::arithmetic::div_mod::lemma_fundamental_div_mod;
use vstd::arithmetic::mul::lemma_mul_inequality;

use crate::error::Error;
use crate::model::{find_nl_from, lemma_find_nl_from, NL};

verus! {

/// The internal boundary `i` of a split into `parts` partitions: one byte
/// past the first line terminator at or after the candidate offset
/// `i * (len / parts)`, or `None` when no terminator follows the candidate.
pub open spec fn spec_boundary(s: Seq<u8>, parts: int, i: int) -> Option<int> {
    match find_nl_from(s, i * (s.len() as int / parts)) {
        Some(p) => Some(p + 1),
        None => None,
    }
}

/// The boundary offsets of the split, ends included: offset zero, then the
/// internal boundaries, then the buffer length.
pub open spec fn boundary_val(s: Seq<u8>, parts: int, i: int) -> int {
    if i <= 0 {
        0
    } else if i >= parts {
        s.len() as int
    } else {
        match spec_boundary(s, parts, i) {
            Some(b) => b,
            None => 0,
        }
    }
}

/// Whether the requested split is feasible: a single partition always is;
/// more are exactly when every internal candidate has a terminator after it
/// and the resulting boundaries climb strictly without touching the buffer
/// end, so that no partition comes out empty.
pub open spec fn partition_ok(s: Seq<u8>, parts: int) -> bool {
    parts == 1 || forall|i: int|
        1 <= i < parts ==> {
            &&& (#[trigger] spec_boundary(s, parts, i)) is Some
            &&& boundary_val(s, parts, i - 1) < boundary_val(s, parts, i)
            &&& boundary_val(s, parts, i) < s.len()
        }
}

/// The partitions of a feasible split: consecutive boundary pairs.
pub open spec fn spec_partition(s: Seq<u8>, parts: int) -> Seq<(int, int)> {
    Seq::new(parts as nat, |i: int| (boundary_val(s, parts, i), boundary_val(s, parts, i + 1)))
}

/// Split the buffer into `parts` contiguous partitions: the first starts at
/// offset zero, the last ends at the buffer length, each internal boundary
/// sits one byte past the first line terminator at or after its candidate
/// offset `i * (len / parts)`, so no partition splits a line. With more
/// than one partition requested, each must come out nonempty — a buffer
/// with too few terminators is refused as a configuration error, exactly
/// when the split is infeasible.
pub fn partition(bytes: &[u8], parts: usize) -> (r: Result<Vec<(usize, usize)>, Error>)
    requires
        1 <= parts,
    ensures
        match r {
            Ok(v) => {
                &&& partition_ok(bytes@, parts as int)
                &&& v@.len() == parts
                &&& forall|i: int| 0 <= i < parts ==> (#[trigger] v@[i]) == (
                    boundary_val(bytes@, parts as int, i) as usize,
                    boundary_val(bytes@, parts as int, i + 1) as usize,
                )
                &&& v@[0].0 == 0
                &&& v@[parts - 1].1 == bytes@.len()
                &&& forall|i: int| 0 <= i < parts - 1 ==> (#[trigger] v@[i]).1 == v@[i + 1].0
                &&& forall|i: int| 0 <= i < parts ==> (#[trigger] v@[i]).0 <= v@[i].1 <= bytes@.len()
                &&& forall|i: int| 1 <= i < parts ==> 1 <= (#[trigger] v@[i]).0 && bytes@[v@[i].0
                    - 1] == NL
                &&& parts > 1 ==> forall|i: int| 0 <= i < parts ==> (#[trigger] v@[i]).0 < v@[i].1
            },
            Err(e) => !partition_ok(bytes@, parts as int) && e == Error::Configuration,
        },
{
    let len = bytes.len();
    let mut cuts: Vec<(usize, usize)> = Vec::new();
    if parts == 1 {
        cuts.push((0, len));
        return Ok(cuts);
    }
    let division = len / parts;
    proof {
        lemma_fundamental_div_mod(len as int, parts as int);
    }
    let mut prev: usize = 0;
    let mut cand: usize = 0;
    let mut i: usize = 1;
    while i < parts
        invariant
            1 <= i <= parts,
            2 <= parts,
            len == bytes@.len(),
            division == len as int / parts as int,
            cand == (i - 1) * division as int,
            cand <= len,
            parts * division <= len,
            cuts@.len() == i - 1,
            prev == boundary_val(bytes@, parts as int, i - 1),
            prev <= len,
            i > 1 ==> prev < len,
            forall|j: int| 1 <= j < i ==> {
                &&& (#[trigger] spec_boundary(bytes@, parts as int, j)) is Some
                &&& boundary_val(bytes@, parts as int, j - 1) < boundary_val(
                    bytes@,
                    parts as int,
                    j,
                )
                &&& 0 < boundary_val(bytes@, parts as int, j) < len
                &&& bytes@[boundary_val(bytes@, parts as int, j) - 1] == NL
            },
            forall|j: int| 0 <= j < i - 1 ==> (#[trigger] cuts@[j]) == (
                boundary_val(bytes@, parts as int, j) as usize,
                boundary_val(bytes@, parts as int, j + 1) as usize,
            ),
        decreases parts - i,
    {
        proof {
            assert(i * division as int == (i - 1) * division as int + division) by (nonlinear_arith);
            lemma_mul_inequality(i as int, parts as int, division as int);
        }
        cand = cand + division;
        match crate::aggregate::find_newline(bytes, cand) {
            None => {
                assert(spec_boundary(bytes@, parts as int, i as int) is None);
                return Err(Error::Configuration);
            },
            Some(p) => {
                let b = p + 1;
                proof {
                    lemma_find_nl_from(bytes@, cand as int);
                }
                assert(bytes@[p as int] == NL);
                assert(boundary_val(bytes@, parts as int, i as int) == b);
                if b <= prev || b >= len {
                    assert(!partition_ok(bytes@, parts as int)) by {
                        if partition_ok(bytes@, parts as int) {
                            assert(spec_boundary(bytes@, parts as int, i as int) is Some);
                        }
                    }
                    return Err(Error::Configuration);
                }
                cuts.push((prev, b));
                prev = b;
                i = i + 1;
            },
        }
    }
    cuts.push((prev, len));
    proof {
        assert(cuts@[parts - 1] == (
            boundary_val(bytes@, parts as int, parts as int - 1) as usize,
            boundary_val(bytes@, parts as int, parts as int) as usize,
        ));
        assert forall|k: int| 0 <= k < parts implies (#[trigger] cuts@[k]) == (
            boundary_val(bytes@, parts as int, k) as usize,
            boundary_val(bytes@, parts as int, k + 1) as usize,
        ) by {}
    }
    Ok(cuts)
}

} // verus!
