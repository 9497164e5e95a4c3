//! Hamming distance: an O(n) comparator of two equal-length sequences.

use vstd::prelude::*;

verus! {

/// The number of positions at which the two sequences differ, over the
/// positions both sequences have.
pub open spec fn hamming_dist(u: Seq<char>, v: Seq<char>) -> nat
    decreases u.len(),
{
    if u.len() == 0 || v.len() == 0 {
        0
    } else {
        hamming_dist(u.drop_last(), v.drop_last()) + (if u.last() == v.last() {
            0nat
        } else {
            1nat
        })
    }
}

/// The distance of two prefixes grows by the disagreement at the new
/// position.
proof fn lemma_hamming_unfold(u: Seq<char>, v: Seq<char>, i: int)
    requires
        1 <= i <= u.len(),
        1 <= i <= v.len(),
    ensures
        hamming_dist(u.take(i), v.take(i)) == hamming_dist(u.take(i - 1), v.take(i - 1)) + (if u[i
            - 1] == v[i - 1] {
            0nat
        } else {
            1nat
        }),
{
    let a = u.take(i);
    let b = v.take(i);
    assert(a.last() == u[i - 1]);
    assert(b.last() == v[i - 1]);
    assert(a.drop_last() =~= u.take(i - 1));
    assert(b.drop_last() =~= v.take(i - 1));
}

/// The Hamming distance is symmetric.
pub proof fn lemma_hamming_symmetric(u: Seq<char>, v: Seq<char>)
    ensures
        hamming_dist(u, v) == hamming_dist(v, u),
    decreases u.len(),
{
    if u.len() == 0 || v.len() == 0 {
    } else {
        lemma_hamming_symmetric(u.drop_last(), v.drop_last());
    }
}

/// A sequence is at distance 0 from itself.
pub proof fn lemma_hamming_self(u: Seq<char>)
    ensures
        hamming_dist(u, u) == 0,
    decreases u.len(),
{
    if u.len() > 0 {
        lemma_hamming_self(u.drop_last());
    }
}

/// Returns the Hamming distance between `u` and `v`: the number of
/// positions at which they differ.  Sequences of unequal length have no
/// Hamming distance; the length mismatch is reported as an error.
pub fn hamming(u: &str, v: &str) -> (r: Result<usize, String>)
    ensures
        u@.len() == v@.len() ==> (r matches Ok(d) && d as nat == hamming_dist(u@, v@)),
        u@.len() != v@.len() ==> (r matches Err(msg) && msg@ == "Strings must have the same length"@),
{
    let m = u.unicode_len();
    let n = v.unicode_len();
    if m != n {
        Err(String::from_str("Strings must have the same length"))
    } else {
        let mut distance: usize = 0;
        let mut i: usize = 0;
        while i < m
            invariant
                m == u@.len(),
                m == v@.len(),
                i <= m,
                distance <= i,
                distance as nat == hamming_dist(u@.take(i as int), v@.take(i as int)),
            decreases m - i,
        {
            proof {
                lemma_hamming_unfold(u@, v@, i as int + 1);
            }
            if u.get_char(i) != v.get_char(i) {
                distance = distance + 1;
            }
            i = i + 1;
        }
        proof {
            assert(u@.take(m as int) =~= u@);
            assert(v@.take(m as int) =~= v@);
        }
        Ok(distance)
    }
}

} // verus!
