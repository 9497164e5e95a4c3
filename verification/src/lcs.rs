//! Longest common subsequence: the score/traceback grid builder and the
//! backtracking reconstruction of one longest common subsequence.

use vstd::prelude::*;
use crate::matrix::Matrix;

verus! {

/// Length of the longest common subsequence of `u` and `v`.
pub open spec fn lcs_len(u: Seq<char>, v: Seq<char>) -> nat
    decreases u.len() + v.len(),
{
    if u.len() == 0 || v.len() == 0 {
        0
    } else if u.last() == v.last() {
        lcs_len(u.drop_last(), v.drop_last()) + 1
    } else if lcs_len(u.drop_last(), v) >= lcs_len(u, v.drop_last()) {
        lcs_len(u.drop_last(), v)
    } else {
        lcs_len(u, v.drop_last())
    }
}

/// The traceback tag recorded at cell `(i, j)` of the subsequence grid:
/// `'d'` when the two symbols match, otherwise `'u'` when the score from
/// above is at least the score from the left, otherwise `'l'`.
pub open spec fn lcs_tag(u: Seq<char>, v: Seq<char>, i: int, j: int) -> char
    recommends
        1 <= i <= u.len(),
        1 <= j <= v.len(),
{
    if u[i - 1] == v[j - 1] {
        'd'
    } else if lcs_len(u.take(i - 1), v.take(j)) >= lcs_len(u.take(i), v.take(j - 1)) {
        'u'
    } else {
        'l'
    }
}

/// The subsequence length of two prefixes obeys the cell recurrence.
proof fn lemma_lcs_unfold(u: Seq<char>, v: Seq<char>, i: int, j: int)
    requires
        1 <= i <= u.len(),
        1 <= j <= v.len(),
    ensures
        lcs_len(u.take(i), v.take(j)) == (if u[i - 1] == v[j - 1] {
            lcs_len(u.take(i - 1), v.take(j - 1)) + 1
        } else if lcs_len(u.take(i - 1), v.take(j)) >= lcs_len(u.take(i), v.take(j - 1)) {
            lcs_len(u.take(i - 1), v.take(j))
        } else {
            lcs_len(u.take(i), v.take(j - 1))
        }),
{
    let a = u.take(i);
    let b = v.take(j);
    assert(a.last() == u[i - 1]);
    assert(b.last() == v[j - 1]);
    assert(a.drop_last() =~= u.take(i - 1));
    assert(b.drop_last() =~= v.take(j - 1));
}

/// The subsequence length never exceeds either input's length.
pub proof fn lemma_lcs_len_le(u: Seq<char>, v: Seq<char>)
    ensures
        lcs_len(u, v) <= u.len(),
        lcs_len(u, v) <= v.len(),
    decreases u.len() + v.len(),
{
    if u.len() == 0 || v.len() == 0 {
    } else if u.last() == v.last() {
        lemma_lcs_len_le(u.drop_last(), v.drop_last());
    } else {
        lemma_lcs_len_le(u.drop_last(), v);
        lemma_lcs_len_le(u, v.drop_last());
    }
}

/// The subsequence length is symmetric in its two arguments.
pub proof fn lemma_lcs_symmetric(u: Seq<char>, v: Seq<char>)
    ensures
        lcs_len(u, v) == lcs_len(v, u),
    decreases u.len() + v.len(),
{
    if u.len() == 0 || v.len() == 0 {
    } else if u.last() == v.last() {
        lemma_lcs_symmetric(u.drop_last(), v.drop_last());
    } else {
        lemma_lcs_symmetric(u.drop_last(), v);
        lemma_lcs_symmetric(u, v.drop_last());
    }
}

/// A sequence compared with itself has subsequence length equal to its
/// own length.
pub proof fn lemma_lcs_self(u: Seq<char>)
    ensures
        lcs_len(u, u) == u.len(),
    decreases u.len(),
{
    if u.len() > 0 {
        lemma_lcs_self(u.drop_last());
    }
}

/// Builds the subsequence score grid and the traceback grid for `u` and
/// `v`.
///
/// Cell `(i, j)` of the score grid holds the subsequence length of the
/// prefixes `u[0..i)` and `v[0..j)`; row 0 and column 0 are the
/// empty-prefix boundary, always 0.  Interior cells of the traceback grid
/// hold the tag of the recurrence; boundary cells stay blank.
pub fn lcs(u: &str, v: &str) -> (r: (Matrix<u32>, Matrix<char>))
    requires
        u@.len() < 0xffff_ffff,
        v@.len() < 0xffff_ffff,
        (u@.len() + 1) * (v@.len() + 1) <= usize::MAX,
    ensures
        r.0.inv(),
        r.1.inv(),
        r.0@.len() == u@.len() + 1,
        r.1@.len() == u@.len() + 1,
        forall|i: int| 0 <= i < r.0@.len() ==> (#[trigger] r.0@[i]).len() == v@.len() + 1,
        forall|i: int| 0 <= i < r.1@.len() ==> (#[trigger] r.1@[i]).len() == v@.len() + 1,
        forall|i: int, j: int|
            0 <= i <= u@.len() && 0 <= j <= v@.len()
                ==> #[trigger] r.0@[i][j] as nat == lcs_len(u@.take(i), v@.take(j)),
        forall|i: int, j: int|
            1 <= i <= u@.len() && 1 <= j <= v@.len()
                ==> #[trigger] r.1@[i][j] == lcs_tag(u@, v@, i, j),
        forall|i: int, j: int|
            0 <= i <= u@.len() && 0 <= j <= v@.len() && (i == 0 || j == 0)
                ==> #[trigger] r.1@[i][j] == ' ',
{
    let m = u.unicode_len();
    let n = v.unicode_len();
    let mut s = Matrix::<u32>::new(m + 1, n + 1, 0u32);
    let mut b = Matrix::<char>::new(m + 1, n + 1, ' ');
    let mut i: usize = 1;
    while i <= m
        invariant
            m == u@.len(),
            n == v@.len(),
            m < 0xffff_ffff,
            n < 0xffff_ffff,
            1 <= i <= m + 1,
            s.inv(),
            b.inv(),
            s@.len() == m + 1,
            b@.len() == m + 1,
            forall|r: int| 0 <= r < s@.len() ==> (#[trigger] s@[r]).len() == n + 1,
            forall|r: int| 0 <= r < b@.len() ==> (#[trigger] b@[r]).len() == n + 1,
            forall|r: int, c: int|
                0 <= r <= m && 0 <= c <= n && (r < i || r == 0 || c == 0)
                    ==> #[trigger] s@[r][c] as nat == lcs_len(u@.take(r), v@.take(c)),
            forall|r: int, c: int|
                1 <= r < i && 1 <= c <= n ==> #[trigger] b@[r][c] == lcs_tag(u@, v@, r, c),
            forall|r: int, c: int|
                0 <= r <= m && 0 <= c <= n && (r == 0 || c == 0) ==> #[trigger] b@[r][c] == ' ',
        decreases m + 1 - i,
    {
        let mut j: usize = 1;
        while j <= n
            invariant
                m == u@.len(),
                n == v@.len(),
                m < 0xffff_ffff,
                n < 0xffff_ffff,
                1 <= i <= m,
                1 <= j <= n + 1,
                s.inv(),
                b.inv(),
                s@.len() == m + 1,
                b@.len() == m + 1,
                forall|r: int| 0 <= r < s@.len() ==> (#[trigger] s@[r]).len() == n + 1,
                forall|r: int| 0 <= r < b@.len() ==> (#[trigger] b@[r]).len() == n + 1,
                forall|r: int, c: int|
                    0 <= r <= m && 0 <= c <= n && (r < i || (r == i && c < j) || r == 0 || c == 0)
                        ==> #[trigger] s@[r][c] as nat == lcs_len(u@.take(r), v@.take(c)),
                forall|r: int, c: int|
                    1 <= r <= m && 1 <= c <= n && (r < i || (r == i && c < j))
                        ==> #[trigger] b@[r][c] == lcs_tag(u@, v@, r, c),
                forall|r: int, c: int|
                    0 <= r <= m && 0 <= c <= n && (r == 0 || c == 0) ==> #[trigger] b@[r][c] == ' ',
            decreases n + 1 - j,
        {
            let uc = u.get_char(i - 1);
            let vc = v.get_char(j - 1);
            proof {
                lemma_lcs_unfold(u@, v@, i as int, j as int);
                lemma_lcs_len_le(u@.take(i as int - 1), v@.take(j as int - 1));
            }
            if uc == vc {
                let val = s.get(i - 1, j - 1) + 1;
                s.set(i, j, val);
                b.set(i, j, 'd');
            } else if s.get(i - 1, j) >= s.get(i, j - 1) {
                let val = s.get(i - 1, j);
                s.set(i, j, val);
                b.set(i, j, 'u');
            } else {
                let val = s.get(i, j - 1);
                s.set(i, j, val);
                b.set(i, j, 'l');
            }
            j = j + 1;
        }
        i = i + 1;
    }
    (s, b)
}

/// The subsequence that a backward walk over the traceback grid `b`
/// gathers from cell `(i, j)`, in forward order.  A `'d'` tag emits one
/// symbol of `u`; `'u'` and `'l'` tags emit nothing; the walk ends at the
/// boundary.
pub open spec fn lcs_walk(b: Seq<Seq<char>>, u: Seq<char>, i: int, j: int) -> Seq<char>
    decreases i + j,
{
    if i <= 0 || j <= 0 {
        Seq::<char>::empty()
    } else if b[i][j] == 'd' {
        lcs_walk(b, u, i - 1, j - 1).push(u[i - 1])
    } else if b[i][j] == 'u' {
        lcs_walk(b, u, i - 1, j)
    } else {
        lcs_walk(b, u, i, j - 1)
    }
}

/// `s` occurs in `t` in order, though not necessarily contiguously.
pub open spec fn is_subsequence(s: Seq<char>, t: Seq<char>) -> bool
    decreases s.len() + t.len(),
{
    if s.len() == 0 {
        true
    } else if t.len() == 0 {
        false
    } else if s.last() == t.last() && is_subsequence(s.drop_last(), t.drop_last()) {
        true
    } else {
        is_subsequence(s, t.drop_last())
    }
}

/// A subsequence of `t` is a subsequence of `t` extended by any symbol.
proof fn lemma_subsequence_extend(s: Seq<char>, t: Seq<char>, c: char)
    requires
        is_subsequence(s, t),
    ensures
        is_subsequence(s, t.push(c)),
{
    assert(t.push(c).drop_last() =~= t);
}

/// Appending the same symbol to a subsequence and its supersequence
/// keeps the subsequence relation.
proof fn lemma_subsequence_match(s: Seq<char>, t: Seq<char>, c: char)
    requires
        is_subsequence(s, t),
    ensures
        is_subsequence(s.push(c), t.push(c)),
{
    assert(s.push(c).drop_last() =~= s);
    assert(t.push(c).drop_last() =~= t);
}

/// Over a grid carrying the subsequence tags, the walk from `(i, j)`
/// gathers a common subsequence of the prefixes `u[0..i)` and `v[0..j)`
/// whose length is exactly their optimal subsequence length.
pub proof fn lemma_lcs_walk_correct(b: Seq<Seq<char>>, u: Seq<char>, v: Seq<char>, i: int, j: int)
    requires
        0 <= i <= u.len(),
        0 <= j <= v.len(),
        forall|r: int, c: int|
            1 <= r <= u.len() && 1 <= c <= v.len() ==> #[trigger] b[r][c] == lcs_tag(u, v, r, c),
    ensures
        is_subsequence(lcs_walk(b, u, i, j), u.take(i)),
        is_subsequence(lcs_walk(b, u, i, j), v.take(j)),
        lcs_walk(b, u, i, j).len() == lcs_len(u.take(i), v.take(j)),
    decreases i + j,
{
    if i <= 0 || j <= 0 {
    } else {
        lemma_lcs_unfold(u, v, i, j);
        assert(b[i][j] == lcs_tag(u, v, i, j));
        if u[i - 1] == v[j - 1] {
            lemma_lcs_walk_correct(b, u, v, i - 1, j - 1);
            lemma_subsequence_match(lcs_walk(b, u, i - 1, j - 1), u.take(i - 1), u[i - 1]);
            lemma_subsequence_match(lcs_walk(b, u, i - 1, j - 1), v.take(j - 1), v[j - 1]);
            assert(u.take(i - 1).push(u[i - 1]) =~= u.take(i));
            assert(v.take(j - 1).push(v[j - 1]) =~= v.take(j));
        } else if lcs_len(u.take(i - 1), v.take(j)) >= lcs_len(u.take(i), v.take(j - 1)) {
            lemma_lcs_walk_correct(b, u, v, i - 1, j);
            lemma_subsequence_extend(lcs_walk(b, u, i - 1, j), u.take(i - 1), u[i - 1]);
            assert(u.take(i - 1).push(u[i - 1]) =~= u.take(i));
        } else {
            lemma_lcs_walk_correct(b, u, v, i, j - 1);
            lemma_subsequence_extend(lcs_walk(b, u, i, j - 1), v.take(j - 1), v[j - 1]);
            assert(v.take(j - 1).push(v[j - 1]) =~= v.take(j));
        }
    }
}

/// The full walk over the grid built for `u` and `v` reconstructs a
/// common subsequence of `u` and `v` of the optimal length.
pub proof fn lemma_lcs_reconstruction_correct(b: Seq<Seq<char>>, u: Seq<char>, v: Seq<char>)
    requires
        forall|r: int, c: int|
            1 <= r <= u.len() && 1 <= c <= v.len() ==> #[trigger] b[r][c] == lcs_tag(u, v, r, c),
    ensures
        is_subsequence(lcs_walk(b, u, u.len() as int, v.len() as int), u),
        is_subsequence(lcs_walk(b, u, u.len() as int, v.len() as int), v),
        lcs_walk(b, u, u.len() as int, v.len() as int).len() == lcs_len(u, v),
{
    lemma_lcs_walk_correct(b, u, v, u.len() as int, v.len() as int);
    assert(u.take(u.len() as int) =~= u);
    assert(v.take(v.len() as int) =~= v);
}

/// On the grid built from a sequence against itself, every diagonal cell
/// is tagged `'d'`, so the walk down the diagonal reproduces the
/// sequence: the longest common subsequence of `u` and `u` is `u`.
pub proof fn lemma_lcs_self_reconstruction(b: Seq<Seq<char>>, u: Seq<char>)
    requires
        forall|i: int, j: int|
            1 <= i <= u.len() && 1 <= j <= u.len() ==> #[trigger] b[i][j] == lcs_tag(u, u, i, j),
    ensures
        lcs_walk(b, u, u.len() as int, u.len() as int) == u,
{
    lemma_lcs_self_walk(b, u, u.len() as int);
    assert(u.take(u.len() as int) =~= u);
}

/// The walk from diagonal cell `(k, k)` of the self-comparison grid
/// yields the first `k` symbols of `u`.
proof fn lemma_lcs_self_walk(b: Seq<Seq<char>>, u: Seq<char>, k: int)
    requires
        0 <= k <= u.len(),
        forall|i: int, j: int|
            1 <= i <= u.len() && 1 <= j <= u.len() ==> #[trigger] b[i][j] == lcs_tag(u, u, i, j),
    ensures
        lcs_walk(b, u, k, k) == u.take(k),
    decreases k,
{
    if k <= 0 {
        assert(lcs_walk(b, u, k, k) =~= u.take(k));
    } else {
        assert(b[k][k] == lcs_tag(u, u, k, k));
        assert(b[k][k] == 'd');
        lemma_lcs_self_walk(b, u, k - 1);
        assert(u.take(k - 1).push(u[k - 1]) =~= u.take(k));
    }
}

/// Reconstructs the longest common subsequence from the traceback grid
/// `b` built over `u` and a second sequence, walking backward from the
/// bottom-right cell.
pub fn lcs_string(b: &Matrix<char>, u: &str) -> (r: String)
    requires
        b.inv(),
        b@.len() == u@.len() + 1,
        forall|i: int| 0 <= i < b@.len() ==> (#[trigger] b@[i]).len() == b@[0].len(),
        b@[0].len() >= 1,
    ensures
        r@ == lcs_walk(b@, u@, u@.len() as int, b@[0].len() - 1),
{
    let mut i = b.row() - 1;
    let mut j = b.col() - 1;
    let ghost m = i as int;
    let ghost n0 = j as int;
    let mut out = String::new();
    while 0 < i && 0 < j
        invariant
            b.inv(),
            b@.len() == u@.len() + 1,
            forall|r: int| 0 <= r < b@.len() ==> (#[trigger] b@[r]).len() == b@[0].len(),
            m == u@.len(),
            n0 == b@[0].len() - 1,
            0 <= i <= m,
            0 <= j <= n0,
            lcs_walk(b@, u@, m, n0) == lcs_walk(b@, u@, i as int, j as int) + out@,
        decreases i + j,
    {
        let t = b.get(i, j);
        if t == 'd' {
            let piece = u.substring_char(i - 1, i);
            let next = String::from_str(piece).concat(out.as_str());
            proof {
                assert(piece@ =~= seq![u@[i as int - 1]]);
                assert(lcs_walk(b@, u@, i as int, j as int) == lcs_walk(
                    b@,
                    u@,
                    i as int - 1,
                    j as int - 1,
                ).push(u@[i as int - 1]));
                assert(lcs_walk(b@, u@, m, n0) =~= lcs_walk(b@, u@, i as int - 1, j as int - 1)
                    + next@);
            }
            out = next;
            i = i - 1;
            j = j - 1;
        } else if t == 'u' {
            i = i - 1;
        } else {
            j = j - 1;
        }
    }
    proof {
        assert(lcs_walk(b@, u@, i as int, j as int) =~= Seq::<char>::empty());
        assert(lcs_walk(b@, u@, m, n0) =~= out@);
    }
    out
}

} // verus!
