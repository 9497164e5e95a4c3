//! Global alignment (Needleman-Wunsch): the score/traceback grid builder
//! and the backtracking reconstruction of the aligned strings.

use vstd::prelude::*;
use crate::matrix::Matrix;

verus! {

/// The scoring policy of an alignment: the score of aligning two equal
/// symbols, the score of aligning two different symbols, and the penalty
/// of aligning a symbol against a gap.
pub struct Options {
    pub match_: i8,
    pub mismatch: i8,
    pub gap: i8,
}

/// The optimal global alignment score of `u` and `v` under the policy
/// `(mat, mis, gap)`: every symbol of both sequences is consumed, and a
/// prefix aligned entirely against gaps costs one gap penalty per symbol.
pub open spec fn global_score(u: Seq<char>, v: Seq<char>, mat: int, mis: int, gap: int) -> int
    decreases u.len() + v.len(),
{
    if u.len() == 0 {
        v.len() * gap
    } else if v.len() == 0 {
        u.len() * gap
    } else {
        let d = global_score(u.drop_last(), v.drop_last(), mat, mis, gap) + (if u.last()
            == v.last() {
            mat
        } else {
            mis
        });
        let up = global_score(u.drop_last(), v, mat, mis, gap) + gap;
        let l = global_score(u, v.drop_last(), mat, mis, gap) + gap;
        if d >= up && d >= l {
            d
        } else if up >= l {
            up
        } else {
            l
        }
    }
}

/// The traceback tag recorded at interior cell `(i, j)`: `'d'` when the
/// diagonal candidate wins every tie, else `'u'` when the candidate from
/// above beats the diagonal and at least ties the left, else `'l'`.
pub open spec fn global_tag(u: Seq<char>, v: Seq<char>, i: int, j: int, mat: int, mis: int, gap: int) -> char
    recommends
        1 <= i <= u.len(),
        1 <= j <= v.len(),
{
    let d = global_score(u.take(i - 1), v.take(j - 1), mat, mis, gap) + (if u[i - 1] == v[j - 1] {
        mat
    } else {
        mis
    });
    let up = global_score(u.take(i - 1), v.take(j), mat, mis, gap) + gap;
    let l = global_score(u.take(i), v.take(j - 1), mat, mis, gap) + gap;
    if d >= up && d >= l {
        'd'
    } else if d < up && up >= l {
        'u'
    } else {
        'l'
    }
}

/// The global score of two prefixes obeys the cell recurrence.
proof fn lemma_global_unfold(u: Seq<char>, v: Seq<char>, i: int, j: int, mat: int, mis: int, gap: int)
    requires
        1 <= i <= u.len(),
        1 <= j <= v.len(),
    ensures
        global_score(u.take(i), v.take(j), mat, mis, gap) == ({
            let d = global_score(u.take(i - 1), v.take(j - 1), mat, mis, gap) + (if u[i - 1] == v[j
                - 1] {
                mat
            } else {
                mis
            });
            let up = global_score(u.take(i - 1), v.take(j), mat, mis, gap) + gap;
            let l = global_score(u.take(i), v.take(j - 1), mat, mis, gap) + gap;
            if d >= up && d >= l {
                d
            } else if up >= l {
                up
            } else {
                l
            }
        }),
{
    let a = u.take(i);
    let b = v.take(j);
    assert(a.last() == u[i - 1]);
    assert(b.last() == v[j - 1]);
    assert(a.drop_last() =~= u.take(i - 1));
    assert(b.drop_last() =~= v.take(j - 1));
}

/// A product of a length and a per-step score of magnitude at most 128
/// is bounded by 128 per step.
proof fn lemma_mul_bound(l: int, g: int)
    by (nonlinear_arith)
    requires
        0 <= l,
        -128 <= g <= 128,
    ensures
        -128 * l <= l * g <= 128 * l,
{
}

/// Every global alignment score is bounded by 128 per consumed symbol.
pub proof fn lemma_global_score_bound(u: Seq<char>, v: Seq<char>, mat: int, mis: int, gap: int)
    requires
        -128 <= mat <= 128,
        -128 <= mis <= 128,
        -128 <= gap <= 128,
    ensures
        -128 * (u.len() + v.len()) <= global_score(u, v, mat, mis, gap) <= 128 * (u.len()
            + v.len()),
    decreases u.len() + v.len(),
{
    if u.len() == 0 {
        lemma_mul_bound(v.len() as int, gap);
    } else if v.len() == 0 {
        lemma_mul_bound(u.len() as int, gap);
    } else {
        lemma_global_score_bound(u.drop_last(), v.drop_last(), mat, mis, gap);
        lemma_global_score_bound(u.drop_last(), v, mat, mis, gap);
        lemma_global_score_bound(u, v.drop_last(), mat, mis, gap);
    }
}

/// A nonnegative factor keeps multiplication monotone.
proof fn lemma_mul_mono(f: int, x: int, y: int)
    by (nonlinear_arith)
    requires
        0 <= f,
        x <= y,
    ensures
        f * x <= f * y,
{
}

/// Multiplication distributes over adding one more step.
proof fn lemma_mul_succ(f: int, x: int)
    by (nonlinear_arith)
    ensures
        f * x + f == f * (x + 1),
{
}

/// With a nonnegative match score, a mismatch score no better than a
/// match, and a nonpositive gap penalty, no global alignment score
/// exceeds the match score times the shorter input's length.
pub proof fn lemma_global_score_upper(u: Seq<char>, v: Seq<char>, mat: int, mis: int, gap: int)
    requires
        0 <= mat,
        mis <= mat,
        gap <= 0,
    ensures
        global_score(u, v, mat, mis, gap) <= mat * vstd::math::min(u.len() as int, v.len() as int),
    decreases u.len() + v.len(),
{
    let m = u.len() as int;
    let n = v.len() as int;
    if u.len() == 0 {
        assert(n * gap <= 0) by (nonlinear_arith)
            requires 0 <= n && gap <= 0;
    } else if v.len() == 0 {
        assert(m * gap <= 0) by (nonlinear_arith)
            requires 0 <= m && gap <= 0;
    } else {
        lemma_global_score_upper(u.drop_last(), v.drop_last(), mat, mis, gap);
        lemma_global_score_upper(u.drop_last(), v, mat, mis, gap);
        lemma_global_score_upper(u, v.drop_last(), mat, mis, gap);
        lemma_mul_succ(mat, vstd::math::min(m - 1, n - 1));
        lemma_mul_mono(mat, vstd::math::min(m - 1, n), vstd::math::min(m, n));
        lemma_mul_mono(mat, vstd::math::min(m, n - 1), vstd::math::min(m, n));
    }
}

/// Aligning a sequence with itself along the diagonal is optimal: the
/// global self-alignment score is the match score times the length.
pub proof fn lemma_global_self_score(u: Seq<char>, mat: int, mis: int, gap: int)
    requires
        0 <= mat,
        mis <= mat,
        gap <= 0,
    ensures
        global_score(u, u, mat, mis, gap) == mat * u.len(),
    decreases u.len(),
{
    let n = u.len() as int;
    if u.len() == 0 {
    } else {
        lemma_global_self_score(u.drop_last(), mat, mis, gap);
        lemma_global_score_upper(u.drop_last(), u, mat, mis, gap);
        lemma_global_score_upper(u, u.drop_last(), mat, mis, gap);
        lemma_mul_succ(mat, n - 1);
        lemma_mul_mono(mat, vstd::math::min(n - 1, n), n - 1);
    }
}

/// Builds the global alignment score grid and traceback grid for `u` and
/// `v` under the policy `opt`.
///
/// Cell `(i, j)` of the score grid holds the optimal global alignment
/// score of the prefixes `u[0..i)` and `v[0..j)`; row 0 and column 0 hold
/// multiples of the gap penalty.  The bottom-right cell holds the optimal
/// score of the full sequences.
pub fn align_global(u: &str, v: &str, opt: &Options) -> (r: (Matrix<i32>, Matrix<char>))
    requires
        u@.len() + v@.len() < 0x0100_0000,
        (u@.len() + 1) * (v@.len() + 1) <= usize::MAX,
    ensures
        r.0.inv(),
        r.1.inv(),
        r.0@.len() == u@.len() + 1,
        r.1@.len() == u@.len() + 1,
        forall|i: int| 0 <= i < r.0@.len() ==> (#[trigger] r.0@[i]).len() == v@.len() + 1,
        forall|i: int| 0 <= i < r.1@.len() ==> (#[trigger] r.1@[i]).len() == v@.len() + 1,
        forall|i: int, j: int|
            0 <= i <= u@.len() && 0 <= j <= v@.len()
                ==> #[trigger] r.0@[i][j] as int == global_score(
                u@.take(i),
                v@.take(j),
                opt.match_ as int,
                opt.mismatch as int,
                opt.gap as int,
            ),
        forall|i: int, j: int|
            1 <= i <= u@.len() && 1 <= j <= v@.len()
                ==> #[trigger] r.1@[i][j] == global_tag(
                u@,
                v@,
                i,
                j,
                opt.match_ as int,
                opt.mismatch as int,
                opt.gap as int,
            ),
        forall|i: int, j: int|
            0 <= i <= u@.len() && 0 <= j <= v@.len() && (i == 0 || j == 0)
                ==> #[trigger] r.1@[i][j] == ' ',
{
    let m = u.unicode_len();
    let n = v.unicode_len();
    let mat = opt.match_ as i32;
    let mis = opt.mismatch as i32;
    let gap = opt.gap as i32;
    let mut s = Matrix::<i32>::new(m + 1, n + 1, 0i32);
    let mut b = Matrix::<char>::new(m + 1, n + 1, ' ');
    let mut i: usize = 0;
    while i <= m
        invariant
            m == u@.len(),
            n == v@.len(),
            m + n < 0x0100_0000,
            mat == opt.match_ as int,
            mis == opt.mismatch as int,
            gap == opt.gap as int,
            i <= m + 1,
            s.inv(),
            s@.len() == m + 1,
            forall|r: int| 0 <= r < s@.len() ==> (#[trigger] s@[r]).len() == n + 1,
            forall|r: int|
                0 <= r < i ==> #[trigger] s@[r][0] as int == global_score(
                    u@.take(r),
                    v@.take(0),
                    mat as int,
                    mis as int,
                    gap as int,
                ),
        decreases m + 1 - i,
    {
        proof {
            lemma_mul_bound(i as int, gap as int);
        }
        let val = (i as i32) * gap;
        s.set(i, 0, val);
        i = i + 1;
    }
    let mut j: usize = 1;
    while j <= n
        invariant
            m == u@.len(),
            n == v@.len(),
            m + n < 0x0100_0000,
            mat == opt.match_ as int,
            mis == opt.mismatch as int,
            gap == opt.gap as int,
            1 <= j <= n + 1,
            s.inv(),
            s@.len() == m + 1,
            forall|r: int| 0 <= r < s@.len() ==> (#[trigger] s@[r]).len() == n + 1,
            forall|r: int|
                0 <= r <= m ==> #[trigger] s@[r][0] as int == global_score(
                    u@.take(r),
                    v@.take(0),
                    mat as int,
                    mis as int,
                    gap as int,
                ),
            forall|c: int|
                0 <= c < j ==> #[trigger] s@[0][c] as int == global_score(
                    u@.take(0),
                    v@.take(c),
                    mat as int,
                    mis as int,
                    gap as int,
                ),
        decreases n + 1 - j,
    {
        proof {
            lemma_mul_bound(j as int, gap as int);
            assert(v@.take(j as int).len() == j);
        }
        let val = (j as i32) * gap;
        s.set(0, j, val);
        j = j + 1;
    }
    let mut i: usize = 1;
    while i <= m
        invariant
            m == u@.len(),
            n == v@.len(),
            m + n < 0x0100_0000,
            mat == opt.match_ as int,
            mis == opt.mismatch as int,
            gap == opt.gap as int,
            1 <= i <= m + 1,
            s.inv(),
            b.inv(),
            s@.len() == m + 1,
            b@.len() == m + 1,
            forall|r: int| 0 <= r < s@.len() ==> (#[trigger] s@[r]).len() == n + 1,
            forall|r: int| 0 <= r < b@.len() ==> (#[trigger] b@[r]).len() == n + 1,
            forall|r: int, c: int|
                0 <= r <= m && 0 <= c <= n && (r < i || r == 0 || c == 0)
                    ==> #[trigger] s@[r][c] as int == global_score(
                    u@.take(r),
                    v@.take(c),
                    mat as int,
                    mis as int,
                    gap as int,
                ),
            forall|r: int, c: int|
                1 <= r < i && 1 <= c <= n ==> #[trigger] b@[r][c] == global_tag(
                    u@,
                    v@,
                    r,
                    c,
                    mat as int,
                    mis as int,
                    gap as int,
                ),
            forall|r: int, c: int|
                0 <= r <= m && 0 <= c <= n && (r == 0 || c == 0) ==> #[trigger] b@[r][c] == ' ',
        decreases m + 1 - i,
    {
        let mut j: usize = 1;
        while j <= n
            invariant
                m == u@.len(),
                n == v@.len(),
                m + n < 0x0100_0000,
                mat == opt.match_ as int,
                mis == opt.mismatch as int,
                gap == opt.gap as int,
                1 <= i <= m,
                1 <= j <= n + 1,
                s.inv(),
                b.inv(),
                s@.len() == m + 1,
                b@.len() == m + 1,
                forall|r: int| 0 <= r < s@.len() ==> (#[trigger] s@[r]).len() == n + 1,
                forall|r: int| 0 <= r < b@.len() ==> (#[trigger] b@[r]).len() == n + 1,
                forall|r: int, c: int|
                    0 <= r <= m && 0 <= c <= n && (r < i || (r == i && c < j) || r == 0 || c == 0)
                        ==> #[trigger] s@[r][c] as int == global_score(
                        u@.take(r),
                        v@.take(c),
                        mat as int,
                        mis as int,
                        gap as int,
                    ),
                forall|r: int, c: int|
                    1 <= r <= m && 1 <= c <= n && (r < i || (r == i && c < j))
                        ==> #[trigger] b@[r][c] == global_tag(
                        u@,
                        v@,
                        r,
                        c,
                        mat as int,
                        mis as int,
                        gap as int,
                    ),
                forall|r: int, c: int|
                    0 <= r <= m && 0 <= c <= n && (r == 0 || c == 0) ==> #[trigger] b@[r][c] == ' ',
            decreases n + 1 - j,
        {
            let uc = u.get_char(i - 1);
            let vc = v.get_char(j - 1);
            proof {
                lemma_global_unfold(u@, v@, i as int, j as int, mat as int, mis as int, gap as int);
                lemma_global_score_bound(
                    u@.take(i as int - 1),
                    v@.take(j as int - 1),
                    mat as int,
                    mis as int,
                    gap as int,
                );
                lemma_global_score_bound(
                    u@.take(i as int - 1),
                    v@.take(j as int),
                    mat as int,
                    mis as int,
                    gap as int,
                );
                lemma_global_score_bound(
                    u@.take(i as int),
                    v@.take(j as int - 1),
                    mat as int,
                    mis as int,
                    gap as int,
                );
            }
            let d = s.get(i - 1, j - 1) + (if uc == vc { mat } else { mis });
            let up = s.get(i - 1, j) + gap;
            let l = s.get(i, j - 1) + gap;
            if d >= up && d >= l {
                s.set(i, j, d);
                b.set(i, j, 'd');
            } else if d < up && up >= l {
                s.set(i, j, up);
                b.set(i, j, 'u');
            } else {
                s.set(i, j, l);
                b.set(i, j, 'l');
            }
            j = j + 1;
        }
        i = i + 1;
    }
    (s, b)
}

/// The first aligned string that a backward walk over the traceback grid
/// `b` gathers from cell `(i, j)`, in forward order: a symbol of `u` on
/// `'d'` and `'u'` tags, a gap marker on `'l'` tags.
pub open spec fn global_walk_u(b: Seq<Seq<char>>, u: Seq<char>, i: int, j: int) -> Seq<char>
    decreases i + j,
{
    if i <= 0 || j <= 0 {
        Seq::<char>::empty()
    } else if b[i][j] == 'd' {
        global_walk_u(b, u, i - 1, j - 1).push(u[i - 1])
    } else if b[i][j] == 'u' {
        global_walk_u(b, u, i - 1, j).push(u[i - 1])
    } else {
        global_walk_u(b, u, i, j - 1).push('-')
    }
}

/// The second aligned string of the same walk: a symbol of `v` on `'d'`
/// and `'l'` tags, a gap marker on `'u'` tags.
pub open spec fn global_walk_v(b: Seq<Seq<char>>, v: Seq<char>, i: int, j: int) -> Seq<char>
    decreases i + j,
{
    if i <= 0 || j <= 0 {
        Seq::<char>::empty()
    } else if b[i][j] == 'd' {
        global_walk_v(b, v, i - 1, j - 1).push(v[j - 1])
    } else if b[i][j] == 'u' {
        global_walk_v(b, v, i - 1, j).push('-')
    } else {
        global_walk_v(b, v, i, j - 1).push(v[j - 1])
    }
}

/// The boundary cell at which the backward walk from `(i, j)` ends.
pub open spec fn global_walk_ends(b: Seq<Seq<char>>, i: int, j: int) -> (int, int)
    decreases i + j,
{
    if i <= 0 || j <= 0 {
        (i, j)
    } else if b[i][j] == 'd' {
        global_walk_ends(b, i - 1, j - 1)
    } else if b[i][j] == 'u' {
        global_walk_ends(b, i - 1, j)
    } else {
        global_walk_ends(b, i, j - 1)
    }
}

/// `s` with every gap marker removed.
pub open spec fn remove_gaps(s: Seq<char>) -> Seq<char>
    decreases s.len(),
{
    if s.len() == 0 {
        s
    } else if s.last() == '-' {
        remove_gaps(s.drop_last())
    } else {
        remove_gaps(s.drop_last()).push(s.last())
    }
}

/// The two aligned strings of one walk always have equal length: every
/// step of the walk emits exactly one character into each.
pub proof fn lemma_global_alignment_same_len(
    b: Seq<Seq<char>>,
    u: Seq<char>,
    v: Seq<char>,
    i: int,
    j: int,
)
    ensures
        global_walk_u(b, u, i, j).len() == global_walk_v(b, v, i, j).len(),
    decreases i + j,
{
    if i <= 0 || j <= 0 {
    } else if b[i][j] == 'd' {
        lemma_global_alignment_same_len(b, u, v, i - 1, j - 1);
    } else if b[i][j] == 'u' {
        lemma_global_alignment_same_len(b, u, v, i - 1, j);
    } else {
        lemma_global_alignment_same_len(b, u, v, i, j - 1);
    }
}

/// Removing the gap markers from the two aligned strings of the walk
/// from `(i, j)` recovers, in order, the symbols of `u` and of `v` that
/// lie between the walk's end cell and `(i, j)`; the walk ends on the
/// grid boundary.
pub proof fn lemma_global_walk_recovers(
    b: Seq<Seq<char>>,
    u: Seq<char>,
    v: Seq<char>,
    i: int,
    j: int,
)
    requires
        0 <= i <= u.len(),
        0 <= j <= v.len(),
        !u.contains('-'),
        !v.contains('-'),
    ensures
        0 <= global_walk_ends(b, i, j).0 <= i,
        0 <= global_walk_ends(b, i, j).1 <= j,
        global_walk_ends(b, i, j).0 == 0 || global_walk_ends(b, i, j).1 == 0,
        remove_gaps(global_walk_u(b, u, i, j)) == u.subrange(global_walk_ends(b, i, j).0, i),
        remove_gaps(global_walk_v(b, v, i, j)) == v.subrange(global_walk_ends(b, i, j).1, j),
    decreases i + j,
{
    if i <= 0 || j <= 0 {
        assert(remove_gaps(global_walk_u(b, u, i, j)) =~= u.subrange(i, i));
        assert(remove_gaps(global_walk_v(b, v, i, j)) =~= v.subrange(j, j));
    } else {
        assert(u[i - 1] != '-');
        assert(v[j - 1] != '-');
        if b[i][j] == 'd' {
            lemma_global_walk_recovers(b, u, v, i - 1, j - 1);
            let e = global_walk_ends(b, i - 1, j - 1);
            let wu = global_walk_u(b, u, i - 1, j - 1);
            let wv = global_walk_v(b, v, i - 1, j - 1);
            assert(wu.push(u[i - 1]).drop_last() =~= wu);
            assert(wv.push(v[j - 1]).drop_last() =~= wv);
            assert(u.subrange(e.0, i - 1).push(u[i - 1]) =~= u.subrange(e.0, i));
            assert(v.subrange(e.1, j - 1).push(v[j - 1]) =~= v.subrange(e.1, j));
        } else if b[i][j] == 'u' {
            lemma_global_walk_recovers(b, u, v, i - 1, j);
            let e = global_walk_ends(b, i - 1, j);
            let wu = global_walk_u(b, u, i - 1, j);
            let wv = global_walk_v(b, v, i - 1, j);
            assert(wu.push(u[i - 1]).drop_last() =~= wu);
            assert(wv.push('-').drop_last() =~= wv);
            assert(u.subrange(e.0, i - 1).push(u[i - 1]) =~= u.subrange(e.0, i));
        } else {
            lemma_global_walk_recovers(b, u, v, i, j - 1);
            let e = global_walk_ends(b, i, j - 1);
            let wu = global_walk_u(b, u, i, j - 1);
            let wv = global_walk_v(b, v, i, j - 1);
            assert(wu.push('-').drop_last() =~= wu);
            assert(wv.push(v[j - 1]).drop_last() =~= wv);
            assert(v.subrange(e.1, j - 1).push(v[j - 1]) =~= v.subrange(e.1, j));
        }
    }
}

/// When the full backward walk reaches the corner `(0, 0)`, removing the
/// gap markers from the two aligned strings recovers `u` and `v` whole,
/// in order.
pub proof fn lemma_global_alignment_recovers(b: Seq<Seq<char>>, u: Seq<char>, v: Seq<char>)
    requires
        !u.contains('-'),
        !v.contains('-'),
        global_walk_ends(b, u.len() as int, v.len() as int) == (0int, 0int),
    ensures
        remove_gaps(global_walk_u(b, u, u.len() as int, v.len() as int)) == u,
        remove_gaps(global_walk_v(b, v, u.len() as int, v.len() as int)) == v,
{
    lemma_global_walk_recovers(b, u, v, u.len() as int, v.len() as int);
    assert(u.subrange(0, u.len() as int) =~= u);
    assert(v.subrange(0, v.len() as int) =~= v);
}

/// The score of a pair of aligned strings read column by column: a gap
/// penalty wherever either side holds the gap marker, else the match or
/// mismatch score of the two symbols.
pub open spec fn alignment_score(a: Seq<char>, b: Seq<char>, mat: int, mis: int, gap: int) -> int
    decreases a.len() + b.len(),
{
    if a.len() == 0 || b.len() == 0 {
        0
    } else {
        alignment_score(a.drop_last(), b.drop_last(), mat, mis, gap) + (if a.last() == '-'
            || b.last() == '-' {
            gap
        } else if a.last() == b.last() {
            mat
        } else {
            mis
        })
    }
}

/// Over a grid carrying the global tags, the aligned strings gathered by
/// the walk from `(i, j)` score exactly the difference between the cell
/// `(i, j)` and the cell where the walk ends.
pub proof fn lemma_global_walk_score(
    b: Seq<Seq<char>>,
    u: Seq<char>,
    v: Seq<char>,
    i: int,
    j: int,
    mat: int,
    mis: int,
    gap: int,
)
    requires
        0 <= i <= u.len(),
        0 <= j <= v.len(),
        !u.contains('-'),
        !v.contains('-'),
        forall|r: int, c: int|
            1 <= r <= u.len() && 1 <= c <= v.len() ==> #[trigger] b[r][c] == global_tag(
                u,
                v,
                r,
                c,
                mat,
                mis,
                gap,
            ),
    ensures
        alignment_score(global_walk_u(b, u, i, j), global_walk_v(b, v, i, j), mat, mis, gap)
            == global_score(u.take(i), v.take(j), mat, mis, gap) - global_score(
            u.take(global_walk_ends(b, i, j).0),
            v.take(global_walk_ends(b, i, j).1),
            mat,
            mis,
            gap,
        ),
    decreases i + j,
{
    if i <= 0 || j <= 0 {
    } else {
        lemma_global_unfold(u, v, i, j, mat, mis, gap);
        assert(b[i][j] == global_tag(u, v, i, j, mat, mis, gap));
        assert(u[i - 1] != '-');
        assert(v[j - 1] != '-');
        if b[i][j] == 'd' {
            lemma_global_walk_score(b, u, v, i - 1, j - 1, mat, mis, gap);
            let wu = global_walk_u(b, u, i - 1, j - 1);
            let wv = global_walk_v(b, v, i - 1, j - 1);
            assert(wu.push(u[i - 1]).drop_last() =~= wu);
            assert(wv.push(v[j - 1]).drop_last() =~= wv);
        } else if b[i][j] == 'u' {
            lemma_global_walk_score(b, u, v, i - 1, j, mat, mis, gap);
            let wu = global_walk_u(b, u, i - 1, j);
            let wv = global_walk_v(b, v, i - 1, j);
            assert(wu.push(u[i - 1]).drop_last() =~= wu);
            assert(wv.push('-').drop_last() =~= wv);
        } else {
            lemma_global_walk_score(b, u, v, i, j - 1, mat, mis, gap);
            let wu = global_walk_u(b, u, i, j - 1);
            let wv = global_walk_v(b, v, i, j - 1);
            assert(wu.push('-').drop_last() =~= wu);
            assert(wv.push(v[j - 1]).drop_last() =~= wv);
        }
    }
}

/// When the full backward walk reaches the corner `(0, 0)`, the
/// reconstructed aligned strings score exactly the optimal global
/// alignment score of `u` and `v`.
pub proof fn lemma_global_alignment_achieves_score(
    b: Seq<Seq<char>>,
    u: Seq<char>,
    v: Seq<char>,
    mat: int,
    mis: int,
    gap: int,
)
    requires
        !u.contains('-'),
        !v.contains('-'),
        global_walk_ends(b, u.len() as int, v.len() as int) == (0int, 0int),
        forall|r: int, c: int|
            1 <= r <= u.len() && 1 <= c <= v.len() ==> #[trigger] b[r][c] == global_tag(
                u,
                v,
                r,
                c,
                mat,
                mis,
                gap,
            ),
    ensures
        alignment_score(
            global_walk_u(b, u, u.len() as int, v.len() as int),
            global_walk_v(b, v, u.len() as int, v.len() as int),
            mat,
            mis,
            gap,
        ) == global_score(u, v, mat, mis, gap),
{
    lemma_global_walk_score(b, u, v, u.len() as int, v.len() as int, mat, mis, gap);
    assert(u.take(u.len() as int) =~= u);
    assert(v.take(v.len() as int) =~= v);
}

/// Reconstructs the two aligned strings from the traceback grid `b`
/// built over `u` and `v`, walking backward from the bottom-right cell.
pub fn align_global_strings(b: &Matrix<char>, u: &str, v: &str) -> (r: (String, String))
    requires
        b.inv(),
        b@.len() == u@.len() + 1,
        forall|i: int| 0 <= i < b@.len() ==> (#[trigger] b@[i]).len() == v@.len() + 1,
    ensures
        r.0@ == global_walk_u(b@, u@, u@.len() as int, v@.len() as int),
        r.1@ == global_walk_v(b@, v@, u@.len() as int, v@.len() as int),
{
    let ghost m = u@.len() as int;
    let ghost n = v@.len() as int;
    let mut i = b.row() - 1;
    let cols = b.col();
    proof {
        assert(b@[0].len() == v@.len() + 1);
    }
    let mut j = cols - 1;
    let mut au = String::new();
    let mut av = String::new();
    while 0 < i && 0 < j
        invariant
            b.inv(),
            b@.len() == u@.len() + 1,
            forall|r: int| 0 <= r < b@.len() ==> (#[trigger] b@[r]).len() == v@.len() + 1,
            m == u@.len(),
            n == v@.len(),
            0 <= i <= m,
            0 <= j <= n,
            global_walk_u(b@, u@, m, n) == global_walk_u(b@, u@, i as int, j as int) + au@,
            global_walk_v(b@, v@, m, n) == global_walk_v(b@, v@, i as int, j as int) + av@,
        decreases i + j,
    {
        let t = b.get(i, j);
        if t == 'd' {
            let pu = u.substring_char(i - 1, i);
            let pv = v.substring_char(j - 1, j);
            let nau = String::from_str(pu).concat(au.as_str());
            let nav = String::from_str(pv).concat(av.as_str());
            proof {
                assert(pu@ =~= seq![u@[i as int - 1]]);
                assert(pv@ =~= seq![v@[j as int - 1]]);
                assert(global_walk_u(b@, u@, m, n) =~= global_walk_u(
                    b@,
                    u@,
                    i as int - 1,
                    j as int - 1,
                ) + nau@);
                assert(global_walk_v(b@, v@, m, n) =~= global_walk_v(
                    b@,
                    v@,
                    i as int - 1,
                    j as int - 1,
                ) + nav@);
            }
            au = nau;
            av = nav;
            i = i - 1;
            j = j - 1;
        } else if t == 'u' {
            let pu = u.substring_char(i - 1, i);
            let nau = String::from_str(pu).concat(au.as_str());
            let nav = String::from_str("-").concat(av.as_str());
            proof {
                reveal_strlit("-");
                assert(pu@ =~= seq![u@[i as int - 1]]);
                assert("-"@ =~= seq!['-']);
                assert(global_walk_u(b@, u@, m, n) =~= global_walk_u(b@, u@, i as int - 1, j as int)
                    + nau@);
                assert(global_walk_v(b@, v@, m, n) =~= global_walk_v(b@, v@, i as int - 1, j as int)
                    + nav@);
            }
            au = nau;
            av = nav;
            i = i - 1;
        } else {
            let pv = v.substring_char(j - 1, j);
            let nau = String::from_str("-").concat(au.as_str());
            let nav = String::from_str(pv).concat(av.as_str());
            proof {
                reveal_strlit("-");
                assert(pv@ =~= seq![v@[j as int - 1]]);
                assert("-"@ =~= seq!['-']);
                assert(global_walk_u(b@, u@, m, n) =~= global_walk_u(b@, u@, i as int, j as int - 1)
                    + nau@);
                assert(global_walk_v(b@, v@, m, n) =~= global_walk_v(b@, v@, i as int, j as int - 1)
                    + nav@);
            }
            au = nau;
            av = nav;
            j = j - 1;
        }
    }
    proof {
        assert(global_walk_u(b@, u@, m, n) =~= au@);
        assert(global_walk_v(b@, v@, m, n) =~= av@);
    }
    (au, av)
}

} // verus!
