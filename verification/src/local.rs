//! Local alignment (Smith-Waterman): the score/traceback grid builder
//! and the backtracking reconstruction of the aligned strings.

use vstd::prelude::*;
use crate::global::alignment_score;
use crate::matrix::Matrix;
use crate::matrix::is_first_max;
use crate::matrix::lemma_first_max_unique;

verus! {

/// The scoring policy of an alignment: the score of aligning two equal
/// symbols, the score of aligning two different symbols, and the penalty
/// of aligning a symbol against a gap.
pub struct Options {
    pub match_: i8,
    pub mismatch: i8,
    pub gap: i8,
}

/// The local alignment score of the prefixes `u` and `v` under the
/// policy `(mat, mis, gap)`: the global recurrence clamped at 0, so a
/// fresh alignment may restart at any cell for free.
pub open spec fn local_score(u: Seq<char>, v: Seq<char>, mat: int, mis: int, gap: int) -> int
    decreases u.len() + v.len(),
{
    if u.len() == 0 || v.len() == 0 {
        0
    } else {
        let d = local_score(u.drop_last(), v.drop_last(), mat, mis, gap) + (if u.last()
            == v.last() {
            mat
        } else {
            mis
        });
        let up = local_score(u.drop_last(), v, mat, mis, gap) + gap;
        let l = local_score(u, v.drop_last(), mat, mis, gap) + gap;
        if d < 0 && up < 0 && l < 0 {
            0
        } else if d >= up && d >= l {
            d
        } else if up >= l {
            up
        } else {
            l
        }
    }
}

/// The traceback tag recorded at interior cell `(i, j)`: `'s'` when all
/// three candidates are negative and the cell restarts at 0, otherwise
/// the tag of the global tie-break.
pub open spec fn local_tag(u: Seq<char>, v: Seq<char>, i: int, j: int, mat: int, mis: int, gap: int) -> char
    recommends
        1 <= i <= u.len(),
        1 <= j <= v.len(),
{
    let d = local_score(u.take(i - 1), v.take(j - 1), mat, mis, gap) + (if u[i - 1] == v[j - 1] {
        mat
    } else {
        mis
    });
    let up = local_score(u.take(i - 1), v.take(j), mat, mis, gap) + gap;
    let l = local_score(u.take(i), v.take(j - 1), mat, mis, gap) + gap;
    if d < 0 && up < 0 && l < 0 {
        's'
    } else if d >= up && d >= l {
        'd'
    } else if d < up && up >= l {
        'u'
    } else {
        'l'
    }
}

/// The local score of two prefixes obeys the cell recurrence.
proof fn lemma_local_unfold(u: Seq<char>, v: Seq<char>, i: int, j: int, mat: int, mis: int, gap: int)
    requires
        1 <= i <= u.len(),
        1 <= j <= v.len(),
    ensures
        local_score(u.take(i), v.take(j), mat, mis, gap) == ({
            let d = local_score(u.take(i - 1), v.take(j - 1), mat, mis, gap) + (if u[i - 1] == v[j
                - 1] {
                mat
            } else {
                mis
            });
            let up = local_score(u.take(i - 1), v.take(j), mat, mis, gap) + gap;
            let l = local_score(u.take(i), v.take(j - 1), mat, mis, gap) + gap;
            if d < 0 && up < 0 && l < 0 {
                0
            } else if d >= up && d >= l {
                d
            } else if up >= l {
                up
            } else {
                l
            }
        }),
{
    let a = u.take(i);
    let b = v.take(j);
    assert(a.last() == u[i - 1]);
    assert(b.last() == v[j - 1]);
    assert(a.drop_last() =~= u.take(i - 1));
    assert(b.drop_last() =~= v.take(j - 1));
}

/// A local alignment score is never negative: the clamp keeps the base
/// and every restarted cell at 0, and a cell that is not clamped is the
/// maximum of its candidates, one of which is nonnegative.
pub proof fn lemma_local_score_nonneg(u: Seq<char>, v: Seq<char>, mat: int, mis: int, gap: int)
    ensures
        local_score(u, v, mat, mis, gap) >= 0,
{
}

/// Every local alignment score is bounded by 128 per consumed symbol.
pub proof fn lemma_local_score_bound(u: Seq<char>, v: Seq<char>, mat: int, mis: int, gap: int)
    requires
        -128 <= mat <= 128,
        -128 <= mis <= 128,
        -128 <= gap <= 128,
    ensures
        0 <= local_score(u, v, mat, mis, gap) <= 128 * (u.len() + v.len()),
    decreases u.len() + v.len(),
{
    if u.len() == 0 || v.len() == 0 {
    } else {
        lemma_local_score_bound(u.drop_last(), v.drop_last(), mat, mis, gap);
        lemma_local_score_bound(u.drop_last(), v, mat, mis, gap);
        lemma_local_score_bound(u, v.drop_last(), mat, mis, gap);
    }
}

/// Builds the local alignment score grid and traceback grid for `u` and
/// `v` under the policy `opt`.
///
/// Cell `(i, j)` of the score grid holds the local alignment score of
/// the prefixes `u[0..i)` and `v[0..j)`; the boundary is 0 and every
/// cell is nonnegative.  The optimal local score is the grid's maximum
/// cell value, whose coordinates are the reconstruction start point.
pub fn align_local(u: &str, v: &str, opt: &Options) -> (r: (Matrix<i32>, Matrix<char>))
    requires
        u@.len() + v@.len() < 0x0100_0000,
        (u@.len() + 1) * (v@.len() + 1) <= usize::MAX,
    ensures
        r.0.inv(),
        r.1.inv(),
        r.0@.len() == u@.len() + 1,
        r.1@.len() == u@.len() + 1,
        forall|i: int| 0 <= i < r.0@.len() ==> (#[trigger] r.0@[i]).len() == v@.len() + 1,
        forall|i: int| 0 <= i < r.1@.len() ==> (#[trigger] r.1@[i]).len() == v@.len() + 1,
        forall|i: int, j: int|
            0 <= i <= u@.len() && 0 <= j <= v@.len()
                ==> #[trigger] r.0@[i][j] as int == local_score(
                u@.take(i),
                v@.take(j),
                opt.match_ as int,
                opt.mismatch as int,
                opt.gap as int,
            ),
        forall|i: int, j: int|
            0 <= i <= u@.len() && 0 <= j <= v@.len() ==> 0 <= #[trigger] r.0@[i][j],
        forall|i: int, j: int|
            1 <= i <= u@.len() && 1 <= j <= v@.len()
                ==> #[trigger] r.1@[i][j] == local_tag(
                u@,
                v@,
                i,
                j,
                opt.match_ as int,
                opt.mismatch as int,
                opt.gap as int,
            ),
        forall|i: int, j: int|
            0 <= i <= u@.len() && 0 <= j <= v@.len() && (i == 0 || j == 0)
                ==> #[trigger] r.1@[i][j] == ' ',
{
    let m = u.unicode_len();
    let n = v.unicode_len();
    let mat = opt.match_ as i32;
    let mis = opt.mismatch as i32;
    let gap = opt.gap as i32;
    let mut s = Matrix::<i32>::new(m + 1, n + 1, 0i32);
    let mut b = Matrix::<char>::new(m + 1, n + 1, ' ');
    let mut i: usize = 1;
    while i <= m
        invariant
            m == u@.len(),
            n == v@.len(),
            m + n < 0x0100_0000,
            mat == opt.match_ as int,
            mis == opt.mismatch as int,
            gap == opt.gap as int,
            1 <= i <= m + 1,
            s.inv(),
            b.inv(),
            s@.len() == m + 1,
            b@.len() == m + 1,
            forall|r: int| 0 <= r < s@.len() ==> (#[trigger] s@[r]).len() == n + 1,
            forall|r: int| 0 <= r < b@.len() ==> (#[trigger] b@[r]).len() == n + 1,
            forall|r: int, c: int|
                0 <= r <= m && 0 <= c <= n && (r < i || r == 0 || c == 0)
                    ==> #[trigger] s@[r][c] as int == local_score(
                    u@.take(r),
                    v@.take(c),
                    mat as int,
                    mis as int,
                    gap as int,
                ),
            forall|r: int, c: int|
                1 <= r < i && 1 <= c <= n ==> #[trigger] b@[r][c] == local_tag(
                    u@,
                    v@,
                    r,
                    c,
                    mat as int,
                    mis as int,
                    gap as int,
                ),
            forall|r: int, c: int|
                0 <= r <= m && 0 <= c <= n && (r == 0 || c == 0) ==> #[trigger] b@[r][c] == ' ',
        decreases m + 1 - i,
    {
        let mut j: usize = 1;
        while j <= n
            invariant
                m == u@.len(),
                n == v@.len(),
                m + n < 0x0100_0000,
                mat == opt.match_ as int,
                mis == opt.mismatch as int,
                gap == opt.gap as int,
                1 <= i <= m,
                1 <= j <= n + 1,
                s.inv(),
                b.inv(),
                s@.len() == m + 1,
                b@.len() == m + 1,
                forall|r: int| 0 <= r < s@.len() ==> (#[trigger] s@[r]).len() == n + 1,
                forall|r: int| 0 <= r < b@.len() ==> (#[trigger] b@[r]).len() == n + 1,
                forall|r: int, c: int|
                    0 <= r <= m && 0 <= c <= n && (r < i || (r == i && c < j) || r == 0 || c == 0)
                        ==> #[trigger] s@[r][c] as int == local_score(
                        u@.take(r),
                        v@.take(c),
                        mat as int,
                        mis as int,
                        gap as int,
                    ),
                forall|r: int, c: int|
                    1 <= r <= m && 1 <= c <= n && (r < i || (r == i && c < j))
                        ==> #[trigger] b@[r][c] == local_tag(
                        u@,
                        v@,
                        r,
                        c,
                        mat as int,
                        mis as int,
                        gap as int,
                    ),
                forall|r: int, c: int|
                    0 <= r <= m && 0 <= c <= n && (r == 0 || c == 0) ==> #[trigger] b@[r][c] == ' ',
            decreases n + 1 - j,
        {
            let uc = u.get_char(i - 1);
            let vc = v.get_char(j - 1);
            proof {
                lemma_local_unfold(u@, v@, i as int, j as int, mat as int, mis as int, gap as int);
                lemma_local_score_bound(
                    u@.take(i as int - 1),
                    v@.take(j as int - 1),
                    mat as int,
                    mis as int,
                    gap as int,
                );
                lemma_local_score_bound(
                    u@.take(i as int - 1),
                    v@.take(j as int),
                    mat as int,
                    mis as int,
                    gap as int,
                );
                lemma_local_score_bound(
                    u@.take(i as int),
                    v@.take(j as int - 1),
                    mat as int,
                    mis as int,
                    gap as int,
                );
            }
            let d = s.get(i - 1, j - 1) + (if uc == vc { mat } else { mis });
            let up = s.get(i - 1, j) + gap;
            let l = s.get(i, j - 1) + gap;
            if d < 0 && up < 0 && l < 0 {
                s.set(i, j, 0);
                b.set(i, j, 's');
            } else if d >= up && d >= l {
                s.set(i, j, d);
                b.set(i, j, 'd');
            } else if d < up && up >= l {
                s.set(i, j, up);
                b.set(i, j, 'u');
            } else {
                s.set(i, j, l);
                b.set(i, j, 'l');
            }
            j = j + 1;
        }
        i = i + 1;
    }
    proof {
        assert forall|i2: int, j2: int| 0 <= i2 <= u@.len() && 0 <= j2 <= v@.len() implies 0
            <= #[trigger] s@[i2][j2] by {
            lemma_local_score_nonneg(
                u@.take(i2),
                v@.take(j2),
                mat as int,
                mis as int,
                gap as int,
            );
        }
    }
    (s, b)
}

/// The first aligned string that a backward walk over the traceback grid
/// `b` gathers from cell `(i, j)`, in forward order.  The walk stops at
/// the boundary or the instant it reaches a restart (`'s'`) cell.
pub open spec fn local_walk_u(b: Seq<Seq<char>>, u: Seq<char>, i: int, j: int) -> Seq<char>
    decreases i + j,
{
    if i <= 0 || j <= 0 {
        Seq::<char>::empty()
    } else if b[i][j] == 's' {
        Seq::<char>::empty()
    } else if b[i][j] == 'd' {
        local_walk_u(b, u, i - 1, j - 1).push(u[i - 1])
    } else if b[i][j] == 'u' {
        local_walk_u(b, u, i - 1, j).push(u[i - 1])
    } else {
        local_walk_u(b, u, i, j - 1).push('-')
    }
}

/// The second aligned string of the same walk.
pub open spec fn local_walk_v(b: Seq<Seq<char>>, v: Seq<char>, i: int, j: int) -> Seq<char>
    decreases i + j,
{
    if i <= 0 || j <= 0 {
        Seq::<char>::empty()
    } else if b[i][j] == 's' {
        Seq::<char>::empty()
    } else if b[i][j] == 'd' {
        local_walk_v(b, v, i - 1, j - 1).push(v[j - 1])
    } else if b[i][j] == 'u' {
        local_walk_v(b, v, i - 1, j).push('-')
    } else {
        local_walk_v(b, v, i, j - 1).push(v[j - 1])
    }
}

/// The two aligned strings of one local walk have equal length.
pub proof fn lemma_local_alignment_same_len(
    b: Seq<Seq<char>>,
    u: Seq<char>,
    v: Seq<char>,
    i: int,
    j: int,
)
    ensures
        local_walk_u(b, u, i, j).len() == local_walk_v(b, v, i, j).len(),
    decreases i + j,
{
    if i <= 0 || j <= 0 {
    } else if b[i][j] == 's' {
    } else if b[i][j] == 'd' {
        lemma_local_alignment_same_len(b, u, v, i - 1, j - 1);
    } else if b[i][j] == 'u' {
        lemma_local_alignment_same_len(b, u, v, i - 1, j);
    } else {
        lemma_local_alignment_same_len(b, u, v, i, j - 1);
    }
}

/// Over a grid carrying the local tags, the aligned strings gathered by
/// the walk from `(i, j)` score exactly the local score of the prefixes
/// `u[0..i)` and `v[0..j)`: the walk ends either at the boundary or at a
/// restart cell, and both are worth 0.  Started at a maximum cell, the
/// reconstruction therefore achieves the grid's maximum score.
pub proof fn lemma_local_walk_score(
    b: Seq<Seq<char>>,
    u: Seq<char>,
    v: Seq<char>,
    i: int,
    j: int,
    mat: int,
    mis: int,
    gap: int,
)
    requires
        0 <= i <= u.len(),
        0 <= j <= v.len(),
        !u.contains('-'),
        !v.contains('-'),
        forall|r: int, c: int|
            1 <= r <= u.len() && 1 <= c <= v.len() ==> #[trigger] b[r][c] == local_tag(
                u,
                v,
                r,
                c,
                mat,
                mis,
                gap,
            ),
    ensures
        alignment_score(
            local_walk_u(b, u, i, j),
            local_walk_v(b, v, i, j),
            mat,
            mis,
            gap,
        ) == local_score(u.take(i), v.take(j), mat, mis, gap),
    decreases i + j,
{
    if i <= 0 || j <= 0 {
    } else {
        lemma_local_unfold(u, v, i, j, mat, mis, gap);
        assert(b[i][j] == local_tag(u, v, i, j, mat, mis, gap));
        assert(u[i - 1] != '-');
        assert(v[j - 1] != '-');
        if b[i][j] == 's' {
        } else if b[i][j] == 'd' {
            lemma_local_walk_score(b, u, v, i - 1, j - 1, mat, mis, gap);
            let wu = local_walk_u(b, u, i - 1, j - 1);
            let wv = local_walk_v(b, v, i - 1, j - 1);
            assert(wu.push(u[i - 1]).drop_last() =~= wu);
            assert(wv.push(v[j - 1]).drop_last() =~= wv);
        } else if b[i][j] == 'u' {
            lemma_local_walk_score(b, u, v, i - 1, j, mat, mis, gap);
            let wu = local_walk_u(b, u, i - 1, j);
            let wv = local_walk_v(b, v, i - 1, j);
            assert(wu.push(u[i - 1]).drop_last() =~= wu);
            assert(wv.push('-').drop_last() =~= wv);
        } else {
            lemma_local_walk_score(b, u, v, i, j - 1, mat, mis, gap);
            let wu = local_walk_u(b, u, i, j - 1);
            let wv = local_walk_v(b, v, i, j - 1);
            assert(wu.push('-').drop_last() =~= wu);
            assert(wv.push(v[j - 1]).drop_last() =~= wv);
        }
    }
}

/// Reconstructs the two locally aligned strings from the score grid `s`
/// and the traceback grid `b` built over `u` and `v`, walking backward
/// from the first maximum-score cell in row-major order.
pub fn align_local_strings(s: &Matrix<i32>, b: &Matrix<char>, u: &str, v: &str) -> (r: (
    String,
    String,
))
    requires
        s.inv(),
        b.inv(),
        s@.len() == u@.len() + 1,
        b@.len() == u@.len() + 1,
        forall|i: int| 0 <= i < s@.len() ==> (#[trigger] s@[i]).len() == v@.len() + 1,
        forall|i: int| 0 <= i < b@.len() ==> (#[trigger] b@[i]).len() == v@.len() + 1,
    ensures
        forall|i: int, j: int|
            is_first_max(s@, i, j) ==> r.0@ == local_walk_u(b@, u@, i, j) && r.1@
                == local_walk_v(b@, v@, i, j),
{
    proof {
        assert(s@[0].len() == v@.len() + 1);
    }
    let (_mv, pi, pj) = s.max_with_pos();
    let ghost gi = pi as int;
    let ghost gj = pj as int;
    let mut i = pi;
    let mut j = pj;
    let mut au = String::new();
    let mut av = String::new();
    while 0 < i && 0 < j
        invariant
            b.inv(),
            b@.len() == u@.len() + 1,
            forall|r: int| 0 <= r < b@.len() ==> (#[trigger] b@[r]).len() == v@.len() + 1,
            gi <= u@.len(),
            gj <= v@.len(),
            0 <= i <= u@.len(),
            0 <= j <= v@.len(),
            local_walk_u(b@, u@, gi, gj) == local_walk_u(b@, u@, i as int, j as int) + au@,
            local_walk_v(b@, v@, gi, gj) == local_walk_v(b@, v@, i as int, j as int) + av@,
        ensures
            local_walk_u(b@, u@, gi, gj) == au@,
            local_walk_v(b@, v@, gi, gj) == av@,
        decreases i + j,
    {
        let t = b.get(i, j);
        if t == 's' {
            proof {
                assert(local_walk_u(b@, u@, i as int, j as int) =~= Seq::<char>::empty());
                assert(local_walk_v(b@, v@, i as int, j as int) =~= Seq::<char>::empty());
                assert(local_walk_u(b@, u@, gi, gj) =~= au@);
                assert(local_walk_v(b@, v@, gi, gj) =~= av@);
            }
            break;
        } else if t == 'd' {
            let pu = u.substring_char(i - 1, i);
            let pv = v.substring_char(j - 1, j);
            let nau = String::from_str(pu).concat(au.as_str());
            let nav = String::from_str(pv).concat(av.as_str());
            proof {
                assert(pu@ =~= seq![u@[i as int - 1]]);
                assert(pv@ =~= seq![v@[j as int - 1]]);
                assert(local_walk_u(b@, u@, gi, gj) =~= local_walk_u(
                    b@,
                    u@,
                    i as int - 1,
                    j as int - 1,
                ) + nau@);
                assert(local_walk_v(b@, v@, gi, gj) =~= local_walk_v(
                    b@,
                    v@,
                    i as int - 1,
                    j as int - 1,
                ) + nav@);
            }
            au = nau;
            av = nav;
            i = i - 1;
            j = j - 1;
        } else if t == 'u' {
            let pu = u.substring_char(i - 1, i);
            let nau = String::from_str(pu).concat(au.as_str());
            let nav = String::from_str("-").concat(av.as_str());
            proof {
                reveal_strlit("-");
                assert(pu@ =~= seq![u@[i as int - 1]]);
                assert("-"@ =~= seq!['-']);
                assert(local_walk_u(b@, u@, gi, gj) =~= local_walk_u(b@, u@, i as int - 1, j as int)
                    + nau@);
                assert(local_walk_v(b@, v@, gi, gj) =~= local_walk_v(b@, v@, i as int - 1, j as int)
                    + nav@);
            }
            au = nau;
            av = nav;
            i = i - 1;
        } else {
            let pv = v.substring_char(j - 1, j);
            let nau = String::from_str("-").concat(au.as_str());
            let nav = String::from_str(pv).concat(av.as_str());
            proof {
                reveal_strlit("-");
                assert(pv@ =~= seq![v@[j as int - 1]]);
                assert("-"@ =~= seq!['-']);
                assert(local_walk_u(b@, u@, gi, gj) =~= local_walk_u(b@, u@, i as int, j as int - 1)
                    + nau@);
                assert(local_walk_v(b@, v@, gi, gj) =~= local_walk_v(b@, v@, i as int, j as int - 1)
                    + nav@);
            }
            au = nau;
            av = nav;
            j = j - 1;
        }
    }
    proof {
        assert forall|i2: int, j2: int| is_first_max(s@, i2, j2) implies au@ == local_walk_u(
            b@,
            u@,
            i2,
            j2,
        ) && av@ == local_walk_v(b@, v@, i2, j2) by {
            lemma_first_max_unique(s@, i2, j2, gi, gj);
        }
    }
    (au, av)
}

} // verus!
