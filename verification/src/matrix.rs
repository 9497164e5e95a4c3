//! A dense two-dimensional container stored in row-major order, with a
//! fill-constructor, bounds-checked access, and maximum-value reductions.

use vstd::prelude::*;

verus! {

/// A `rows` by `cols` grid of cells, stored row-major in one flat vector.
///
/// The view of a matrix is the sequence of its rows, each row a sequence
/// of cells.
pub struct Matrix<T> {
    n_rows: usize,
    n_cols: usize,
    cells: Vec<T>,
}

impl<T> View for Matrix<T> {
    type V = Seq<Seq<T>>;

    closed spec fn view(&self) -> Seq<Seq<T>> {
        Seq::new(
            self.n_rows as nat,
            |i: int|
                Seq::new(
                    self.n_cols as nat,
                    |j: int| self.cells@[i * (self.n_cols as int) + j],
                ),
        )
    }
}

/// The flat index of cell `(i, j)` lies inside a `rows` by `cols` block.
proof fn lemma_flat_index_in_range(i: int, j: int, rows: int, cols: int)
    by (nonlinear_arith)
    requires
        0 <= i < rows,
        0 <= j < cols,
    ensures
        0 <= i * cols + j < rows * cols,
{
}

/// Distinct cell coordinates give distinct flat indices.
proof fn lemma_flat_index_injective(i1: int, j1: int, i2: int, j2: int, cols: int)
    by (nonlinear_arith)
    requires
        0 <= i1,
        0 <= i2,
        0 <= j1 < cols,
        0 <= j2 < cols,
        i1 * cols + j1 == i2 * cols + j2,
    ensures
        i1 == i2,
        j1 == j2,
{
}

impl<T> Matrix<T> {
    /// Internal consistency: the flat storage holds exactly one slot for
    /// every cell of the grid.
    pub closed spec fn inv(&self) -> bool {
        &&& self.cells@.len() == (self.n_rows as int) * (self.n_cols as int)
        &&& (self.n_rows as int) * (self.n_cols as int) <= usize::MAX
    }

    /// Returns the number of rows.
    pub fn row(&self) -> (r: usize)
        ensures
            r == self@.len(),
    {
        self.n_rows
    }

    /// Returns the number of columns.
    pub fn col(&self) -> (r: usize)
        ensures
            forall|i: int| 0 <= i < self@.len() ==> (#[trigger] self@[i]).len() == r,
    {
        self.n_cols
    }
}

impl<T: Copy> Matrix<T> {
    /// Constructs a `rows` by `cols` matrix with every cell set to `fill`.
    pub fn new(rows: usize, cols: usize, fill: T) -> (r: Matrix<T>)
        requires
            rows * cols <= usize::MAX,
        ensures
            r.inv(),
            r@.len() == rows,
            forall|i: int| 0 <= i < rows ==> (#[trigger] r@[i]).len() == cols,
            forall|i: int, j: int|
                0 <= i < rows && 0 <= j < cols ==> #[trigger] r@[i][j] == fill,
    {
        let total: usize = rows * cols;
        let mut cells: Vec<T> = Vec::new();
        let mut k: usize = 0;
        while k < total
            invariant
                k <= total,
                cells@.len() == k,
                forall|x: int| 0 <= x < k ==> #[trigger] cells@[x] == fill,
            decreases total - k,
        {
            cells.push(fill);
            k = k + 1;
        }
        let m = Matrix { n_rows: rows, n_cols: cols, cells };
        proof {
            assert forall|i: int, j: int|
                0 <= i < rows && 0 <= j < cols implies #[trigger] m@[i][j] == fill by {
                lemma_flat_index_in_range(i, j, rows as int, cols as int);
            }
        }
        m
    }

    /// Returns the cell at row `i`, column `j`.
    pub fn get(&self, i: usize, j: usize) -> (r: T)
        requires
            self.inv(),
            i < self@.len(),
            j < self@[i as int].len(),
        ensures
            r == self@[i as int][j as int],
    {
        proof {
            lemma_flat_index_in_range(
                i as int,
                j as int,
                self.n_rows as int,
                self.n_cols as int,
            );
        }
        let k: usize = i * self.n_cols + j;
        self.cells[k]
    }

    /// Replaces the cell at row `i`, column `j` with `value`.
    pub fn set(&mut self, i: usize, j: usize, value: T)
        requires
            old(self).inv(),
            i < old(self)@.len(),
            j < old(self)@[i as int].len(),
        ensures
            final(self).inv(),
            final(self)@ == old(self)@.update(
                i as int,
                old(self)@[i as int].update(j as int, value),
            ),
    {
        proof {
            lemma_flat_index_in_range(
                i as int,
                j as int,
                self.n_rows as int,
                self.n_cols as int,
            );
        }
        let k: usize = i * self.n_cols + j;
        self.cells.set(k, value);
        proof {
            let cols = self.n_cols as int;
            let rows = self.n_rows as int;
            assert forall|r: int, c: int|
                0 <= r < rows && 0 <= c < cols implies #[trigger] self@[r][c] == (
                if r == i as int && c == j as int {
                    value
                } else {
                    old(self)@[r][c]
                }) by {
                lemma_flat_index_in_range(r, c, rows, cols);
                if !(r == i as int && c == j as int)
                    && r * cols + c == (i as int) * cols + (j as int) {
                    lemma_flat_index_injective(r, c, i as int, j as int, cols);
                }
            }
            assert(self@ =~~= old(self)@.update(
                i as int,
                old(self)@[i as int].update(j as int, value),
            ));
        }
    }
}

/// `(i, j)` is a valid cell coordinate of the grid `g`.
pub open spec fn in_grid(g: Seq<Seq<i32>>, i: int, j: int) -> bool {
    0 <= i < g.len() && 0 <= j < g[i].len()
}

/// `(i1, j1)` comes before `(i2, j2)` in row-major order.
pub open spec fn lex_before(i1: int, j1: int, i2: int, j2: int) -> bool {
    i1 < i2 || (i1 == i2 && j1 < j2)
}

/// `(i, j)` holds the grid's maximum, and every earlier cell in row-major
/// order is strictly smaller: `(i, j)` is the first maximum encountered.
pub open spec fn is_first_max(g: Seq<Seq<i32>>, i: int, j: int) -> bool {
    &&& in_grid(g, i, j)
    &&& forall|r: int, c: int| in_grid(g, r, c) ==> #[trigger] g[r][c] <= g[i][j]
    &&& forall|r: int, c: int|
        in_grid(g, r, c) && lex_before(r, c, i, j) ==> #[trigger] g[r][c] < g[i][j]
}

/// Two first maxima of one grid are the same cell.
pub proof fn lemma_first_max_unique(g: Seq<Seq<i32>>, i1: int, j1: int, i2: int, j2: int)
    requires
        is_first_max(g, i1, j1),
        is_first_max(g, i2, j2),
    ensures
        i1 == i2,
        j1 == j2,
{
    if lex_before(i1, j1, i2, j2) {
        assert(g[i1][j1] < g[i2][j2]);
        assert(g[i2][j2] <= g[i1][j1]);
    } else if lex_before(i2, j2, i1, j1) {
        assert(g[i2][j2] < g[i1][j1]);
        assert(g[i1][j1] <= g[i2][j2]);
    }
}

impl Matrix<i32> {
    /// Returns the largest cell value, scanning all cells.
    pub fn max(&self) -> (r: i32)
        requires
            self.inv(),
            self@.len() > 0,
            self@[0].len() > 0,
        ensures
            exists|i: int, j: int| in_grid(self@, i, j) && r == #[trigger] self@[i][j],
            forall|i: int, j: int| in_grid(self@, i, j) ==> #[trigger] self@[i][j] <= r,
    {
        let (r, _, _) = self.max_with_pos();
        r
    }

    /// Returns the largest cell value together with its coordinates; among
    /// equal cells the first in row-major order wins.
    pub fn max_with_pos(&self) -> (r: (i32, usize, usize))
        requires
            self.inv(),
            self@.len() > 0,
            self@[0].len() > 0,
        ensures
            is_first_max(self@, r.1 as int, r.2 as int),
            r.0 == self@[r.1 as int][r.2 as int],
    {
        let rows = self.row();
        let cols = self.col();
        let mut best = self.get(0, 0);
        let mut bi: usize = 0;
        let mut bj: usize = 0;
        let mut i: usize = 0;
        while i < rows
            invariant
                self.inv(),
                rows == self@.len(),
                forall|r: int| 0 <= r < self@.len() ==> (#[trigger] self@[r]).len() == cols,
                0 < cols,
                i <= rows,
                in_grid(self@, bi as int, bj as int),
                best == self@[bi as int][bj as int],
                bi < i || (bi == 0 && bj == 0),
                forall|r: int, c: int|
                    in_grid(self@, r, c) && r < i ==> #[trigger] self@[r][c] <= best,
                forall|r: int, c: int|
                    in_grid(self@, r, c) && r < i && lex_before(r, c, bi as int, bj as int)
                        ==> #[trigger] self@[r][c] < best,
            decreases rows - i,
        {
            let mut j: usize = 0;
            while j < cols
                invariant
                    self.inv(),
                    rows == self@.len(),
                    forall|r: int| 0 <= r < self@.len() ==> (#[trigger] self@[r]).len() == cols,
                    0 < cols,
                    i < rows,
                    j <= cols,
                    in_grid(self@, bi as int, bj as int),
                    best == self@[bi as int][bj as int],
                    bi < i || (bi == i && bj < j) || (bi == 0 && bj == 0),
                    forall|r: int, c: int|
                        in_grid(self@, r, c) && (r < i || (r == i && c < j))
                            ==> #[trigger] self@[r][c] <= best,
                    forall|r: int, c: int|
                        in_grid(self@, r, c) && (r < i || (r == i && c < j))
                            && lex_before(r, c, bi as int, bj as int)
                            ==> #[trigger] self@[r][c] < best,
                decreases cols - j,
            {
                let v = self.get(i, j);
                if best < v {
                    best = v;
                    bi = i;
                    bj = j;
                }
                j = j + 1;
            }
            i = i + 1;
        }
        (best, bi, bj)
    }
}

} // verus!
