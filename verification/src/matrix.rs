use vstd::prelude::*;

verus! {

/// A dense, bounds-checked, row-major matrix with a fixed shape chosen at
/// construction.
#[derive(Debug, Clone, PartialEq)]
pub struct Matrix<T> {
    matrix: Vec<T>,
    rows: usize,
    cols: usize,
}

impl<T> Matrix<T> {
    /// Number of rows.
    pub closed spec fn rows(&self) -> int {
        self.rows as int
    }

    /// Number of columns.
    pub closed spec fn cols(&self) -> int {
        self.cols as int
    }

    /// The buffer holds exactly one entry per cell.
    pub closed spec fn wf(&self) -> bool {
        &&& self.matrix@.len() == self.rows() * self.cols()
        &&& self.rows() * self.cols() <= usize::MAX
    }

    /// The entry at row `i`, column `j`.
    pub closed spec fn cell(&self, i: int, j: int) -> T
        recommends
            self.wf(),
            0 <= i < self.rows(),
            0 <= j < self.cols(),
    {
        self.matrix@[i * self.cols() + j]
    }

    /// A shape never has negative dimensions.
    pub proof fn lemma_dims(&self)
        ensures
            self.rows() >= 0,
            self.cols() >= 0,
    {
    }

    /// A well-formed matrix has no more cells than `usize` can count.
    pub proof fn lemma_shape_bound(&self)
        requires
            self.wf(),
        ensures
            self.rows() * self.cols() <= usize::MAX,
    {
    }

    /// Build a matrix of shape `(i, j)` whose every cell holds `value`.
    pub fn fill(value: T, i: usize, j: usize) -> (r: Self) where T: Copy
        requires
            i * j <= usize::MAX,
        ensures
            r.wf(),
            r.rows() == i,
            r.cols() == j,
            forall|x: int, y: int| 0 <= x < i && 0 <= y < j ==> r.cell(x, y) == value,
    {
        let total: usize = i * j;
        let mut buf: Vec<T> = Vec::new();
        let mut k: usize = 0;
        while k < total
            invariant
                k <= total,
                buf@.len() == k,
                forall|q: int| 0 <= q < k ==> buf@[q] == value,
            decreases total - k,
        {
            buf.push(value);
            k = k + 1;
        }
        let r = Matrix { matrix: buf, rows: i, cols: j };
        proof {
            assert forall|x: int, y: int| 0 <= x < i && 0 <= y < j implies r.cell(x, y)
                == value by {
                lemma_row_major_index_bound(x, y, i as int, j as int);
            }
        }
        r
    }

    /// Build a matrix of shape `(i, j)` from a row-major buffer.
    pub fn from(data: Vec<T>, i: usize, j: usize) -> (r: Self)
        requires
            data@.len() == i * j,
            i * j <= usize::MAX,
        ensures
            r.wf(),
            r.rows() == i,
            r.cols() == j,
            forall|x: int, y: int|
                0 <= x < i && 0 <= y < j ==> r.cell(x, y) == data@[x * (j as int) + y],
    {
        Matrix { matrix: data, rows: i, cols: j }
    }

    /// The shape `(rows, columns)` the matrix was built with.
    pub fn shape(&self) -> (r: (usize, usize))
        ensures
            r.0 == self.rows(),
            r.1 == self.cols(),
    {
        (self.rows, self.cols)
    }

    /// Read the cell at `(i, j)`.
    pub fn get(&self, i: usize, j: usize) -> (r: &T)
        requires
            self.wf(),
            i < self.rows(),
            j < self.cols(),
        ensures
            *r == self.cell(i as int, j as int),
    {
        proof {
            lemma_row_major_index_bound(i as int, j as int, self.rows(), self.cols());
        }
        &self.matrix[self.cols * i + j]
    }

    /// Overwrite the cell at `(i, j)`, leaving every other cell unchanged.
    pub fn set(&mut self, i: usize, j: usize, value: T)
        requires
            old(self).wf(),
            i < old(self).rows(),
            j < old(self).cols(),
        ensures
            final(self).wf(),
            final(self).rows() == old(self).rows(),
            final(self).cols() == old(self).cols(),
            final(self).cell(i as int, j as int) == value,
            forall|x: int, y: int|
                0 <= x < final(self).rows() && 0 <= y < final(self).cols() && !(x == i && y == j)
                    ==> final(self).cell(x, y) == old(self).cell(x, y),
    {
        proof {
            lemma_row_major_index_bound(i as int, j as int, self.rows(), self.cols());
        }
        let idx: usize = self.cols * i + j;
        self.matrix.set(idx, value);
        proof {
            assert forall|x: int, y: int|
                0 <= x < self.rows() && 0 <= y < self.cols() && !(x == i && y == j) implies self
                .cell(x, y) == old(self).cell(x, y) by {
                lemma_row_major_index_bound(x, y, self.rows(), self.cols());
                lemma_row_major_index_injective(x, y, i as int, j as int, self.cols());
            }
        }
    }
}

/// A row-major index lies inside the buffer, and the arithmetic that computes
/// it stays inside `usize`.
pub(crate) proof fn lemma_row_major_index_bound(i: int, j: int, n: int, m: int)
    by (nonlinear_arith)
    requires
        0 <= i < n,
        0 <= j < m,
    ensures
        0 <= i * m + j < n * m,
{
}

/// Distinct cells have distinct row-major indices.
proof fn lemma_row_major_index_injective(x: int, y: int, i: int, j: int, m: int)
    by (nonlinear_arith)
    requires
        0 <= y < m,
        0 <= j < m,
        !(x == i && y == j),
    ensures
        x * m + y != i * m + j,
{
}

} // verus!
