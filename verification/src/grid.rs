use vstd::prelude::*;
use ndarray::Array2;

verus! {

/// A two-dimensional array of `u16` cells, held in an `ndarray::Array2`.
#[verifier::external_body]
#[derive(Debug, PartialEq, Eq)]
pub struct Matrix {
    inner: Array2<u16>,
}

/// The cells of a matrix, keyed by (row, column).
pub uninterp spec fn cells(m: Matrix) -> Map<(int, int), u16>;

/// The (rows, columns) shape that a matrix was made with.
pub uninterp spec fn shape(m: Matrix) -> (nat, nat);

impl Clone for Matrix {
    /// Calls `ndarray::ArrayBase::clone`: an array of the same shape and cells.
    #[verifier::external_body]
    fn clone(&self) -> (m: Matrix)
        ensures
            shape(m) == shape(*self),
            cells(m) == cells(*self),
    {
        Matrix { inner: self.inner.clone() }
    }
}

impl Matrix {
    pub open spec fn rows(&self) -> nat {
        shape(*self).0
    }

    pub open spec fn cols(&self) -> nat {
        shape(*self).1
    }

    pub open spec fn at(&self, i: int, j: int) -> u16 {
        cells(*self)[(i, j)]
    }

    /// Calls `ndarray::Array2::from_elem` with shape `(rows, cols)`: every cell holds `v`.
    /// The constructor panics when an axis length or the element count
    /// overflows `isize`, and the allocation fails beyond `isize::MAX` bytes,
    /// so all of these are excluded.
    #[verifier::external_body]
    pub(crate) fn from_elem(rows: usize, cols: usize, v: u16) -> (m: Matrix)
        requires
            rows <= isize::MAX,
            cols <= isize::MAX,
            rows * cols * 2 <= isize::MAX,
        ensures
            shape(m) == (rows as nat, cols as nat),
            forall|i: int, j: int| 0 <= i < rows && 0 <= j < cols ==> #[trigger] cells(m)[(i, j)] == v,
    {
        Matrix { inner: Array2::<u16>::from_elem((rows, cols), v) }
    }

    /// Calls `ndarray::ArrayBase::nrows`. Every array that ndarray builds holds
    /// at most `isize::MAX` bytes, which bounds the product of its axis lengths.
    #[verifier::external_body]
    pub(crate) fn nrows(&self) -> (r: usize)
        ensures
            r == shape(*self).0,
            r * shape(*self).1 * 2 <= isize::MAX,
    {
        self.inner.nrows()
    }

    /// Calls `ndarray::ArrayBase::ncols`.
    #[verifier::external_body]
    pub(crate) fn ncols(&self) -> (c: usize)
        ensures
            c == shape(*self).1,
    {
        self.inner.ncols()
    }

    /// Calls `ndarray::ArrayBase::index` with `[i, j]`; it panics out of bounds.
    #[verifier::external_body]
    pub(crate) fn get(&self, i: usize, j: usize) -> (v: u16)
        requires
            i < shape(*self).0,
            j < shape(*self).1,
        ensures
            v == cells(*self)[(i as int, j as int)],
    {
        self.inner[[i, j]]
    }

    /// Calls `ndarray::ArrayBase::index_mut` with `[i, j]` and stores `v` there.
    #[verifier::external_body]
    pub(crate) fn set(&mut self, i: usize, j: usize, v: u16)
        requires
            i < shape(*old(self)).0,
            j < shape(*old(self)).1,
        ensures
            shape(*final(self)) == shape(*old(self)),
            cells(*final(self)) == cells(*old(self)).insert((i as int, j as int), v),
    {
        self.inner[[i, j]] = v;
    }

    /// A matrix with `cols` columns whose rows are `rows`.
    pub fn from_rows(rows: &Vec<Vec<u16>>, cols: usize) -> (m: Matrix)
        requires
            rows@.len() <= isize::MAX,
            cols <= isize::MAX,
            rows@.len() * cols * 2 <= isize::MAX,
            forall|i: int| 0 <= i < rows@.len() ==> (#[trigger] rows@[i])@.len() == cols,
        ensures
            shape(m) == (rows@.len(), cols as nat),
            forall|i: int, j: int| 0 <= i < rows@.len() && 0 <= j < cols ==> #[trigger] cells(m)[(i, j)] == rows@[i]@[j],
    {
        let n = rows.len();
        let mut m = Matrix::from_elem(n, cols, 0);
        let mut i: usize = 0;
        while i < n
            invariant
                n == rows@.len(),
                i <= n,
                shape(m) == (n as nat, cols as nat),
                forall|i: int| 0 <= i < rows@.len() ==> (#[trigger] rows@[i])@.len() == cols,
                forall|a: int, b: int| 0 <= a < i && 0 <= b < cols ==> #[trigger] cells(m)[(a, b)] == rows@[a]@[b],
            decreases n - i,
        {
            let row = &rows[i];
            let mut j: usize = 0;
            while j < cols
                invariant
                    n == rows@.len(),
                    i < n,
                    j <= cols,
                    *row == rows@[i as int],
                    row@.len() == cols,
                    shape(m) == (n as nat, cols as nat),
                    forall|a: int, b: int| 0 <= a < i && 0 <= b < cols ==> #[trigger] cells(m)[(a, b)] == rows@[a]@[b],
                    forall|b: int| 0 <= b < j ==> #[trigger] cells(m)[(i as int, b)] == rows@[i as int]@[b],
                decreases cols - j,
            {
                m.set(i, j, row[j]);
                j += 1;
            }
            i += 1;
        }
        m
    }

    /// The rows of the matrix, each as a vector of its cells.
    pub fn to_rows(&self) -> (r: Vec<Vec<u16>>)
        ensures
            r@.len() == shape(*self).0,
            forall|i: int| 0 <= i < r@.len() ==> (#[trigger] r@[i])@.len() == shape(*self).1,
            forall|i: int, j: int| 0 <= i < r@.len() && 0 <= j < shape(*self).1 ==> #[trigger] r@[i]@[j] == cells(*self)[(i, j)],
    {
        let n = self.nrows();
        let cols = self.ncols();
        let mut r: Vec<Vec<u16>> = Vec::new();
        let mut i: usize = 0;
        while i < n
            invariant
                n == shape(*self).0,
                cols == shape(*self).1,
                i <= n,
                r@.len() == i,
                forall|a: int| 0 <= a < i ==> (#[trigger] r@[a])@.len() == cols,
                forall|a: int, b: int| 0 <= a < i && 0 <= b < cols ==> #[trigger] r@[a]@[b] == cells(*self)[(a, b)],
            decreases n - i,
        {
            let mut row: Vec<u16> = Vec::new();
            let mut j: usize = 0;
            while j < cols
                invariant
                    n == shape(*self).0,
                    cols == shape(*self).1,
                    i < n,
                    j <= cols,
                    row@.len() == j,
                    forall|b: int| 0 <= b < j ==> #[trigger] row@[b] == cells(*self)[(i as int, b)],
                decreases cols - j,
            {
                row.push(self.get(i, j));
                j += 1;
            }
            r.push(row);
            i += 1;
        }
        r
    }
}

}
