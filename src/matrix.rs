//! A dense row-major matrix, as a plain container of elements.

use vstd::prelude::*;

verus! {

/// A `rows` by `cols` matrix stored row by row.
pub struct Matrix<T> {
    rows: usize,
    cols: usize,
    m: Vec<T>,
}

/// The position of entry `(i, j)` in row-major storage with `cols` columns.
pub open spec fn flat_index(cols: int, i: int, j: int) -> int {
    i * cols + j
}

/// Whether position `p` of row-major storage with `cols` columns lies on the
/// diagonal.
pub open spec fn on_diagonal(cols: int, p: int) -> bool {
    p / cols == p % cols
}

impl<T: Copy> Matrix<T> {
    pub closed spec fn rows_spec(&self) -> usize {
        self.rows
    }

    pub closed spec fn cols_spec(&self) -> usize {
        self.cols
    }

    /// The stored elements, row by row.
    pub closed spec fn elems(&self) -> Seq<T> {
        self.m@
    }

    /// A matrix of the given shape with no elements stored yet.
    pub fn new(rows: usize, cols: usize) -> (r: Matrix<T>)
        ensures
            r.rows_spec() == rows,
            r.cols_spec() == cols,
            r.elems().len() == 0,
    {
        Matrix { rows, cols, m: Vec::new() }
    }

    /// A matrix of the given shape whose every entry is `x`.
    pub fn filled(rows: usize, cols: usize, x: T) -> (r: Matrix<T>)
        requires
            rows * cols <= usize::MAX,
        ensures
            r.rows_spec() == rows,
            r.cols_spec() == cols,
            r.elems().len() == rows * cols,
            forall|p: int| 0 <= p < rows * cols ==> #[trigger] r.elems()[p] == x,
    {
        let size = rows * cols;
        let mut m: Vec<T> = Vec::new();
        let mut i: usize = 0;
        while i < size
            invariant
                i <= size,
                m@.len() == i,
                forall|p: int| 0 <= p < i ==> #[trigger] m@[p] == x,
            decreases size - i,
        {
            m.push(x);
            i = i + 1;
        }
        Matrix { rows, cols, m }
    }

    /// A matrix of the given shape holding `one` on the diagonal and `zero`
    /// everywhere else.
    pub fn diag(rows: usize, cols: usize, zero: T, one: T) -> (r: Matrix<T>)
        requires
            rows * cols <= usize::MAX,
        ensures
            r.rows_spec() == rows,
            r.cols_spec() == cols,
            r.elems().len() == rows * cols,
            forall|p: int|
                0 <= p < rows * cols ==> #[trigger] r.elems()[p] == if on_diagonal(cols as int, p) {
                    one
                } else {
                    zero
                },
    {
        let size = rows * cols;
        let mut m: Vec<T> = Vec::new();
        let mut i: usize = 0;
        while i < size
            invariant
                i <= size,
                size == rows * cols,
                m@.len() == i,
                forall|p: int|
                    0 <= p < i ==> #[trigger] m@[p] == if on_diagonal(cols as int, p) {
                        one
                    } else {
                        zero
                    },
            decreases size - i,
        {
            assert(cols > 0) by (nonlinear_arith)
                requires
                    i < size,
                    size == rows * cols,
                    rows >= 0,
                    cols >= 0,
            ;
            m.push(if i / cols == i % cols { one } else { zero });
            i = i + 1;
        }
        Matrix { rows, cols, m }
    }

    pub fn rows(&self) -> (r: usize)
        ensures
            r == self.rows_spec(),
    {
        self.rows
    }

    pub fn cols(&self) -> (r: usize)
        ensures
            r == self.cols_spec(),
    {
        self.cols
    }

    /// The stored elements, row by row.
    pub fn elements(&self) -> (r: &Vec<T>)
        ensures
            r@ == self.elems(),
    {
        &self.m
    }

    /// Builds a matrix of the given shape from its elements, row by row; fails
    /// (handing the elements back) unless there are exactly `rows * cols`.
    pub fn from_elements(rows: usize, cols: usize, m: Vec<T>) -> (r: Result<Matrix<T>, Vec<T>>)
        ensures
            r is Ok <==> m@.len() == rows * cols,
            r matches Ok(x) ==> x.rows_spec() == rows && x.cols_spec() == cols && x.elems() == m@,
            r matches Err(v) ==> v@ == m@,
    {
        let n = m.len();
        let ok = match rows.checked_mul(cols) {
            Some(size) => n == size,
            None => false,
        };
        if ok {
            Ok(Matrix { rows, cols, m })
        } else {
            Err(m)
        }
    }

    /// Entry `(i, j)`.
    pub fn get(&self, i: usize, j: usize) -> (r: T)
        requires
            self.elems().len() == self.rows_spec() * self.cols_spec(),
            i < self.rows_spec(),
            j < self.cols_spec(),
        ensures
            r == self.elems()[flat_index(self.cols_spec() as int, i as int, j as int)],
    {
        let len = self.m.len();
        proof {
            lemma_flat_index_bound(self.rows as int, self.cols as int, i as int, j as int);
            assert(flat_index(self.cols as int, i as int, j as int) < len);
        }
        self.m[i * self.cols + j]
    }
}

proof fn lemma_flat_index_bound(rows: int, cols: int, i: int, j: int)
    requires
        0 <= i < rows,
        0 <= j < cols,
    ensures
        0 <= flat_index(cols, i, j) < rows * cols,
{
    assert(i * cols + j < rows * cols) by (nonlinear_arith)
        requires
            0 <= i < rows,
            0 <= j < cols,
    ;
    assert(0 <= i * cols) by (nonlinear_arith)
        requires
            0 <= i,
            0 <= j < cols,
    ;
}

} // verus!
