use vstd::prelude::*;

use crate::scalar::Real;

verus! {

/// Where entry `(i, j)` of a `rows` by `cols` matrix stands in its row-major data.
pub open spec fn flat_index(i: int, j: int, cols: int) -> int {
    i * cols + j
}

proof fn lemma_flat_index_injective(i1: int, j1: int, i2: int, j2: int, cols: int)
    by (nonlinear_arith)
    requires
        0 <= j1 < cols,
        0 <= j2 < cols,
        i1 != i2 || j1 != j2,
    ensures
        flat_index(i1, j1, cols) != flat_index(i2, j2, cols),
{
    if i1 != i2 {
        if i1 < i2 {
            assert(i1 * cols + cols <= i2 * cols);
        } else {
            assert(i2 * cols + cols <= i1 * cols);
        }
    }
}

proof fn lemma_flat_index(i: int, j: int, rows: int, cols: int)
    by (nonlinear_arith)
    requires
        0 <= i < rows,
        0 <= j < cols,
    ensures
        0 <= flat_index(i, j, cols) < rows * cols,
        flat_index(i, j, cols) + 1 <= rows * cols,
{
}

/// A dense matrix, stored row by row.
pub struct Matrix<T> {
    rows: usize,
    cols: usize,
    data: Vec<T>,
}

impl<T> Matrix<T> {
    #[verifier::type_invariant]
    spec fn shaped(self) -> bool {
        self.data@.len() == self.rows * self.cols
    }

    /// The number of rows.
    pub closed spec fn nrows(self) -> nat {
        self.rows as nat
    }

    /// The number of columns.
    pub closed spec fn ncols(self) -> nat {
        self.cols as nat
    }

    /// The entries, row by row.
    pub closed spec fn elems(self) -> Seq<T> {
        self.data@
    }

    /// Entry `(i, j)`.
    pub open spec fn at(self, i: int, j: int) -> T {
        self.elems()[flat_index(i, j, self.ncols() as int)]
    }
}

impl<T: Copy> Matrix<T> {
    /// Builds a `rows` by `cols` matrix from its entries, row by row.
    pub fn new(rows: usize, cols: usize, data: Vec<T>) -> (r: Matrix<T>)
        requires
            data@.len() == rows * cols,
        ensures
            r.nrows() == rows,
            r.ncols() == cols,
            r.elems() == data@,
    {
        Matrix { rows, cols, data }
    }

    /// The number of rows.
    pub fn rows(&self) -> (r: usize)
        ensures
            r == self.nrows(),
    {
        self.rows
    }

    /// The number of columns.
    pub fn cols(&self) -> (r: usize)
        ensures
            r == self.ncols(),
    {
        self.cols
    }

    /// The entries, row by row.
    pub fn get_data(&self) -> (r: &Vec<T>)
        ensures
            r@ == self.elems(),
            r@.len() == self.nrows() * self.ncols(),
    {
        proof {
            use_type_invariant(self);
        }
        &self.data
    }

    /// Entry `(i, j)`.
    pub fn get(&self, i: usize, j: usize) -> (r: T)
        requires
            i < self.nrows(),
            j < self.ncols(),
        ensures
            r == self.at(i as int, j as int),
    {
        // The data's length is a `usize`, which bounds the index below.
        let len = self.data.len();
        proof {
            use_type_invariant(self);
            lemma_flat_index(i as int, j as int, self.rows as int, self.cols as int);
            assert(flat_index(i as int, j as int, self.cols as int) < len);
        }
        self.data[i * self.cols + j]
    }

    /// Replaces entry `(i, j)` by `value`.
    pub fn set(&mut self, i: usize, j: usize, value: T)
        requires
            i < old(self).nrows(),
            j < old(self).ncols(),
        ensures
            final(self).nrows() == old(self).nrows(),
            final(self).ncols() == old(self).ncols(),
            final(self).elems() == old(self).elems().update(
                flat_index(i as int, j as int, old(self).ncols() as int),
                value,
            ),
            forall|r: int, c: int|
                0 <= r < old(self).nrows() && 0 <= c < old(self).ncols() ==> #[trigger] final(self).at(r, c)
                    == if r == i && c == j {
                    value
                } else {
                    old(self).at(r, c)
                },
    {
        // The data's length is a `usize`, which bounds the index below.
        let len = self.data.len();
        proof {
            use_type_invariant(&*self);
            lemma_flat_index(i as int, j as int, self.rows as int, self.cols as int);
            assert(flat_index(i as int, j as int, self.cols as int) < len);
        }
        let ghost before = *self;
        let k = i * self.cols + j;
        self.data[k] = value;
        proof {
            assert forall|r: int, c: int|
                0 <= r < before.nrows() && 0 <= c < before.ncols() implies #[trigger] self.at(r, c)
                    == if r == i && c == j {
                    value
                } else {
                    before.at(r, c)
                } by {
                lemma_flat_index(r, c, before.rows as int, before.cols as int);
                if r != i || c != j {
                    lemma_flat_index_injective(r, c, i as int, j as int, before.cols as int);
                }
            }
        }
    }

    /// The transpose: entry `(i, j)` of the result is entry `(j, i)` of `self`.
    pub fn t(&self) -> (r: Matrix<T>)
        ensures
            r.is_transpose_of(*self),
    {
        proof {
            use_type_invariant(self);
        }
        let rows = self.rows;
        let cols = self.cols;
        let mut data: Vec<T> = Vec::new();
        let mut i: usize = 0;
        while i < cols
            invariant
                rows == self.nrows(),
                cols == self.ncols(),
                self.elems().len() == rows * cols,
                i <= cols,
                data@.len() == i * rows,
                forall|ii: int, jj: int|
                    0 <= ii < i && 0 <= jj < rows ==> data@[flat_index(ii, jj, rows as int)]
                        == #[trigger] self.at(jj, ii),
            decreases cols - i,
        {
            let mut j: usize = 0;
            while j < rows
                invariant
                    rows == self.nrows(),
                    cols == self.ncols(),
                    self.elems().len() == rows * cols,
                    i < cols,
                    j <= rows,
                    data@.len() == i * rows + j,
                    forall|ii: int, jj: int|
                        0 <= ii < i && 0 <= jj < rows ==> data@[flat_index(ii, jj, rows as int)]
                            == #[trigger] self.at(jj, ii),
                    forall|jj: int|
                        0 <= jj < j ==> data@[flat_index(i as int, jj, rows as int)]
                            == #[trigger] self.at(jj, i as int),
                decreases rows - j,
            {
                proof {
                    lemma_flat_index(i as int, j as int, cols as int, rows as int);
                    lemma_flat_index(j as int, i as int, rows as int, cols as int);
                }
                let x = self.get(j, i);
                let ghost before = data@;
                data.push(x);
                proof {
                    assert forall|ii: int, jj: int|
                        0 <= ii < i && 0 <= jj < rows implies data@[flat_index(ii, jj, rows as int)]
                            == #[trigger] self.at(jj, ii) by {
                        lemma_flat_index(ii, jj, i as int, rows as int);
                        assert(before[flat_index(ii, jj, rows as int)] == self.at(jj, ii));
                    }
                    assert forall|jj: int|
                        0 <= jj < j + 1 implies data@[flat_index(i as int, jj, rows as int)]
                            == #[trigger] self.at(jj, i as int) by {
                        if jj < j {
                            assert(before[flat_index(i as int, jj, rows as int)] == self.at(jj, i as int));
                        }
                    }
                }
                j = j + 1;
            }
            proof {
                assert((i + 1) * rows == i * rows + rows) by (nonlinear_arith);
                assert forall|ii: int, jj: int|
                    0 <= ii < i + 1 && 0 <= jj < rows implies data@[flat_index(ii, jj, rows as int)]
                        == #[trigger] self.at(jj, ii) by {
                    if ii == i {
                    }
                }
            }
            i = i + 1;
        }
        proof {
            assert(data@.len() == cols * rows) by (nonlinear_arith)
                requires data@.len() == i * rows, i == cols;
        }
        let r = Matrix { rows: cols, cols: rows, data };
        assert forall|i: int, j: int| 0 <= i < r.nrows() && 0 <= j < r.ncols() implies #[trigger] r.at(i, j)
            == self.at(j, i) by {
            assert(data@[flat_index(i, j, rows as int)] == self.at(j, i));
        }
        r
    }
}

impl<T: crate::scalar::Real> Matrix<T> {
    /// A `rows` by `cols` matrix whose entries are all zero.
    pub fn zero(rows: usize, cols: usize) -> (r: Matrix<T>)
        requires
            rows * cols <= usize::MAX,
        ensures
            r.nrows() == rows,
            r.ncols() == cols,
            r.is_filled(T::spec_zero()),
    {
        let z = T::zero();
        let len = rows * cols;
        let mut data: Vec<T> = Vec::new();
        let mut k: usize = 0;
        while k < len
            invariant
                k <= len,
                data@ == Seq::new(k as nat, |q: int| z),
            decreases len - k,
        {
            data.push(z);
            k = k + 1;
        }
        let r = Matrix { rows, cols, data };
        assert forall|i: int, j: int| 0 <= i < rows && 0 <= j < cols implies #[trigger] r.at(i, j) == z by {
            lemma_flat_index(i, j, rows as int, cols as int);
        }
        assert(r.is_filled(z));
        r
    }

    /// The `m` by `n` matrix with `diag` on its main diagonal and zero
    /// everywhere else.
    pub fn block_diag(m: usize, n: usize, diag: Vec<T>) -> (r: Matrix<T>)
        requires
            m * n <= usize::MAX,
            diag@.len() == if m < n { m } else { n },
        ensures
            r.nrows() == m,
            r.ncols() == n,
            r.is_diagonal(diag@, T::spec_zero()),
    {
        let mut r = Self::zero(m, n);
        let ghost z = T::spec_zero();
        let len = diag.len();
        let mut k: usize = 0;
        while k < len
            invariant
                len == diag@.len(),
                len == if m < n { m } else { n },
                k <= len,
                r.nrows() == m,
                r.ncols() == n,
                forall|i: int, j: int|
                    0 <= i < m && 0 <= j < n ==> #[trigger] r.at(i, j) == if i == j && i < k {
                        diag@[i]
                    } else {
                        z
                    },
            decreases len - k,
        {
            proof {
                use_type_invariant(&r);
            }
            let ghost before = r;
            r.set(k, k, diag[k]);
            proof {
                use_type_invariant(&r);
                assert forall|i: int, j: int|
                    0 <= i < m && 0 <= j < n implies #[trigger] r.at(i, j) == if i == j && i < k + 1 {
                        diag@[i]
                    } else {
                        z
                    } by {
                    lemma_flat_index(i, j, m as int, n as int);
                    lemma_flat_index(k as int, k as int, m as int, n as int);
                    if i != k || j != k {
                        lemma_flat_index_injective(i, j, k as int, k as int, n as int);
                        assert(r.at(i, j) == before.at(i, j));
                    }
                }
            }
            k = k + 1;
        }
        assert(r.is_diagonal(diag@, z));
        r
    }
}

impl<T> Matrix<T> {
    /// `self` is the transpose of `other`.
    pub open spec fn is_transpose_of(self, other: Matrix<T>) -> bool {
        &&& self.nrows() == other.ncols()
        &&& self.ncols() == other.nrows()
        &&& forall|i: int, j: int|
            0 <= i < self.nrows() && 0 <= j < self.ncols() ==> #[trigger] self.at(i, j) == other.at(j, i)
    }

    /// Every entry is `z`.
    pub open spec fn is_filled(self, z: T) -> bool {
        forall|i: int, j: int| 0 <= i < self.nrows() && 0 <= j < self.ncols() ==> #[trigger] self.at(i, j) == z
    }

    /// Every entry of the main diagonal is the matching entry of `d`, and
    /// every other entry is `z`.
    pub open spec fn is_diagonal(self, d: Seq<T>, z: T) -> bool {
        forall|i: int, j: int|
            0 <= i < self.nrows() && 0 <= j < self.ncols() ==> #[trigger] self.at(i, j) == if i == j {
                d[i]
            } else {
                z
            }
    }
}

/// Transposing twice gives back the matrix: same shape, same entries.
pub proof fn lemma_transpose_twice<T>(a: Matrix<T>, b: Matrix<T>, c: Matrix<T>)
    requires
        b.is_transpose_of(a),
        c.is_transpose_of(b),
    ensures
        c.nrows() == a.nrows(),
        c.ncols() == a.ncols(),
        forall|i: int, j: int| 0 <= i < a.nrows() && 0 <= j < a.ncols() ==> #[trigger] c.at(i, j) == a.at(i, j),
{
    assert forall|i: int, j: int| 0 <= i < a.nrows() && 0 <= j < a.ncols() implies #[trigger] c.at(i, j)
        == a.at(i, j) by {
        assert(c.at(i, j) == b.at(j, i));
    }
}

/// The transpose of a diagonal matrix is diagonal, with the same diagonal and
/// the same value off it.
pub proof fn lemma_transpose_diagonal<T>(a: Matrix<T>, b: Matrix<T>, d: Seq<T>, z: T)
    requires
        a.is_diagonal(d, z),
        b.is_transpose_of(a),
    ensures
        b.is_diagonal(d, z),
{
    assert forall|i: int, j: int| 0 <= i < b.nrows() && 0 <= j < b.ncols() implies #[trigger] b.at(i, j)
        == if i == j {
        d[i]
    } else {
        z
    } by {
        assert(b.at(i, j) == a.at(j, i));
    }
}

/// Columns `j1` and `j2` of `f` turned by the rotation `(cs, sn)`: column
/// `j1` becomes `cs * f[.., j1] + sn * f[.., j2]` and column `j2` becomes
/// `-sn * f[.., j1] + cs * f[.., j2]`.
pub open spec fn rotation<T: Real>(f: spec_fn(int, int) -> T, j1: int, j2: int, cs: T, sn: T) -> spec_fn(
    int,
    int,
) -> T {
    |i: int, c: int|
        if c == j1 {
            cs.spec_times(f(i, j1)).spec_plus(sn.spec_times(f(i, j2)))
        } else if c == j2 {
            sn.spec_negate().spec_times(f(i, j1)).spec_plus(cs.spec_times(f(i, j2)))
        } else {
            f(i, c)
        }
}

/// `f` with columns `j1` and `j2` exchanged.
pub open spec fn swapped<T>(f: spec_fn(int, int) -> T, j1: int, j2: int) -> spec_fn(int, int) -> T {
    |i: int, c: int|
        if c == j1 {
            f(i, j2)
        } else if c == j2 {
            f(i, j1)
        } else {
            f(i, c)
        }
}

/// `f` with rows `lo..hi` of column `j` negated.
pub open spec fn negated<T: Real>(f: spec_fn(int, int) -> T, j: int, lo: int, hi: int) -> spec_fn(int, int) -> T {
    |i: int, c: int|
        if c == j && lo <= i < hi {
            f(i, j).spec_negate()
        } else {
            f(i, c)
        }
}

impl<T> Matrix<T> {
    /// Entry `(i, j)` is `f(i, j)` wherever it is in range.
    pub open spec fn agrees(self, f: spec_fn(int, int) -> T) -> bool {
        forall|i: int, j: int| 0 <= i < self.nrows() && 0 <= j < self.ncols() ==> #[trigger] self.at(i, j) == f(i, j)
    }
}

impl<T: Real> Matrix<T> {
    /// Turns columns `j1` and `j2` by the rotation `(cs, sn)`, row by row.
    pub(crate) fn rotate_columns(&mut self, j1: usize, j2: usize, cs: T, sn: T, Ghost(f): Ghost<spec_fn(int, int) -> T>)
        requires
            j1 < old(self).ncols(),
            j2 < old(self).ncols(),
            j1 != j2,
            old(self).agrees(f),
        ensures
            final(self).nrows() == old(self).nrows(),
            final(self).ncols() == old(self).ncols(),
            final(self).agrees(rotation(f, j1 as int, j2 as int, cs, sn)),
    {
        let rows = self.rows();
        let ghost g = rotation(f, j1 as int, j2 as int, cs, sn);
        for i in 0..rows
            invariant
                rows == self.nrows(),
                self.nrows() == old(self).nrows(),
                self.ncols() == old(self).ncols(),
                j1 < self.ncols(),
                j2 < self.ncols(),
                j1 != j2,
                g == rotation(f, j1 as int, j2 as int, cs, sn),
                self.agrees(|r: int, c: int| if r < i { g(r, c) } else { f(r, c) }),
        {
            let a = self.get(i, j1);
            let b = self.get(i, j2);
            let t = cs.times(a).plus(sn.times(b));
            let x = sn.negate().times(a).plus(cs.times(b));
            self.set(i, j2, x);
            self.set(i, j1, t);
        }
    }

    /// Exchanges columns `j1` and `j2`, row by row.
    pub(crate) fn swap_columns(&mut self, j1: usize, j2: usize, Ghost(f): Ghost<spec_fn(int, int) -> T>)
        requires
            j1 < old(self).ncols(),
            j2 < old(self).ncols(),
            j1 != j2,
            old(self).agrees(f),
        ensures
            final(self).nrows() == old(self).nrows(),
            final(self).ncols() == old(self).ncols(),
            final(self).agrees(swapped(f, j1 as int, j2 as int)),
    {
        let rows = self.rows();
        let ghost g = swapped(f, j1 as int, j2 as int);
        for i in 0..rows
            invariant
                rows == self.nrows(),
                self.nrows() == old(self).nrows(),
                self.ncols() == old(self).ncols(),
                j1 < self.ncols(),
                j2 < self.ncols(),
                j1 != j2,
                g == swapped(f, j1 as int, j2 as int),
                self.agrees(|r: int, c: int| if r < i { g(r, c) } else { f(r, c) }),
        {
            let t = self.get(i, j2);
            let x = self.get(i, j1);
            self.set(i, j2, x);
            self.set(i, j1, t);
        }
    }

    /// Negates rows `lo..hi` of column `j`.
    pub(crate) fn negate_column(&mut self, j: usize, lo: usize, hi: usize, Ghost(f): Ghost<spec_fn(int, int) -> T>)
        requires
            j < old(self).ncols(),
            lo <= hi <= old(self).nrows(),
            old(self).agrees(f),
        ensures
            final(self).nrows() == old(self).nrows(),
            final(self).ncols() == old(self).ncols(),
            final(self).agrees(negated(f, j as int, lo as int, hi as int)),
    {
        let ghost g = negated(f, j as int, lo as int, hi as int);
        for i in lo..hi
            invariant
                hi <= self.nrows(),
                self.nrows() == old(self).nrows(),
                self.ncols() == old(self).ncols(),
                j < self.ncols(),
                g == negated(f, j as int, lo as int, hi as int),
                self.agrees(|r: int, c: int| if r < i { g(r, c) } else { f(r, c) }),
        {
            let x = self.get(i, j).negate();
            self.set(i, j, x);
        }
    }
}

/// `f` with entry `(r, c)` replaced by `x`.
pub open spec fn with_entry<T>(f: spec_fn(int, int) -> T, r: int, c: int, x: T) -> spec_fn(int, int) -> T {
    |i: int, j: int|
        if i == r && j == c {
            x
        } else {
            f(i, j)
        }
}

/// `f` with rows `lo..hi` of column `c` replaced by `x`.
pub open spec fn filled_column<T>(f: spec_fn(int, int) -> T, c: int, lo: int, hi: int, x: T) -> spec_fn(int, int) -> T {
    |i: int, j: int|
        if j == c && lo <= i < hi {
            x
        } else {
            f(i, j)
        }
}

/// `sum f[i][c1] * f[i][c2]` over rows `lo..hi`, added up from zero in
/// row order.
pub open spec fn column_dot<T: Real>(f: spec_fn(int, int) -> T, c1: int, c2: int, lo: int, hi: int) -> T
    decreases hi - lo,
{
    if hi <= lo {
        T::spec_zero()
    } else {
        column_dot(f, c1, c2, lo, hi - 1).spec_plus(f(hi - 1, c1).spec_times(f(hi - 1, c2)))
    }
}

/// `f` with `t * f[.., src]` added to rows `lo..hi` of column `dst`.
pub open spec fn added_column<T: Real>(f: spec_fn(int, int) -> T, dst: int, src: int, t: T, lo: int, hi: int) -> spec_fn(
    int,
    int,
) -> T {
    |i: int, j: int|
        if j == dst && lo <= i < hi {
            f(i, dst).spec_plus(t.spec_times(f(i, src)))
        } else {
            f(i, j)
        }
}

impl<T: Real> Matrix<T> {
    /// Replaces entry `(i, j)`, following a model of the entries.
    pub(crate) fn set_entry(&mut self, i: usize, j: usize, x: T, Ghost(f): Ghost<spec_fn(int, int) -> T>)
        requires
            i < old(self).nrows(),
            j < old(self).ncols(),
            old(self).agrees(f),
        ensures
            final(self).nrows() == old(self).nrows(),
            final(self).ncols() == old(self).ncols(),
            final(self).agrees(with_entry(f, i as int, j as int, x)),
    {
        self.set(i, j, x);
    }

    /// Sets rows `lo..hi` of column `c` to `x`.
    pub(crate) fn fill_column(&mut self, c: usize, lo: usize, hi: usize, x: T, Ghost(f): Ghost<spec_fn(int, int) -> T>)
        requires
            c < old(self).ncols(),
            lo <= hi <= old(self).nrows(),
            old(self).agrees(f),
        ensures
            final(self).nrows() == old(self).nrows(),
            final(self).ncols() == old(self).ncols(),
            final(self).agrees(filled_column(f, c as int, lo as int, hi as int, x)),
    {
        let ghost g = filled_column(f, c as int, lo as int, hi as int, x);
        for i in lo..hi
            invariant
                hi <= self.nrows(),
                self.nrows() == old(self).nrows(),
                self.ncols() == old(self).ncols(),
                c < self.ncols(),
                g == filled_column(f, c as int, lo as int, hi as int, x),
                self.agrees(|r: int, q: int| if r < i { g(r, q) } else { f(r, q) }),
        {
            self.set(i, c, x);
        }
    }

    /// `sum self[i][c1] * self[i][c2]` over rows `lo..hi`, from zero in row
    /// order.
    pub(crate) fn dot_columns(&self, c1: usize, c2: usize, lo: usize, hi: usize, Ghost(f): Ghost<spec_fn(int, int) -> T>) -> (r: T)
        requires
            c1 < self.ncols(),
            c2 < self.ncols(),
            lo <= hi <= self.nrows(),
            self.agrees(f),
        ensures
            r == column_dot(f, c1 as int, c2 as int, lo as int, hi as int),
    {
        let mut t = T::zero();
        for i in lo..hi
            invariant
                c1 < self.ncols(),
                c2 < self.ncols(),
                hi <= self.nrows(),
                self.agrees(f),
                t == column_dot(f, c1 as int, c2 as int, lo as int, i as int),
        {
            t = t.plus(self.get(i, c1).times(self.get(i, c2)));
        }
        t
    }

    /// Adds `t * self[.., src]` to rows `lo..hi` of column `dst`.
    pub(crate) fn add_scaled_column(
        &mut self,
        dst: usize,
        src: usize,
        t: T,
        lo: usize,
        hi: usize,
        Ghost(f): Ghost<spec_fn(int, int) -> T>,
    )
        requires
            dst < old(self).ncols(),
            src < old(self).ncols(),
            dst != src,
            lo <= hi <= old(self).nrows(),
            old(self).agrees(f),
        ensures
            final(self).nrows() == old(self).nrows(),
            final(self).ncols() == old(self).ncols(),
            final(self).agrees(added_column(f, dst as int, src as int, t, lo as int, hi as int)),
    {
        let ghost g = added_column(f, dst as int, src as int, t, lo as int, hi as int);
        for i in lo..hi
            invariant
                hi <= self.nrows(),
                self.nrows() == old(self).nrows(),
                self.ncols() == old(self).ncols(),
                dst < self.ncols(),
                src < self.ncols(),
                dst != src,
                g == added_column(f, dst as int, src as int, t, lo as int, hi as int),
                self.agrees(|r: int, q: int| if r < i { g(r, q) } else { f(r, q) }),
        {
            let x = self.get(i, dst).plus(t.times(self.get(i, src)));
            self.set(i, dst, x);
        }
    }
}

/// `f` with rows `lo..hi` of column `c` divided by `d`.
pub open spec fn divided_column<T: Real>(f: spec_fn(int, int) -> T, c: int, lo: int, hi: int, d: T) -> spec_fn(
    int,
    int,
) -> T {
    |i: int, j: int|
        if j == c && lo <= i < hi {
            f(i, c).spec_over(d)
        } else {
            f(i, j)
        }
}

impl<T: Real> Matrix<T> {
    /// Divides rows `lo..hi` of column `c` by `d`.
    pub(crate) fn divide_column(&mut self, c: usize, lo: usize, hi: usize, d: T, Ghost(f): Ghost<spec_fn(int, int) -> T>)
        requires
            c < old(self).ncols(),
            lo <= hi <= old(self).nrows(),
            old(self).agrees(f),
        ensures
            final(self).nrows() == old(self).nrows(),
            final(self).ncols() == old(self).ncols(),
            final(self).agrees(divided_column(f, c as int, lo as int, hi as int, d)),
    {
        let ghost g = divided_column(f, c as int, lo as int, hi as int, d);
        for i in lo..hi
            invariant
                hi <= self.nrows(),
                self.nrows() == old(self).nrows(),
                self.ncols() == old(self).ncols(),
                c < self.ncols(),
                g == divided_column(f, c as int, lo as int, hi as int, d),
                self.agrees(|r: int, q: int| if r < i { g(r, q) } else { f(r, q) }),
        {
            let x = self.get(i, c).over(d);
            self.set(i, c, x);
        }
    }
}

} // verus!
