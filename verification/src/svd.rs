use vstd::prelude::*;

use crate::matrix::{
    added_column, column_dot, divided_column, filled_column, lemma_transpose_diagonal, negated, rotation, swapped,
    with_entry, Matrix,
};
use crate::scalar::{halvings, hypot, hypot_of, pow2_neg, Real};

verus! {

/// Singular value decomposition of an m-by-n matrix A: an m-by-m matrix U,
/// an m-by-n matrix S that is zero off its diagonal, and an n-by-n matrix V,
/// computed by Golub-Kahan-Reinsch. The contracts state U, S and V as that
/// computation in the element type's arithmetic (`decomposition`); since
/// that arithmetic carries no laws, A = U*S*V' and the order of the singular
/// values are not among them.
pub struct SVD<T> {
    u: Matrix<T>,
    s: Matrix<T>,
    v: Matrix<T>,
}

/// The state of the Golub-Kahan-Reinsch iteration on an m-by-n matrix with
/// m >= n: the matrix being reduced, the accumulated transformations, the
/// diagonal `s` and super-diagonal `e` of the bidiagonal form, and scratch.
struct Work<T> {
    m: usize,
    n: usize,
    a: Matrix<T>,
    u: Matrix<T>,
    v: Matrix<T>,
    s: Vec<T>,
    e: Vec<T>,
    work: Vec<T>,
}

impl<T> Work<T> {
    spec fn ok(&self) -> bool {
        &&& self.n <= self.m
        &&& self.m * self.m <= usize::MAX
        &&& self.a.nrows() == self.m
        &&& self.a.ncols() == self.n
        &&& self.u.nrows() == self.m
        &&& self.u.ncols() == self.m
        &&& self.v.nrows() == self.n
        &&& self.v.ncols() == self.n
        &&& self.s@.len() == self.n
        &&& self.e@.len() == self.n
        &&& self.work@.len() == self.m
    }

    spec fn keeps(&self, other: &Self) -> bool {
        &&& other.ok()
        &&& other.m == self.m
        &&& other.n == self.n
    }
}

/// `hypot` folded over rows `lo..hi` of column `c`, from zero: the column's
/// 2-norm as `bidiagonalize` computes it.
pub open spec fn column_norm<T: Real>(f: spec_fn(int, int) -> T, c: int, lo: int, hi: int) -> T
    decreases hi - lo,
{
    if hi <= lo {
        T::spec_zero()
    } else {
        hypot_of(column_norm(f, c, lo, hi - 1), f(hi - 1, c))
    }
}

/// `hypot` folded over `e[lo..hi]`, from zero.
pub open spec fn seq_norm<T: Real>(e: Seq<T>, lo: int, hi: int) -> T
    decreases hi - lo,
{
    if hi <= lo {
        T::spec_zero()
    } else {
        hypot_of(seq_norm(e, lo, hi - 1), e[hi - 1])
    }
}

/// `e` with `e[lo..hi]` divided by `d`.
pub open spec fn divided_seq<T: Real>(e: Seq<T>, lo: int, hi: int, d: T) -> Seq<T> {
    Seq::new(e.len(), |i: int| if lo <= i < hi { e[i].spec_over(d) } else { e[i] })
}

/// `w` with `w[lo..hi]` replaced by `x`.
pub open spec fn filled_seq<T>(w: Seq<T>, lo: int, hi: int, x: T) -> Seq<T> {
    Seq::new(w.len(), |i: int| if lo <= i < hi { x } else { w[i] })
}

/// `f` with rows `lo..hi` of column `c` taken from column `src` of `g`.
pub open spec fn copied_column<T>(
    f: spec_fn(int, int) -> T,
    c: int,
    g: spec_fn(int, int) -> T,
    src: int,
    lo: int,
    hi: int,
) -> spec_fn(int, int) -> T {
    |i: int, j: int|
        if j == c && lo <= i < hi {
            g(i, src)
        } else {
            f(i, j)
        }
}

/// `f` with rows `lo..hi` of column `c` taken from `e`.
pub open spec fn column_from<T>(f: spec_fn(int, int) -> T, c: int, e: Seq<T>, lo: int, hi: int) -> spec_fn(
    int,
    int,
) -> T {
    |i: int, j: int|
        if j == c && lo <= i < hi {
            e[i]
        } else {
            f(i, j)
        }
}

/// `f` with `t * w[i]` added to rows `lo..hi` of column `c`.
pub open spec fn added_vector<T: Real>(f: spec_fn(int, int) -> T, c: int, w: Seq<T>, t: T, lo: int, hi: int) -> spec_fn(
    int,
    int,
) -> T {
    |i: int, j: int|
        if j == c && lo <= i < hi {
            f(i, c).spec_plus(t.spec_times(w[i]))
        } else {
            f(i, j)
        }
}

/// The k-th column transformation: s[k] gets the (negated, signed) norm
/// of rows `k..m` of column k, and the column is scaled into a Householder
/// vector.
pub open spec fn column_householder<T: Real>(a: spec_fn(int, int) -> T, s: Seq<T>, k: int, m: int) -> (
    spec_fn(int, int) -> T,
    Seq<T>,
) {
    let s1 = s.update(k, column_norm(a, k, k, m));
    if !s1[k].spec_is_zero() {
        let s2 = if a(k, k).spec_less(T::spec_zero()) {
            s1.update(k, s1[k].spec_negate())
        } else {
            s1
        };
        let a2 = divided_column(a, k, k, m, s2[k]);
        (with_entry(a2, k, k, a2(k, k).spec_plus(T::spec_one())), s2.update(k, s2[k].spec_negate()))
    } else {
        (a, s1.update(k, s1[k].spec_negate()))
    }
}

/// Columns `j..n`: applies the k-th column transformation (when `apply`)
/// and copies row k into `e`.
pub open spec fn applied_columns<T: Real>(
    a: spec_fn(int, int) -> T,
    e: Seq<T>,
    k: int,
    m: int,
    n: int,
    apply: bool,
    j: int,
) -> (spec_fn(int, int) -> T, Seq<T>)
    decreases n - j,
{
    if j >= n {
        (a, e)
    } else {
        let a1 = if apply {
            added_column(a, j, k, column_dot(a, k, j, k, m).spec_negate().spec_over(a(k, k)), k, m)
        } else {
            a
        };
        applied_columns(a1, e.update(j, a1(k, j)), k, m, n, apply, j + 1)
    }
}

/// The k-th row transformation on `e`: e[k] gets the (negated, signed) norm
/// of `e[k+1..n]`, which is scaled into a Householder vector.
pub open spec fn row_householder<T: Real>(e: Seq<T>, k: int, n: int) -> Seq<T> {
    let e1 = e.update(k, seq_norm(e, k + 1, n));
    let e4 = if !e1[k].spec_is_zero() {
        let e2 = if e1[k + 1].spec_less(T::spec_zero()) {
            e1.update(k, e1[k].spec_negate())
        } else {
            e1
        };
        let e3 = divided_seq(e2, k + 1, n, e2[k]);
        e3.update(k + 1, e3[k + 1].spec_plus(T::spec_one()))
    } else {
        e1
    };
    e4.update(k, e4[k].spec_negate())
}

/// `w[k+1..m]` with `e[j] * a[i][j]` added for each j in `j..n`.
pub open spec fn accumulated<T: Real>(
    w: Seq<T>,
    e: Seq<T>,
    a: spec_fn(int, int) -> T,
    k: int,
    m: int,
    n: int,
    j: int,
) -> Seq<T>
    decreases n - j,
{
    if j >= n {
        w
    } else {
        accumulated(
            Seq::new(
                w.len(),
                |i: int|
                    if k + 1 <= i < m {
                        w[i].spec_plus(e[j].spec_times(a(i, j)))
                    } else {
                        w[i]
                    },
            ),
            e,
            a,
            k,
            m,
            n,
            j + 1,
        )
    }
}

/// Columns `j..n` of `a` with `(-e[j] / e[k+1]) * w` added on rows `k+1..m`.
pub open spec fn updated_by_work<T: Real>(
    a: spec_fn(int, int) -> T,
    w: Seq<T>,
    e: Seq<T>,
    k: int,
    m: int,
    n: int,
    j: int,
) -> spec_fn(int, int) -> T
    decreases n - j,
{
    if j >= n {
        a
    } else {
        let t = e[j].spec_negate().spec_over(e[k + 1]);
        updated_by_work(added_vector(a, j, w, t, k + 1, m), w, e, k, m, n, j + 1)
    }
}

/// The state of the reduction: A, U, V, `s`, `e` and the scratch vector.
pub type Reduction<T> = (spec_fn(int, int) -> T, spec_fn(int, int) -> T, spec_fn(int, int) -> T, Seq<T>, Seq<T>, Seq<T>);

/// Step k of the reduction of an m-by-n matrix to bidiagonal form.
pub open spec fn reduction_step<T: Real>(r: Reduction<T>, k: int, m: int, n: int, nct: int, nrt: int) -> Reduction<T> {
    let (a, u, v, s, e, w) = r;
    let (a1, s1) = if k < nct {
        column_householder(a, s, k, m)
    } else {
        (a, s)
    };
    let (a2, e1) = applied_columns(a1, e, k, m, n, k < nct && !s1[k].spec_is_zero(), k + 1);
    let u1 = if k < nct {
        copied_column(u, k, a2, k, k, m)
    } else {
        u
    };
    if k < nrt {
        let e2 = row_householder(e1, k, n);
        if k + 1 < m && !e2[k].spec_is_zero() {
            let w1 = accumulated(filled_seq(w, k + 1, m, T::spec_zero()), e2, a2, k, m, n, k + 1);
            (updated_by_work(a2, w1, e2, k, m, n, k + 1), u1, column_from(v, k, e2, k + 1, n), s1, e2, w1)
        } else {
            (a2, u1, column_from(v, k, e2, k + 1, n), s1, e2, w)
        }
    } else {
        (a2, u1, v, s1, e1, w)
    }
}

/// Steps `k..kmax` of the reduction.
pub open spec fn reduction<T: Real>(r: Reduction<T>, k: int, kmax: int, m: int, n: int, nct: int, nrt: int) -> Reduction<
    T,
>
    decreases kmax - k,
{
    if k >= kmax {
        r
    } else {
        reduction(reduction_step(r, k, m, n, nct, nrt), k + 1, kmax, m, n, nct, nrt)
    }
}

/// The reduction state held by `w`, with `af`, `uf`, `vf` for its matrices.
spec fn holds<T>(w: &Work<T>, r: Reduction<T>) -> bool {
    &&& w.a.agrees(r.0)
    &&& w.u.agrees(r.1)
    &&& w.v.agrees(r.2)
    &&& w.s@ == r.3
    &&& w.e@ == r.4
    &&& w.work@ == r.5
}

/// Step k's column transformation (k < nct).
fn reduce_column<T: Real>(w: &mut Work<T>, k: usize, Ghost(r): Ghost<Reduction<T>>)
    requires
        old(w).ok(),
        k < old(w).n,
        holds(old(w), r),
    ensures
        old(w).keeps(final(w)),
        ({
            let (a1, s1) = column_householder(r.0, r.3, k as int, old(w).m as int);
            holds(final(w), (a1, r.1, r.2, s1, r.4, r.5))
        }),
{
    let m = w.m;
    let n = w.n;
    let ghost mut af = r.0;
    let ghost s0 = w.s@;
    w.s[k] = T::zero();
    for i in k..m
        invariant
            w.ok(),
            w.m == m,
            w.n == n,
            k < n,
            s0.len() == n,
            holds(w, (af, r.1, r.2, s0.update(k as int, column_norm(af, k as int, k as int, i as int)), r.4, r.5)),
            af == r.0,
    {
        let x = hypot(w.s[k], w.a.get(i, k));
        w.s[k] = x;
        proof {
            assert(w.s@ =~= s0.update(k as int, column_norm(af, k as int, k as int, i + 1)));
        }
    }
    if !w.s[k].is_zero() {
        if w.a.get(k, k).less(T::zero()) {
            let x = w.s[k].negate();
            w.s[k] = x;
        }
        let d = w.s[k];
        w.a.divide_column(k, k, m, d, Ghost(af));
        proof {
            af = divided_column(af, k as int, k as int, m as int, d);
        }
        let x = w.a.get(k, k).plus(T::one());
        w.a.set_entry(k, k, x, Ghost(af));
        proof {
            af = with_entry(af, k as int, k as int, x);
        }
    }
    let x = w.s[k].negate();
    w.s[k] = x;
}

/// Step k's application of the column transformation to columns `k+1..n`,
/// and row k of A copied into `e`.
fn apply_column<T: Real>(w: &mut Work<T>, k: usize, apply: bool, Ghost(r): Ghost<Reduction<T>>)
    requires
        old(w).ok(),
        k < old(w).n,
        holds(old(w), r),
    ensures
        old(w).keeps(final(w)),
        ({
            let (a1, e1) = applied_columns(r.0, r.4, k as int, old(w).m as int, old(w).n as int, apply, k + 1);
            holds(final(w), (a1, r.1, r.2, r.3, e1, r.5))
        }),
{
    let m = w.m;
    let n = w.n;
    let ghost mut af = r.0;
    let ghost target = applied_columns(r.0, r.4, k as int, m as int, n as int, apply, k + 1);
    for j in (k + 1)..n
        invariant
            w.ok(),
            w.m == m,
            w.n == n,
            k < n,
            holds(w, (af, r.1, r.2, r.3, w.e@, r.5)),
            applied_columns(af, w.e@, k as int, m as int, n as int, apply, j as int) == target,
    {
        if apply {
            let t = w.a.dot_columns(k, j, k, m, Ghost(af));
            let t = t.negate().over(w.a.get(k, k));
            w.a.add_scaled_column(j, k, t, k, m, Ghost(af));
            proof {
                af = added_column(af, j as int, k as int, t, k as int, m as int);
            }
        }
        let x = w.a.get(k, j);
        w.e[j] = x;
    }
}

/// Step k's Householder vector copied into column k of U.
fn copy_to_u<T: Real>(w: &mut Work<T>, k: usize, Ghost(r): Ghost<Reduction<T>>)
    requires
        old(w).ok(),
        k < old(w).n,
        holds(old(w), r),
    ensures
        old(w).keeps(final(w)),
        holds(final(w), (r.0, copied_column(r.1, k as int, r.0, k as int, k as int, old(w).m as int), r.2, r.3, r.4, r.5)),
{
    let m = w.m;
    let n = w.n;
    let ghost mut uf = r.1;
    let ghost target = copied_column(r.1, k as int, r.0, k as int, k as int, m as int);
    for i in k..m
        invariant
            w.ok(),
            w.m == m,
            w.n == n,
            k < n,
            holds(w, (r.0, uf, r.2, r.3, r.4, r.5)),
            uf == copied_column(r.1, k as int, r.0, k as int, k as int, i as int),
    {
        let x = w.a.get(i, k);
        w.u.set_entry(i, k, x, Ghost(uf));
        proof {
            uf = with_entry(uf, i as int, k as int, x);
            assert(uf =~= copied_column(r.1, k as int, r.0, k as int, k as int, i + 1));
        }
    }
}

/// Step k's row transformation on `e` (k < nrt).
fn reduce_row<T: Real>(w: &mut Work<T>, k: usize, Ghost(r): Ghost<Reduction<T>>)
    requires
        old(w).ok(),
        k + 1 < old(w).n,
        holds(old(w), r),
    ensures
        old(w).keeps(final(w)),
        holds(final(w), (r.0, r.1, r.2, r.3, row_householder(r.4, k as int, old(w).n as int), r.5)),
{
    let m = w.m;
    let n = w.n;
    let ghost e0 = w.e@;
    w.e[k] = T::zero();
    for i in (k + 1)..n
        invariant
            w.ok(),
            w.m == m,
            w.n == n,
            k + 1 < n,
            e0 == r.4,
            e0.len() == n,
            holds(w, (r.0, r.1, r.2, r.3, e0.update(k as int, seq_norm(e0, k + 1, i as int)), r.5)),
    {
        let x = hypot(w.e[k], w.e[i]);
        w.e[k] = x;
        proof {
            assert(w.e@ =~= e0.update(k as int, seq_norm(e0, k + 1, i + 1)));
        }
    }
    if !w.e[k].is_zero() {
        if w.e[k + 1].less(T::zero()) {
            let x = w.e[k].negate();
            w.e[k] = x;
        }
        let ghost e2 = w.e@;
        for i in (k + 1)..n
            invariant
                w.ok(),
                w.m == m,
                w.n == n,
                k + 1 < n,
                e2.len() == n,
                holds(w, (r.0, r.1, r.2, r.3, w.e@, r.5)),
                w.e@ == divided_seq(e2, k + 1, i as int, e2[k as int]),
        {
            let x = w.e[i].over(w.e[k]);
            w.e[i] = x;
            proof {
                assert(w.e@ =~= divided_seq(e2, k + 1, i + 1, e2[k as int]));
            }
        }
        proof {
            assert(w.e@ =~= divided_seq(e2, k + 1, n as int, e2[k as int]));
        }
        let x = w.e[k + 1].plus(T::one());
        w.e[k + 1] = x;
    }
    let x = w.e[k].negate();
    w.e[k] = x;
}

/// Step k's application of the row transformation to A (when k + 1 < m and
/// e[k] is not zero).
fn apply_row<T: Real>(w: &mut Work<T>, k: usize, Ghost(r): Ghost<Reduction<T>>)
    requires
        old(w).ok(),
        k + 1 < old(w).n,
        holds(old(w), r),
    ensures
        old(w).keeps(final(w)),
        ({
            let (m, n) = (old(w).m as int, old(w).n as int);
            let w1 = accumulated(filled_seq(r.5, k + 1, m, T::spec_zero()), r.4, r.0, k as int, m, n, k + 1);
            holds(final(w), (updated_by_work(r.0, w1, r.4, k as int, m, n, k + 1), r.1, r.2, r.3, r.4, w1))
        }),
{
    let m = w.m;
    let n = w.n;
    let ghost wk0 = w.work@;
    for i in (k + 1)..m
        invariant
            w.ok(),
            w.m == m,
            w.n == n,
            k + 1 < n,
            wk0 == r.5,
            holds(w, (r.0, r.1, r.2, r.3, r.4, w.work@)),
            w.work@ == filled_seq(wk0, k + 1, i as int, T::spec_zero()),
    {
        w.work[i] = T::zero();
        proof {
            assert(w.work@ =~= filled_seq(wk0, k + 1, i + 1, T::spec_zero()));
        }
    }
    let ghost w1 = filled_seq(wk0, k + 1, m as int, T::spec_zero());
    proof {
        assert(w.work@ =~= w1);
    }
    let ghost wtarget = accumulated(w1, r.4, r.0, k as int, m as int, n as int, k + 1);
    for j in (k + 1)..n
        invariant
            w.ok(),
            w.m == m,
            w.n == n,
            k + 1 < n,
            holds(w, (r.0, r.1, r.2, r.3, r.4, w.work@)),
            accumulated(w.work@, r.4, r.0, k as int, m as int, n as int, j as int) == wtarget,
    {
        let ghost wj = w.work@;
        for i in (k + 1)..m
            invariant
                w.ok(),
                w.m == m,
                w.n == n,
                k + 1 < n,
                j < n,
                wj.len() == m,
                holds(w, (r.0, r.1, r.2, r.3, r.4, w.work@)),
                w.work@ == Seq::new(
                    wj.len(),
                    |q: int|
                        if k + 1 <= q < i {
                            wj[q].spec_plus(r.4[j as int].spec_times(r.0(q, j as int)))
                        } else {
                            wj[q]
                        },
                ),
        {
            let x = w.work[i].plus(w.e[j].times(w.a.get(i, j)));
            w.work[i] = x;
            proof {
                assert(w.work@ =~= Seq::new(
                    wj.len(),
                    |q: int|
                        if k + 1 <= q < i + 1 {
                            wj[q].spec_plus(r.4[j as int].spec_times(r.0(q, j as int)))
                        } else {
                            wj[q]
                        },
                ));
            }
        }
        proof {
            assert(w.work@ =~= Seq::new(
                wj.len(),
                |q: int|
                    if k + 1 <= q < m {
                        wj[q].spec_plus(r.4[j as int].spec_times(r.0(q, j as int)))
                    } else {
                        wj[q]
                    },
            ));
        }
    }
    let ghost mut af = r.0;
    let ghost atarget = updated_by_work(r.0, wtarget, r.4, k as int, m as int, n as int, k + 1);
    for j in (k + 1)..n
        invariant
            w.ok(),
            w.m == m,
            w.n == n,
            k + 1 < n,
            w.work@ == wtarget,
            holds(w, (af, r.1, r.2, r.3, r.4, wtarget)),
            updated_by_work(af, wtarget, r.4, k as int, m as int, n as int, j as int) == atarget,
    {
        let t = w.e[j].negate().over(w.e[k + 1]);
        let ghost ai = af;
        for i in (k + 1)..m
            invariant
                w.ok(),
                w.m == m,
                w.n == n,
                k + 1 < n,
                j < n,
                w.work@ == wtarget,
                holds(w, (af, r.1, r.2, r.3, r.4, wtarget)),
                af == added_vector(ai, j as int, wtarget, t, k + 1, i as int),
        {
            let x = w.a.get(i, j).plus(t.times(w.work[i]));
            w.a.set_entry(i, j, x, Ghost(af));
            proof {
                af = with_entry(af, i as int, j as int, x);
                assert(af =~= added_vector(ai, j as int, wtarget, t, k + 1, i + 1));
            }
        }
    }
}

/// Step k's Householder vector copied from `e` into column k of V.
fn copy_to_v<T: Real>(w: &mut Work<T>, k: usize, Ghost(r): Ghost<Reduction<T>>)
    requires
        old(w).ok(),
        k < old(w).n,
        holds(old(w), r),
    ensures
        old(w).keeps(final(w)),
        holds(final(w), (r.0, r.1, column_from(r.2, k as int, r.4, k + 1, old(w).n as int), r.3, r.4, r.5)),
{
    let m = w.m;
    let n = w.n;
    let ghost mut vf = r.2;
    for i in (k + 1)..n
        invariant
            w.ok(),
            w.m == m,
            w.n == n,
            k < n,
            holds(w, (r.0, r.1, vf, r.3, r.4, r.5)),
            vf == column_from(r.2, k as int, r.4, k + 1, i as int),
    {
        let x = w.e[i];
        w.v.set_entry(i, k, x, Ghost(vf));
        proof {
            vf = with_entry(vf, i as int, k as int, x);
            assert(vf =~= column_from(r.2, k as int, r.4, k + 1, i + 1));
        }
    }
}

/// Reduces `a` to bidiagonal form: the diagonal goes to `s`, the
/// super-diagonal to `e`, and the Householder vectors to `u` and `v` for the
/// later back multiplication.
fn bidiagonalize<T: Real>(w: &mut Work<T>, nct: usize, nrt: usize, Ghost(r): Ghost<Reduction<T>>)
    requires
        old(w).ok(),
        holds(old(w), r),
        nct <= old(w).n,
        nct == 0 || nct < old(w).m,
        nrt == 0 || nrt < old(w).n,
    ensures
        old(w).keeps(final(w)),
        holds(
            final(w),
            reduction(
                r,
                0,
                if nct < nrt {
                    nrt as int
                } else {
                    nct as int
                },
                old(w).m as int,
                old(w).n as int,
                nct as int,
                nrt as int,
            ),
        ),
{
    let m = w.m;
    let n = w.n;
    let kmax = if nct < nrt {
        nrt
    } else {
        nct
    };
    let ghost target = reduction(r, 0, kmax as int, m as int, n as int, nct as int, nrt as int);
    let ghost mut st = r;
    for k in 0..kmax
        invariant
            w.ok(),
            w.m == m,
            w.n == n,
            nct <= n,
            nct == 0 || nct < m,
            nrt == 0 || nrt < n,
            kmax == if nct < nrt { nrt } else { nct },
            holds(w, st),
            reduction(st, k as int, kmax as int, m as int, n as int, nct as int, nrt as int) == target,
    {
        let ghost st0 = st;
        if k < nct {
            // The transformation for the k-th column; the k-th diagonal goes to s[k].
            reduce_column(w, k, Ghost(st));
            proof {
                let (a1, s1) = column_householder(st.0, st.3, k as int, m as int);
                st = (a1, st.1, st.2, s1, st.4, st.5);
            }
        }
        // Apply the transformation, and place the k-th row of A into e.
        let apply = k < nct && !w.s[k].is_zero();
        apply_column(w, k, apply, Ghost(st));
        proof {
            let (a2, e1) = applied_columns(st.0, st.4, k as int, m as int, n as int, apply, k + 1);
            st = (a2, st.1, st.2, st.3, e1, st.5);
        }
        if k < nct {
            // Place the transformation in U for subsequent back multiplication.
            copy_to_u(w, k, Ghost(st));
            proof {
                st = (st.0, copied_column(st.1, k as int, st.0, k as int, k as int, m as int), st.2, st.3, st.4, st.5);
            }
        }
        if k < nrt {
            // The k-th row transformation; the k-th super-diagonal goes to e[k].
            reduce_row(w, k, Ghost(st));
            proof {
                st = (st.0, st.1, st.2, st.3, row_householder(st.4, k as int, n as int), st.5);
            }
            if k + 1 < m && !w.e[k].is_zero() {
                // Apply the transformation.
                apply_row(w, k, Ghost(st));
                proof {
                    let w1 = accumulated(filled_seq(st.5, k + 1, m as int, T::spec_zero()), st.4, st.0, k as int, m as int, n as int, k + 1);
                    st = (updated_by_work(st.0, w1, st.4, k as int, m as int, n as int, k + 1), st.1, st.2, st.3, st.4, w1);
                }
            }
            // Place the transformation in V for subsequent back multiplication.
            copy_to_v(w, k, Ghost(st));
            proof {
                st = (st.0, st.1, column_from(st.2, k as int, st.4, k + 1, n as int), st.3, st.4, st.5);
            }
        }
        proof {
            assert(st == reduction_step(st0, k as int, m as int, n as int, nct as int, nrt as int));
        }
    }
}

/// Applies the reflection held in rows `lo..hi` of column `c` to columns
/// `j..cols`, one after the other: column j gets `t * column c` added, with
/// `t = -(column c . column j) / f[pivot][c]`.
pub open spec fn reflected<T: Real>(
    f: spec_fn(int, int) -> T,
    c: int,
    lo: int,
    hi: int,
    pivot: int,
    cols: int,
    j: int,
) -> spec_fn(int, int) -> T
    decreases cols - j,
{
    if j >= cols {
        f
    } else {
        let t = column_dot(f, c, j, lo, hi).spec_negate().spec_over(f(pivot, c));
        reflected(added_column(f, j, c, t, lo, hi), c, lo, hi, pivot, cols, j + 1)
    }
}

/// Columns `j..m` of an `m`-row U made unit columns: zero but for a one on
/// the diagonal.
pub open spec fn unit_columns<T: Real>(f: spec_fn(int, int) -> T, m: int, j: int) -> spec_fn(int, int) -> T
    decreases m - j,
{
    if j >= m {
        f
    } else {
        unit_columns(
            with_entry(filled_column(f, j, 0, m, T::spec_zero()), j, j, T::spec_one()),
            m,
            j + 1,
        )
    }
}

/// What `generate_u` makes of columns `kk - 1` down to 0 of an `m`-row U:
/// where s[k] is not zero, column k's reflection applied to the columns
/// after it, then column k negated on rows `k..m`, one added to its diagonal
/// entry and zeros above it; where s[k] is zero, a unit column.
pub open spec fn generated_u<T: Real>(f: spec_fn(int, int) -> T, s: Seq<T>, m: int, kk: int) -> spec_fn(
    int,
    int,
) -> T
    decreases kk,
{
    if kk <= 0 {
        f
    } else {
        let k = kk - 1;
        let f1 = if !s[k].spec_is_zero() {
            let r = negated(reflected(f, k, k, m, k, m, k + 1), k, k, m);
            filled_column(with_entry(r, k, k, T::spec_one().spec_plus(r(k, k))), k, 0, k, T::spec_zero())
        } else {
            with_entry(filled_column(f, k, 0, m, T::spec_zero()), k, k, T::spec_one())
        };
        generated_u(f1, s, m, kk - 1)
    }
}

/// Builds U from the Householder vectors that `bidiagonalize` left in its
/// first `nct` columns.
fn generate_u<T: Real>(w: &mut Work<T>, nct: usize, Ghost(r): Ghost<Reduction<T>>)
    requires
        old(w).ok(),
        holds(old(w), r),
        nct <= old(w).n,
    ensures
        old(w).keeps(final(w)),
        holds(final(w), after_generate_u(r, old(w).m as int, nct as int)),
        final(w).u.agrees(
            generated_u(
                unit_columns(r.1, old(w).m as int, nct as int),
                old(w).s@,
                old(w).m as int,
                nct as int,
            ),
        ),
        final(w).a == old(w).a,
        final(w).v == old(w).v,
        final(w).s == old(w).s,
        final(w).e == old(w).e,
        final(w).work == old(w).work,
{
    let m = w.m;
    let n = w.n;
    let ghost w0 = *w;
    let ghost mut uf = r.1;
    for j in nct..m
        invariant
            w.ok(),
            w.m == m,
            w.n == n,
            nct <= n,
            w.u.agrees(uf),
            unit_columns(uf, m as int, j as int) == unit_columns(r.1, m as int, nct as int),
            w.a == w0.a,
            w.v == w0.v,
            w.s == w0.s,
            w.e == w0.e,
            w.work == w0.work,
    {
        w.u.fill_column(j, 0, m, T::zero(), Ghost(uf));
        proof {
            uf = filled_column(uf, j as int, 0, m as int, T::spec_zero());
        }
        w.u.set_entry(j, j, T::one(), Ghost(uf));
        proof {
            uf = with_entry(uf, j as int, j as int, T::spec_one());
        }
    }
    let ghost target = generated_u(uf, w.s@, m as int, nct as int);
    let mut kk = nct;
    while kk > 0
        invariant
            w.ok(),
            w.m == m,
            w.n == n,
            kk <= nct,
            nct <= n,
            w.u.agrees(uf),
            generated_u(uf, w.s@, m as int, kk as int) == target,
            w.a == w0.a,
            w.v == w0.v,
            w.s == w0.s,
            w.e == w0.e,
            w.work == w0.work,
        decreases kk,
    {
        let k = kk - 1;
        if !w.s[k].is_zero() {
            let ghost r_target = reflected(uf, k as int, k as int, m as int, k as int, m as int, k + 1);
            for j in (k + 1)..m
                invariant
                    w.ok(),
                    w.m == m,
                    w.n == n,
                    k < n,
                    w.u.agrees(uf),
                    reflected(uf, k as int, k as int, m as int, k as int, m as int, j as int) == r_target,
                    w.a == w0.a,
                    w.v == w0.v,
                    w.s == w0.s,
                    w.e == w0.e,
                    w.work == w0.work,
            {
                let t = w.u.dot_columns(k, j, k, m, Ghost(uf));
                let t = t.negate().over(w.u.get(k, k));
                w.u.add_scaled_column(j, k, t, k, m, Ghost(uf));
                proof {
                    uf = added_column(uf, j as int, k as int, t, k as int, m as int);
                }
            }
            w.u.negate_column(k, k, m, Ghost(uf));
            proof {
                uf = negated(uf, k as int, k as int, m as int);
            }
            let x = T::one().plus(w.u.get(k, k));
            w.u.set_entry(k, k, x, Ghost(uf));
            proof {
                uf = with_entry(uf, k as int, k as int, x);
            }
            w.u.fill_column(k, 0, k, T::zero(), Ghost(uf));
            proof {
                uf = filled_column(uf, k as int, 0, k as int, T::spec_zero());
            }
        } else {
            w.u.fill_column(k, 0, m, T::zero(), Ghost(uf));
            proof {
                uf = filled_column(uf, k as int, 0, m as int, T::spec_zero());
            }
            w.u.set_entry(k, k, T::one(), Ghost(uf));
            proof {
                uf = with_entry(uf, k as int, k as int, T::spec_one());
            }
        }
        kk = kk - 1;
    }
}

/// What `generate_v` makes of columns `kk - 1` down to 0 of an `n`-row V:
/// where k < nrt and e[k] is not zero, column k's reflection applied to the
/// columns after it; then column k made a unit column.
pub open spec fn generated_v<T: Real>(f: spec_fn(int, int) -> T, e: Seq<T>, nrt: int, n: int, kk: int) -> spec_fn(
    int,
    int,
) -> T
    decreases kk,
{
    if kk <= 0 {
        f
    } else {
        let k = kk - 1;
        let f1 = if k < nrt && !e[k].spec_is_zero() {
            reflected(f, k, k + 1, n, k + 1, n, k + 1)
        } else {
            f
        };
        generated_v(
            with_entry(filled_column(f1, k, 0, n, T::spec_zero()), k, k, T::spec_one()),
            e,
            nrt,
            n,
            kk - 1,
        )
    }
}

/// Builds V from the Householder vectors that `bidiagonalize` left in its
/// first `nrt` columns.
fn generate_v<T: Real>(w: &mut Work<T>, nrt: usize, Ghost(r): Ghost<Reduction<T>>)
    requires
        old(w).ok(),
        holds(old(w), r),
        nrt == 0 || nrt < old(w).n,
    ensures
        old(w).keeps(final(w)),
        holds(final(w), after_generate_v(r, old(w).n as int, nrt as int)),
        final(w).v.agrees(
            generated_v(r.2, old(w).e@, nrt as int, old(w).n as int, old(w).n as int),
        ),
        final(w).a == old(w).a,
        final(w).u == old(w).u,
        final(w).s == old(w).s,
        final(w).e == old(w).e,
        final(w).work == old(w).work,
{
    let m = w.m;
    let n = w.n;
    let ghost w0 = *w;
    let ghost mut vf = r.2;
    let ghost target = generated_v(vf, w.e@, nrt as int, n as int, n as int);
    let mut kk = n;
    while kk > 0
        invariant
            w.ok(),
            w.m == m,
            w.n == n,
            kk <= n,
            nrt == 0 || nrt < n,
            w.v.agrees(vf),
            generated_v(vf, w.e@, nrt as int, n as int, kk as int) == target,
            w.a == w0.a,
            w.u == w0.u,
            w.s == w0.s,
            w.e == w0.e,
            w.work == w0.work,
        decreases kk,
    {
        let k = kk - 1;
        if k < nrt && !w.e[k].is_zero() {
            let ghost r_target = reflected(vf, k as int, k + 1, n as int, k + 1, n as int, k + 1);
            for j in (k + 1)..n
                invariant
                    w.ok(),
                    w.m == m,
                    w.n == n,
                    k < nrt,
                    nrt < n,
                    w.v.agrees(vf),
                    reflected(vf, k as int, k + 1, n as int, k + 1, n as int, j as int) == r_target,
                    w.a == w0.a,
                    w.u == w0.u,
                    w.s == w0.s,
                    w.e == w0.e,
                    w.work == w0.work,
            {
                let t = w.v.dot_columns(k, j, k + 1, n, Ghost(vf));
                let t = t.negate().over(w.v.get(k + 1, k));
                w.v.add_scaled_column(j, k, t, k + 1, n, Ghost(vf));
                proof {
                    vf = added_column(vf, j as int, k as int, t, k + 1, n as int);
                }
            }
        }
        w.v.fill_column(k, 0, n, T::zero(), Ghost(vf));
        proof {
            vf = filled_column(vf, k as int, 0, n as int, T::spec_zero());
        }
        w.v.set_entry(k, k, T::one(), Ghost(vf));
        proof {
            vf = with_entry(vf, k as int, k as int, T::spec_one());
        }
        kk = kk - 1;
    }
}

/// What one pass of the main iteration does to the trailing block of order `p`.
pub enum Step {
    /// s[p-1] and e[k-1] are negligible: deflate s[p-1].
    Deflate,
    /// s[k-1] is negligible: split at it.
    Split,
    /// e[k-1] is negligible and s[k], ..., s[p-1] are not: one QR step.
    Qr,
    /// e[p-2] is negligible: s[p-1] has converged.
    Converged,
}

/// e[k] is negligible beside s[k] and s[k+1].
pub open spec fn e_negligible<T: Real>(s: Seq<T>, e: Seq<T>, k: int, eps: T, tiny: T) -> bool {
    e[k].spec_abs().spec_less_eq(tiny.spec_plus(eps.spec_times(s[k].spec_abs().spec_plus(s[k + 1].spec_abs()))))
}

/// The largest `kk` in `1..=top` with e[kk-1] negligible, or 0.
pub open spec fn e_scan<T: Real>(s: Seq<T>, e: Seq<T>, eps: T, tiny: T, top: int) -> int
    decreases top,
{
    if top <= 0 {
        0
    } else if e_negligible(s, e, top - 1, eps, tiny) {
        top
    } else {
        e_scan(s, e, eps, tiny, top - 1)
    }
}

/// s[ks] is negligible beside its neighbours on the super-diagonal within
/// the block that starts after index `kk - 1` and ends before `p`.
pub open spec fn s_negligible<T: Real>(s: Seq<T>, e: Seq<T>, ks: int, kk: int, p: int, eps: T, tiny: T) -> bool {
    let t1 = if ks != p {
        e[ks].spec_abs()
    } else {
        T::spec_zero()
    };
    let t2 = if ks != kk {
        e[ks - 1].spec_abs()
    } else {
        T::spec_zero()
    };
    s[ks].spec_abs().spec_less_eq(tiny.spec_plus(eps.spec_times(t1.spec_plus(t2))))
}

/// The largest `ks1` in `kk+1..=top` with s[ks1-1] negligible, or `kk`.
pub open spec fn s_scan<T: Real>(s: Seq<T>, e: Seq<T>, kk: int, p: int, eps: T, tiny: T, top: int) -> int
    decreases top - kk,
{
    if top <= kk {
        kk
    } else if s_negligible(s, e, top - 1, kk, p, eps, tiny) {
        top
    } else {
        s_scan(s, e, kk, p, eps, tiny, top - 1)
    }
}

/// What `classify` decides for the block of order `p`: the step, the index
/// it starts from, and `s` and `e` with the negligible entry found set to zero.
pub open spec fn classified<T: Real>(s: Seq<T>, e: Seq<T>, p: int, eps: T, tiny: T) -> (Step, int, Seq<T>, Seq<T>) {
    let kk = e_scan(s, e, eps, tiny, p - 1);
    let e1 = if kk > 0 {
        e.update(kk - 1, T::spec_zero())
    } else {
        e
    };
    if kk == p - 1 {
        (Step::Converged, p - 1, s, e1)
    } else {
        let ks1 = s_scan(s, e1, kk, p, eps, tiny, p);
        let s1 = if ks1 > kk {
            s.update(ks1 - 1, T::spec_zero())
        } else {
            s
        };
        if ks1 == kk {
            (Step::Qr, kk, s1, e1)
        } else if ks1 == p {
            (Step::Deflate, kk, s1, e1)
        } else {
            (Step::Split, ks1, s1, e1)
        }
    }
}

/// Inspects `s` and `e` for negligible elements (zeroing the one found) and
/// says which step comes next, and from which index `k` it starts.
fn classify<T: Real>(w: &mut Work<T>, p: usize, eps: T, tiny: T, Ghost(r): Ghost<Reduction<T>>) -> (res: (Step, usize))
    requires
        old(w).ok(),
        holds(old(w), r),
        1 <= p <= old(w).n,
    ensures
        old(w).keeps(final(w)),
        ({
            let c = classified(r.3, r.4, p as int, eps, tiny);
            &&& res.0 == c.0
            &&& res.1 == c.1
            &&& holds(final(w), (r.0, r.1, r.2, c.2, c.3, r.5))
        }),
        res.0 is Converged ==> res.1 == p - 1,
        res.0 is Deflate ==> 2 <= p && res.1 <= p - 2,
        res.0 is Qr ==> 2 <= p && res.1 <= p - 2,
        res.0 is Split ==> 1 <= res.1 <= p - 1,
{
    let m = w.m;
    let n = w.n;
    // k = kk - 1 runs from p - 2 down to -1.
    let mut kk: usize = p - 1;
    while kk > 0
        invariant_except_break
            w.e@ == r.4,
        invariant
            w.ok(),
            w.m == m,
            w.n == n,
            1 <= p <= n,
            kk <= p - 1,
            holds(w, (r.0, r.1, r.2, r.3, w.e@, r.5)),
            e_scan(r.3, r.4, eps, tiny, kk as int) == e_scan(r.3, r.4, eps, tiny, p - 1),
        ensures
            w.ok(),
            w.m == m,
            w.n == n,
            kk <= p - 1,
            holds(w, (r.0, r.1, r.2, r.3, w.e@, r.5)),
            kk == e_scan(r.3, r.4, eps, tiny, p - 1),
            w.e@ == if kk > 0 {
                r.4.update(kk - 1, T::spec_zero())
            } else {
                r.4
            },
        decreases kk,
    {
        let k = kk - 1;
        let bound = tiny.plus(eps.times(w.s[k].abs().plus(w.s[k + 1].abs())));
        if w.e[k].abs().less_eq(bound) {
            w.e[k] = T::zero();
            break;
        }
        kk = kk - 1;
    }
    let ghost e1 = w.e@;
    if kk == p - 1 {
        return (Step::Converged, p - 1);
    }
    // ks = ks1 - 1 runs from p - 1 down to k = kk - 1.
    let mut ks1: usize = p;
    while ks1 > kk
        invariant_except_break
            w.s@ == r.3,
        invariant
            w.ok(),
            w.m == m,
            w.n == n,
            1 <= p <= n,
            kk < p - 1,
            kk <= ks1 <= p,
            holds(w, (r.0, r.1, r.2, w.s@, e1, r.5)),
            s_scan(r.3, e1, kk as int, p as int, eps, tiny, ks1 as int) == s_scan(
                r.3,
                e1,
                kk as int,
                p as int,
                eps,
                tiny,
                p as int,
            ),
        ensures
            w.ok(),
            w.m == m,
            w.n == n,
            kk <= ks1 <= p,
            holds(w, (r.0, r.1, r.2, w.s@, e1, r.5)),
            ks1 == s_scan(r.3, e1, kk as int, p as int, eps, tiny, p as int),
            w.s@ == if ks1 > kk {
                r.3.update(ks1 - 1, T::spec_zero())
            } else {
                r.3
            },
        decreases ks1,
    {
        let ks = ks1 - 1;
        let t1 = if ks != p {
            w.e[ks].abs()
        } else {
            T::zero()
        };
        let t2 = if ks != kk {
            w.e[ks - 1].abs()
        } else {
            T::zero()
        };
        let t = t1.plus(t2);
        if w.s[ks].abs().less_eq(tiny.plus(eps.times(t))) {
            w.s[ks] = T::zero();
            break;
        }
        ks1 = ks1 - 1;
    }
    if ks1 == kk {
        (Step::Qr, kk)
    } else if ks1 == p {
        (Step::Deflate, kk)
    } else {
        (Step::Split, ks1)
    }
}

/// The entries of `a`, as a function of row and column.
pub open spec fn entries_of<T>(a: Matrix<T>) -> spec_fn(int, int) -> T {
    |i: int, j: int| a.at(i, j)
}

/// What `deflate` leaves in `s`, `e` and V: rotations from the right for
/// j = j0, j0 - 1, ..., k, each chasing `f` up the super-diagonal.
pub open spec fn deflation<T: Real>(
    s: Seq<T>,
    e: Seq<T>,
    v: spec_fn(int, int) -> T,
    f: T,
    k: int,
    p: int,
    j0: int,
) -> (Seq<T>, Seq<T>, spec_fn(int, int) -> T)
    decreases j0 + 1 - k,
{
    if j0 < k {
        (s, e, v)
    } else {
        let t = hypot_of(s[j0], f);
        let cs = s[j0].spec_over(t);
        let sn = f.spec_over(t);
        let f2 = if j0 != k {
            sn.spec_negate().spec_times(e[j0 - 1])
        } else {
            f
        };
        let e2 = if j0 != k {
            e.update(j0 - 1, cs.spec_times(e[j0 - 1]))
        } else {
            e
        };
        deflation(s.update(j0, t), e2, rotation(v, j0, p - 1, cs, sn), f2, k, p, j0 - 1)
    }
}

/// Deflates a negligible s[p-1] by rotations from the right.
fn deflate<T: Real>(w: &mut Work<T>, p: usize, k: usize, Ghost(r): Ghost<Reduction<T>>)
    requires
        old(w).ok(),
        holds(old(w), r),
        2 <= p <= old(w).n,
        k <= p - 2,
    ensures
        old(w).keeps(final(w)),
        holds(final(w), deflated(r, p as int, k as int)),
        ({
            let r = deflation(
                old(w).s@,
                old(w).e@.update(p - 2, T::spec_zero()),
                r.2,
                old(w).e@[p - 2],
                k as int,
                p as int,
                p - 2,
            );
            &&& final(w).s@ == r.0
            &&& final(w).e@ == r.1
            &&& final(w).v.agrees(r.2)
        }),
        final(w).a == old(w).a,
        final(w).u == old(w).u,
        final(w).work == old(w).work,
{
    let m = w.m;
    let n = w.n;
    let ghost target = deflation(
        w.s@,
        w.e@.update(p - 2, T::spec_zero()),
        r.2,
        w.e@[p - 2],
        k as int,
        p as int,
        p - 2,
    );
    let ghost a0 = w.a;
    let ghost u0 = w.u;
    let ghost work0 = w.work;
    let ghost mut vf = r.2;
    let mut f = w.e[p - 2];
    w.e[p - 2] = T::zero();
    // j = jj - 1 runs from p - 2 down to k.
    let mut jj: usize = p - 1;
    while jj > k
        invariant
            w.ok(),
            w.m == m,
            w.n == n,
            2 <= p <= n,
            k <= p - 2,
            k <= jj <= p - 1,
            w.v.agrees(vf),
            deflation(w.s@, w.e@, vf, f, k as int, p as int, jj - 1) == target,
            w.a == a0,
            w.u == u0,
            w.work == work0,
        decreases jj,
    {
        let j = jj - 1;
        let t = hypot(w.s[j], f);
        let cs = w.s[j].over(t);
        let sn = f.over(t);
        w.s[j] = t;
        if j != k {
            f = sn.negate().times(w.e[j - 1]);
            let x = cs.times(w.e[j - 1]);
            w.e[j - 1] = x;
        }
        w.v.rotate_columns(j, p - 1, cs, sn, Ghost(vf));
        proof {
            vf = rotation(vf, j as int, p - 1, cs, sn);
        }
        jj = jj - 1;
    }
}

/// What `split` leaves in `s`, `e` and U: rotations from the left for
/// j = j0, ..., p - 1, each chasing `f` down the super-diagonal.
pub open spec fn splitting<T: Real>(
    s: Seq<T>,
    e: Seq<T>,
    u: spec_fn(int, int) -> T,
    f: T,
    k: int,
    p: int,
    j0: int,
) -> (Seq<T>, Seq<T>, spec_fn(int, int) -> T)
    decreases p - j0,
{
    if j0 >= p {
        (s, e, u)
    } else {
        let t = hypot_of(s[j0], f);
        let cs = s[j0].spec_over(t);
        let sn = f.spec_over(t);
        splitting(
            s.update(j0, t),
            e.update(j0, cs.spec_times(e[j0])),
            rotation(u, j0, k - 1, cs, sn),
            sn.spec_negate().spec_times(e[j0]),
            k,
            p,
            j0 + 1,
        )
    }
}

/// Splits at a negligible s[k-1] by rotations from the left.
fn split<T: Real>(w: &mut Work<T>, p: usize, k: usize, Ghost(r): Ghost<Reduction<T>>)
    requires
        old(w).ok(),
        holds(old(w), r),
        p <= old(w).n,
        1 <= k <= p - 1,
    ensures
        old(w).keeps(final(w)),
        holds(final(w), after_split(r, p as int, k as int)),
        ({
            let r = splitting(
                old(w).s@,
                old(w).e@.update(k - 1, T::spec_zero()),
                r.1,
                old(w).e@[k - 1],
                k as int,
                p as int,
                k as int,
            );
            &&& final(w).s@ == r.0
            &&& final(w).e@ == r.1
            &&& final(w).u.agrees(r.2)
        }),
        final(w).a == old(w).a,
        final(w).v == old(w).v,
        final(w).work == old(w).work,
{
    let m = w.m;
    let n = w.n;
    let ghost target = splitting(
        w.s@,
        w.e@.update(k - 1, T::spec_zero()),
        r.1,
        w.e@[k - 1],
        k as int,
        p as int,
        k as int,
    );
    let ghost a0 = w.a;
    let ghost v0 = w.v;
    let ghost work0 = w.work;
    let ghost mut uf = r.1;
    let mut f = w.e[k - 1];
    w.e[k - 1] = T::zero();
    for j in k..p
        invariant
            w.ok(),
            w.m == m,
            w.n == n,
            p <= n,
            1 <= k <= p - 1,
            w.u.agrees(uf),
            splitting(w.s@, w.e@, uf, f, k as int, p as int, j as int) == target,
            w.a == a0,
            w.v == v0,
            w.work == work0,
    {
        let t = hypot(w.s[j], f);
        let cs = w.s[j].over(t);
        let sn = f.over(t);
        w.s[j] = t;
        f = sn.negate().times(w.e[j]);
        let x = cs.times(w.e[j]);
        w.e[j] = x;
        w.u.rotate_columns(j, k - 1, cs, sn, Ghost(uf));
        proof {
            uf = rotation(uf, j as int, k - 1, cs, sn);
        }
    }
}

/// The start of a QR step on s[k..p], e[k..p-1]: the shift from the
/// trailing 2-by-2 block (scaled to avoid overflow), and from it the first
/// rotation's `(f, g)`.
pub open spec fn qr_start<T: Real>(s: Seq<T>, e: Seq<T>, k: int, p: int) -> (T, T) {
    let scale = s[p - 1].spec_abs().spec_larger(s[p - 2].spec_abs()).spec_larger(
        e[p - 2].spec_abs(),
    ).spec_larger(s[k].spec_abs()).spec_larger(e[k].spec_abs());
    let sp = s[p - 1].spec_over(scale);
    let spm1 = s[p - 2].spec_over(scale);
    let epm1 = e[p - 2].spec_over(scale);
    let sk = s[k].spec_over(scale);
    let ek = e[k].spec_over(scale);
    let two = T::spec_one().spec_plus(T::spec_one());
    let b = spm1.spec_plus(sp).spec_times(spm1.spec_minus(sp)).spec_plus(epm1.spec_times(epm1)).spec_over(
        two,
    );
    let c = sp.spec_times(epm1).spec_times(sp.spec_times(epm1));
    let shift = if !b.spec_is_zero() || !c.spec_is_zero() {
        let r0 = b.spec_times(b).spec_plus(c).spec_sqrt();
        let r1 = if b.spec_less(T::spec_zero()) {
            r0.spec_negate()
        } else {
            r0
        };
        c.spec_over(b.spec_plus(r1))
    } else {
        T::spec_zero()
    };
    (sk.spec_plus(sp).spec_times(sk.spec_minus(sp)).spec_plus(shift), sk.spec_times(ek))
}

/// The chase of a QR step from j = j0 to p - 2: at each j a rotation from
/// the right (applied to V) and one from the left (applied to U while
/// j < m - 1). Gives `s`, `e`, U, V and the last `f`.
pub open spec fn qr_chase<T: Real>(
    s: Seq<T>,
    e: Seq<T>,
    u: spec_fn(int, int) -> T,
    v: spec_fn(int, int) -> T,
    f: T,
    g: T,
    k: int,
    p: int,
    m: int,
    j: int,
) -> (Seq<T>, Seq<T>, spec_fn(int, int) -> T, spec_fn(int, int) -> T, T)
    decreases p - 1 - j,
{
    if j >= p - 1 {
        (s, e, u, v, f)
    } else {
        let t = hypot_of(f, g);
        let cs = f.spec_over(t);
        let sn = g.spec_over(t);
        let e1 = if j != k {
            e.update(j - 1, t)
        } else {
            e
        };
        let f1 = cs.spec_times(s[j]).spec_plus(sn.spec_times(e1[j]));
        let e2 = e1.update(j, cs.spec_times(e1[j]).spec_minus(sn.spec_times(s[j])));
        let g1 = sn.spec_times(s[j + 1]);
        let s1 = s.update(j + 1, cs.spec_times(s[j + 1]));
        let v1 = rotation(v, j, j + 1, cs, sn);
        let t2 = hypot_of(f1, g1);
        let cs2 = f1.spec_over(t2);
        let sn2 = g1.spec_over(t2);
        let s2 = s1.update(j, t2);
        let f2 = cs2.spec_times(e2[j]).spec_plus(sn2.spec_times(s2[j + 1]));
        let s3 = s2.update(
            j + 1,
            sn2.spec_negate().spec_times(e2[j]).spec_plus(cs2.spec_times(s2[j + 1])),
        );
        let g2 = sn2.spec_times(e2[j + 1]);
        let e3 = e2.update(j + 1, cs2.spec_times(e2[j + 1]));
        let u1 = if j < m - 1 {
            rotation(u, j, j + 1, cs2, sn2)
        } else {
            u
        };
        qr_chase(s3, e3, u1, v1, f2, g2, k, p, m, j + 1)
    }
}

/// One implicitly shifted QR step on the block s[k..p], e[k..p-1].
fn qr_step<T: Real>(w: &mut Work<T>, p: usize, k: usize, Ghost(r): Ghost<Reduction<T>>)
    requires
        old(w).ok(),
        holds(old(w), r),
        2 <= p <= old(w).n,
        k <= p - 2,
    ensures
        old(w).keeps(final(w)),
        holds(final(w), after_qr(r, p as int, k as int, old(w).m as int)),
        ({
            let (f, g) = qr_start(old(w).s@, old(w).e@, k as int, p as int);
            let r = qr_chase(
                old(w).s@,
                old(w).e@,
                r.1,
                r.2,
                f,
                g,
                k as int,
                p as int,
                old(w).m as int,
                k as int,
            );
            &&& final(w).s@ == r.0
            &&& final(w).e@ == r.1.update(p - 2, r.4)
            &&& final(w).u.agrees(r.2)
            &&& final(w).v.agrees(r.3)
        }),
        final(w).a == old(w).a,
        final(w).work == old(w).work,
{
    let m = w.m;
    let n = w.n;
    let ghost start = qr_start(w.s@, w.e@, k as int, p as int);
    let ghost target = qr_chase(
        w.s@,
        w.e@,
        r.1,
        r.2,
        start.0,
        start.1,
        k as int,
        p as int,
        m as int,
        k as int,
    );
    let ghost a0 = w.a;
    let ghost work0 = w.work;
    let ghost mut uf = r.1;
    let ghost mut vf = r.2;
    // The shift.
    let scale = w.s[p - 1].abs().larger(w.s[p - 2].abs()).larger(w.e[p - 2].abs()).larger(
        w.s[k].abs(),
    ).larger(w.e[k].abs());
    let sp = w.s[p - 1].over(scale);
    let spm1 = w.s[p - 2].over(scale);
    let epm1 = w.e[p - 2].over(scale);
    let sk = w.s[k].over(scale);
    let ek = w.e[k].over(scale);
    let two = T::one().plus(T::one());
    let b = spm1.plus(sp).times(spm1.minus(sp)).plus(epm1.times(epm1)).over(two);
    let c = sp.times(epm1).times(sp.times(epm1));
    let mut shift = T::zero();
    if !b.is_zero() || !c.is_zero() {
        shift = b.times(b).plus(c).sqrt();
        if b.less(T::zero()) {
            shift = shift.negate();
        }
        shift = c.over(b.plus(shift));
    }
    let mut f = sk.plus(sp).times(sk.minus(sp)).plus(shift);
    let mut g = sk.times(ek);
    // Chase zeros.
    for j in k..(p - 1)
        invariant
            w.ok(),
            w.m == m,
            w.n == n,
            2 <= p <= n,
            k <= p - 2,
            w.u.agrees(uf),
            w.v.agrees(vf),
            qr_chase(w.s@, w.e@, uf, vf, f, g, k as int, p as int, m as int, j as int) == target,
            w.a == a0,
            w.work == work0,
    {
        let t = hypot(f, g);
        let cs = f.over(t);
        let sn = g.over(t);
        if j != k {
            w.e[j - 1] = t;
        }
        f = cs.times(w.s[j]).plus(sn.times(w.e[j]));
        let x = cs.times(w.e[j]).minus(sn.times(w.s[j]));
        w.e[j] = x;
        g = sn.times(w.s[j + 1]);
        let x = cs.times(w.s[j + 1]);
        w.s[j + 1] = x;
        w.v.rotate_columns(j, j + 1, cs, sn, Ghost(vf));
        proof {
            vf = rotation(vf, j as int, j + 1, cs, sn);
        }
        let t = hypot(f, g);
        let cs = f.over(t);
        let sn = g.over(t);
        w.s[j] = t;
        f = cs.times(w.e[j]).plus(sn.times(w.s[j + 1]));
        let x = sn.negate().times(w.e[j]).plus(cs.times(w.s[j + 1]));
        w.s[j + 1] = x;
        g = sn.times(w.e[j + 1]);
        let x = cs.times(w.e[j + 1]);
        w.e[j + 1] = x;
        if j < m - 1 {
            w.u.rotate_columns(j, j + 1, cs, sn, Ghost(uf));
            proof {
                uf = rotation(uf, j as int, j + 1, cs, sn);
            }
        }
    }
    w.e[p - 2] = f;
}

/// What `converge` makes of s[k] and column k of V (`n` rows): a
/// non-positive s[k] becomes its negation (zero stays zero), and V's column k
/// is negated with it.
pub open spec fn made_positive<T: Real>(s: Seq<T>, v: spec_fn(int, int) -> T, k: int, n: int) -> (Seq<T>, spec_fn(int, int) -> T) {
    if s[k].spec_less_eq(T::spec_zero()) {
        let x = if s[k].spec_less(T::spec_zero()) {
            s[k].spec_negate()
        } else {
            T::spec_zero()
        };
        (s.update(k, x), negated(v, k, 0, n))
    } else {
        (s, v)
    }
}

/// What `converge` does after that: moves s[k] down while the next value is
/// not at most it, exchanging the matching columns of U (while k < m - 1)
/// and V (while k < n - 1).
pub open spec fn ordering<T: Real>(
    s: Seq<T>,
    u: spec_fn(int, int) -> T,
    v: spec_fn(int, int) -> T,
    k: int,
    pp: int,
    m: int,
    n: int,
) -> (Seq<T>, spec_fn(int, int) -> T, spec_fn(int, int) -> T)
    decreases pp - k,
{
    if k >= pp || s[k + 1].spec_less_eq(s[k]) {
        (s, u, v)
    } else {
        ordering(
            s.update(k, s[k + 1]).update(k + 1, s[k]),
            if k < m - 1 {
                swapped(u, k, k + 1)
            } else {
                u
            },
            if k < n - 1 {
                swapped(v, k, k + 1)
            } else {
                v
            },
            k + 1,
            pp,
            m,
            n,
        )
    }
}

/// s[p-1] has converged: makes it non-negative and moves it down past the
/// larger values that follow it, exchanging columns of U and V alike.
fn converge<T: Real>(w: &mut Work<T>, k: usize, Ghost(r): Ghost<Reduction<T>>)
    requires
        old(w).ok(),
        holds(old(w), r),
        k < old(w).n,
    ensures
        old(w).keeps(final(w)),
        holds(final(w), after_converge(r, k as int, old(w).m as int, old(w).n as int)),
        ({
            let pos = made_positive(old(w).s@, r.2, k as int, old(w).n as int);
            let r = ordering(
                pos.0,
                r.1,
                pos.1,
                k as int,
                old(w).n - 1,
                old(w).m as int,
                old(w).n as int,
            );
            &&& final(w).s@ == r.0
            &&& final(w).u.agrees(r.1)
            &&& final(w).v.agrees(r.2)
        }),
        final(w).a == old(w).a,
        final(w).e == old(w).e,
        final(w).work == old(w).work,
{
    let m = w.m;
    let n = w.n;
    let pp = n - 1;
    let ghost pos = made_positive(w.s@, r.2, k as int, n as int);
    let ghost target = ordering(pos.0, r.1, pos.1, k as int, pp as int, m as int, n as int);
    let ghost a0 = w.a;
    let ghost e0 = w.e;
    let ghost work0 = w.work;
    let ghost mut uf = r.1;
    let ghost mut vf = r.2;
    // Make the singular value positive.
    if w.s[k].less_eq(T::zero()) {
        let x = if w.s[k].less(T::zero()) {
            w.s[k].negate()
        } else {
            T::zero()
        };
        w.s[k] = x;
        w.v.negate_column(k, 0, pp + 1, Ghost(vf));
        proof {
            vf = negated(vf, k as int, 0, n as int);
        }
    }
    // Order the singular values.
    let mut k = k;
    while k < pp
        invariant
            w.ok(),
            w.m == m,
            w.n == n,
            pp + 1 == n,
            k < n,
            w.u.agrees(uf),
            w.v.agrees(vf),
            ordering(w.s@, uf, vf, k as int, pp as int, m as int, n as int) == target,
            w.a == a0,
            w.e == e0,
            w.work == work0,
        ensures
            w.ok(),
            w.m == m,
            w.n == n,
            w.u.agrees(uf),
            w.v.agrees(vf),
            ordering(w.s@, uf, vf, k as int, pp as int, m as int, n as int) == target,
            k >= pp || w.s@[k + 1].spec_less_eq(w.s@[k as int]),
            w.a == a0,
            w.e == e0,
            w.work == work0,
        decreases pp - k,
    {
        if w.s[k + 1].less_eq(w.s[k]) {
            break;
        }
        let t = w.s[k];
        let x = w.s[k + 1];
        w.s[k] = x;
        w.s[k + 1] = t;
        if k < n - 1 {
            w.v.swap_columns(k, k + 1, Ghost(vf));
            proof {
                vf = swapped(vf, k as int, k + 1);
            }
        }
        if k < m - 1 {
            w.u.swap_columns(k, k + 1, Ghost(uf));
            proof {
                uf = swapped(uf, k as int, k + 1);
            }
        }
        k = k + 1;
    }
}

/// The state after `deflate`.
pub open spec fn deflated<T: Real>(r: Reduction<T>, p: int, k: int) -> Reduction<T> {
    let d = deflation(r.3, r.4.update(p - 2, T::spec_zero()), r.2, r.4[p - 2], k, p, p - 2);
    (r.0, r.1, d.2, d.0, d.1, r.5)
}

/// The state after `split`.
pub open spec fn after_split<T: Real>(r: Reduction<T>, p: int, k: int) -> Reduction<T> {
    let d = splitting(r.3, r.4.update(k - 1, T::spec_zero()), r.1, r.4[k - 1], k, p, k);
    (r.0, d.2, r.2, d.0, d.1, r.5)
}

/// The state after `qr_step`.
pub open spec fn after_qr<T: Real>(r: Reduction<T>, p: int, k: int, m: int) -> Reduction<T> {
    let (f, g) = qr_start(r.3, r.4, k, p);
    let c = qr_chase(r.3, r.4, r.1, r.2, f, g, k, p, m, k);
    (r.0, c.2, c.3, c.0, c.1.update(p - 2, c.4), r.5)
}

/// The state after `converge`.
pub open spec fn after_converge<T: Real>(r: Reduction<T>, k: int, m: int, n: int) -> Reduction<T> {
    let pos = made_positive(r.3, r.2, k, n);
    let o = ordering(pos.0, r.1, pos.1, k, n - 1, m, n);
    (r.0, o.1, o.2, o.0, r.4, r.5)
}

/// The state after `generate_u`.
pub open spec fn after_generate_u<T: Real>(r: Reduction<T>, m: int, nct: int) -> Reduction<T> {
    (r.0, generated_u(unit_columns(r.1, m, nct), r.3, m, nct), r.2, r.3, r.4, r.5)
}

/// The state after `generate_v`.
pub open spec fn after_generate_v<T: Real>(r: Reduction<T>, n: int, nrt: int) -> Reduction<T> {
    (r.0, r.1, generated_v(r.2, r.4, nrt, n, n), r.3, r.4, r.5)
}

/// How many of the first `n` diagonal entries of `s` lie above `tol`, by
/// the element type's `<`.
pub open spec fn count_above<T: Real>(s: Matrix<T>, tol: T, n: nat) -> nat
    decreases n,
{
    if n == 0 {
        0
    } else {
        count_above(s, tol, (n - 1) as nat) + if tol.spec_less(s.at(n - 1, n - 1)) {
            1nat
        } else {
            0nat
        }
    }
}

/// `len` copies of zero.
fn zeros<T: Real>(len: usize) -> (r: Vec<T>)
    ensures
        r@ == zero_seq::<T>(len as nat),
{
    let mut r: Vec<T> = Vec::new();
    let mut k: usize = 0;
    while k < len
        invariant
            k <= len,
            r@ == zero_seq::<T>(k as nat),
        decreases len - k,
    {
        r.push(T::zero());
        proof {
            assert(r@ =~= zero_seq::<T>((k + 1) as nat));
        }
        k = k + 1;
    }
    r
}

proof fn lemma_square_bounds(m: int, n: int)
    by (nonlinear_arith)
    requires
        0 <= n <= m,
    ensures
        m * n <= m * m,
        n * n <= m * n,
{
}

impl<T> SVD<T> {
    /// U and V are square, S has as many rows as U and as many columns as
    /// V, and none of them is empty.
    #[verifier::type_invariant]
    spec fn fits(self) -> bool {
        &&& self.u.nrows() == self.s.nrows()
        &&& self.u.ncols() == self.s.nrows()
        &&& self.v.nrows() == self.s.ncols()
        &&& self.v.ncols() == self.s.ncols()
    }

    /// U.
    pub closed spec fn spec_u(self) -> Matrix<T> {
        self.u
    }

    /// S.
    pub closed spec fn spec_s(self) -> Matrix<T> {
        self.s
    }

    /// V.
    pub closed spec fn spec_v(self) -> Matrix<T> {
        self.v
    }

}

/// One pass of the main iteration on the block of order `p`: the step
/// `classify` picks, then that step. Gives the new state and order.
pub open spec fn pass<T: Real>(r: Reduction<T>, p: int, m: int, n: int, eps: T, tiny: T) -> (Reduction<T>, int) {
    let c = classified(r.3, r.4, p, eps, tiny);
    let r1 = (r.0, r.1, r.2, c.2, c.3, r.5);
    match c.0 {
        Step::Deflate => (deflated(r1, p, c.1), p),
        Step::Split => (after_split(r1, p, c.1), p),
        Step::Qr => (after_qr(r1, p, c.1, m), p),
        Step::Converged => (after_converge(r1, c.1, m, n), p - 1),
    }
}

/// Passes of the main iteration while `p > 0`, at most `fuel` of them.
pub open spec fn iterated<T: Real>(r: Reduction<T>, p: int, m: int, n: int, eps: T, tiny: T, fuel: nat) -> Reduction<T>
    decreases fuel,
{
    if p <= 0 || fuel == 0 {
        r
    } else {
        let (r2, p2) = pass(r, p, m, n, eps, tiny);
        iterated(r2, p2, m, n, eps, tiny, (fuel - 1) as nat)
    }
}

/// The matrix whose every entry is zero.
pub open spec fn zero_entries<T: Real>() -> spec_fn(int, int) -> T {
    |i: int, j: int| T::spec_zero()
}

/// `len` zeros.
pub open spec fn zero_seq<T: Real>(len: nat) -> Seq<T> {
    Seq::new(len, |i: int| T::spec_zero())
}

/// How many columns get a Householder reflection (m by n, m >= n).
pub open spec fn column_steps(m: int, n: int) -> int {
    if m == 0 {
        0
    } else if m - 1 < n {
        m - 1
    } else {
        n
    }
}

/// How many rows get a Householder reflection (m by n, m >= n).
pub open spec fn row_steps(m: int, n: int) -> int {
    if n >= 2 {
        if n - 2 < m {
            n - 2
        } else {
            m
        }
    } else {
        0
    }
}

/// The order of the bidiagonal form (m by n, m >= n).
pub open spec fn bidiagonal_order(m: int, n: int) -> int {
    if n < m + 1 {
        n
    } else {
        m + 1
    }
}

/// The bidiagonal matrix of order `p` set up in `s` and `e` after the
/// reduction.
pub open spec fn set_up<T: Real>(r: Reduction<T>, m: int, n: int) -> Reduction<T> {
    let nct = column_steps(m, n);
    let nrt = row_steps(m, n);
    let p = bidiagonal_order(m, n);
    let s1 = if nct < n {
        r.3.update(nct, r.0(nct, nct))
    } else {
        r.3
    };
    let s2 = if m < p {
        s1.update(p - 1, T::spec_zero())
    } else {
        s1
    };
    let e1 = if nrt + 1 < p {
        r.4.update(nrt, r.0(nrt, p - 1))
    } else {
        r.4
    };
    let e2 = if p > 0 {
        e1.update(p - 1, T::spec_zero())
    } else {
        e1
    };
    (r.0, r.1, r.2, s2, e2, r.5)
}

/// The final state of the decomposition of the m-by-n matrix `a` (m >= n):
/// reduction to bidiagonal form, set-up, U and V generated, then the main
/// iteration (at most `u64::MAX` passes).
pub open spec fn tall_state<T: Real>(a: spec_fn(int, int) -> T, m: int, n: int) -> Reduction<T> {
    let nct = column_steps(m, n);
    let nrt = row_steps(m, n);
    let kmax = if nct < nrt {
        nrt
    } else {
        nct
    };
    let r0 = (a, zero_entries(), zero_entries(), zero_seq(n as nat), zero_seq(n as nat), zero_seq(m as nat));
    let r1 = reduction(r0, 0, kmax, m, n, nct, nrt);
    let r2 = after_generate_v(after_generate_u(set_up(r1, m, n), m, nct), n, nrt);
    iterated(r2, bidiagonal_order(m, n), m, n, halvings(52), halvings(966), u64::MAX as nat)
}

/// `f` on rows `0..m` and columns `0..n`, zero elsewhere.
pub open spec fn within<T: Real>(f: spec_fn(int, int) -> T, m: int, n: int) -> spec_fn(int, int) -> T {
    |i: int, j: int|
        if 0 <= i < m && 0 <= j < n {
            f(i, j)
        } else {
            T::spec_zero()
        }
}

/// The decomposition of a matrix with `m >= n` given by its entries `f`:
/// U's entries, S's diagonal and V's entries.
pub open spec fn tall_decomposition<T: Real>(f: spec_fn(int, int) -> T, m: int, n: int) -> (
    spec_fn(int, int) -> T,
    Seq<T>,
    spec_fn(int, int) -> T,
) {
    let r = tall_state(within(f, m, n), m, n);
    (r.1, r.3, r.2)
}

/// What `SVD::new` computes of `a`: U's entries, S's diagonal and V's
/// entries. A matrix with fewer rows than columns goes through its
/// transpose, with the roles of U and V exchanged.
pub open spec fn decomposition<T: Real>(a: Matrix<T>) -> (spec_fn(int, int) -> T, Seq<T>, spec_fn(int, int) -> T) {
    if a.nrows() < a.ncols() {
        let r = tall_decomposition(|i: int, j: int| a.at(j, i), a.ncols() as int, a.nrows() as int);
        (r.2, r.1, r.0)
    } else {
        tall_decomposition(entries_of(a), a.nrows() as int, a.ncols() as int)
    }
}

/// The decomposition of a wide matrix is that of its transpose with U and V
/// exchanged (a' = (usv')' = vs'u').
pub proof fn lemma_wide_is_transposed_tall<T: Real>(a: Matrix<T>, b: Matrix<T>)
    requires
        b.is_transpose_of(a),
        a.nrows() < a.ncols(),
    ensures
        decomposition(a) == (decomposition(b).2, decomposition(b).1, decomposition(b).0),
{
    let m = a.ncols() as int;
    let n = a.nrows() as int;
    assert(within(entries_of(b), m, n) =~= within(|i: int, j: int| a.at(j, i), m, n));
}

impl<T: Real> SVD<T> {
    /// U is `rows` by `rows`, S is `rows` by `cols` and zero off its main
    /// diagonal, and V is `cols` by `cols`.
    pub open spec fn shaped(self, rows: nat, cols: nat) -> bool {
        &&& self.spec_u().nrows() == rows
        &&& self.spec_u().ncols() == rows
        &&& self.spec_s().nrows() == rows
        &&& self.spec_s().ncols() == cols
        &&& self.spec_v().nrows() == cols
        &&& self.spec_v().ncols() == cols
        &&& exists|d: Seq<T>|
            d.len() == (if rows < cols { rows } else { cols }) && #[trigger] self.spec_s().is_diagonal(
                d,
                T::spec_zero(),
            )
    }

    /// U, S and V are what `decomposition` gives of `a`: U and V entry by
    /// entry, S with that diagonal and zero elsewhere.
    pub open spec fn decomposes(self, a: Matrix<T>) -> bool {
        &&& self.spec_u().agrees(decomposition(a).0)
        &&& self.spec_s().is_diagonal(decomposition(a).1, T::spec_zero())
        &&& self.spec_v().agrees(decomposition(a).2)
    }

    /// Calculates the SVD of `a` by Golub-Kahan-Reinsch: Householder
    /// bidiagonalization, then implicitly shifted QR steps. A matrix with
    /// fewer rows than columns is decomposed through its transpose:
    /// a' = (usv')' = vs'u'. Every matrix has one: for a matrix without rows
    /// or columns, U (or V) is the identity of its size.
    ///
    /// The main iteration stops after `u64::MAX` passes if the singular
    /// values have not all converged by then.
    pub fn new(a: &Matrix<T>) -> (r: SVD<T>)
        requires
            a.nrows() * a.nrows() <= usize::MAX,
            a.ncols() * a.ncols() <= usize::MAX,
        ensures
            r.shaped(a.nrows(), a.ncols()),
            r.decomposes(*a),
        decreases (if a.nrows() < a.ncols() { 1int } else { 0int }),
    {
        if a.rows() < a.cols() {
            let b = a.t();
            let svd = SVD::new(&b);
            let s = svd.s.t();
            let ghost dd = choose|dd: Seq<T>|
                dd.len() == (if a.ncols() < a.nrows() { a.ncols() } else { a.nrows() })
                    && #[trigger] svd.s.is_diagonal(dd, T::spec_zero());
            proof {
                lemma_wide_is_transposed_tall(*a, b);
                let d = decomposition(b).1;
                lemma_transpose_diagonal(svd.s, s, d, T::spec_zero());
                assert(s.is_diagonal(d, T::spec_zero()));
                lemma_transpose_diagonal(svd.s, s, dd, T::spec_zero());
            }
            let r = SVD { u: svd.v, s, v: svd.u };
            assert(r.spec_s().is_diagonal(dd, T::spec_zero()));
            return r;
        }
        let m = a.rows();
        let n = a.cols();
        proof {
            lemma_square_bounds(m as int, n as int);
            if m >= 1 {
                assert(m < usize::MAX) by (nonlinear_arith)
                    requires
                        1 <= m,
                        m * m <= usize::MAX,
                        usize::MAX >= 1,
                ;
            }
        }
        let src = a.get_data();
        let mut data: Vec<T> = Vec::new();
        for i in 0..src.len()
            invariant
                data@ == src@.subrange(0, i as int),
        {
            data.push(src[i]);
        }
        proof {
            assert(data@ =~= src@);
        }
        let mut w = Work {
            m,
            n,
            a: Matrix::new(m, n, data),
            u: Matrix::zero(m, m),
            v: Matrix::zero(n, n),
            s: zeros(n),
            e: zeros(n),
            work: zeros(m),
        };
        let ghost a0 = within(entries_of(*a), m as int, n as int);
        let ghost mut st: Reduction<T> = (
            a0,
            zero_entries(),
            zero_entries(),
            zero_seq(n as nat),
            zero_seq(n as nat),
            zero_seq(m as nat),
        );
        assert(holds(&w, st));
        let nct = if m == 0 {
            0
        } else if m - 1 < n {
            m - 1
        } else {
            n
        };
        let nrt = if n >= 2 {
            if n - 2 < m {
                n - 2
            } else {
                m
            }
        } else {
            0
        };
        // Reduce A to bidiagonal form.
        bidiagonalize(&mut w, nct, nrt, Ghost(st));
        proof {
            let kmax = if nct < nrt {
                nrt as int
            } else {
                nct as int
            };
            st = reduction(st, 0, kmax, m as int, n as int, nct as int, nrt as int);
        }
        // Set up the final bidiagonal matrix of order p.
        let mut p = if n < m + 1 {
            n
        } else {
            m + 1
        };
        if nct < n {
            let x = w.a.get(nct, nct);
            w.s[nct] = x;
        }
        if m < p {
            w.s[p - 1] = T::zero();
        }
        if nrt + 1 < p {
            let x = w.a.get(nrt, p - 1);
            w.e[nrt] = x;
        }
        if p > 0 {
            w.e[p - 1] = T::zero();
        }
        proof {
            st = set_up(st, m as int, n as int);
            assert(holds(&w, st));
        }
        generate_u(&mut w, nct, Ghost(st));
        proof {
            st = after_generate_u(st, m as int, nct as int);
        }
        generate_v(&mut w, nrt, Ghost(st));
        proof {
            st = after_generate_v(st, n as int, nrt as int);
        }
        // Main iteration loop for the singular values.
        let eps: T = pow2_neg(52);
        let tiny: T = pow2_neg(966);
        let ghost target = iterated(st, p as int, m as int, n as int, eps, tiny, u64::MAX as nat);
        let mut passes: u64 = 0;
        while p > 0 && passes < u64::MAX
            invariant
                w.ok(),
                w.m == m,
                w.n == n,
                p <= n,
                holds(&w, st),
                iterated(st, p as int, m as int, n as int, eps, tiny, (u64::MAX - passes) as nat) == target,
            decreases u64::MAX - passes,
        {
            let ghost st0 = st;
            let ghost p0 = p as int;
            let (step, k) = classify(&mut w, p, eps, tiny, Ghost(st));
            proof {
                let c = classified(st.3, st.4, p as int, eps, tiny);
                st = (st.0, st.1, st.2, c.2, c.3, st.5);
            }
            match step {
                Step::Deflate => {
                    deflate(&mut w, p, k, Ghost(st));
                    proof {
                        st = deflated(st, p as int, k as int);
                    }
                },
                Step::Split => {
                    split(&mut w, p, k, Ghost(st));
                    proof {
                        st = after_split(st, p as int, k as int);
                    }
                },
                Step::Qr => {
                    qr_step(&mut w, p, k, Ghost(st));
                    proof {
                        st = after_qr(st, p as int, k as int, m as int);
                    }
                },
                Step::Converged => {
                    converge(&mut w, k, Ghost(st));
                    proof {
                        st = after_converge(st, k as int, m as int, n as int);
                    }
                    p = p - 1;
                },
            }
            proof {
                assert(pass(st0, p0, m as int, n as int, eps, tiny) == (st, p as int));
            }
            passes = passes + 1;
        }
        let Work { u, v, s, .. } = w;
        let ghost d = s@;
        let s = Matrix::block_diag(m, n, s);
        let r = SVD { u, s, v };
        assert(r.spec_s().is_diagonal(d, T::spec_zero()));
        r
    }

    /// U.
    pub fn get_u(&self) -> (r: &Matrix<T>)
        ensures
            *r == self.spec_u(),
    {
        &self.u
    }

    /// S.
    pub fn get_s(&self) -> (r: &Matrix<T>)
        ensures
            *r == self.spec_s(),
    {
        &self.s
    }

    /// V.
    pub fn get_v(&self) -> (r: &Matrix<T>)
        ensures
            *r == self.spec_v(),
    {
        &self.v
    }

    /// The tolerance of `rank`: `max(rows, cols) * sigma[0] * 2^-52`, in the
    /// element type's arithmetic.
    pub open spec fn rank_tolerance(self) -> T {
        let dim = if self.spec_u().nrows() < self.spec_v().nrows() {
            self.spec_v().nrows()
        } else {
            self.spec_u().nrows()
        };
        T::spec_from_usize(dim as usize).spec_times(self.spec_s().at(0, 0)).spec_times(
            halvings::<T>(52),
        )
    }

    /// How many singular values there are: `min(rows, cols)`.
    pub open spec fn num_singular(self) -> nat {
        if self.spec_s().nrows() < self.spec_s().ncols() {
            self.spec_s().nrows()
        } else {
            self.spec_s().ncols()
        }
    }

    /// The effective numerical rank: the number of the `min(rows, cols)`
    /// singular values above `max(rows, cols) * sigma[0] * 2^-52`.
    pub fn rank(&self) -> (r: usize)
        ensures
            r == count_above(self.spec_s(), self.rank_tolerance(), self.num_singular()),
            r <= self.num_singular(),
    {
        proof {
            use_type_invariant(self);
        }
        let rows = self.s.rows();
        let cols = self.s.cols();
        let count = if rows < cols {
            rows
        } else {
            cols
        };
        if count == 0 {
            return 0;
        }
        let eps: T = pow2_neg(52);
        let urows = self.u.rows();
        let vrows = self.v.rows();
        let max_dim = T::from_usize(if urows < vrows { vrows } else { urows });
        let tol = max_dim.times(self.s.get(0, 0)).times(eps);
        let mut r: usize = 0;
        for i in 0..count
            invariant
                count <= self.s.nrows(),
                count <= self.s.ncols(),
                tol == self.rank_tolerance(),
                r <= i,
                r == count_above(self.s, tol, i as nat),
        {
            if tol.less(self.s.get(i, i)) {
                r = r + 1;
            }
        }
        r
    }
}

} // verus!
