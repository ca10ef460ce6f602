//! Laws of the steps of the decomposition: what each step must keep or
//! leave alone, stated over the steps' own specifications.

use vstd::prelude::*;

use crate::matrix::column_dot;
use crate::scalar::{
    exact_arithmetic, exact_distrib, exact_hypot_zero, exact_less_eq_not_less_zero,
    exact_less_zero_less_eq, exact_negate_negate, exact_negate_not_negative, exact_negate_times,
    exact_over, exact_plus_comm, exact_plus_zero, exact_times_assoc, exact_times_comm,
    exact_times_one, exact_times_zero, exact_zero_not_negative, exact_plus_assoc, exact_plus_negate,
    exact_hypot_square, hypot_of, Real,
};
use crate::svd::{
    after_qr, after_split, deflated, deflation, generated_u, made_positive, ordering, qr_chase, splitting,
    Reduction,
};

verus! {

/// Making a converged singular value non-negative keeps S*V', and with it
/// U*S*V': for every column j and every one of the `n` rows i, s[j] * V[i][j]
/// is what it was (the sign of s[k] and of the whole column k of V flip
/// together). Afterwards s[k] is not negative.
pub proof fn law_sign_fix_keeps_sv<T: Real>(s: Seq<T>, v: spec_fn(int, int) -> T, k: int, n: int)
    requires
        exact_arithmetic::<T>(),
        0 <= k < n,
        s.len() == n,
    ensures
        ({
            let (s2, v2) = made_positive(s, v, k, n);
            &&& s2.len() == n
            &&& forall|i: int, j: int|
                0 <= i < n && 0 <= j < n ==> #[trigger] s2[j].spec_times(v2(i, j)) == s[j].spec_times(v(i, j))
            &&& !s2[k].spec_less(T::spec_zero())
        }),
{
    let (s2, v2) = made_positive(s, v, k, n);
    let z = T::spec_zero();
    if s[k].spec_less_eq(z) {
        assert forall|i: int, j: int| 0 <= i < n && 0 <= j < n implies #[trigger] s2[j].spec_times(v2(i, j))
            == s[j].spec_times(v(i, j)) by {
            if j == k {
                let a = s[k];
                let b = v(i, k);
                assert(v2(i, k) == b.spec_negate());
                if a.spec_less(z) {
                    // (-a)(-b) = -(a(-b)) = -((-b)a) = -(-(ba)) = ba = ab
                    exact_negate_times(a, b.spec_negate());
                    exact_times_comm(a, b.spec_negate());
                    exact_negate_times(b, a);
                    exact_negate_negate(b.spec_times(a));
                    exact_times_comm(b, a);
                } else {
                    exact_less_eq_not_less_zero(a);
                    exact_times_comm(z, b.spec_negate());
                    exact_times_zero(b.spec_negate());
                    exact_times_comm(z, b);
                    exact_times_zero(b);
                }
            }
        }
        if s[k].spec_less(z) {
            exact_negate_not_negative(s[k]);
        } else {
            exact_zero_not_negative::<T>();
        }
    } else {
        exact_less_zero_less_eq(s[k]);
    }
}

/// The rotation that takes `(a, b)` to `(hypot(a, b), 0)`, applied to
/// columns j1 and j2 of `f`, gives a column j1 that times `hypot(a, b)` is
/// `f[.., j1] * a + f[.., j2] * b`.
proof fn lemma_rotation_absorbs<T: Real>(f: spec_fn(int, int) -> T, j1: int, j2: int, a: T, b: T, i: int)
    requires
        exact_arithmetic::<T>(),
        j1 != j2,
    ensures
        ({
            let t = hypot_of(a, b);
            crate::matrix::rotation(f, j1, j2, a.spec_over(t), b.spec_over(t))(i, j1).spec_times(t)
                == f(i, j1).spec_times(a).spec_plus(f(i, j2).spec_times(b))
        }),
{
    let z = T::spec_zero();
    let t = hypot_of(a, b);
    let cs = a.spec_over(t);
    let sn = b.spec_over(t);
    let x = f(i, j1);
    let y = f(i, j2);
    assert(crate::matrix::rotation(f, j1, j2, cs, sn)(i, j1) == cs.spec_times(x).spec_plus(sn.spec_times(y)));
    if t == z {
        exact_hypot_zero(a, b);
        exact_times_zero(cs.spec_times(x).spec_plus(sn.spec_times(y)));
        exact_times_zero(x);
        exact_times_zero(y);
        exact_plus_zero(z);
    } else {
        // (cs x + sn y) t = t (cs x) + t (sn y)
        exact_times_comm(cs.spec_times(x).spec_plus(sn.spec_times(y)), t);
        exact_distrib(t, cs.spec_times(x), sn.spec_times(y));
        // t (cs x) = (cs x) t = cs (x t) = cs (t x) = (cs t) x = a x = x a
        exact_times_comm(t, cs.spec_times(x));
        exact_times_assoc(cs, x, t);
        exact_times_comm(x, t);
        exact_times_assoc(cs, t, x);
        exact_over(a, t);
        exact_times_comm(a, x);
        // t (sn y) = y b likewise
        exact_times_comm(t, sn.spec_times(y));
        exact_times_assoc(sn, y, t);
        exact_times_comm(y, t);
        exact_times_assoc(sn, t, y);
        exact_over(b, t);
        exact_times_comm(b, y);
    }
}

/// One rotation of the split step keeps the product of U and the
/// bidiagonal form in column j: with the chased value `f` standing in row
/// k - 1 of that column, U[i][j] * s[j] + U[i][k-1] * f becomes
/// U'[i][j] * s'[j], for every row i.
pub proof fn law_split_rotation_keeps_product<T: Real>(
    s: Seq<T>,
    e: Seq<T>,
    u: spec_fn(int, int) -> T,
    f: T,
    k: int,
    j: int,
)
    requires
        exact_arithmetic::<T>(),
        1 <= k <= j,
        j < s.len(),
        j < e.len(),
    ensures
        ({
            let r = splitting(s, e, u, f, k, j + 1, j);
            forall|i: int|
                #[trigger] r.2(i, j).spec_times(r.0[j]) == u(i, j).spec_times(s[j]).spec_plus(
                    u(i, k - 1).spec_times(f),
                )
        }),
{
    reveal_with_fuel(splitting, 2);
    let r = splitting(s, e, u, f, k, j + 1, j);
    assert(r.0[j] == hypot_of(s[j], f));
    assert forall|i: int| #[trigger] r.2(i, j).spec_times(r.0[j]) == u(i, j).spec_times(s[j]).spec_plus(
        u(i, k - 1).spec_times(f),
    ) by {
        lemma_rotation_absorbs(u, j, k - 1, s[j], f, i);
    }
}

/// One rotation of the deflation keeps the product of the bidiagonal form
/// and V' in row k: with the chased value `f` standing in column p - 1 of
/// that row, s[k] * V[i][k] + f * V[i][p-1] becomes s'[k] * V'[i][k], for
/// every row i of V.
pub proof fn law_deflation_rotation_keeps_product<T: Real>(
    s: Seq<T>,
    e: Seq<T>,
    v: spec_fn(int, int) -> T,
    f: T,
    k: int,
    p: int,
)
    requires
        exact_arithmetic::<T>(),
        0 <= k <= p - 2,
        k < s.len(),
    ensures
        ({
            let r = deflation(s, e, v, f, k, p, k);
            forall|i: int|
                #[trigger] r.2(i, k).spec_times(r.0[k]) == v(i, k).spec_times(s[k]).spec_plus(
                    v(i, p - 1).spec_times(f),
                )
        }),
{
    reveal_with_fuel(deflation, 2);
    let r = deflation(s, e, v, f, k, p, k);
    assert(r.0[k] == hypot_of(s[k], f));
    assert forall|i: int| #[trigger] r.2(i, k).spec_times(r.0[k]) == v(i, k).spec_times(s[k]).spec_plus(
        v(i, p - 1).spec_times(f),
    ) by {
        lemma_rotation_absorbs(v, k, p - 1, s[k], f, i);
    }
}

proof fn lemma_unit_column_norm<T: Real>(g: spec_fn(int, int) -> T, k: int, h: int)
    requires
        exact_arithmetic::<T>(),
        0 <= k,
        0 <= h,
        forall|i: int| 0 <= i < h ==> #[trigger] g(i, k) == if i == k { T::spec_one() } else { T::spec_zero() },
    ensures
        column_dot(g, k, k, 0, h) == if h > k { T::spec_one() } else { T::spec_zero() },
    decreases h,
{
    let z = T::spec_zero();
    let o = T::spec_one();
    if h > 0 {
        lemma_unit_column_norm(g, k, h - 1);
        let prev = column_dot(g, k, k, 0, h - 1);
        if h - 1 == k {
            exact_times_one(o);
            exact_plus_comm(z, o);
            exact_plus_zero(o);
        } else {
            exact_times_zero(z);
            exact_plus_zero(prev);
        }
    }
}

/// Where s[k] is zero, generating U makes column k a unit vector: the step
/// for column k hands on a U whose column k has norm one.
pub proof fn law_zero_pivot_gives_unit_column<T: Real>(f: spec_fn(int, int) -> T, s: Seq<T>, m: int, k: int)
    requires
        exact_arithmetic::<T>(),
        0 <= k < m,
        s[k].spec_is_zero(),
    ensures
        exists|g: spec_fn(int, int) -> T|
            generated_u(f, s, m, k + 1) == generated_u(g, s, m, k) && #[trigger] column_dot(g, k, k, 0, m)
                == T::spec_one(),
{
    let g = crate::matrix::with_entry(
        crate::matrix::filled_column(f, k, 0, m, T::spec_zero()),
        k,
        k,
        T::spec_one(),
    );
    assert(generated_u(f, s, m, k + 1) == generated_u(g, s, m, k));
    lemma_unit_column_norm(g, k, m);
    assert(column_dot(g, k, k, 0, m) == T::spec_one());
}

proof fn lemma_chase_stays_in_block<T: Real>(
    s: Seq<T>,
    e: Seq<T>,
    u: spec_fn(int, int) -> T,
    v: spec_fn(int, int) -> T,
    f: T,
    g: T,
    k: int,
    p: int,
    m: int,
    j: int,
)
    requires
        0 <= k <= j,
        p <= s.len(),
        p <= e.len(),
    ensures
        ({
            let c = qr_chase(s, e, u, v, f, g, k, p, m, j);
            &&& c.0.len() == s.len()
            &&& c.1.len() == e.len()
            &&& forall|i: int| 0 <= i < k ==> #[trigger] c.0[i] == s[i]
            &&& forall|i: int| 0 <= i < k ==> #[trigger] c.1[i] == e[i]
            &&& forall|i: int| p <= i < s.len() ==> #[trigger] c.0[i] == s[i]
            &&& forall|i: int| p <= i < e.len() ==> #[trigger] c.1[i] == e[i]
            &&& forall|i: int, q: int| (q < k || q >= p) ==> #[trigger] c.2(i, q) == u(i, q)
            &&& forall|i: int, q: int| (q < k || q >= p) ==> #[trigger] c.3(i, q) == v(i, q)
        }),
    decreases p - 1 - j,
{
    if j < p - 1 {
        let t = hypot_of(f, g);
        let cs = f.spec_over(t);
        let sn = g.spec_over(t);
        let e1 = if j != k {
            e.update(j - 1, t)
        } else {
            e
        };
        let f1 = cs.spec_times(s[j]).spec_plus(sn.spec_times(e1[j]));
        let e2 = e1.update(j, cs.spec_times(e1[j]).spec_minus(sn.spec_times(s[j])));
        let g1 = sn.spec_times(s[j + 1]);
        let s1 = s.update(j + 1, cs.spec_times(s[j + 1]));
        let v1 = crate::matrix::rotation(v, j, j + 1, cs, sn);
        let t2 = hypot_of(f1, g1);
        let cs2 = f1.spec_over(t2);
        let sn2 = g1.spec_over(t2);
        let s2 = s1.update(j, t2);
        let f2 = cs2.spec_times(e2[j]).spec_plus(sn2.spec_times(s2[j + 1]));
        let s3 = s2.update(
            j + 1,
            sn2.spec_negate().spec_times(e2[j]).spec_plus(cs2.spec_times(s2[j + 1])),
        );
        let g2 = sn2.spec_times(e2[j + 1]);
        let e3 = e2.update(j + 1, cs2.spec_times(e2[j + 1]));
        let u1 = if j < m - 1 {
            crate::matrix::rotation(u, j, j + 1, cs2, sn2)
        } else {
            u
        };
        lemma_chase_stays_in_block(s3, e3, u1, v1, f2, g2, k, p, m, j + 1);
    }
}

/// A QR step on the block s[k..p], e[k..p-1] stays within it: s and e are
/// unchanged above the block (e[k-1], which split the block off, among them)
/// and s below it, and so is e from index p on; so are the columns of U and
/// V outside `k..p`.
pub proof fn law_qr_step_stays_in_block<T: Real>(r: Reduction<T>, p: int, k: int, m: int)
    requires
        0 <= k <= p - 2,
        p <= r.3.len(),
        p <= r.4.len(),
    ensures
        ({
            let q = after_qr(r, p, k, m);
            &&& forall|i: int| 0 <= i < k ==> #[trigger] q.3[i] == r.3[i]
            &&& forall|i: int| 0 <= i < k ==> #[trigger] q.4[i] == r.4[i]
            &&& forall|i: int| p <= i < r.3.len() ==> #[trigger] q.3[i] == r.3[i]
            &&& forall|i: int| p <= i < r.4.len() ==> #[trigger] q.4[i] == r.4[i]
            &&& forall|i: int, c: int| (c < k || c >= p) ==> #[trigger] q.1(i, c) == r.1(i, c)
            &&& forall|i: int, c: int| (c < k || c >= p) ==> #[trigger] q.2(i, c) == r.2(i, c)
        }),
{
    let (f, g) = crate::svd::qr_start(r.3, r.4, k, p);
    lemma_chase_stays_in_block(r.3, r.4, r.1, r.2, f, g, k, p, m, k);
}

proof fn lemma_deflation_stays_in_block<T: Real>(
    s: Seq<T>,
    e: Seq<T>,
    v: spec_fn(int, int) -> T,
    f: T,
    k: int,
    p: int,
    j0: int,
)
    requires
        0 <= k,
        j0 < p - 1,
        p <= s.len(),
        p <= e.len(),
    ensures
        ({
            let d = deflation(s, e, v, f, k, p, j0);
            &&& d.0.len() == s.len()
            &&& d.1.len() == e.len()
            &&& forall|i: int| (0 <= i < k || p <= i < s.len()) ==> #[trigger] d.0[i] == s[i]
            &&& forall|i: int| (0 <= i < k || p - 1 <= i < e.len()) ==> #[trigger] d.1[i] == e[i]
            &&& forall|i: int, c: int| (c < k || c >= p) ==> #[trigger] d.2(i, c) == v(i, c)
        }),
    decreases j0 + 1 - k,
{
    if j0 >= k {
        let t = hypot_of(s[j0], f);
        let cs = s[j0].spec_over(t);
        let sn = f.spec_over(t);
        let f2 = if j0 != k {
            sn.spec_negate().spec_times(e[j0 - 1])
        } else {
            f
        };
        let e2 = if j0 != k {
            e.update(j0 - 1, cs.spec_times(e[j0 - 1]))
        } else {
            e
        };
        lemma_deflation_stays_in_block(
            s.update(j0, t),
            e2,
            crate::matrix::rotation(v, j0, p - 1, cs, sn),
            f2,
            k,
            p,
            j0 - 1,
        );
    }
}

/// Deflating s[p-1] stays within the block s[k..p]: s and e above the block
/// and from index p on (e from p - 1 on) are unchanged, and so are U and the
/// columns of V outside `k..p`.
pub proof fn law_deflation_stays_in_block<T: Real>(r: Reduction<T>, p: int, k: int)
    requires
        0 <= k <= p - 2,
        p <= r.3.len(),
        p <= r.4.len(),
    ensures
        ({
            let q = deflated(r, p, k);
            &&& forall|i: int| (0 <= i < k || p <= i < r.3.len()) ==> #[trigger] q.3[i] == r.3[i]
            &&& forall|i: int| (0 <= i < k || p - 1 <= i < r.4.len()) ==> #[trigger] q.4[i] == r.4[i]
            &&& q.1 == r.1
            &&& forall|i: int, c: int| (c < k || c >= p) ==> #[trigger] q.2(i, c) == r.2(i, c)
        }),
{
    lemma_deflation_stays_in_block(
        r.3,
        r.4.update(p - 2, T::spec_zero()),
        r.2,
        r.4[p - 2],
        k,
        p,
        p - 2,
    );
}

proof fn lemma_splitting_stays_in_block<T: Real>(
    s: Seq<T>,
    e: Seq<T>,
    u: spec_fn(int, int) -> T,
    f: T,
    k: int,
    p: int,
    j0: int,
)
    requires
        1 <= k <= j0,
        p <= s.len(),
        p <= e.len(),
    ensures
        ({
            let d = splitting(s, e, u, f, k, p, j0);
            &&& d.0.len() == s.len()
            &&& d.1.len() == e.len()
            &&& forall|i: int| (0 <= i < k || p <= i < s.len()) ==> #[trigger] d.0[i] == s[i]
            &&& forall|i: int| (0 <= i < k || p <= i < e.len()) ==> #[trigger] d.1[i] == e[i]
            &&& forall|i: int, c: int| (c < k - 1 || c >= p) ==> #[trigger] d.2(i, c) == u(i, c)
        }),
    decreases p - j0,
{
    if j0 < p {
        let t = hypot_of(s[j0], f);
        let cs = s[j0].spec_over(t);
        let sn = f.spec_over(t);
        lemma_splitting_stays_in_block(
            s.update(j0, t),
            e.update(j0, cs.spec_times(e[j0])),
            crate::matrix::rotation(u, j0, k - 1, cs, sn),
            sn.spec_negate().spec_times(e[j0]),
            k,
            p,
            j0 + 1,
        );
    }
}

/// Splitting at s[k-1] stays within the block: s and e above index k - 1 and
/// from index p on are unchanged, e[k-1] becomes zero, and V and the columns
/// of U other than k - 1 and `k..p` are unchanged.
pub proof fn law_split_stays_in_block<T: Real>(r: Reduction<T>, p: int, k: int)
    requires
        1 <= k <= p - 1,
        p <= r.3.len(),
        p <= r.4.len(),
    ensures
        ({
            let q = after_split(r, p, k);
            &&& forall|i: int| (0 <= i < k || p <= i < r.3.len()) ==> #[trigger] q.3[i] == r.3[i]
            &&& forall|i: int| (0 <= i < k - 1 || p <= i < r.4.len()) ==> #[trigger] q.4[i] == r.4[i]
            &&& q.4[k - 1] == T::spec_zero()
            &&& q.2 == r.2
            &&& forall|i: int, c: int| (c < k - 1 || c >= p) ==> #[trigger] q.1(i, c) == r.1(i, c)
        }),
{
    lemma_splitting_stays_in_block(
        r.3,
        r.4.update(k - 1, T::spec_zero()),
        r.1,
        r.4[k - 1],
        k,
        p,
        k,
    );
}


/// The cosine and sine of a rotation by `(a, b)` with `hypot(a, b)` not
/// zero satisfy cs * cs + sn * sn == 1.
proof fn lemma_rotation_unit<T: Real>(a: T, b: T)
    requires
        exact_arithmetic::<T>(),
        hypot_of(a, b) != T::spec_zero(),
    ensures
        ({
            let t = hypot_of(a, b);
            let cs = a.spec_over(t);
            let sn = b.spec_over(t);
            cs.spec_times(cs).spec_plus(sn.spec_times(sn)) == T::spec_one()
        }),
{
    let o = T::spec_one();
    let t = hypot_of(a, b);
    let cs = a.spec_over(t);
    let sn = b.spec_over(t);
    let c = o.spec_over(t);
    let tt = t.spec_times(t);
    let q = cs.spec_times(cs).spec_plus(sn.spec_times(sn));
    exact_over(o, t);
    exact_over(a, t);
    exact_over(b, t);
    exact_hypot_square(a, b);
    // (cs cs)(t t) = cs ((cs t) t) = cs (t a) = (cs t) a = a a
    exact_times_assoc(cs, cs, tt);
    exact_times_assoc(cs, t, t);
    exact_times_comm(a, t);
    exact_times_assoc(cs, t, a);
    assert(cs.spec_times(cs).spec_times(tt) == a.spec_times(a));
    exact_times_assoc(sn, sn, tt);
    exact_times_assoc(sn, t, t);
    exact_times_comm(b, t);
    exact_times_assoc(sn, t, b);
    assert(sn.spec_times(sn).spec_times(tt) == b.spec_times(b));
    // q (t t) = t t
    exact_times_comm(q, tt);
    exact_distrib(tt, cs.spec_times(cs), sn.spec_times(sn));
    exact_times_comm(tt, cs.spec_times(cs));
    exact_times_comm(tt, sn.spec_times(sn));
    assert(q.spec_times(tt) == tt);
    // (t t)(c c) = t ((t c) c) = t (c) ... = 1
    let cc = c.spec_times(c);
    exact_times_assoc(t, t, cc);
    exact_times_assoc(t, c, c);
    exact_times_comm(t, c);
    exact_times_comm(o, c);
    exact_times_one(c);
    assert(t.spec_times(cc) == c);
    assert(tt.spec_times(cc) == o);
    // q = q ((t t)(c c)) = (q (t t))(c c) = 1
    exact_times_assoc(q, tt, cc);
    exact_times_one(q);
}

/// With cs and sn as in `lemma_rotation_unit`, the rotated columns j1 and
/// j2 of `f`, times cs * x and -sn * x, add up to f[.., j1] * x.
proof fn lemma_rotation_returns<T: Real>(f: spec_fn(int, int) -> T, j1: int, j2: int, a: T, b: T, x: T, i: int)
    requires
        exact_arithmetic::<T>(),
        j1 != j2,
        hypot_of(a, b) != T::spec_zero(),
    ensures
        ({
            let t = hypot_of(a, b);
            let cs = a.spec_over(t);
            let sn = b.spec_over(t);
            let g = crate::matrix::rotation(f, j1, j2, cs, sn);
            g(i, j1).spec_times(cs.spec_times(x)).spec_plus(g(i, j2).spec_times(sn.spec_negate().spec_times(x)))
                == f(i, j1).spec_times(x)
        }),
{
    lemma_rotation_unit(a, b);
    let t = hypot_of(a, b);
    let cs = a.spec_over(t);
    let sn = b.spec_over(t);
    let ns = sn.spec_negate();
    let g = crate::matrix::rotation(f, j1, j2, cs, sn);
    let y1 = f(i, j1);
    let y2 = f(i, j2);
    let w1 = y1.spec_times(x);
    let w2 = y2.spec_times(x);
    let cx = cs.spec_times(x);
    let nx = ns.spec_times(x);
    let g1 = g(i, j1);
    let g2 = g(i, j2);
    assert(g1 == cs.spec_times(y1).spec_plus(sn.spec_times(y2)));
    assert(g2 == ns.spec_times(y1).spec_plus(cs.spec_times(y2)));
    // m (n y) = (m n) (y x) where the factor is (m x)
    exact_times_comm(g1, cx);
    exact_distrib(cx, cs.spec_times(y1), sn.spec_times(y2));
    exact_times_comm(g2, nx);
    exact_distrib(nx, ns.spec_times(y1), cs.spec_times(y2));
    let a1 = cs.spec_times(cs).spec_times(w1);
    let a2 = sn.spec_times(sn).spec_times(w1);
    let b1 = sn.spec_times(cs).spec_times(w2);
    // (c x)(d y) = (c d)(y x)
    assert forall|c: T, d: T, y: T| #[trigger] c.spec_times(x).spec_times(d.spec_times(y))
        == c.spec_times(d).spec_times(y.spec_times(x)) by {
        exact_times_assoc(c, x, d.spec_times(y));
        exact_times_assoc(x, d, y);
        exact_times_comm(x, d);
        exact_times_assoc(d, x, y);
        exact_times_comm(x, y);
        exact_times_assoc(c, d, y.spec_times(x));
    }
    assert(cx.spec_times(cs.spec_times(y1)) == a1);
    assert(cx.spec_times(sn.spec_times(y2)) == b1) by {
        exact_times_comm(cs, sn);
    }
    assert(nx.spec_times(ns.spec_times(y1)) == a2) by {
        exact_negate_times(sn, ns);
        exact_times_comm(sn, ns);
        exact_negate_times(sn, sn);
        exact_negate_negate(sn.spec_times(sn));
    }
    assert(nx.spec_times(cs.spec_times(y2)) == b1.spec_negate()) by {
        exact_negate_times(sn, cs);
        exact_negate_times(sn.spec_times(cs), w2);
    }
    // (a1 + b1) + (a2 + -b1) = a1 + a2 = w1
    let z = T::spec_zero();
    exact_plus_assoc(a1, b1, a2.spec_plus(b1.spec_negate()));
    exact_plus_comm(b1, a2.spec_plus(b1.spec_negate()));
    exact_plus_assoc(a2, b1.spec_negate(), b1);
    exact_plus_comm(b1.spec_negate(), b1);
    exact_plus_negate(b1);
    exact_plus_zero(a2);
    assert(a1.spec_plus(b1).spec_plus(a2.spec_plus(b1.spec_negate())) == a1.spec_plus(a2));
    exact_distrib(w1, cs.spec_times(cs), sn.spec_times(sn));
    exact_times_comm(w1, cs.spec_times(cs));
    exact_times_comm(w1, sn.spec_times(sn));
    exact_times_one(w1);
    assert(a1.spec_plus(a2) == w1);
}

/// Two rotations of the split step keep the product of U and the
/// bidiagonal form in column j + 1: U[i][j] * e[j] + U[i][j+1] * s[j+1]
/// is the same before and after, for every row i, where the first rotation
/// is defined (s[j] and f not both zero).
pub proof fn law_split_keeps_next_column<T: Real>(
    s: Seq<T>,
    e: Seq<T>,
    u: spec_fn(int, int) -> T,
    f: T,
    k: int,
    j: int,
)
    requires
        exact_arithmetic::<T>(),
        1 <= k <= j,
        j + 1 < s.len(),
        j + 1 < e.len(),
        hypot_of(s[j], f) != T::spec_zero(),
    ensures
        ({
            let r = splitting(s, e, u, f, k, j + 2, j);
            forall|i: int|
                #[trigger] r.2(i, j).spec_times(r.1[j]).spec_plus(r.2(i, j + 1).spec_times(r.0[j + 1]))
                    == u(i, j).spec_times(e[j]).spec_plus(u(i, j + 1).spec_times(s[j + 1]))
        }),
{
    reveal_with_fuel(splitting, 3);
    let t = hypot_of(s[j], f);
    let cs = s[j].spec_over(t);
    let sn = f.spec_over(t);
    let s1 = s.update(j, t);
    let e1 = e.update(j, cs.spec_times(e[j]));
    let u1 = crate::matrix::rotation(u, j, k - 1, cs, sn);
    let f1 = sn.spec_negate().spec_times(e[j]);
    let r = splitting(s, e, u, f, k, j + 2, j);
    assert(r == splitting(s1, e1, u1, f1, k, j + 2, j + 1));
    assert(r.1[j] == e1[j]);
    assert(r.0[j + 1] == hypot_of(s[j + 1], f1));
    assert forall|i: int|
        #[trigger] r.2(i, j).spec_times(r.1[j]).spec_plus(r.2(i, j + 1).spec_times(r.0[j + 1]))
            == u(i, j).spec_times(e[j]).spec_plus(u(i, j + 1).spec_times(s[j + 1])) by {
        lemma_rotation_absorbs(u1, j + 1, k - 1, s[j + 1], f1, i);
        lemma_rotation_returns(u, j, k - 1, s[j], f, e[j], i);
        assert(r.2(i, j) == u1(i, j));
        assert(u1(i, j + 1) == u(i, j + 1));
        let x = u1(i, j).spec_times(cs.spec_times(e[j]));
        let y = u(i, j + 1).spec_times(s[j + 1]);
        let w = u1(i, k - 1).spec_times(f1);
        exact_plus_comm(y, w);
        exact_plus_assoc(x, w, y);
    }
}


/// The last two rotations of the deflation keep the product of the
/// bidiagonal form and V' in row k: V[i][k] * s[k] + V[i][k+1] * e[k] is
/// the same before and after, for every row i, where the rotation at k + 1
/// is defined (s[k+1] and f not both zero).
pub proof fn law_deflation_keeps_previous_row<T: Real>(
    s: Seq<T>,
    e: Seq<T>,
    v: spec_fn(int, int) -> T,
    f: T,
    k: int,
    p: int,
)
    requires
        exact_arithmetic::<T>(),
        0 <= k,
        k + 1 <= p - 2,
        k + 1 < s.len(),
        k < e.len(),
        hypot_of(s[k + 1], f) != T::spec_zero(),
    ensures
        ({
            let r = deflation(s, e, v, f, k, p, k + 1);
            forall|i: int|
                #[trigger] r.2(i, k).spec_times(r.0[k]).spec_plus(r.2(i, k + 1).spec_times(r.1[k]))
                    == v(i, k).spec_times(s[k]).spec_plus(v(i, k + 1).spec_times(e[k]))
        }),
{
    reveal_with_fuel(deflation, 3);
    let j = k + 1;
    let t = hypot_of(s[j], f);
    let cs = s[j].spec_over(t);
    let sn = f.spec_over(t);
    let s1 = s.update(j, t);
    let e1 = e.update(k, cs.spec_times(e[k]));
    let v1 = crate::matrix::rotation(v, j, p - 1, cs, sn);
    let f1 = sn.spec_negate().spec_times(e[k]);
    let r = deflation(s, e, v, f, k, p, j);
    assert(r == deflation(s1, e1, v1, f1, k, p, k));
    assert(r.1[k] == e1[k]);
    assert(r.0[k] == hypot_of(s[k], f1));
    assert forall|i: int|
        #[trigger] r.2(i, k).spec_times(r.0[k]).spec_plus(r.2(i, k + 1).spec_times(r.1[k]))
            == v(i, k).spec_times(s[k]).spec_plus(v(i, k + 1).spec_times(e[k])) by {
        lemma_rotation_absorbs(v1, k, p - 1, s[k], f1, i);
        lemma_rotation_returns(v, j, p - 1, s[j], f, e[k], i);
        assert(r.2(i, k + 1) == v1(i, k + 1));
        assert(v1(i, k) == v(i, k));
        let a = v(i, k).spec_times(s[k]);
        let w = v1(i, p - 1).spec_times(f1);
        let x = v1(i, k + 1).spec_times(cs.spec_times(e[k]));
        exact_plus_assoc(a, w, x);
        exact_plus_comm(w, x);
    }
}


/// Column c of (s2, U2, V2) is column c2 of (s, U, V): the same singular
/// value and the same columns of U and V.
pub open spec fn carries<T>(
    s2: Seq<T>,
    u2: spec_fn(int, int) -> T,
    v2: spec_fn(int, int) -> T,
    c: int,
    s: Seq<T>,
    u: spec_fn(int, int) -> T,
    v: spec_fn(int, int) -> T,
    c2: int,
) -> bool {
    &&& s2[c] == s[c2]
    &&& forall|i: int| #[trigger] u2(i, c) == u(i, c2)
    &&& forall|i: int| #[trigger] v2(i, c) == v(i, c2)
}

/// Column c of (s2, U2, V2) is one of the `n` columns of (s, U, V).
pub open spec fn comes_from<T>(
    s2: Seq<T>,
    u2: spec_fn(int, int) -> T,
    v2: spec_fn(int, int) -> T,
    c: int,
    s: Seq<T>,
    u: spec_fn(int, int) -> T,
    v: spec_fn(int, int) -> T,
    n: int,
) -> bool {
    exists|c2: int| 0 <= c2 < n && #[trigger] carries(s2, u2, v2, c, s, u, v, c2)
}

/// Ordering the singular values moves each one together with its columns of
/// U and V: every column of the result is some column of the input, value
/// and singular vectors alike (for a matrix with at least as many rows as
/// columns, where every exchange takes in both U and V).
pub proof fn law_ordering_moves_columns_together<T: Real>(
    s: Seq<T>,
    u: spec_fn(int, int) -> T,
    v: spec_fn(int, int) -> T,
    k: int,
    pp: int,
    m: int,
    n: int,
)
    requires
        0 <= k,
        pp + 1 <= n <= m,
        s.len() == n,
    ensures
        ({
            let r = ordering(s, u, v, k, pp, m, n);
            &&& r.0.len() == n
            &&& forall|c: int| 0 <= c < n ==> #[trigger] comes_from(r.0, r.1, r.2, c, s, u, v, n)
        }),
    decreases pp - k,
{
    let r = ordering(s, u, v, k, pp, m, n);
    if k >= pp || s[k + 1].spec_less_eq(s[k]) {
        assert forall|c: int| 0 <= c < n implies comes_from(r.0, r.1, r.2, c, s, u, v, n) by {
            assert(carries(r.0, r.1, r.2, c, s, u, v, c));
        }
    } else {
        let s1 = s.update(k, s[k + 1]).update(k + 1, s[k]);
        let u1 = crate::matrix::swapped(u, k, k + 1);
        let v1 = crate::matrix::swapped(v, k, k + 1);
        assert(r == ordering(s1, u1, v1, k + 1, pp, m, n));
        law_ordering_moves_columns_together(s1, u1, v1, k + 1, pp, m, n);
        assert forall|c: int| 0 <= c < n implies comes_from(r.0, r.1, r.2, c, s, u, v, n) by {
            assert(comes_from(r.0, r.1, r.2, c, s1, u1, v1, n));
            let c1 = choose|c1: int| 0 <= c1 < n && #[trigger] carries(r.0, r.1, r.2, c, s1, u1, v1, c1);
            let c2 = if c1 == k {
                k + 1
            } else if c1 == k + 1 {
                k
            } else {
                c1
            };
            assert(carries(r.0, r.1, r.2, c, s, u, v, c2));
        }
    }
}


/// The rotation from the right in a step of the QR chase keeps the product
/// of the bidiagonal form and V' in row j - 1: with e[j-1] = f standing in
/// column j and the bulge g in column j + 1 of that row, V[i][j] * f +
/// V[i][j+1] * g becomes V'[i][j] * e'[j-1], for every row i, and the bulge
/// is gone.
pub proof fn law_qr_rotation_keeps_row<T: Real>(
    s: Seq<T>,
    e: Seq<T>,
    u: spec_fn(int, int) -> T,
    v: spec_fn(int, int) -> T,
    f: T,
    g: T,
    k: int,
    m: int,
    j: int,
)
    requires
        exact_arithmetic::<T>(),
        0 <= k < j,
        j + 1 < s.len(),
        j + 1 < e.len(),
    ensures
        ({
            let r = qr_chase(s, e, u, v, f, g, k, j + 2, m, j);
            forall|i: int|
                #[trigger] r.3(i, j).spec_times(r.1[j - 1]) == v(i, j).spec_times(f).spec_plus(
                    v(i, j + 1).spec_times(g),
                )
        }),
{
    reveal_with_fuel(qr_chase, 2);
    let r = qr_chase(s, e, u, v, f, g, k, j + 2, m, j);
    assert(r.1[j - 1] == hypot_of(f, g));
    assert forall|i: int| #[trigger] r.3(i, j).spec_times(r.1[j - 1]) == v(i, j).spec_times(f).spec_plus(
        v(i, j + 1).spec_times(g),
    ) by {
        lemma_rotation_absorbs(v, j, j + 1, f, g, i);
    }
}

} // verus!
