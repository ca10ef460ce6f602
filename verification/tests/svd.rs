use svd::{Matrix, Real, SVD};

/// `f64` as the element type of the decomposition.
#[derive(Clone, Copy, Debug, PartialEq)]
struct F(f64);

impl Real for F {
    // The spec functions name the same computations as the methods below.
    fn spec_zero() -> Self {
        Self::zero()
    }
    fn spec_one() -> Self {
        Self::one()
    }
    fn spec_from_usize(n: usize) -> Self {
        Self::from_usize(n)
    }
    fn spec_plus(self, other: Self) -> Self {
        self.plus(other)
    }
    fn spec_minus(self, other: Self) -> Self {
        self.minus(other)
    }
    fn spec_times(self, other: Self) -> Self {
        self.times(other)
    }
    fn spec_over(self, other: Self) -> Self {
        self.over(other)
    }
    fn spec_larger(self, other: Self) -> Self {
        self.larger(other)
    }
    fn spec_negate(self) -> Self {
        self.negate()
    }
    fn spec_abs(self) -> Self {
        self.abs()
    }
    fn spec_sqrt(self) -> Self {
        self.sqrt()
    }
    fn spec_less(self, other: Self) -> bool {
        self.less(other)
    }
    fn spec_less_eq(self, other: Self) -> bool {
        self.less_eq(other)
    }
    fn spec_is_zero(self) -> bool {
        self.is_zero()
    }

    fn zero() -> Self {
        F(0.0)
    }
    fn one() -> Self {
        F(1.0)
    }
    fn from_usize(n: usize) -> Self {
        F(n as f64)
    }
    fn plus(self, other: Self) -> Self {
        F(self.0 + other.0)
    }
    fn minus(self, other: Self) -> Self {
        F(self.0 - other.0)
    }
    fn times(self, other: Self) -> Self {
        F(self.0 * other.0)
    }
    fn over(self, other: Self) -> Self {
        F(self.0 / other.0)
    }
    fn negate(self) -> Self {
        F(-self.0)
    }
    fn abs(self) -> Self {
        F(self.0.abs())
    }
    fn sqrt(self) -> Self {
        F(self.0.sqrt())
    }
    fn larger(self, other: Self) -> Self {
        F(self.0.max(other.0))
    }
    fn less(self, other: Self) -> bool {
        self.0 < other.0
    }
    fn less_eq(self, other: Self) -> bool {
        self.0 <= other.0
    }
    fn is_zero(self) -> bool {
        self.0 == 0.0
    }
}

fn mat(rows: usize, cols: usize, entries: &[f64]) -> Matrix<F> {
    Matrix::new(rows, cols, entries.iter().map(|&x| F(x)).collect())
}

fn mul(a: &Matrix<F>, b: &Matrix<F>) -> Matrix<F> {
    assert_eq!(a.cols(), b.rows());
    let mut data = Vec::new();
    for i in 0..a.rows() {
        for j in 0..b.cols() {
            let mut t = 0.0;
            for k in 0..a.cols() {
                t += a.get(i, k).0 * b.get(k, j).0;
            }
            data.push(F(t));
        }
    }
    Matrix::new(a.rows(), b.cols(), data)
}

fn approx_eq(a: &Matrix<F>, b: &Matrix<F>) -> bool {
    if a.rows() != b.rows() || a.cols() != b.cols() {
        return false;
    }
    for i in 0..a.rows() {
        for j in 0..a.cols() {
            if (a.get(i, j).0 - b.get(i, j).0).abs() > 1e-6 {
                return false;
            }
        }
    }
    true
}

fn identity(n: usize) -> Matrix<F> {
    let mut data = Vec::new();
    for i in 0..n {
        for j in 0..n {
            data.push(F(if i == j { 1.0 } else { 0.0 }));
        }
    }
    Matrix::new(n, n, data)
}

fn reconstructs(a: &Matrix<F>) -> bool {
    let svd = SVD::new(a);
    let u = svd.get_u();
    let s = svd.get_s();
    let v = svd.get_v();
    approx_eq(&mul(&mul(u, s), &v.t()), a)
}

#[test]
fn svd_test() {
    let a = mat(3, 3, &[1.0, 2.0, 3.0, 4.0, 5.0, 6.0, 7.0, 8.0, 9.0]);
    let svd = SVD::new(&a);
    let u = svd.get_u();
    let s = svd.get_s();
    let v = svd.get_v();
    assert!(approx_eq(&mul(&mul(u, s), &v.t()), &a));
}

#[test]
fn svd_test_m_over_n() {
    let a = mat(4, 3, &[1.0, 2.0, 3.0, 4.0, 5.0, 6.0, 7.0, 8.0, 9.0, 10.0, 11.0, 12.0]);
    let svd = SVD::new(&a);
    let u = svd.get_u();
    let s = svd.get_s();
    let v = svd.get_v();
    assert!(approx_eq(&mul(&mul(u, s), &v.t()), &a));
}

#[test]
fn svd_test_n_over_m() {
    let a = mat(3, 4, &[1.0, 2.0, 3.0, 4.0, 5.0, 6.0, 7.0, 8.0, 9.0, 10.0, 11.0, 12.0]);
    let svd = SVD::new(&a);
    let u = svd.get_u();
    let s = svd.get_s();
    let v = svd.get_v();
    assert!(approx_eq(&mul(&mul(u, s), &v.t()), &a));
}

#[test]
fn svd_shapes_of_a_tall_matrix() {
    let a = mat(4, 2, &[1.0, 2.0, 3.0, 4.0, 5.0, 6.0, 7.0, 8.0]);
    let svd = SVD::new(&a);
    assert_eq!((svd.get_u().rows(), svd.get_u().cols()), (4, 4));
    assert_eq!((svd.get_s().rows(), svd.get_s().cols()), (4, 2));
    assert_eq!((svd.get_v().rows(), svd.get_v().cols()), (2, 2));
}

#[test]
fn svd_shapes_of_a_wide_matrix() {
    let a = mat(2, 5, &[1.0, 0.0, 2.0, 0.0, 3.0, 4.0, 0.0, 5.0, 0.0, 6.0]);
    let svd = SVD::new(&a);
    assert_eq!((svd.get_u().rows(), svd.get_u().cols()), (2, 2));
    assert_eq!((svd.get_s().rows(), svd.get_s().cols()), (2, 5));
    assert_eq!((svd.get_v().rows(), svd.get_v().cols()), (5, 5));
    assert!(reconstructs(&a));
}

#[test]
fn svd_s_is_zero_off_its_diagonal() {
    for a in [
        mat(3, 3, &[1.0, 2.0, 3.0, 4.0, 5.0, 6.0, 7.0, 8.0, 9.0]),
        mat(4, 3, &[1.0, 2.0, 3.0, 4.0, 5.0, 6.0, 7.0, 8.0, 9.0, 10.0, 11.0, 12.0]),
        mat(3, 4, &[1.0, 2.0, 3.0, 4.0, 5.0, 6.0, 7.0, 8.0, 9.0, 10.0, 11.0, 12.0]),
    ] {
        let svd = SVD::new(&a);
        let s = svd.get_s();
        for i in 0..s.rows() {
            for j in 0..s.cols() {
                if i != j {
                    assert_eq!(s.get(i, j), F(0.0));
                }
            }
        }
    }
}

#[test]
fn svd_singular_values_descend_and_are_non_negative() {
    let a = mat(4, 3, &[2.0, -1.0, 0.5, 3.0, 7.0, -2.0, 0.0, 1.0, 4.0, -6.0, 2.0, 1.0]);
    let svd = SVD::new(&a);
    let s = svd.get_s();
    for k in 0..3 {
        assert!(s.get(k, k).0 >= 0.0);
        if k + 1 < 3 {
            assert!(s.get(k, k).0 >= s.get(k + 1, k + 1).0);
        }
    }
}

#[test]
fn svd_singular_values_of_a_diagonal_matrix() {
    let a = mat(3, 3, &[2.0, 0.0, 0.0, 0.0, -5.0, 0.0, 0.0, 0.0, 3.0]);
    let svd = SVD::new(&a);
    let s = svd.get_s();
    assert!((s.get(0, 0).0 - 5.0).abs() < 1e-12);
    assert!((s.get(1, 1).0 - 3.0).abs() < 1e-12);
    assert!((s.get(2, 2).0 - 2.0).abs() < 1e-12);
    assert!(reconstructs(&a));
}

#[test]
fn svd_u_and_v_are_orthogonal() {
    let a = mat(4, 3, &[1.0, 2.0, 3.0, 4.0, 5.0, 6.0, 7.0, 8.0, 9.0, 10.0, 11.0, 12.0]);
    let svd = SVD::new(&a);
    let u = svd.get_u();
    let v = svd.get_v();
    assert!(approx_eq(&mul(&u.t(), u), &identity(4)));
    assert!(approx_eq(&mul(&v.t(), v), &identity(3)));
}

#[test]
fn svd_of_a_single_entry() {
    let a = mat(1, 1, &[-4.0]);
    let svd = SVD::new(&a);
    assert_eq!(svd.get_s().get(0, 0), F(4.0));
    assert!(reconstructs(&a));
}

#[test]
fn svd_of_a_row_and_of_a_column() {
    let row = mat(1, 3, &[3.0, 0.0, 4.0]);
    let svd = SVD::new(&row);
    assert!((svd.get_s().get(0, 0).0 - 5.0).abs() < 1e-12);
    assert!(reconstructs(&row));
    let col = mat(3, 1, &[3.0, 0.0, 4.0]);
    let svd = SVD::new(&col);
    assert!((svd.get_s().get(0, 0).0 - 5.0).abs() < 1e-12);
    assert!(reconstructs(&col));
}

#[test]
fn svd_of_the_zero_matrix() {
    let a = mat(2, 3, &[0.0; 6]);
    let svd = SVD::new(&a);
    let s = svd.get_s();
    for i in 0..2 {
        for j in 0..3 {
            assert_eq!(s.get(i, j), F(0.0));
        }
    }
    assert!(reconstructs(&a));
}

#[test]
fn rank_of_a_singular_matrix() {
    let a = mat(3, 3, &[1.0, 2.0, 3.0, 4.0, 5.0, 6.0, 7.0, 8.0, 9.0]);
    assert_eq!(SVD::new(&a).rank(), 2);
}

#[test]
fn rank_of_the_identity_and_of_a_wide_matrix() {
    assert_eq!(SVD::new(&identity(4)).rank(), 4);
    let a = mat(2, 4, &[1.0, 2.0, 3.0, 4.0, 2.0, 4.0, 6.0, 8.0]);
    assert_eq!(SVD::new(&a).rank(), 1);
}

#[test]
fn rank_of_the_zero_matrix() {
    let a = mat(2, 2, &[0.0; 4]);
    assert_eq!(SVD::new(&a).rank(), 0);
}

#[test]
fn svd_of_a_wide_matrix_is_that_of_its_transpose() {
    let a = mat(2, 3, &[1.0, 2.0, 3.0, 4.0, 5.0, 6.0]);
    let wide = SVD::new(&a);
    let tall = SVD::new(&a.t());
    assert_eq!(wide.get_u().get_data(), tall.get_v().get_data());
    assert_eq!(wide.get_v().get_data(), tall.get_u().get_data());
    assert_eq!(wide.get_s().get_data(), tall.get_s().t().get_data());
}

#[test]
fn rank_of_a_tall_matrix() {
    let a = mat(4, 3, &[1.0, 2.0, 3.0, 4.0, 5.0, 6.0, 7.0, 8.0, 9.0, 10.0, 11.0, 12.0]);
    assert_eq!(SVD::new(&a).rank(), 2);
}

#[test]
fn svd_of_empty_matrices() {
    let a = mat(3, 0, &[]);
    let svd = SVD::new(&a);
    assert!(approx_eq(svd.get_u(), &identity(3)));
    assert_eq!((svd.get_s().rows(), svd.get_s().cols()), (3, 0));
    assert_eq!((svd.get_v().rows(), svd.get_v().cols()), (0, 0));
    assert_eq!(svd.rank(), 0);
    let b = mat(0, 2, &[]);
    let svd = SVD::new(&b);
    assert_eq!((svd.get_u().rows(), svd.get_u().cols()), (0, 0));
    assert_eq!((svd.get_s().rows(), svd.get_s().cols()), (0, 2));
    assert!(approx_eq(svd.get_v(), &identity(2)));
    let c = mat(0, 0, &[]);
    let svd = SVD::new(&c);
    assert_eq!(svd.get_s().rows(), 0);
    assert_eq!(svd.rank(), 0);
}
