use svd::{Matrix, Real};

#[derive(Clone, Copy, Debug, PartialEq)]
struct I(i64);

/// Integer arithmetic, enough to build matrices with.
impl Real for I {
    // The spec functions name the same computations as the methods below.
    fn spec_zero() -> Self {
        Self::zero()
    }
    fn spec_one() -> Self {
        Self::one()
    }
    fn spec_from_usize(n: usize) -> Self {
        Self::from_usize(n)
    }
    fn spec_plus(self, other: Self) -> Self {
        self.plus(other)
    }
    fn spec_minus(self, other: Self) -> Self {
        self.minus(other)
    }
    fn spec_times(self, other: Self) -> Self {
        self.times(other)
    }
    fn spec_over(self, other: Self) -> Self {
        self.over(other)
    }
    fn spec_larger(self, other: Self) -> Self {
        self.larger(other)
    }
    fn spec_negate(self) -> Self {
        self.negate()
    }
    fn spec_abs(self) -> Self {
        self.abs()
    }
    fn spec_sqrt(self) -> Self {
        self.sqrt()
    }
    fn spec_less(self, other: Self) -> bool {
        self.less(other)
    }
    fn spec_less_eq(self, other: Self) -> bool {
        self.less_eq(other)
    }
    fn spec_is_zero(self) -> bool {
        self.is_zero()
    }

    fn zero() -> Self {
        I(0)
    }
    fn one() -> Self {
        I(1)
    }
    fn from_usize(n: usize) -> Self {
        I(n as i64)
    }
    fn plus(self, other: Self) -> Self {
        I(self.0 + other.0)
    }
    fn minus(self, other: Self) -> Self {
        I(self.0 - other.0)
    }
    fn times(self, other: Self) -> Self {
        I(self.0 * other.0)
    }
    fn over(self, other: Self) -> Self {
        I(self.0 / other.0)
    }
    fn negate(self) -> Self {
        I(-self.0)
    }
    fn abs(self) -> Self {
        I(self.0.abs())
    }
    fn sqrt(self) -> Self {
        I((self.0 as f64).sqrt() as i64)
    }
    fn larger(self, other: Self) -> Self {
        I(self.0.max(other.0))
    }
    fn less(self, other: Self) -> bool {
        self.0 < other.0
    }
    fn less_eq(self, other: Self) -> bool {
        self.0 <= other.0
    }
    fn is_zero(self) -> bool {
        self.0 == 0
    }
}

#[test]
fn new_get_and_set() {
    let mut m = Matrix::new(2, 3, vec![1, 2, 3, 4, 5, 6]);
    assert_eq!(m.rows(), 2);
    assert_eq!(m.cols(), 3);
    assert_eq!(m.get(1, 0), 4);
    assert_eq!(m.get(0, 2), 3);
    m.set(1, 2, 60);
    assert_eq!(m.get_data(), &vec![1, 2, 3, 4, 5, 60]);
}

#[test]
fn transpose() {
    let m = Matrix::new(2, 3, vec![1, 2, 3, 4, 5, 6]);
    let t = m.t();
    assert_eq!((t.rows(), t.cols()), (3, 2));
    assert_eq!(t.get_data(), &vec![1, 4, 2, 5, 3, 6]);
    let tt = t.t();
    assert_eq!((tt.rows(), tt.cols()), (2, 3));
    assert_eq!(tt.get_data(), m.get_data());
}

#[test]
fn zero_matrix() {
    let z: Matrix<I> = Matrix::zero(2, 2);
    assert_eq!(z.get_data(), &vec![I(0); 4]);
}

#[test]
fn block_diag() {
    let d = Matrix::block_diag(2, 3, vec![I(7), I(8)]);
    assert_eq!((d.rows(), d.cols()), (2, 3));
    assert_eq!(d.get_data(), &vec![I(7), I(0), I(0), I(0), I(8), I(0)]);
    let d = Matrix::block_diag(3, 2, vec![I(7), I(8)]);
    assert_eq!(d.get_data(), &vec![I(7), I(0), I(0), I(8), I(0), I(0)]);
}
