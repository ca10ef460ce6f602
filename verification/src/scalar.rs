use vstd::prelude::*;

verus! {

/// The arithmetic that the decomposition needs from its element type.
///
/// Each operation is named twice: an executable method and a spec function
/// of the same operands. The one claim an implementation makes is that the
/// method returns what the spec function names, that is, that its result is
/// a function of its operands alone. Nothing is assumed of what that function
/// is: no law of arithmetic or of order. (For IEEE floats the claim holds
/// except for the bit pattern of a NaN result, which the standard leaves open.)
///
/// The names follow the operators: `plus` is `+`, `minus` is `-`, `times`
/// is `*`, `over` is `/`, `negate` is unary `-`, `less` is `<`, `less_eq` is
/// `<=`, `is_zero` is `== 0`, and `larger` is the maximum of two values that
/// ignores a NaN argument.
pub trait Real: Copy {
    spec fn spec_zero() -> Self;

    spec fn spec_one() -> Self;

    spec fn spec_from_usize(n: usize) -> Self;

    spec fn spec_plus(self, other: Self) -> Self;

    spec fn spec_minus(self, other: Self) -> Self;

    spec fn spec_times(self, other: Self) -> Self;

    spec fn spec_over(self, other: Self) -> Self;

    spec fn spec_negate(self) -> Self;

    spec fn spec_abs(self) -> Self;

    spec fn spec_sqrt(self) -> Self;

    spec fn spec_larger(self, other: Self) -> Self;

    spec fn spec_less(self, other: Self) -> bool;

    spec fn spec_less_eq(self, other: Self) -> bool;

    spec fn spec_is_zero(self) -> bool;

    /// The additive identity.
    fn zero() -> (r: Self)
        ensures
            r == Self::spec_zero(),
    ;

    /// The multiplicative identity.
    fn one() -> (r: Self)
        ensures
            r == Self::spec_one(),
    ;

    /// The value nearest to `n`.
    fn from_usize(n: usize) -> (r: Self)
        ensures
            r == Self::spec_from_usize(n),
    ;

    fn plus(self, other: Self) -> (r: Self)
        ensures
            r == self.spec_plus(other),
    ;

    fn minus(self, other: Self) -> (r: Self)
        ensures
            r == self.spec_minus(other),
    ;

    fn times(self, other: Self) -> (r: Self)
        ensures
            r == self.spec_times(other),
    ;

    fn over(self, other: Self) -> (r: Self)
        ensures
            r == self.spec_over(other),
    ;

    fn negate(self) -> (r: Self)
        ensures
            r == self.spec_negate(),
    ;

    fn abs(self) -> (r: Self)
        ensures
            r == self.spec_abs(),
    ;

    fn sqrt(self) -> (r: Self)
        ensures
            r == self.spec_sqrt(),
    ;

    fn larger(self, other: Self) -> (r: Self)
        ensures
            r == self.spec_larger(other),
    ;

    fn less(self, other: Self) -> (r: bool)
        ensures
            r == self.spec_less(other),
    ;

    fn less_eq(self, other: Self) -> (r: bool)
        ensures
            r == self.spec_less_eq(other),
    ;

    fn is_zero(self) -> (r: bool)
        ensures
            r == self.spec_is_zero(),
    ;
}

/// `sqrt(a^2 + b^2)` as `hypot` computes it: the larger magnitude times
/// `sqrt(1 + r^2)`, `r` the ratio of the smaller to the larger.
pub open spec fn hypot_of<T: Real>(a: T, b: T) -> T {
    if b.spec_abs().spec_less(a.spec_abs()) {
        let r = b.spec_over(a);
        a.spec_abs().spec_times(T::spec_one().spec_plus(r.spec_times(r)).spec_sqrt())
    } else if !b.spec_is_zero() {
        let r = a.spec_over(b);
        b.spec_abs().spec_times(T::spec_one().spec_plus(r.spec_times(r)).spec_sqrt())
    } else {
        T::spec_zero()
    }
}

/// One halved `k` times.
pub open spec fn halvings<T: Real>(k: nat) -> T
    decreases k,
{
    if k == 0 {
        T::spec_one()
    } else {
        halvings::<T>((k - 1) as nat).spec_over(T::spec_one().spec_plus(T::spec_one()))
    }
}

/// `sqrt(a^2 + b^2)`, computed without needless overflow or underflow.
pub fn hypot<T: Real>(a: T, b: T) -> (r: T)
    ensures
        r == hypot_of(a, b),
{
    if b.abs().less(a.abs()) {
        let r = b.over(a);
        a.abs().times(T::one().plus(r.times(r)).sqrt())
    } else if !b.is_zero() {
        let r = a.over(b);
        b.abs().times(T::one().plus(r.times(r)).sqrt())
    } else {
        T::zero()
    }
}

/// `2^-k`, as `k` halvings of one (exact in binary floating point down to
/// the subnormal range).
pub fn pow2_neg<T: Real>(k: usize) -> (r: T)
    ensures
        r == halvings::<T>(k as nat),
{
    let two = T::one().plus(T::one());
    let mut r = T::one();
    let mut i: usize = 0;
    while i < k
        invariant
            i <= k,
            two == T::spec_one().spec_plus(T::spec_one()),
            r == halvings::<T>(i as nat),
        decreases k - i,
    {
        r = r.over(two);
        i = i + 1;
    }
    r
}

/// The element type computes exactly, as the real numbers do: `+` and `*`
/// make a commutative ring with `-` as additive inverse, `/` undoes `*` by a
/// non-zero value, `<` and `<=` agree on signs, and `hypot` is
/// `sqrt(a^2 + b^2)`, zero only at the origin.
///
/// Floating point meets none of this exactly; the laws of this library that
/// speak of products of U, S and V are stated for element types that do.
#[verifier::opaque]
pub open spec fn exact_arithmetic<T: Real>() -> bool {
    &&& forall|a: T, b: T| #[trigger] a.spec_plus(b) == b.spec_plus(a)
    &&& forall|a: T, b: T, c: T| #[trigger] a.spec_plus(b).spec_plus(c) == a.spec_plus(b.spec_plus(c))
    &&& forall|a: T| #[trigger] a.spec_plus(T::spec_zero()) == a
    &&& forall|a: T| #[trigger] a.spec_plus(a.spec_negate()) == T::spec_zero()
    &&& forall|a: T, b: T| #[trigger] a.spec_times(b) == b.spec_times(a)
    &&& forall|a: T, b: T, c: T| #[trigger] a.spec_times(b).spec_times(c) == a.spec_times(b.spec_times(c))
    &&& forall|a: T| #[trigger] a.spec_times(T::spec_one()) == a
    &&& forall|a: T| #[trigger] a.spec_times(T::spec_zero()) == T::spec_zero()
    &&& forall|a: T, b: T, c: T| #[trigger] a.spec_times(b.spec_plus(c)) == a.spec_times(b).spec_plus(a.spec_times(c))
    &&& forall|a: T, b: T| #[trigger] a.spec_negate().spec_times(b) == a.spec_times(b).spec_negate()
    &&& forall|a: T| #[trigger] a.spec_negate().spec_negate() == a
    &&& forall|a: T, b: T| #[trigger] a.spec_minus(b) == a.spec_plus(b.spec_negate())
    &&& forall|a: T, b: T| b != T::spec_zero() ==> #[trigger] a.spec_over(b).spec_times(b) == a
    &&& T::spec_zero() != T::spec_one()
    &&& forall|a: T| !(#[trigger] a.spec_less(T::spec_zero())) && a.spec_less_eq(T::spec_zero()) ==> a == T::spec_zero()
    &&& forall|a: T| #[trigger] a.spec_less(T::spec_zero()) ==> !a.spec_negate().spec_less(T::spec_zero())
    &&& !T::spec_zero().spec_less(T::spec_zero())
    &&& forall|a: T| #[trigger] a.spec_less(T::spec_zero()) ==> a.spec_less_eq(T::spec_zero())
    &&& forall|a: T, b: T|
        #[trigger] hypot_of(a, b).spec_times(hypot_of(a, b)) == a.spec_times(a).spec_plus(b.spec_times(b))
    &&& forall|a: T, b: T| #[trigger] hypot_of(a, b) == T::spec_zero() ==> a == T::spec_zero() && b == T::spec_zero()
}

/// Instances of `exact_arithmetic`, one law each.
pub proof fn exact_plus_comm<T: Real>(a: T, b: T)
    requires
        exact_arithmetic::<T>(),
    ensures
        a.spec_plus(b) == b.spec_plus(a),
{
    reveal(exact_arithmetic);
}

pub proof fn exact_plus_zero<T: Real>(a: T)
    requires
        exact_arithmetic::<T>(),
    ensures
        a.spec_plus(T::spec_zero()) == a,
{
    reveal(exact_arithmetic);
}

pub proof fn exact_plus_assoc<T: Real>(a: T, b: T, c: T)
    requires
        exact_arithmetic::<T>(),
    ensures
        a.spec_plus(b).spec_plus(c) == a.spec_plus(b.spec_plus(c)),
{
    reveal(exact_arithmetic);
}

pub proof fn exact_plus_negate<T: Real>(a: T)
    requires
        exact_arithmetic::<T>(),
    ensures
        a.spec_plus(a.spec_negate()) == T::spec_zero(),
{
    reveal(exact_arithmetic);
}

pub proof fn exact_hypot_square<T: Real>(a: T, b: T)
    requires
        exact_arithmetic::<T>(),
    ensures
        hypot_of(a, b).spec_times(hypot_of(a, b)) == a.spec_times(a).spec_plus(b.spec_times(b)),
{
    reveal(exact_arithmetic);
}

pub proof fn exact_times_comm<T: Real>(a: T, b: T)
    requires
        exact_arithmetic::<T>(),
    ensures
        a.spec_times(b) == b.spec_times(a),
{
    reveal(exact_arithmetic);
}

pub proof fn exact_times_assoc<T: Real>(a: T, b: T, c: T)
    requires
        exact_arithmetic::<T>(),
    ensures
        a.spec_times(b).spec_times(c) == a.spec_times(b.spec_times(c)),
{
    reveal(exact_arithmetic);
}

pub proof fn exact_times_one<T: Real>(a: T)
    requires
        exact_arithmetic::<T>(),
    ensures
        a.spec_times(T::spec_one()) == a,
{
    reveal(exact_arithmetic);
}

pub proof fn exact_times_zero<T: Real>(a: T)
    requires
        exact_arithmetic::<T>(),
    ensures
        a.spec_times(T::spec_zero()) == T::spec_zero(),
{
    reveal(exact_arithmetic);
}

pub proof fn exact_distrib<T: Real>(a: T, b: T, c: T)
    requires
        exact_arithmetic::<T>(),
    ensures
        a.spec_times(b.spec_plus(c)) == a.spec_times(b).spec_plus(a.spec_times(c)),
{
    reveal(exact_arithmetic);
}

pub proof fn exact_negate_times<T: Real>(a: T, b: T)
    requires
        exact_arithmetic::<T>(),
    ensures
        a.spec_negate().spec_times(b) == a.spec_times(b).spec_negate(),
{
    reveal(exact_arithmetic);
}

pub proof fn exact_negate_negate<T: Real>(a: T)
    requires
        exact_arithmetic::<T>(),
    ensures
        a.spec_negate().spec_negate() == a,
{
    reveal(exact_arithmetic);
}

pub proof fn exact_zero_not_one<T: Real>()
    requires
        exact_arithmetic::<T>(),
    ensures
        T::spec_zero() != T::spec_one(),
{
    reveal(exact_arithmetic);
}

pub proof fn exact_less_zero_less_eq<T: Real>(a: T)
    requires
        exact_arithmetic::<T>(),
    ensures
        a.spec_less(T::spec_zero()) ==> a.spec_less_eq(T::spec_zero()),
{
    reveal(exact_arithmetic);
}

pub proof fn exact_less_eq_not_less_zero<T: Real>(a: T)
    requires
        exact_arithmetic::<T>(),
    ensures
        !a.spec_less(T::spec_zero()) && a.spec_less_eq(T::spec_zero()) ==> a == T::spec_zero(),
{
    reveal(exact_arithmetic);
}

pub proof fn exact_negate_not_negative<T: Real>(a: T)
    requires
        exact_arithmetic::<T>(),
    ensures
        a.spec_less(T::spec_zero()) ==> !a.spec_negate().spec_less(T::spec_zero()),
{
    reveal(exact_arithmetic);
}

pub proof fn exact_zero_not_negative<T: Real>()
    requires
        exact_arithmetic::<T>(),
    ensures
        !T::spec_zero().spec_less(T::spec_zero()),
{
    reveal(exact_arithmetic);
}

pub proof fn exact_hypot_zero<T: Real>(a: T, b: T)
    requires
        exact_arithmetic::<T>(),
    ensures
        hypot_of(a, b) == T::spec_zero() ==> a == T::spec_zero() && b == T::spec_zero(),
{
    reveal(exact_arithmetic);
}

pub proof fn exact_over<T: Real>(a: T, b: T)
    requires
        exact_arithmetic::<T>(),
        b != T::spec_zero(),
    ensures
        a.spec_over(b).spec_times(b) == a,
{
    reveal(exact_arithmetic);
}

} // verus!
