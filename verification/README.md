# svd

Singular value decomposition (Golub-Kahan-Reinsch) of dense matrices, verified
with Verus.

- `src/matrix.rs`: `Matrix<T>`, a row-major dense matrix whose shape is a type
  invariant, with its transpose, zero and block-diagonal constructors, the
  column operations the decomposition uses, and the laws of the transpose.
- `src/svd.rs`: `SVD<T>`: the decomposition, its factors and the numerical rank.
  `SVD::new` states U, S and V as `decomposition(a)`, a spec function of A
  built from the stages of the algorithm (reduction to bidiagonal form,
  set-up, generation of U and V, and at most `u64::MAX` passes of the QR
  iteration). S is zero off its diagonal. Every matrix has a decomposition,
  a matrix without rows or columns included. `rank` counts the
  `min(rows, cols)` singular values above its tolerance. For a wide A,
  `lemma_wide_is_transposed_tall` relates the result to that of A'.
- `src/scalar.rs`: `Real`, the arithmetic the decomposition asks of its element
  type. Each operation is paired with a spec function of its operands; no law
  of arithmetic or order is assumed, so no numerical property (A = U*S*V',
  orthogonality, order of the singular values) is stated.
- `app/lib.rs`: `num`'s floats as element type.

The direct method (eigendecomposition of A'A) is not provided: it rests on an
eigendecomposition and a matrix inverse that this crate does not have.
