//! Vectors and matrices of three dimensions over singles.
//!
//! Sums of products are accumulated from the left, term by term, each
//! product and each sum rounded once.
use crate::single::Single;
use vstd::prelude::*;

verus! {

/// A vector of three components, `x` first.
pub type Vector3 = [Single; 3];

/// A three-by-three matrix, as its rows.
pub type Matrix3 = [[Single; 3]; 3];

/// `a1 * b1 + a2 * b2 + a3 * b3`.
pub open spec fn sum_of_products(
    a1: Single,
    b1: Single,
    a2: Single,
    b2: Single,
    a3: Single,
    b3: Single,
) -> Single {
    a1.times(b1).plus(a2.times(b2)).plus(a3.times(b3))
}

/// The inner product of two vectors.
pub open spec fn dot(a: Vector3, b: Vector3) -> Single {
    sum_of_products(a[0], b[0], a[1], b[1], a[2], b[2])
}

/// The vector product of two vectors.
pub open spec fn cross(a: Vector3, b: Vector3) -> Vector3 {
    [
        a[1].times(b[2]).minus(a[2].times(b[1])),
        a[2].times(b[0]).minus(a[0].times(b[2])),
        a[0].times(b[1]).minus(a[1].times(b[0])),
    ]
}

/// Column `j` of a matrix.
pub open spec fn column(m: Matrix3, j: int) -> Vector3 {
    [m[0][j], m[1][j], m[2][j]]
}

/// Entry `(i, j)` of the product of two matrices: row `i` of the first
/// times column `j` of the second.
pub open spec fn product_entry(a: Matrix3, b: Matrix3, i: int, j: int) -> Single {
    dot(a[i], column(b, j))
}

/// The product of two matrices.
pub open spec fn matrix_product(a: Matrix3, b: Matrix3) -> Matrix3 {
    [
        [product_entry(a, b, 0, 0), product_entry(a, b, 0, 1), product_entry(a, b, 0, 2)],
        [product_entry(a, b, 1, 0), product_entry(a, b, 1, 1), product_entry(a, b, 1, 2)],
        [product_entry(a, b, 2, 0), product_entry(a, b, 2, 1), product_entry(a, b, 2, 2)],
    ]
}

/// Computes `a1 * b1 + a2 * b2 + a3 * b3`.
pub fn multiply_add(a1: Single, b1: Single, a2: Single, b2: Single, a3: Single, b3: Single) -> (r:
    Single)
    ensures
        r == sum_of_products(a1, b1, a2, b2, a3, b3),
{
    a1.mul(b1).add(a2.mul(b2)).add(a3.mul(b3))
}

/// Computes the inner product of two vectors.
pub fn inner(a: &Vector3, b: &Vector3) -> (r: Single)
    ensures
        r == dot(*a, *b),
{
    multiply_add(a[0], b[0], a[1], b[1], a[2], b[2])
}

/// Computes the vector product of two vectors.
pub fn outer(a: &Vector3, b: &Vector3) -> (r: Vector3)
    ensures
        r == cross(*a, *b),
{
    [
        a[1].mul(b[2]).sub(a[2].mul(b[1])),
        a[2].mul(b[0]).sub(a[0].mul(b[2])),
        a[0].mul(b[1]).sub(a[1].mul(b[0])),
    ]
}

/// Computes one entry of the product of two matrices.
fn entry(a: &Matrix3, b: &Matrix3, i: usize, j: usize) -> (r: Single)
    requires
        i < 3,
        j < 3,
    ensures
        r == product_entry(*a, *b, i as int, j as int),
{
    let col: Vector3 = [b[0][j], b[1][j], b[2][j]];
    inner(&a[i], &col)
}

/// Computes the product of two matrices.
pub fn multiply(a: &Matrix3, b: &Matrix3) -> (r: Matrix3)
    ensures
        r == matrix_product(*a, *b),
{
    [
        [entry(a, b, 0, 0), entry(a, b, 0, 1), entry(a, b, 0, 2)],
        [entry(a, b, 1, 0), entry(a, b, 1, 1), entry(a, b, 1, 2)],
        [entry(a, b, 2, 0), entry(a, b, 2, 1), entry(a, b, 2, 2)],
    ]
}

} // verus!
