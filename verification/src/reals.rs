//! Products and quotients of real numbers.

use vstd::prelude::*;

verus! {

/// A product is at most that of a larger factor.
pub proof fn lemma_mul_order(a: real, b: real, c: real)
    requires
        a <= b,
        c >= 0 as real,
    ensures
        a * c <= b * c,
        c * a <= c * b,
{
    assert(a * c <= b * c && c * a <= c * b) by (nonlinear_arith)
        requires
            a <= b,
            c >= 0 as real,
    ;
}

/// A product is no less than zero.
pub proof fn lemma_mul_nonnegative(a: real, b: real)
    requires
        a >= 0 as real,
        b >= 0 as real,
    ensures
        a * b >= 0 as real,
{
    assert(a * b >= 0 as real) by (nonlinear_arith)
        requires
            a >= 0 as real,
            b >= 0 as real,
    ;
}

/// A product with a sum.
pub proof fn lemma_mul_sum(a: real, b: real, c: real)
    ensures
        a * (b + c) == a * b + a * c,
        (b + c) * a == b * a + c * a,
        a * (b - c) == a * b - a * c,
        (b - c) * a == b * a - c * a,
{
    assert(a * (b + c) == a * b + a * c && (b + c) * a == b * a + c * a && a * (b - c) == a * b - a
        * c && (b - c) * a == b * a - c * a) by (nonlinear_arith);
}

/// Factors may be reordered.
pub proof fn lemma_mul_reorder(a: real, b: real, c: real)
    ensures
        a * b == b * a,
        a * (b * c) == (a * b) * c,
        a * (b * c) == b * (a * c),
{
    assert(a * b == b * a && a * (b * c) == (a * b) * c && a * (b * c) == b * (a * c))
        by (nonlinear_arith);
}

/// A quotient times its divisor.
pub proof fn lemma_quotient(a: real, b: real)
    requires
        b > 0 as real,
    ensures
        (a / b) * b == a,
        b * (a / b) == a,
{
    let q = a / b;
    assert(q * b == a && b * q == a) by (nonlinear_arith)
        requires
            q == a / b,
            b > 0 as real,
    ;
}

} // verus!
