//! Numbers whose arithmetic is exact.
//!
//! A formula is easiest to tell right from wrong where nothing is rounded. The laws of the library's
//! formulas are stated for numbers that stand for real numbers and calculate as these do; in
//! floating point they hold as far as it comes close to that.

use vstd::prelude::*;

use crate::number::{
    at_least, below, difference_of, greater_of, lesser_of, product_of, quotient_of, ratio_of,
    sum_of, whole_of, Number,
};

verus! {

/// The product of two real numbers.
#[verifier::opaque]
pub open spec fn prod(a: real, b: real) -> real {
    a * b
}

/// The numbers stand for the real numbers `val`, and calculate and compare as these do.
#[verifier::opaque]
pub open spec fn exact<R: Number>(val: spec_fn(R) -> real) -> bool {
    &&& forall|n: usize| val(#[trigger] whole_of::<R>(n)) == n as int as real
    &&& forall|n: u32, d: u32|
        d > 0 ==> prod(val(#[trigger] ratio_of::<R>(n, d)), d as int as real) == n as int as real
    &&& forall|a: R, b: R| val(#[trigger] sum_of(a, b)) == val(a) + val(b)
    &&& forall|a: R, b: R| val(#[trigger] difference_of(a, b)) == val(a) - val(b)
    &&& forall|a: R, b: R| val(#[trigger] product_of(a, b)) == prod(val(a), val(b))
    &&& forall|a: R, b: R|
        val(b) != 0real ==> prod(val(#[trigger] quotient_of(a, b)), val(b)) == val(a)
    &&& forall|a: R, b: R| #[trigger] at_least(a, b) <==> val(a) >= val(b)
    &&& forall|a: R, b: R| #[trigger] below(a, b) <==> val(a) < val(b)
    &&& forall|a: R, b: R|
        val(#[trigger] greater_of(a, b)) == if val(a) >= val(b) {
            val(a)
        } else {
            val(b)
        }
    &&& forall|a: R, b: R|
        val(#[trigger] lesser_of(a, b)) == if val(a) <= val(b) {
            val(a)
        } else {
            val(b)
        }
}

/// What comes of two numbers.
pub proof fn lemma_exact<R: Number>(val: spec_fn(R) -> real, a: R, b: R)
    requires
        exact(val),
    ensures
        val(sum_of(a, b)) == val(a) + val(b),
        val(difference_of(a, b)) == val(a) - val(b),
        val(product_of(a, b)) == prod(val(a), val(b)),
        val(b) != 0real ==> prod(val(quotient_of(a, b)), val(b)) == val(a),
        at_least(a, b) <==> val(a) >= val(b),
        below(a, b) <==> val(a) < val(b),
        val(greater_of(a, b)) == if val(a) >= val(b) {
            val(a)
        } else {
            val(b)
        },
        val(lesser_of(a, b)) == if val(a) <= val(b) {
            val(a)
        } else {
            val(b)
        },
{
    reveal(exact);
}

/// What a whole number stands for.
pub proof fn lemma_exact_whole<R: Number>(val: spec_fn(R) -> real, n: usize)
    requires
        exact(val),
    ensures
        val(whole_of::<R>(n)) == n as int as real,
{
    reveal(exact);
}

/// What a ratio stands for.
pub proof fn lemma_exact_ratio<R: Number>(val: spec_fn(R) -> real, n: u32, d: u32)
    requires
        exact(val),
        d > 0,
    ensures
        prod(val(ratio_of::<R>(n, d)), d as int as real) == n as int as real,
{
    reveal(exact);
}

proof fn lemma_order_raw(a: real, b: real, c: real)
    by (nonlinear_arith)
    requires
        a <= b,
        0real <= c,
    ensures
        a * c <= b * c,
        c * a <= c * b,
{
}

/// Multiplication with a number that is not negative keeps the order.
pub proof fn lemma_prod_order(a: real, b: real, c: real)
    requires
        a <= b,
        0real <= c,
    ensures
        prod(a, c) <= prod(b, c),
        prod(c, a) <= prod(c, b),
{
    reveal(prod);
    lemma_order_raw(a, b, c);
}

proof fn lemma_positive_raw(a: real, b: real)
    by (nonlinear_arith)
    requires
        0real < a,
        0real < b,
    ensures
        0real < a * b,
{
}

/// The product of positive numbers is positive.
pub proof fn lemma_prod_positive(a: real, b: real)
    requires
        0real < a,
        0real < b,
    ensures
        0real < prod(a, b),
{
    reveal(prod);
    lemma_positive_raw(a, b);
}

proof fn lemma_cancel_raw(a: real, b: real, c: real)
    by (nonlinear_arith)
    requires
        0real < c,
        a * c <= b * c,
    ensures
        a <= b,
{
}

/// A positive factor can be taken off.
pub proof fn lemma_prod_cancel(a: real, b: real, c: real)
    requires
        0real < c,
        prod(a, c) <= prod(b, c),
    ensures
        a <= b,
{
    reveal(prod);
    lemma_cancel_raw(a, b, c);
}

proof fn lemma_units_raw(a: real)
    by (nonlinear_arith)
    ensures
        0real * a == 0real,
        a * 0real == 0real,
        1real * a == a,
        a * 1real == a,
{
}

/// Zero times anything is zero, and once a number is that number.
pub proof fn lemma_prod_units(a: real)
    ensures
        prod(0real, a) == 0real,
        prod(a, 0real) == 0real,
        prod(1real, a) == a,
        prod(a, 1real) == a,
{
    reveal(prod);
    lemma_units_raw(a);
}

proof fn lemma_ring_raw(a: real, b: real, c: real)
    by (nonlinear_arith)
    ensures
        a * b == b * a,
        (a + b) * c == a * c + b * c,
        (a - b) * c == a * c - b * c,
{
}

/// Factors can be swapped, and sums and differences multiplied term by term.
pub proof fn lemma_prod_ring(a: real, b: real, c: real)
    ensures
        prod(a, b) == prod(b, a),
        prod(a + b, c) == prod(a, c) + prod(b, c),
        prod(a - b, c) == prod(a, c) - prod(b, c),
        prod(c, a + b) == prod(c, a) + prod(c, b),
        prod(c, a - b) == prod(c, a) - prod(c, b),
{
    reveal(prod);
    lemma_ring_raw(a, b, c);
    lemma_ring_raw(a, c, b);
    lemma_ring_raw(b, c, a);
    lemma_ring_raw(a + b, c, a);
    lemma_ring_raw(a - b, c, a);
}

proof fn lemma_square_raw(a: real)
    by (nonlinear_arith)
    ensures
        0real <= a * a,
        (0real - a) * (0real - a) == a * a,
        a * a <= 0real ==> a == 0real,
{
}

/// Squares are not negative, those of opposite numbers are the same, and only zero has none.
pub proof fn lemma_prod_square(a: real)
    ensures
        0real <= prod(a, a),
        prod(0real - a, 0real - a) == prod(a, a),
        prod(a, a) == 0real <==> a == 0real,
{
    reveal(prod);
    lemma_square_raw(a);
    lemma_units_raw(a);
}

proof fn lemma_assoc_raw(a: real, b: real, c: real)
    by (nonlinear_arith)
    ensures
        (a * b) * c == a * (b * c),
{
}

/// Three factors can be grouped either way.
pub proof fn lemma_prod_assoc(a: real, b: real, c: real)
    ensures
        prod(prod(a, b), c) == prod(a, prod(b, c)),
{
    reveal(prod);
    lemma_assoc_raw(a, b, c);
}

} // verus!
