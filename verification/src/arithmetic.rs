//! What arithmetic on numbers keeps: order, zero and one.
//!
//! Nothing of this is needed to run the library. The laws that speak of how results grow with
//! their inputs, or of what undoes what, hold for numbers that keep what is said here. Floating
//! point does, with infinities, NaN and zeros of either sign among its numbers.

use vstd::prelude::*;

use crate::number::{
    at_least, below, ceil_int_of, difference_of, floor_index_of, greater_of, lesser_of, ordered,
    product_of, quotient_of, ratio_of, round_byte_of, round_index_of, sum_of, unit_byte_of,
    whole_of, Number,
};

verus! {

/// The number compares with itself, which all numbers do but NaN.
pub open spec fn comparable<R: Number>(x: R) -> bool {
    at_least(x, x)
}

/// The number is neither infinite nor NaN: its difference from itself compares.
pub open spec fn finite<R: Number>(x: R) -> bool {
    comparable(difference_of(x, x))
}

/// The two numbers are equal in value.
pub open spec fn equal<R: Number>(a: R, b: R) -> bool {
    at_least(a, b) && at_least(b, a)
}

/// Positive infinity.
pub open spec fn unbounded<R: Number>() -> R {
    ratio_of(1, 0)
}

/// Which numbers are finite, and what comes of them.
#[verifier::opaque]
pub open spec fn keeps_finite<R: Number>() -> bool {
    &&& forall|x: R| #[trigger] finite(x) ==> comparable(x)
    &&& forall|n: usize| finite(#[trigger] whole_of::<R>(n))
    &&& forall|n: u32, d: u32| d > 0 ==> finite(#[trigger] ratio_of::<R>(n, d))
    &&& forall|a: R, b: R|
        finite(a) && finite(b) ==> comparable(#[trigger] difference_of(a, b))
    &&& forall|a: R, b: R| finite(a) && finite(b) ==> comparable(#[trigger] sum_of(a, b))
    &&& forall|a: R, b: R| finite(a) && finite(b) ==> comparable(#[trigger] product_of(a, b))
    &&& forall|a: R, d: R|
        finite(a) && finite(d) && below(whole_of::<R>(0), d) ==> comparable(
            #[trigger] quotient_of(a, d),
        )
    &&& forall|a: R, m: R|
        comparable(a) && finite(m) && below(whole_of::<R>(0), m) ==> comparable(
            #[trigger] product_of(a, m),
        )
}

/// Whole numbers and ratios are in the order of what they stand for, and infinity is beyond all
/// finite numbers.
#[verifier::opaque]
pub open spec fn keeps_values<R: Number>() -> bool {
    &&& forall|m: usize, n: usize|
        #![trigger whole_of::<R>(m), whole_of::<R>(n)]
        m <= n ==> at_least(whole_of::<R>(n), whole_of::<R>(m))
    &&& below(whole_of::<R>(0), whole_of::<R>(1))
    &&& forall|n: u32, d: u32|
        0 < n && 0 < d ==> below(whole_of::<R>(0), #[trigger] ratio_of::<R>(n, d))
    &&& comparable(unbounded::<R>())
    &&& comparable(difference_of(whole_of::<R>(0), unbounded::<R>()))
    &&& forall|x: R| #[trigger]
        finite(x) ==> below(x, unbounded::<R>()) && below(
            difference_of(whole_of::<R>(0), unbounded::<R>()),
            x,
        )
}

/// Subtraction, division by a positive number and multiplication with one keep the order.
#[verifier::opaque]
pub open spec fn keeps_order<R: Number>() -> bool {
    &&& forall|a: R, b: R, c: R|
        #![trigger difference_of(a, c), difference_of(b, c)]
        at_least(a, b) && comparable(difference_of(a, c)) && comparable(difference_of(b, c))
            ==> at_least(difference_of(a, c), difference_of(b, c))
    &&& forall|a: R, b: R, c: R|
        #![trigger difference_of(c, a), difference_of(c, b)]
        at_least(a, b) && comparable(difference_of(c, a)) && comparable(difference_of(c, b))
            ==> at_least(difference_of(c, b), difference_of(c, a))
    &&& forall|a: R, b: R, d: R|
        #![trigger quotient_of(a, d), quotient_of(b, d)]
        at_least(a, b) && below(whole_of::<R>(0), d) && comparable(quotient_of(a, d))
            && comparable(quotient_of(b, d)) ==> at_least(quotient_of(a, d), quotient_of(b, d))
    &&& forall|a: R, b: R, m: R|
        #![trigger product_of(a, m), product_of(b, m)]
        at_least(a, b) && below(whole_of::<R>(0), m) && comparable(product_of(a, m))
            && comparable(product_of(b, m)) ==> at_least(product_of(a, m), product_of(b, m))
}

/// Equal numbers differ by zero, zero stays zero when it is divided or multiplied, a number goes
/// into itself once, and one times a number is that number.
#[verifier::opaque]
pub open spec fn keeps_units<R: Number>() -> bool {
    &&& forall|a: R, b: R|
        equal(a, b) && finite(a) && finite(b) ==> equal(
            #[trigger] difference_of(a, b),
            whole_of::<R>(0),
        )
    &&& forall|a: R, d: R|
        equal(a, whole_of::<R>(0)) && below(whole_of::<R>(0), d) ==> equal(
            #[trigger] quotient_of(a, d),
            whole_of::<R>(0),
        )
    &&& forall|a: R, m: R|
        equal(a, whole_of::<R>(0)) && finite(m) ==> equal(
            #[trigger] product_of(a, m),
            whole_of::<R>(0),
        )
    &&& forall|d: R|
        finite(d) && below(whole_of::<R>(0), d) ==> #[trigger] quotient_of(d, d) == whole_of::<R>(1)
    &&& forall|m: R|
        comparable(m) ==> #[trigger] product_of(whole_of::<R>(1), m) == m
}

/// The lesser and the greater of two numbers are one of them.
#[verifier::opaque]
pub open spec fn keeps_extremes<R: Number>() -> bool {
    &&& forall|a: R, b: R|
        #![trigger greater_of(a, b)]
        comparable(a) && comparable(b) ==> (greater_of(a, b) == a || greater_of(a, b) == b)
            && at_least(greater_of(a, b), a) && at_least(greater_of(a, b), b)
    &&& forall|a: R, b: R|
        #![trigger lesser_of(a, b)]
        comparable(a) && comparable(b) ==> (lesser_of(a, b) == a || lesser_of(a, b) == b)
            && at_least(a, lesser_of(a, b)) && at_least(b, lesser_of(a, b))
}

/// Rounding keeps the order, and leaves whole numbers alone that the result can hold.
#[verifier::opaque]
pub open spec fn keeps_rounding<R: Number>() -> bool {
    &&& forall|a: R, b: R| #[trigger] at_least(a, b) ==> round_byte_of(a) >= round_byte_of(b)
    &&& forall|a: R, b: R| #[trigger] at_least(a, b) ==> unit_byte_of(a) >= unit_byte_of(b)
    &&& forall|a: R, b: R| #[trigger] at_least(a, b) ==> floor_index_of(a) >= floor_index_of(b)
    &&& forall|a: R, b: R| #[trigger] at_least(a, b) ==> ceil_int_of(a) >= ceil_int_of(b)
    &&& forall|a: R, b: R| #[trigger] at_least(a, b) ==> round_index_of(a) >= round_index_of(b)
    &&& forall|n: usize| n <= 255 ==> #[trigger] round_byte_of(whole_of::<R>(n)) == n
    &&& unit_byte_of(whole_of::<R>(0)) == 0
    &&& unit_byte_of(whole_of::<R>(1)) == 255
}

/// All of this holds.
pub open spec fn keeps_all<R: Number>() -> bool {
    &&& keeps_finite::<R>()
    &&& keeps_values::<R>()
    &&& keeps_order::<R>()
    &&& keeps_units::<R>()
    &&& keeps_extremes::<R>()
    &&& keeps_rounding::<R>()
}

/// Comparing is transitive, and goes one way or the other.
pub proof fn lemma_order<R: Number>(a: R, b: R, c: R)
    requires
        ordered::<R>(),
    ensures
        at_least(a, b) ==> comparable(a) && comparable(b),
        at_least(a, b) && at_least(b, c) ==> at_least(a, c),
        below(a, b) ==> at_least(b, a) && !at_least(a, b),
        below(a, b) && at_least(c, b) ==> below(a, c),
        at_least(b, a) && below(b, c) ==> below(a, c),
        comparable(a) && comparable(b) && !at_least(a, b) ==> below(a, b),
{
    reveal(ordered);
    if below(a, b) && at_least(c, b) {
        assert(at_least(b, a));
        assert(at_least(c, a));
        if at_least(a, c) {
            assert(at_least(a, b));
        }
    }
    if at_least(b, a) && below(b, c) {
        assert(at_least(c, b));
        assert(at_least(c, a));
        if at_least(a, c) {
            assert(at_least(b, c));
        }
    }
    if comparable(a) && comparable(b) {
        assert(at_least(a, b) || at_least(b, a));
    }
}

/// Finite numbers have comparable differences and sums.
pub proof fn lemma_finite<R: Number>(a: R, b: R)
    requires
        keeps_finite::<R>(),
        finite(a),
        finite(b),
    ensures
        comparable(a),
        comparable(difference_of(a, b)),
        comparable(sum_of(a, b)),
        comparable(product_of(a, b)),
        below(whole_of::<R>(0), b) ==> comparable(quotient_of(a, b)),
{
    reveal(keeps_finite);
}

/// A comparable number has comparable products with positive finite numbers.
pub proof fn lemma_scaled<R: Number>(a: R, m: R)
    requires
        keeps_finite::<R>(),
        comparable(a),
        finite(m),
        below(whole_of::<R>(0), m),
    ensures
        comparable(product_of(a, m)),
{
    reveal(keeps_finite);
}

/// Whole numbers are finite and in order.
pub proof fn lemma_wholes<R: Number>(m: usize, n: usize)
    requires
        ordered::<R>(),
        keeps_finite::<R>(),
        keeps_values::<R>(),
    ensures
        finite(whole_of::<R>(n)),
        m <= n ==> at_least(whole_of::<R>(n), whole_of::<R>(m)),
        0 < n ==> below(whole_of::<R>(0), whole_of::<R>(n)),
{
    reveal(keeps_finite);
    reveal(keeps_values);
    if 0 < n {
        assert(at_least(whole_of::<R>(n), whole_of::<R>(1)));
        lemma_order(whole_of::<R>(0), whole_of::<R>(1), whole_of::<R>(n));
    }
}

/// Ratios of positive numbers are finite and positive.
pub proof fn lemma_ratio<R: Number>(n: u32, d: u32)
    requires
        keeps_finite::<R>(),
        keeps_values::<R>(),
        0 < n,
        0 < d,
    ensures
        finite(ratio_of::<R>(n, d)),
        below(whole_of::<R>(0), ratio_of::<R>(n, d)),
{
    reveal(keeps_finite);
    reveal(keeps_values);
}

/// Subtraction keeps the order.
pub proof fn lemma_difference_order<R: Number>(a: R, b: R, c: R)
    requires
        keeps_order::<R>(),
        at_least(a, b),
    ensures
        comparable(difference_of(a, c)) && comparable(difference_of(b, c)) ==> at_least(
            difference_of(a, c),
            difference_of(b, c),
        ),
        comparable(difference_of(c, a)) && comparable(difference_of(c, b)) ==> at_least(
            difference_of(c, b),
            difference_of(c, a),
        ),
{
    reveal(keeps_order);
}

/// Division by a positive number keeps the order.
pub proof fn lemma_quotient_order<R: Number>(a: R, b: R, d: R)
    requires
        keeps_order::<R>(),
        at_least(a, b),
        below(whole_of::<R>(0), d),
        comparable(quotient_of(a, d)),
        comparable(quotient_of(b, d)),
    ensures
        at_least(quotient_of(a, d), quotient_of(b, d)),
{
    reveal(keeps_order);
}

/// Multiplication with a positive number keeps the order.
pub proof fn lemma_product_order<R: Number>(a: R, b: R, m: R)
    requires
        keeps_order::<R>(),
        at_least(a, b),
        below(whole_of::<R>(0), m),
        comparable(product_of(a, m)),
        comparable(product_of(b, m)),
    ensures
        at_least(product_of(a, m), product_of(b, m)),
{
    reveal(keeps_order);
}

/// Equal finite numbers differ by zero.
pub proof fn lemma_no_difference<R: Number>(a: R, b: R)
    requires
        keeps_units::<R>(),
        equal(a, b),
        finite(a),
        finite(b),
    ensures
        equal(difference_of(a, b), whole_of::<R>(0)),
{
    reveal(keeps_units);
}

/// Zero stays zero when it is divided by a positive number or multiplied with a finite one.
pub proof fn lemma_zero<R: Number>(a: R, m: R)
    requires
        keeps_units::<R>(),
        equal(a, whole_of::<R>(0)),
    ensures
        below(whole_of::<R>(0), m) ==> equal(quotient_of(a, m), whole_of::<R>(0)),
        finite(m) ==> equal(product_of(a, m), whole_of::<R>(0)),
{
    reveal(keeps_units);
}

/// A positive number goes into itself once, and once a number is that number.
pub proof fn lemma_once<R: Number>(m: R)
    requires
        keeps_units::<R>(),
        keeps_finite::<R>(),
        finite(m),
    ensures
        below(whole_of::<R>(0), m) ==> quotient_of(m, m) == whole_of::<R>(1),
        product_of(whole_of::<R>(1), m) == m,
{
    reveal(keeps_units);
    reveal(keeps_finite);
}

/// The greater of two numbers is one of them and below neither, the lesser is one of them and
/// above neither.
pub proof fn lemma_extreme<R: Number>(a: R, b: R)
    requires
        keeps_extremes::<R>(),
        comparable(a),
        comparable(b),
    ensures
        greater_of(a, b) == a || greater_of(a, b) == b,
        at_least(greater_of(a, b), a),
        at_least(greater_of(a, b), b),
        lesser_of(a, b) == a || lesser_of(a, b) == b,
        at_least(a, lesser_of(a, b)),
        at_least(b, lesser_of(a, b)),
{
    reveal(keeps_extremes);
}

/// Rounding keeps the order.
pub proof fn lemma_rounding<R: Number>(a: R, b: R)
    requires
        keeps_rounding::<R>(),
        at_least(a, b),
    ensures
        round_byte_of(a) >= round_byte_of(b),
        unit_byte_of(a) >= unit_byte_of(b),
        floor_index_of(a) >= floor_index_of(b),
        ceil_int_of(a) >= ceil_int_of(b),
        round_index_of(a) >= round_index_of(b),
{
    reveal(keeps_rounding);
}

/// A whole number that is a byte is rounded to itself.
pub proof fn lemma_rounded_whole<R: Number>(n: usize)
    requires
        keeps_rounding::<R>(),
        n <= 255,
    ensures
        round_byte_of(whole_of::<R>(n)) == n,
{
    reveal(keeps_rounding);
}

} // verus!
