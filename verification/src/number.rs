//! Arithmetic on the numbers that a model takes and gives.
//!
//! The library arranges, selects and compares such numbers; the arithmetic on
//! them comes from an implementation of [`Number`], which single-precision floating
//! point is.

use vstd::prelude::*;

verus! {

/// A number with the operations that pre- and post-processing need.
pub trait Number: Copy {
    /// The number `n`.
    fn from_index(n: usize) -> Self;

    /// The quotient `n / d` of two whole numbers.
    fn ratio(n: u32, d: u32) -> Self;

    /// `self + b`.
    fn plus(self, b: Self) -> Self;

    /// `self - b`.
    fn minus(self, b: Self) -> Self;

    /// `self * b`.
    fn times(self, b: Self) -> Self;

    /// `self / b`.
    fn over(self, b: Self) -> Self;

    /// The lesser of the two.
    fn lesser(self, b: Self) -> Self;

    /// The greater of the two.
    fn greater(self, b: Self) -> Self;

    /// The exponential of `-self`.
    fn exp_neg(self) -> Self;

    /// `self` to the power `b`.
    fn pow(self, b: Self) -> Self;

    /// The cube root of `self`.
    fn cbrt(self) -> Self;

    /// Whether `self < b`.
    fn is_below(self, b: Self) -> bool;

    /// Whether `self >= b`.
    fn is_at_least(self, b: Self) -> bool;

    /// An integer that grows with `self`, as far as 32 bits tell numbers apart.
    fn rank(self) -> u32;

    /// `self` rounded down, at least zero, as an index.
    fn floor_index(self) -> usize;

    /// `self` rounded up, saturating.
    fn ceil_int(self) -> i64;

    /// `self` rounded to the nearest, saturating, as an index.
    fn round_index(self) -> usize;

    /// `self` without its fraction, saturating, as an index.
    fn trunc_index(self) -> usize;

    /// `self` without its fraction, saturating, as a count.
    fn trunc_count(self) -> u32;

    /// `self`, clamped to `[0, 1]`, as a level out of 255.
    fn unit_byte(self) -> u8;

    /// `self` rounded to the nearest byte, saturating.
    fn round_byte(self) -> u8;
}

/// The numbers that can be compared are in order: a number that compares at all compares with
/// itself, two such numbers compare with each other, and of these the rank grows with the number.
/// In floating point all numbers compare but NaN.
#[verifier::opaque]
pub open spec fn ordered<R: Number>() -> bool {
    &&& at_least(whole_of::<R>(0), whole_of::<R>(0))
    &&& forall|a: R, b: R| #[trigger] at_least(a, b) ==> at_least(a, a) && at_least(b, b)
    &&& forall|a: R, b: R|
        #![trigger at_least(a, a), at_least(b, b)]
        at_least(a, a) && at_least(b, b) ==> at_least(a, b) || at_least(b, a)
    &&& forall|a: R, b: R, c: R|
        #![trigger at_least(a, b), at_least(b, c)]
        at_least(a, b) && at_least(b, c) ==> at_least(a, c)
    &&& forall|a: R, b: R| #[trigger] below(a, b) <==> at_least(b, a) && !at_least(a, b)
    &&& forall|a: R, b: R| #[trigger] at_least(a, b) ==> rank_of(a) >= rank_of(b)
}

/// The rank tells any two numbers apart of which one is below the other. Single precision has
/// no more numbers than that takes.
pub open spec fn ranked<R: Number>() -> bool {
    forall|a: R, b: R| #[trigger] below(a, b) ==> rank_of(a) < rank_of(b)
}

/// Every operation returns the same for the same arguments, and comparisons and ranks go by one
/// order.
///
/// Of `exp_neg`, `pow` and `cbrt` this is asked within one program only: on another platform the
/// last bits of what floating point returns for them may differ.
pub open spec fn consistent<R: Number>() -> bool {
    &&& ordered::<R>()
    &&& forall|n: usize, x: R, y: R|
        #![trigger call_ensures(R::from_index, (n,), x), call_ensures(R::from_index, (n,), y)]
        call_ensures(R::from_index, (n,), x) && call_ensures(R::from_index, (n,), y) ==> x == y
    &&& forall|n: u32, d: u32, x: R, y: R|
        #![trigger call_ensures(R::ratio, (n, d), x), call_ensures(R::ratio, (n, d), y)]
        call_ensures(R::ratio, (n, d), x) && call_ensures(R::ratio, (n, d), y) ==> x == y
    &&& forall|a: R, b: R, x: R, y: R|
        #![trigger call_ensures(R::plus, (a, b), x), call_ensures(R::plus, (a, b), y)]
        call_ensures(R::plus, (a, b), x) && call_ensures(R::plus, (a, b), y) ==> x == y
    &&& forall|a: R, b: R, x: R, y: R|
        #![trigger call_ensures(R::minus, (a, b), x), call_ensures(R::minus, (a, b), y)]
        call_ensures(R::minus, (a, b), x) && call_ensures(R::minus, (a, b), y) ==> x == y
    &&& forall|a: R, b: R, x: R, y: R|
        #![trigger call_ensures(R::times, (a, b), x), call_ensures(R::times, (a, b), y)]
        call_ensures(R::times, (a, b), x) && call_ensures(R::times, (a, b), y) ==> x == y
    &&& forall|a: R, b: R, x: R, y: R|
        #![trigger call_ensures(R::over, (a, b), x), call_ensures(R::over, (a, b), y)]
        call_ensures(R::over, (a, b), x) && call_ensures(R::over, (a, b), y) ==> x == y
    &&& forall|a: R, b: R, x: R, y: R|
        #![trigger call_ensures(R::lesser, (a, b), x), call_ensures(R::lesser, (a, b), y)]
        call_ensures(R::lesser, (a, b), x) && call_ensures(R::lesser, (a, b), y) ==> x == y
    &&& forall|a: R, b: R, x: R, y: R|
        #![trigger call_ensures(R::greater, (a, b), x), call_ensures(R::greater, (a, b), y)]
        call_ensures(R::greater, (a, b), x) && call_ensures(R::greater, (a, b), y) ==> x == y
    &&& forall|a: R, x: R, y: R|
        #![trigger call_ensures(R::exp_neg, (a,), x), call_ensures(R::exp_neg, (a,), y)]
        call_ensures(R::exp_neg, (a,), x) && call_ensures(R::exp_neg, (a,), y) ==> x == y
    &&& forall|a: R, b: R, x: R, y: R|
        #![trigger call_ensures(R::pow, (a, b), x), call_ensures(R::pow, (a, b), y)]
        call_ensures(R::pow, (a, b), x) && call_ensures(R::pow, (a, b), y) ==> x == y
    &&& forall|a: R, x: R, y: R|
        #![trigger call_ensures(R::cbrt, (a,), x), call_ensures(R::cbrt, (a,), y)]
        call_ensures(R::cbrt, (a,), x) && call_ensures(R::cbrt, (a,), y) ==> x == y
    &&& forall|a: R, b: R, x: bool, y: bool|
        #![trigger call_ensures(R::is_below, (a, b), x), call_ensures(R::is_below, (a, b), y)]
        call_ensures(R::is_below, (a, b), x) && call_ensures(R::is_below, (a, b), y) ==> x == y
    &&& forall|a: R, b: R, x: bool, y: bool|
        #![trigger call_ensures(R::is_at_least, (a, b), x), call_ensures(R::is_at_least, (a, b), y)]
        call_ensures(R::is_at_least, (a, b), x) && call_ensures(R::is_at_least, (a, b), y) ==> x == y
    &&& forall|a: R, x: u32, y: u32|
        #![trigger call_ensures(R::rank, (a,), x), call_ensures(R::rank, (a,), y)]
        call_ensures(R::rank, (a,), x) && call_ensures(R::rank, (a,), y) ==> x == y
    &&& forall|a: R, x: usize, y: usize|
        #![trigger call_ensures(R::floor_index, (a,), x), call_ensures(R::floor_index, (a,), y)]
        call_ensures(R::floor_index, (a,), x) && call_ensures(R::floor_index, (a,), y) ==> x == y
    &&& forall|a: R, x: i64, y: i64|
        #![trigger call_ensures(R::ceil_int, (a,), x), call_ensures(R::ceil_int, (a,), y)]
        call_ensures(R::ceil_int, (a,), x) && call_ensures(R::ceil_int, (a,), y) ==> x == y
    &&& forall|a: R, x: usize, y: usize|
        #![trigger call_ensures(R::round_index, (a,), x), call_ensures(R::round_index, (a,), y)]
        call_ensures(R::round_index, (a,), x) && call_ensures(R::round_index, (a,), y) ==> x == y
    &&& forall|a: R, x: usize, y: usize|
        #![trigger call_ensures(R::trunc_index, (a,), x), call_ensures(R::trunc_index, (a,), y)]
        call_ensures(R::trunc_index, (a,), x) && call_ensures(R::trunc_index, (a,), y) ==> x == y
    &&& forall|a: R, x: u32, y: u32|
        #![trigger call_ensures(R::trunc_count, (a,), x), call_ensures(R::trunc_count, (a,), y)]
        call_ensures(R::trunc_count, (a,), x) && call_ensures(R::trunc_count, (a,), y) ==> x == y
    &&& forall|a: R, x: u8, y: u8|
        #![trigger call_ensures(R::unit_byte, (a,), x), call_ensures(R::unit_byte, (a,), y)]
        call_ensures(R::unit_byte, (a,), x) && call_ensures(R::unit_byte, (a,), y) ==> x == y
    &&& forall|a: R, x: u8, y: u8|
        #![trigger call_ensures(R::round_byte, (a,), x), call_ensures(R::round_byte, (a,), y)]
        call_ensures(R::round_byte, (a,), x) && call_ensures(R::round_byte, (a,), y) ==> x == y
}

/// The number `n`.
pub open spec fn whole_of<R: Number>(n: usize) -> R {
    choose|x: R| call_ensures(R::from_index, (n,), x)
}

/// The quotient `n / d` of two whole numbers.
pub open spec fn ratio_of<R: Number>(n: u32, d: u32) -> R {
    choose|x: R| call_ensures(R::ratio, (n, d), x)
}

/// `a + b`.
pub open spec fn sum_of<R: Number>(a: R, b: R) -> R {
    choose|x: R| call_ensures(R::plus, (a, b), x)
}

/// `a - b`.
pub open spec fn difference_of<R: Number>(a: R, b: R) -> R {
    choose|x: R| call_ensures(R::minus, (a, b), x)
}

/// `a * b`.
pub open spec fn product_of<R: Number>(a: R, b: R) -> R {
    choose|x: R| call_ensures(R::times, (a, b), x)
}

/// `a / b`.
pub open spec fn quotient_of<R: Number>(a: R, b: R) -> R {
    choose|x: R| call_ensures(R::over, (a, b), x)
}

/// The lesser of the two.
pub open spec fn lesser_of<R: Number>(a: R, b: R) -> R {
    choose|x: R| call_ensures(R::lesser, (a, b), x)
}

/// The greater of the two.
pub open spec fn greater_of<R: Number>(a: R, b: R) -> R {
    choose|x: R| call_ensures(R::greater, (a, b), x)
}

/// The exponential of `-self`.
pub open spec fn exp_neg_of<R: Number>(a: R) -> R {
    choose|x: R| call_ensures(R::exp_neg, (a,), x)
}

/// `a` to the power `b`.
pub open spec fn power_of<R: Number>(a: R, b: R) -> R {
    choose|x: R| call_ensures(R::pow, (a, b), x)
}

/// The cube root of `a`.
pub open spec fn cube_root_of<R: Number>(a: R) -> R {
    choose|x: R| call_ensures(R::cbrt, (a,), x)
}

/// Whether `a < b`.
pub open spec fn below<R: Number>(a: R, b: R) -> bool {
    choose|x: bool| call_ensures(R::is_below, (a, b), x)
}

/// Whether `a >= b`.
pub open spec fn at_least<R: Number>(a: R, b: R) -> bool {
    choose|x: bool| call_ensures(R::is_at_least, (a, b), x)
}

/// An integer that grows with `a`, as far as 32 bits tell numbers apart.
pub open spec fn rank_of<R: Number>(a: R) -> u32 {
    choose|x: u32| call_ensures(R::rank, (a,), x)
}

/// `a` rounded down, at least zero, as an index.
pub open spec fn floor_index_of<R: Number>(a: R) -> usize {
    choose|x: usize| call_ensures(R::floor_index, (a,), x)
}

/// `a` rounded up, saturating.
pub open spec fn ceil_int_of<R: Number>(a: R) -> i64 {
    choose|x: i64| call_ensures(R::ceil_int, (a,), x)
}

/// `a` rounded to the nearest, saturating, as an index.
pub open spec fn round_index_of<R: Number>(a: R) -> usize {
    choose|x: usize| call_ensures(R::round_index, (a,), x)
}

/// `a` without its fraction, saturating, as an index.
pub open spec fn trunc_index_of<R: Number>(a: R) -> usize {
    choose|x: usize| call_ensures(R::trunc_index, (a,), x)
}

/// `a` without its fraction, saturating, as a count.
pub open spec fn trunc_count_of<R: Number>(a: R) -> u32 {
    choose|x: u32| call_ensures(R::trunc_count, (a,), x)
}

/// `a`, clamped to `[0, 1]`, as a level out of 255.
pub open spec fn unit_byte_of<R: Number>(a: R) -> u8 {
    choose|x: u8| call_ensures(R::unit_byte, (a,), x)
}

/// `a` rounded to the nearest byte, saturating.
pub open spec fn round_byte_of<R: Number>(a: R) -> u8 {
    choose|x: u8| call_ensures(R::round_byte, (a,), x)
}

pub(crate) fn from_index<R: Number>(n: usize) -> (x: R)
    requires
        consistent::<R>(),
    ensures
        x == whole_of::<R>(n),
{
    let x: R = R::from_index(n);
    assert(call_ensures(R::from_index, (n,), x));
    x
}

pub(crate) fn ratio<R: Number>(n: u32, d: u32) -> (x: R)
    requires
        consistent::<R>(),
    ensures
        x == ratio_of::<R>(n, d),
{
    let x: R = R::ratio(n, d);
    assert(call_ensures(R::ratio, (n, d), x));
    x
}

pub(crate) fn plus<R: Number>(a: R, b: R) -> (x: R)
    requires
        consistent::<R>(),
    ensures
        x == sum_of(a, b),
{
    let x: R = R::plus(a, b);
    assert(call_ensures(R::plus, (a, b), x));
    x
}

pub(crate) fn minus<R: Number>(a: R, b: R) -> (x: R)
    requires
        consistent::<R>(),
    ensures
        x == difference_of(a, b),
{
    let x: R = R::minus(a, b);
    assert(call_ensures(R::minus, (a, b), x));
    x
}

pub(crate) fn times<R: Number>(a: R, b: R) -> (x: R)
    requires
        consistent::<R>(),
    ensures
        x == product_of(a, b),
{
    let x: R = R::times(a, b);
    assert(call_ensures(R::times, (a, b), x));
    x
}

pub(crate) fn over<R: Number>(a: R, b: R) -> (x: R)
    requires
        consistent::<R>(),
    ensures
        x == quotient_of(a, b),
{
    let x: R = R::over(a, b);
    assert(call_ensures(R::over, (a, b), x));
    x
}

pub(crate) fn lesser<R: Number>(a: R, b: R) -> (x: R)
    requires
        consistent::<R>(),
    ensures
        x == lesser_of(a, b),
{
    let x: R = R::lesser(a, b);
    assert(call_ensures(R::lesser, (a, b), x));
    x
}

pub(crate) fn greater<R: Number>(a: R, b: R) -> (x: R)
    requires
        consistent::<R>(),
    ensures
        x == greater_of(a, b),
{
    let x: R = R::greater(a, b);
    assert(call_ensures(R::greater, (a, b), x));
    x
}

pub(crate) fn exp_neg<R: Number>(a: R) -> (x: R)
    requires
        consistent::<R>(),
    ensures
        x == exp_neg_of(a),
{
    let x: R = R::exp_neg(a);
    assert(call_ensures(R::exp_neg, (a,), x));
    x
}

pub(crate) fn pow<R: Number>(a: R, b: R) -> (x: R)
    requires
        consistent::<R>(),
    ensures
        x == power_of(a, b),
{
    let x: R = R::pow(a, b);
    assert(call_ensures(R::pow, (a, b), x));
    x
}

pub(crate) fn cbrt<R: Number>(a: R) -> (x: R)
    requires
        consistent::<R>(),
    ensures
        x == cube_root_of(a),
{
    let x: R = R::cbrt(a);
    assert(call_ensures(R::cbrt, (a,), x));
    x
}

pub(crate) fn is_below<R: Number>(a: R, b: R) -> (x: bool)
    requires
        consistent::<R>(),
    ensures
        x == below(a, b),
{
    let x: bool = R::is_below(a, b);
    assert(call_ensures(R::is_below, (a, b), x));
    x
}

pub(crate) fn is_at_least<R: Number>(a: R, b: R) -> (x: bool)
    requires
        consistent::<R>(),
    ensures
        x == at_least(a, b),
{
    let x: bool = R::is_at_least(a, b);
    assert(call_ensures(R::is_at_least, (a, b), x));
    x
}

pub(crate) fn rank<R: Number>(a: R) -> (x: u32)
    requires
        consistent::<R>(),
    ensures
        x == rank_of(a),
{
    let x: u32 = R::rank(a);
    assert(call_ensures(R::rank, (a,), x));
    x
}

pub(crate) fn floor_index<R: Number>(a: R) -> (x: usize)
    requires
        consistent::<R>(),
    ensures
        x == floor_index_of(a),
{
    let x: usize = R::floor_index(a);
    assert(call_ensures(R::floor_index, (a,), x));
    x
}

pub(crate) fn ceil_int<R: Number>(a: R) -> (x: i64)
    requires
        consistent::<R>(),
    ensures
        x == ceil_int_of(a),
{
    let x: i64 = R::ceil_int(a);
    assert(call_ensures(R::ceil_int, (a,), x));
    x
}

pub(crate) fn round_index<R: Number>(a: R) -> (x: usize)
    requires
        consistent::<R>(),
    ensures
        x == round_index_of(a),
{
    let x: usize = R::round_index(a);
    assert(call_ensures(R::round_index, (a,), x));
    x
}

pub(crate) fn trunc_index<R: Number>(a: R) -> (x: usize)
    requires
        consistent::<R>(),
    ensures
        x == trunc_index_of(a),
{
    let x: usize = R::trunc_index(a);
    assert(call_ensures(R::trunc_index, (a,), x));
    x
}

pub(crate) fn trunc_count<R: Number>(a: R) -> (x: u32)
    requires
        consistent::<R>(),
    ensures
        x == trunc_count_of(a),
{
    let x: u32 = R::trunc_count(a);
    assert(call_ensures(R::trunc_count, (a,), x));
    x
}

pub(crate) fn unit_byte<R: Number>(a: R) -> (x: u8)
    requires
        consistent::<R>(),
    ensures
        x == unit_byte_of(a),
{
    let x: u8 = R::unit_byte(a);
    assert(call_ensures(R::unit_byte, (a,), x));
    x
}

pub(crate) fn round_byte<R: Number>(a: R) -> (x: u8)
    requires
        consistent::<R>(),
    ensures
        x == round_byte_of(a),
{
    let x: u8 = R::round_byte(a);
    assert(call_ensures(R::round_byte, (a,), x));
    x
}

/// Numbers of more precision, in which sums of numbers are kept.
pub trait Precise: Number {
    /// The numbers that are summed.
    type Single: Number;

    /// `x` itself.
    fn widen(x: Self::Single) -> Self;

    /// The number next to `self` of less precision.
    fn narrow(self) -> Self::Single;

    /// The number `n`.
    fn from_count(n: u64) -> Self;

    /// The number `n`.
    fn from_int(n: i32) -> Self;

    /// An integer that grows with `self`, as far as 64 bits tell numbers apart.
    fn wide_rank(self) -> u64;
}

/// The wide rank grows with the number and tells numbers apart, and of numbers that are not
/// below zero the squares are in the order of the numbers.
#[verifier::opaque]
pub open spec fn graded<W: Precise>() -> bool {
    &&& forall|a: W, b: W| #[trigger] at_least(a, b) ==> wide_rank_of(a) >= wide_rank_of(b)
    &&& forall|a: W, b: W| #[trigger] below(a, b) ==> wide_rank_of(a) < wide_rank_of(b)
    &&& forall|a: W, b: W| #[trigger]
        at_least(a, b) && at_least(b, whole_of::<W>(0)) ==> at_least(
            product_of(a, a),
            product_of(b, b),
        )
}

/// Every operation on either kind of number returns the same for the same arguments, and
/// comparisons, ranks and squares go by one order.
pub open spec fn precise<W: Precise>() -> bool {
    &&& graded::<W>()
    &&& consistent::<W>()
    &&& consistent::<W::Single>()
    &&& forall|a: W::Single, x: W, y: W|
        #![trigger call_ensures(W::widen, (a,), x), call_ensures(W::widen, (a,), y)]
        call_ensures(W::widen, (a,), x) && call_ensures(W::widen, (a,), y) ==> x == y
    &&& forall|a: W, x: W::Single, y: W::Single|
        #![trigger call_ensures(W::narrow, (a,), x), call_ensures(W::narrow, (a,), y)]
        call_ensures(W::narrow, (a,), x) && call_ensures(W::narrow, (a,), y) ==> x == y
    &&& forall|n: u64, x: W, y: W|
        #![trigger call_ensures(W::from_count, (n,), x), call_ensures(W::from_count, (n,), y)]
        call_ensures(W::from_count, (n,), x) && call_ensures(W::from_count, (n,), y) ==> x == y
    &&& forall|n: i32, x: W, y: W|
        #![trigger call_ensures(W::from_int, (n,), x), call_ensures(W::from_int, (n,), y)]
        call_ensures(W::from_int, (n,), x) && call_ensures(W::from_int, (n,), y) ==> x == y
    &&& forall|a: W, x: u64, y: u64|
        #![trigger call_ensures(W::wide_rank, (a,), x), call_ensures(W::wide_rank, (a,), y)]
        call_ensures(W::wide_rank, (a,), x) && call_ensures(W::wide_rank, (a,), y) ==> x == y
}

/// `a` in more precision.
pub open spec fn wide_of<W: Precise>(a: W::Single) -> W {
    choose|x: W| call_ensures(W::widen, (a,), x)
}

/// `a` in less precision.
pub open spec fn narrow_of<W: Precise>(a: W) -> W::Single {
    choose|x: W::Single| call_ensures(W::narrow, (a,), x)
}

/// The number `n`.
pub open spec fn count_of<W: Precise>(n: u64) -> W {
    choose|x: W| call_ensures(W::from_count, (n,), x)
}

/// The number `n`.
pub open spec fn int_of<W: Precise>(n: i32) -> W {
    choose|x: W| call_ensures(W::from_int, (n,), x)
}

/// An integer that grows with `a`, as far as 64 bits tell numbers apart.
pub open spec fn wide_rank_of<W: Precise>(a: W) -> u64 {
    choose|x: u64| call_ensures(W::wide_rank, (a,), x)
}

pub(crate) fn widen<W: Precise>(a: W::Single) -> (x: W)
    requires
        precise::<W>(),
    ensures
        x == wide_of::<W>(a),
{
    let x: W = W::widen(a);
    assert(call_ensures(W::widen, (a,), x));
    x
}

pub(crate) fn narrow<W: Precise>(a: W) -> (x: W::Single)
    requires
        precise::<W>(),
    ensures
        x == narrow_of(a),
{
    let x: W::Single = a.narrow();
    assert(call_ensures(W::narrow, (a,), x));
    x
}

pub(crate) fn from_count<W: Precise>(n: u64) -> (x: W)
    requires
        precise::<W>(),
    ensures
        x == count_of::<W>(n),
{
    let x: W = W::from_count(n);
    assert(call_ensures(W::from_count, (n,), x));
    x
}

pub(crate) fn from_int<W: Precise>(n: i32) -> (x: W)
    requires
        precise::<W>(),
    ensures
        x == int_of::<W>(n),
{
    let x: W = W::from_int(n);
    assert(call_ensures(W::from_int, (n,), x));
    x
}

pub(crate) fn wide_rank<W: Precise>(a: W) -> (x: u64)
    requires
        precise::<W>(),
    ensures
        x == wide_rank_of(a),
{
    let x: u64 = a.wide_rank();
    assert(call_ensures(W::wide_rank, (a,), x));
    x
}

} // verus!
