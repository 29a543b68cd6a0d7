//! The scalars that the kernels compute with.
use vstd::prelude::*;

verus! {

/// A scalar with a zero, a one, a sum and a product.
///
/// Nothing is asked of the operations beyond being functions of their arguments: the sum need
/// not be associative, and several values may count as zero, as with floating point.
///
/// An implementation in Verus gives each spec function its meaning. Their defaults say nothing, so
/// that ordinary Rust can implement the trait by its executable functions alone.
pub trait Element: Copy + Send + Sync {
    /// The value of [`Element::zero`].
    open spec fn zero_spec() -> Self {
        arbitrary()
    }

    /// The value of [`Element::one`].
    open spec fn one_spec() -> Self {
        arbitrary()
    }

    /// Whether the value counts as zero.
    open spec fn is_zero_spec(self) -> bool {
        arbitrary()
    }

    /// Whether the value counts as one.
    open spec fn is_one_spec(self) -> bool {
        arbitrary()
    }

    /// The sum of two values.
    open spec fn plus_spec(self, rhs: Self) -> Self {
        arbitrary()
    }

    /// The product of two values.
    open spec fn times_spec(self, rhs: Self) -> Self {
        arbitrary()
    }

    /// The additive identity.
    fn zero() -> (r: Self)
        ensures
            r == Self::zero_spec(),
            r.is_zero_spec(),
    ;

    /// The multiplicative identity.
    fn one() -> (r: Self)
        ensures
            r == Self::one_spec(),
    ;

    /// Tests for zero.
    fn is_zero(&self) -> (r: bool)
        ensures
            r == self.is_zero_spec(),
    ;

    /// Tests for one.
    fn is_one(&self) -> (r: bool)
        ensures
            r == self.is_one_spec(),
    ;

    /// Adds.
    fn plus(self, rhs: Self) -> (r: Self)
        ensures
            r == self.plus_spec(rhs),
    ;

    /// Multiplies.
    fn times(self, rhs: Self) -> (r: Self)
        ensures
            r == self.times_spec(rhs),
    ;
}

/// Calls `num_traits::Zero::zero` for `i64`, which is 0.
#[verifier::external_body]
fn zero_i64() -> (r: i64)
    ensures
        r == 0,
{
    <i64 as num_traits::Zero>::zero()
}

/// Calls `num_traits::One::one` for `i64`, which is 1.
#[verifier::external_body]
fn one_i64() -> (r: i64)
    ensures
        r == 1,
{
    <i64 as num_traits::One>::one()
}

/// Calls `num_traits::Zero::is_zero` for `i64`, which holds of 0 alone.
#[verifier::external_body]
fn is_zero_i64(x: &i64) -> (r: bool)
    ensures
        r == (*x == 0),
{
    num_traits::Zero::is_zero(x)
}

/// Calls `num_traits::One::is_one` for `i64`, which holds of 1 alone.
#[verifier::external_body]
fn is_one_i64(x: &i64) -> (r: bool)
    ensures
        r == (*x == 1),
{
    num_traits::One::is_one(x)
}

/// Integers modulo 2^64, each class represented by its signed member.
impl Element for i64 {
    open spec fn zero_spec() -> i64 {
        0
    }

    open spec fn one_spec() -> i64 {
        1
    }

    open spec fn is_zero_spec(self) -> bool {
        self == 0
    }

    open spec fn is_one_spec(self) -> bool {
        self == 1
    }

    open spec fn plus_spec(self, rhs: i64) -> i64 {
        vstd::wrapping::i64_specs::wrapping_add(self, rhs)
    }

    open spec fn times_spec(self, rhs: i64) -> i64 {
        vstd::wrapping::i64_specs::wrapping_mul(self, rhs)
    }

    fn zero() -> (r: i64) {
        zero_i64()
    }

    fn one() -> (r: i64) {
        one_i64()
    }

    fn is_zero(&self) -> (r: bool) {
        is_zero_i64(self)
    }

    fn is_one(&self) -> (r: bool) {
        is_one_i64(self)
    }

    fn plus(self, rhs: i64) -> (r: i64) {
        self.wrapping_add(rhs)
    }

    fn times(self, rhs: i64) -> (r: i64) {
        self.wrapping_mul(rhs)
    }
}

} // verus!
