//! The number type, and what is done with numbers.
//!
//! A graph is generic over its number type `T`, which is any type with
//! `num_traits::Float`. Nothing can be proved of such a type, so every
//! operation on numbers goes through one of the functions of this module.
//! Each of them is trusted: its body only makes the call, and its contract
//! is believed, not proved.
//!
//! Floating-point operations are not guaranteed to give the same result on
//! every machine, so no operation here is described as a function of its
//! arguments. Where vstd has a relation for an operator (`add_ensures`,
//! `sub_ensures`, `mul_ensures`, `neg_ensures`), the result is tied to the
//! operands by that relation, as vstd does for the primitive floats. That
//! relation has no definition: it records which operation a number came
//! from, and says nothing of its value. For the other calls nothing is
//! claimed of the result at all.
use num_traits::Float;
use rand::distributions::uniform::SampleUniform;
use rand::distributions::{Distribution, Uniform};
use std::fmt::Display;
use vstd::prelude::*;
use vstd::std_specs::ops::{add_ensures, mul_ensures, neg_ensures, sub_ensures};

verus! {

/// `num_traits::Zero::zero`: the additive identity of `T`. Nothing is
/// claimed of the value.
#[verifier::external_body]
pub(crate) fn float_zero<T: Float>() -> (r: T) {
    T::zero()
}

/// `num_traits::One::one`: the multiplicative identity of `T`. Nothing is
/// claimed of the value.
#[verifier::external_body]
pub(crate) fn float_one<T: Float>() -> (r: T) {
    T::one()
}

/// `std::ops::Neg::neg` on `T`. The result is an outcome of negating `x`,
/// in the sense of vstd's `neg_ensures`.
#[verifier::external_body]
pub(crate) fn float_neg<T: Float>(x: T) -> (r: T)
    ensures
        neg_ensures::<T>(x, r),
{
    -x
}

/// `std::ops::Add::add` on `T`. The result is an outcome of `x + y`, in the
/// sense of vstd's `add_ensures`.
#[verifier::external_body]
pub(crate) fn float_add<T: Float>(x: T, y: T) -> (r: T)
    ensures
        add_ensures::<T>(x, y, r),
{
    x + y
}

/// `std::ops::Sub::sub` on `T`. The result is an outcome of `x - y`, in the
/// sense of vstd's `sub_ensures`.
#[verifier::external_body]
pub(crate) fn float_sub<T: Float>(x: T, y: T) -> (r: T)
    ensures
        sub_ensures::<T>(x, y, r),
{
    x - y
}

/// `std::ops::Mul::mul` on `T`. The result is an outcome of `x * y`, in the
/// sense of vstd's `mul_ensures`.
#[verifier::external_body]
pub(crate) fn float_mul<T: Float>(x: T, y: T) -> (r: T)
    ensures
        mul_ensures::<T>(x, y, r),
{
    x * y
}

/// `num_traits::Float::exp`: e raised to `x`. Nothing is claimed of the
/// value.
#[verifier::external_body]
pub(crate) fn float_exp<T: Float>(x: T) -> (r: T) {
    x.exp()
}

/// `num_traits::Float::tanh`: the hyperbolic tangent of `x`. Nothing is
/// claimed of the value.
#[verifier::external_body]
pub(crate) fn float_tanh<T: Float>(x: T) -> (r: T) {
    x.tanh()
}

/// `num_traits::Float::powf`: `x` raised to `exponent`. Nothing is claimed of
/// the value.
#[verifier::external_body]
pub(crate) fn float_powf<T: Float>(x: T, exponent: T) -> (r: T) {
    x.powf(exponent)
}

/// Writes `number` with four digits after the decimal point, as `{:.4}`
/// does in `std::fmt`. Nothing is claimed of the text.
#[verifier::external_body]
pub(crate) fn fixed_text<T: Display>(number: &T) -> (text: String) {
    format!("{:.4}", number)
}

/// Draws a number from `rand`'s `Uniform` distribution over the half-open
/// range from minus one to one, with the thread's generator
/// (`rand::thread_rng`). Two draws need not agree: nothing is claimed of the
/// value.
#[verifier::external_body]
pub(crate) fn uniform_weight<T: Float + SampleUniform>() -> (r: T) {
    let one: T = T::one();
    Uniform::new(-one, one).sample(&mut rand::thread_rng())
}

} // verus!
