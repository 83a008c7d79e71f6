use vstd::prelude::*;
use crate::scalar::Real;

verus! {

/// Arithmetic on reals and random reals, as the caller supplies them.
///
/// Nothing is assumed of an implementation: whatever this crate proves, it
/// proves for every result that these methods may give. What a function of
/// this crate computes with them is stated over the relations below, each of
/// which says that a result is one that the supplier's method may give for
/// the arguments: no more is known of it here than the supplier promises.
pub trait Numerics {
    /// The sum of two reals.
    fn sum(&self, a: Real, b: Real) -> Real;

    /// The first real less the second.
    fn difference(&self, a: Real, b: Real) -> Real;

    /// The product of two reals.
    fn product(&self, a: Real, b: Real) -> Real;

    /// The first real divided by the second.
    fn quotient(&self, a: Real, b: Real) -> Real;

    /// The exponential of a real.
    fn exp(&self, a: Real) -> Real;

    /// The natural logarithm of a real.
    fn ln(&self, a: Real) -> Real;

    /// The hyperbolic tangent of a real.
    fn tanh(&self, a: Real) -> Real;

    /// The square root of a real.
    fn sqrt(&self, a: Real) -> Real;

    /// The real nearest to a count.
    fn from_count(&self, n: usize) -> Real;

    /// The greatest count that is at most the real.
    fn floor_count(&self, a: Real) -> usize;

    /// The least count that is at least the real.
    fn ceil_count(&self, a: Real) -> usize;

    /// The count nearest to the real.
    fn round_count(&self, a: Real) -> usize;

    /// A random real, uniform from zero up to one, one excluded.
    fn draw_unit(&mut self) -> Real;

    /// A random real, normal around `mean` with the given standard deviation.
    fn draw_normal(&mut self, mean: Real, deviation: Real) -> Real;
}

/// `y` is what the supplier gives as the sum of `a` and `b`.
pub open spec fn is_sum<N: Numerics>(numerics: &N, a: Real, b: Real, y: Real) -> bool {
    call_ensures(N::sum, (numerics, a, b), y)
}

/// `y` is what the supplier gives as `a` less `b`.
pub open spec fn is_difference<N: Numerics>(numerics: &N, a: Real, b: Real, y: Real) -> bool {
    call_ensures(N::difference, (numerics, a, b), y)
}

/// `y` is what the supplier gives as the product of `a` and `b`.
pub open spec fn is_product<N: Numerics>(numerics: &N, a: Real, b: Real, y: Real) -> bool {
    call_ensures(N::product, (numerics, a, b), y)
}

/// `y` is what the supplier gives as `a` divided by `b`.
pub open spec fn is_quotient<N: Numerics>(numerics: &N, a: Real, b: Real, y: Real) -> bool {
    call_ensures(N::quotient, (numerics, a, b), y)
}

/// `y` is what the supplier gives as the exponential of `a`.
pub open spec fn is_exp<N: Numerics>(numerics: &N, a: Real, y: Real) -> bool {
    call_ensures(N::exp, (numerics, a), y)
}

/// `y` is what the supplier gives as the natural logarithm of `a`.
pub open spec fn is_ln<N: Numerics>(numerics: &N, a: Real, y: Real) -> bool {
    call_ensures(N::ln, (numerics, a), y)
}

/// `y` is what the supplier gives as the hyperbolic tangent of `a`.
pub open spec fn is_tanh<N: Numerics>(numerics: &N, a: Real, y: Real) -> bool {
    call_ensures(N::tanh, (numerics, a), y)
}

/// `y` is what the supplier gives as the square root of `a`.
pub open spec fn is_sqrt<N: Numerics>(numerics: &N, a: Real, y: Real) -> bool {
    call_ensures(N::sqrt, (numerics, a), y)
}

/// `y` is what the supplier gives as the real nearest to the count `n`.
pub open spec fn is_from_count<N: Numerics>(numerics: &N, n: usize, y: Real) -> bool {
    call_ensures(N::from_count, (numerics, n), y)
}

/// `n` is what the supplier gives as the greatest count at most `a`.
pub open spec fn is_floor_count<N: Numerics>(numerics: &N, a: Real, n: usize) -> bool {
    call_ensures(N::floor_count, (numerics, a), n)
}

/// `n` is what the supplier gives as the least count at least `a`.
pub open spec fn is_ceil_count<N: Numerics>(numerics: &N, a: Real, n: usize) -> bool {
    call_ensures(N::ceil_count, (numerics, a), n)
}

/// `n` is what the supplier gives as the count nearest to `a`.
pub open spec fn is_round_count<N: Numerics>(numerics: &N, a: Real, n: usize) -> bool {
    call_ensures(N::round_count, (numerics, a), n)
}

/// `y` is a draw from the unit interval that the supplier gives, as it
/// stands at some time.
pub open spec fn is_unit_draw<N: Numerics>(y: Real) -> bool {
    exists|supplier: &mut N| #[trigger] call_ensures(N::draw_unit, (supplier,), y)
}

/// `y` is a normal draw around `mean` with the standard deviation
/// `deviation` that the supplier gives, as it stands at some time.
pub open spec fn is_normal_draw<N: Numerics>(mean: Real, deviation: Real, y: Real) -> bool {
    exists|supplier: &mut N| #[trigger] call_ensures(N::draw_normal, (supplier, mean, deviation), y)
}

} // verus!
