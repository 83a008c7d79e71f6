use vstd::prelude::*;
use crate::numerics::{
    is_difference, is_exp, is_ln, is_product, is_quotient, is_sqrt, is_sum, is_tanh, Numerics,
};
use crate::scalar::Real;

verus! {

/// The transfer function that a layer applies to each of its sums.
#[derive(Debug, Copy, Clone, Eq, PartialEq, Structural)]
pub enum Activation {
    /// The sum itself.
    Linear,
    /// One above zero, zero otherwise.
    Threshold,
    /// One above zero, zero at zero, minus one otherwise.
    Sign,
    /// The logistic function.
    Sigmoid,
    /// The hyperbolic tangent.
    Tanh,
    /// The sum over one more than its absolute value.
    SoftSign,
    /// The bent identity.
    BentIdentity,
    /// The sum above zero, zero otherwise.
    Relu,
    /// The logarithm of one more than the exponential.
    SoftPlus,
}

impl Activation {
    /// The activation that a number stands for.
    pub open spec fn of_number(n: i32) -> Activation {
        if n == 0 {
            Activation::Linear
        } else if n == 1 {
            Activation::Threshold
        } else if n == 2 {
            Activation::Sign
        } else if n == 3 {
            Activation::Sigmoid
        } else if n == 4 {
            Activation::Tanh
        } else if n == 5 {
            Activation::SoftSign
        } else if n == 6 {
            Activation::BentIdentity
        } else {
            Activation::Relu
        }
    }

    /// `y` is what the transfer function makes of `x`.
    pub open spec fn applied<N: Numerics>(self, numerics: &N, x: Real, y: Real) -> bool {
        match self {
            Activation::Linear => y == x,
            Activation::Threshold => y == threshold_of(x),
            Activation::Sign => y == sign_of(x),
            Activation::Sigmoid => is_sigmoid(numerics, x, y),
            Activation::Tanh => is_tanh(numerics, x, y),
            Activation::SoftSign => is_soft_sign(numerics, x, y),
            Activation::BentIdentity => is_bent_identity(numerics, x, y),
            Activation::Relu => y == relu_of(x),
            Activation::SoftPlus => is_soft_plus(numerics, x, y),
        }
    }

    /// Whether the activation only compares its argument, so that its value
    /// is decided here.
    pub open spec fn decided(self) -> bool {
        self == Activation::Linear || self == Activation::Threshold || self == Activation::Sign
            || self == Activation::Relu
    }

    /// The value of an activation that only compares.
    pub open spec fn decided_value(self, x: Real) -> Real {
        match self {
            Activation::Threshold => threshold_of(x),
            Activation::Sign => sign_of(x),
            Activation::Relu => relu_of(x),
            _ => x,
        }
    }

    /// The activation that a number stands for: zero to six name the first
    /// seven, every other number the rectifier.
    pub fn from_i32(n: i32) -> (a: Activation)
        ensures
            a == Activation::of_number(n),
    {
        match n {
            0 => Activation::Linear,
            1 => Activation::Threshold,
            2 => Activation::Sign,
            3 => Activation::Sigmoid,
            4 => Activation::Tanh,
            5 => Activation::SoftSign,
            6 => Activation::BentIdentity,
            _ => Activation::Relu,
        }
    }

    /// Applies the transfer function to one real.
    pub fn apply<N: Numerics>(&self, x: Real, numerics: &N) -> (y: Real)
        ensures
            self.applied(numerics, x, y),
            self.decided() ==> y == self.decided_value(x),
    {
        match self {
            Activation::Linear => linear(x),
            Activation::Threshold => threshold(x),
            Activation::Sign => sign(x),
            Activation::Sigmoid => sigmoid(x, numerics),
            Activation::Tanh => tanh(x, numerics),
            Activation::SoftSign => soft_sign(x, numerics),
            Activation::BentIdentity => bent_identity(x, numerics),
            Activation::Relu => relu(x),
            Activation::SoftPlus => soft_plus(x, numerics),
        }
    }
}

/// One above zero, zero otherwise.
pub open spec fn threshold_of(x: Real) -> Real {
    if Real::zero().less(x) {
        Real::one()
    } else {
        Real::zero()
    }
}

/// One above zero, zero at zero, minus one otherwise.
pub open spec fn sign_of(x: Real) -> Real {
    if Real::zero().less(x) {
        Real::one()
    } else if x.equals(Real::zero()) {
        Real::zero()
    } else {
        Real::minus_one()
    }
}

/// The real above zero, zero otherwise.
pub open spec fn relu_of(x: Real) -> Real {
    if Real::zero().less(x) {
        x
    } else {
        Real::zero()
    }
}

/// The real itself.
pub fn linear(x: Real) -> (y: Real)
    ensures
        y == x,
{
    x
}

/// One above zero, zero otherwise.
pub fn threshold(x: Real) -> (y: Real)
    ensures
        y == threshold_of(x),
{
    if x.gt(&Real::zero()) {
        Real::one()
    } else {
        Real::zero()
    }
}

/// One above zero, zero at zero, minus one otherwise.
pub fn sign(x: Real) -> (y: Real)
    ensures
        y == sign_of(x),
{
    if x.gt(&Real::zero()) {
        Real::one()
    } else if x.same(&Real::zero()) {
        Real::zero()
    } else {
        Real::minus_one()
    }
}

/// The rectified linear unit.
pub fn relu(x: Real) -> (y: Real)
    ensures
        y == relu_of(x),
{
    if x.gt(&Real::zero()) {
        x
    } else {
        Real::zero()
    }
}

/// `y` is one over one more than the exponential of the negated `x`.
pub open spec fn is_sigmoid<N: Numerics>(numerics: &N, x: Real, y: Real) -> bool {
    exists|grown: Real, below: Real|
        #![trigger is_exp(numerics, x.negation(), grown), is_quotient(numerics, Real::one(), below, y)]
        is_exp(numerics, x.negation(), grown) && is_sum(numerics, Real::one(), grown, below)
            && is_quotient(numerics, Real::one(), below, y)
}

/// `y` is `x` over one more than its absolute value.
pub open spec fn is_soft_sign<N: Numerics>(numerics: &N, x: Real, y: Real) -> bool {
    exists|below: Real| #[trigger]
        is_sum(numerics, Real::one(), x.absolute(), below) && is_quotient(numerics, x, below, y)
}

/// `y` is `x` and half of what the root of its square and one exceeds one
/// by.
pub open spec fn is_bent_identity<N: Numerics>(numerics: &N, x: Real, y: Real) -> bool {
    exists|square: Real, inner: Real, root: Real, excess: Real, half: Real|
        #![trigger is_product(numerics, x, x, square), is_sum(numerics, square, Real::one(), inner), is_sqrt(numerics, inner, root), is_difference(numerics, root, Real::one(), excess), is_quotient(numerics, excess, Real::two(), half)]
        is_product(numerics, x, x, square) && is_sum(numerics, square, Real::one(), inner)
            && is_sqrt(numerics, inner, root) && is_difference(numerics, root, Real::one(), excess)
            && is_quotient(numerics, excess, Real::two(), half) && is_sum(numerics, half, x, y)
}

/// `y` is the logarithm of one more than the exponential of `x`.
pub open spec fn is_soft_plus<N: Numerics>(numerics: &N, x: Real, y: Real) -> bool {
    exists|grown: Real, inner: Real|
        #![trigger is_exp(numerics, x, grown), is_ln(numerics, inner, y)]
        is_exp(numerics, x, grown) && is_sum(numerics, Real::one(), grown, inner) && is_ln(
            numerics,
            inner,
            y,
        )
}

/// `y` is one over the square of one more than the absolute value of `x`.
pub open spec fn is_soft_sign_slope<N: Numerics>(numerics: &N, x: Real, y: Real) -> bool {
    exists|grown: Real, square: Real|
        #![trigger is_sum(numerics, Real::one(), x.absolute(), grown), is_quotient(numerics, Real::one(), square, y)]
        is_sum(numerics, Real::one(), x.absolute(), grown) && is_product(
            numerics,
            grown,
            grown,
            square,
        ) && is_quotient(numerics, Real::one(), square, y)
}

/// `y` is one less the square of the hyperbolic tangent of `x`.
pub open spec fn is_tanh_slope<N: Numerics>(numerics: &N, x: Real, y: Real) -> bool {
    exists|t: Real, square: Real|
        #![trigger is_tanh(numerics, x, t), is_difference(numerics, Real::one(), square, y)]
        is_tanh(numerics, x, t) && is_product(numerics, t, t, square) && is_difference(
            numerics,
            Real::one(),
            square,
            y,
        )
}

/// One over one more than the exponential of the negated real.
pub fn sigmoid<N: Numerics>(x: Real, numerics: &N) -> (y: Real)
    ensures
        is_sigmoid(numerics, x, y),
{
    let grown: Real = numerics.exp(x.negated());
    let below: Real = numerics.sum(Real::one(), grown);
    let y: Real = numerics.quotient(Real::one(), below);
    assert(is_exp(numerics, x.negation(), grown) && is_quotient(numerics, Real::one(), below, y));
    y
}

/// The hyperbolic tangent.
pub fn tanh<N: Numerics>(x: Real, numerics: &N) -> (y: Real)
    ensures
        is_tanh(numerics, x, y),
{
    numerics.tanh(x)
}

/// The real over one more than its absolute value.
pub fn soft_sign<N: Numerics>(x: Real, numerics: &N) -> (y: Real)
    ensures
        is_soft_sign(numerics, x, y),
{
    let below: Real = numerics.sum(Real::one(), x.abs());
    let y: Real = numerics.quotient(x, below);
    assert(is_sum(numerics, Real::one(), x.absolute(), below));
    y
}

/// Half of what the root of the square and one exceeds one by, and the real.
pub fn bent_identity<N: Numerics>(x: Real, numerics: &N) -> (y: Real)
    ensures
        is_bent_identity(numerics, x, y),
{
    let square: Real = numerics.product(x, x);
    let inner: Real = numerics.sum(square, Real::one());
    let root: Real = numerics.sqrt(inner);
    let excess: Real = numerics.difference(root, Real::one());
    let half: Real = numerics.quotient(excess, Real::two());
    let y: Real = numerics.sum(half, x);
    assert(is_product(numerics, x, x, square) && is_sum(numerics, square, Real::one(), inner)
        && is_sqrt(numerics, inner, root) && is_difference(numerics, root, Real::one(), excess)
        && is_quotient(numerics, excess, Real::two(), half));
    y
}

/// The logarithm of one more than the exponential of the real.
pub fn soft_plus<N: Numerics>(x: Real, numerics: &N) -> (y: Real)
    ensures
        is_soft_plus(numerics, x, y),
{
    let grown: Real = numerics.exp(x);
    let inner: Real = numerics.sum(Real::one(), grown);
    let y: Real = numerics.ln(inner);
    assert(is_exp(numerics, x, grown) && is_ln(numerics, inner, y));
    y
}

/// The slope of the rectified linear unit: one above zero, zero otherwise.
pub open spec fn relu_slope_of(x: Real) -> Real {
    if Real::zero().less(x) {
        Real::one()
    } else {
        Real::zero()
    }
}

/// The slope of the rectified linear unit.
pub fn relu_deriv(x: Real) -> (y: Real)
    ensures
        y == relu_slope_of(x),
{
    if x.gt(&Real::zero()) {
        Real::one()
    } else {
        Real::zero()
    }
}

/// The slope of `soft_plus`, which is `sigmoid`: one over one more than the
/// exponential of the negated real.
pub fn soft_plus_deriv<N: Numerics>(x: Real, numerics: &N) -> (y: Real)
    ensures
        is_sigmoid(numerics, x, y),
{
    sigmoid(x, numerics)
}

/// The slope of `soft_sign`: one over the square of one more than the
/// absolute value.
pub fn soft_sign_deriv<N: Numerics>(x: Real, numerics: &N) -> (y: Real)
    ensures
        is_soft_sign_slope(numerics, x, y),
{
    let grown: Real = numerics.sum(Real::one(), x.abs());
    let square: Real = numerics.product(grown, grown);
    let y: Real = numerics.quotient(Real::one(), square);
    assert(is_sum(numerics, Real::one(), x.absolute(), grown) && is_quotient(
        numerics,
        Real::one(),
        square,
        y,
    ));
    y
}

/// The slope of `tanh`: one less the square of the hyperbolic tangent.
pub fn tanh_deriv<N: Numerics>(x: Real, numerics: &N) -> (y: Real)
    ensures
        is_tanh_slope(numerics, x, y),
{
    let t: Real = numerics.tanh(x);
    let square: Real = numerics.product(t, t);
    let y: Real = numerics.difference(Real::one(), square);
    assert(is_tanh(numerics, x, t) && is_difference(numerics, Real::one(), square, y));
    y
}

} // verus!
