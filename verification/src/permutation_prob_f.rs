use vstd::prelude::*;
use crate::numerics::{is_difference, is_product, is_quotient, is_sum, Numerics};
use crate::scalar::Real;

verus! {

/// The first of the reals that rank lowest.
pub open spec fn least_of(fits: Seq<Real>) -> Real
    decreases fits.len(),
{
    if fits.len() <= 1 {
        fits[0]
    } else {
        let before = least_of(fits.drop_last());
        if fits.last().key() < before.key() {
            fits.last()
        } else {
            before
        }
    }
}

/// The first of the reals that rank highest.
pub open spec fn greatest_of(fits: Seq<Real>) -> Real
    decreases fits.len(),
{
    if fits.len() <= 1 {
        fits[0]
    } else {
        let before = greatest_of(fits.drop_last());
        if fits.last().key() > before.key() {
            fits.last()
        } else {
            before
        }
    }
}

/// All the reals have one place in the order.
pub open spec fn all_level(fits: Seq<Real>) -> bool {
    forall|i: int, j: int|
        0 <= i < fits.len() && 0 <= j < fits.len() ==> (#[trigger] fits[i]).key() == (
        #[trigger] fits[j]).key()
}

/// The least and the greatest are among the reals and bound them.
pub proof fn lemma_extremes(fits: Seq<Real>)
    requires
        fits.len() > 0,
    ensures
        fits.contains(least_of(fits)),
        fits.contains(greatest_of(fits)),
        forall|i: int| 0 <= i < fits.len() ==> least_of(fits).key() <= (#[trigger] fits[i]).key(),
        forall|i: int|
            0 <= i < fits.len() ==> (#[trigger] fits[i]).key() <= greatest_of(fits).key(),
    decreases fits.len(),
{
    if fits.len() <= 1 {
        assert(fits[0] == least_of(fits));
    } else {
        let front = fits.drop_last();
        lemma_extremes(front);
        let lo = least_of(front);
        let hi = greatest_of(front);
        let i_lo = choose|i: int| 0 <= i < front.len() && front[i] == lo;
        let i_hi = choose|i: int| 0 <= i < front.len() && front[i] == hi;
        assert(fits[i_lo] == lo);
        assert(fits[i_hi] == hi);
        assert(fits[fits.len() - 1] == fits.last());
        assert forall|i: int| 0 <= i < fits.len() implies least_of(fits).key() <= (
        #[trigger] fits[i]).key() by {
            if i < front.len() {
                assert(front[i] == fits[i]);
            }
        }
        assert forall|i: int| 0 <= i < fits.len() implies (#[trigger] fits[i]).key()
            <= greatest_of(fits).key() by {
            if i < front.len() {
                assert(front[i] == fits[i]);
            }
        }
    }
}

/// The first least and the first greatest of the reals, by their rank.
pub fn extremes(fits: &Vec<Real>) -> (r: (Real, Real))
    requires
        fits@.len() > 0,
    ensures
        r.0 == least_of(fits@),
        r.1 == greatest_of(fits@),
{
    let mut min_fit: Real = fits[0];
    let mut max_fit: Real = fits[0];
    let mut i: usize = 1;
    while i < fits.len()
        invariant
            1 <= i <= fits@.len(),
            min_fit == least_of(fits@.subrange(0, i as int)),
            max_fit == greatest_of(fits@.subrange(0, i as int)),
        decreases fits@.len() - i,
    {
        let f: Real = fits[i];
        proof {
            assert(fits@.subrange(0, i + 1).drop_last() =~= fits@.subrange(0, i as int));
        }
        if f.precedes(&min_fit) {
            min_fit = f;
        }
        if max_fit.precedes(&f) {
            max_fit = f;
        }
        i += 1;
    }
    assert(fits@.subrange(0, i as int) =~= fits@);
    (min_fit, max_fit)
}

/// How probable it is that a weight is marked for permutation.
#[derive(Debug, Clone, Copy)]
pub enum PermutationProbF {
    /// Every weight is marked with the same probability.
    Uniform(Real),
    /// A weight is the more probably marked the lower its fitness ranks
    /// among those of its sub-population.
    Relative,
}

impl PermutationProbF {
    /// `p` is the probability that the policy gives a weight of the fitness
    /// `weight_fit` among the fitnesses `fits`: its constant, where it is
    /// uniform; where it is relative, one if least and greatest fitness have
    /// one rank, and otherwise one less the place of `weight_fit` between
    /// them, as the supplier's arithmetic gives it.
    pub open spec fn is_probability<N: Numerics>(
        self,
        numerics: &N,
        fits: Seq<Real>,
        weight_fit: Real,
        p: Real,
    ) -> bool {
        match self {
            PermutationProbF::Uniform(constant) => p == constant,
            PermutationProbF::Relative => if least_of(fits).key() == greatest_of(fits).key() {
                p == Real::one()
            } else {
                is_relative(numerics, least_of(fits), greatest_of(fits), weight_fit, p)
            },
        }
    }

    /// The probability that a weight of the fitness `weight_fit` is marked,
    /// given the fitnesses of its sub-population.
    ///
    /// `Uniform` gives its constant. `Relative` gives one less the place of
    /// `weight_fit` between the least and the greatest fitness, scaled to
    /// the unit interval; where least and greatest have one rank there is
    /// nothing to scale by, and it gives one.
    pub fn get_probability<N: Numerics>(
        &self,
        subpopulation_fits: &Vec<Real>,
        weight_fit: Real,
        numerics: &N,
    ) -> (p: Real)
        requires
            self is Relative ==> subpopulation_fits@.len() > 0,
        ensures
            self.is_probability(numerics, subpopulation_fits@, weight_fit, p),
            self matches PermutationProbF::Uniform(constant) ==> p == constant,
            self is Relative && least_of(subpopulation_fits@).key() == greatest_of(
                subpopulation_fits@,
            ).key() ==> p == Real::one(),
            self is Relative && least_of(subpopulation_fits@).key() != greatest_of(
                subpopulation_fits@,
            ).key() ==> is_relative(
                numerics,
                least_of(subpopulation_fits@),
                greatest_of(subpopulation_fits@),
                weight_fit,
                p,
            ),
            self is Relative && all_level(subpopulation_fits@) ==> p == Real::one() && p.finite()
                && p.unit(),
    {
        match self {
            PermutationProbF::Uniform(p) => *p,
            PermutationProbF::Relative => {
                let (min_fit, max_fit) = extremes(subpopulation_fits);
                proof {
                    lemma_extremes(subpopulation_fits@);
                }
                if !min_fit.precedes(&max_fit) {
                    Real::one()
                } else {
                    let scaled: Real = scale(
                        min_fit,
                        max_fit,
                        Real::zero(),
                        Real::one(),
                        weight_fit,
                        numerics,
                    );
                    numerics.difference(Real::one(), scaled)
                }
            },
        }
    }
}

/// `y` is `to_min` and what `value` exceeds `from_min` by, times the width
/// of the range it is taken to, over the width of the range it comes from.
pub open spec fn is_scaled<N: Numerics>(
    numerics: &N,
    from_min: Real,
    from_max: Real,
    to_min: Real,
    to_max: Real,
    value: Real,
    y: Real,
) -> bool {
    exists|offset: Real, width: Real, risen: Real, span: Real, share: Real|
        #![trigger is_difference(numerics, value, from_min, offset), is_difference(numerics, to_max, to_min, width), is_product(numerics, offset, width, risen), is_difference(numerics, from_max, from_min, span), is_quotient(numerics, risen, span, share)]
        is_difference(numerics, value, from_min, offset) && is_difference(
            numerics,
            to_max,
            to_min,
            width,
        ) && is_product(numerics, offset, width, risen) && is_difference(
            numerics,
            from_max,
            from_min,
            span,
        ) && is_quotient(numerics, risen, span, share) && is_sum(numerics, to_min, share, y)
}

/// `p` is one less the place of `weight_fit` between `lo` and `hi`, scaled
/// to the unit interval.
pub open spec fn is_relative<N: Numerics>(
    numerics: &N,
    lo: Real,
    hi: Real,
    weight_fit: Real,
    p: Real,
) -> bool {
    exists|scaled: Real| #[trigger]
        is_scaled(numerics, lo, hi, Real::zero(), Real::one(), weight_fit, scaled)
            && is_difference(numerics, Real::one(), scaled, p)
}

/// The place of `value` in the range it is taken to, where it lay between
/// `from_min` and `from_max`.
pub fn scale<N: Numerics>(
    from_min: Real,
    from_max: Real,
    to_min: Real,
    to_max: Real,
    value: Real,
    numerics: &N,
) -> (y: Real)
    ensures
        is_scaled(numerics, from_min, from_max, to_min, to_max, value, y),
{
    let offset: Real = numerics.difference(value, from_min);
    let width: Real = numerics.difference(to_max, to_min);
    let risen: Real = numerics.product(offset, width);
    let span: Real = numerics.difference(from_max, from_min);
    let share: Real = numerics.quotient(risen, span);
    let y: Real = numerics.sum(to_min, share);
    assert(is_difference(numerics, value, from_min, offset) && is_difference(
        numerics,
        to_max,
        to_min,
        width,
    ) && is_product(numerics, offset, width, risen) && is_difference(
        numerics,
        from_max,
        from_min,
        span,
    ) && is_quotient(numerics, risen, span, share));
    y
}

} // verus!
