use vstd::prelude::*;
use crate::permutation_prob_f::PermutationProbF;
use crate::scalar::Real;

verus! {

/// A quarter.
pub open spec fn quarter() -> Real {
    Real { bits: 0x3FD0_0000_0000_0000 }
}

/// Three tenths.
pub open spec fn three_tenths() -> Real {
    Real { bits: 0x3FD3_3333_3333_3333 }
}

/// A half.
pub open spec fn half() -> Real {
    Real { bits: 0x3FE0_0000_0000_0000 }
}

/// The knobs of the evolution.
#[derive(Debug, Clone, Copy)]
pub struct Config {
    /// How many networks the population holds: the size of each
    /// sub-population.
    pub pop_size: usize,
    /// The share of the population, the fittest, that recombines.
    pub top_ratio_to_recombine: Real,
    /// How probably an offspring's weight mutates.
    pub mutation_prob: Real,
    /// By how much a mutation is scaled.
    pub mutation_strength: Real,
    /// How probably a mutation perturbs the weight, and does not replace it.
    pub perturb_prob: Real,
    /// How probably a surviving weight is marked for permutation.
    pub permutation_prob_f: PermutationProbF,
}

impl Config {
    /// A population of at least two, and every ratio, probability and
    /// strength in the unit interval.
    pub open spec fn valid(self) -> bool {
        &&& self.pop_size >= 2
        &&& self.top_ratio_to_recombine.unit()
        &&& self.mutation_prob.unit()
        &&& self.mutation_strength.unit()
        &&& self.perturb_prob.unit()
        &&& (self.permutation_prob_f matches PermutationProbF::Uniform(p) ==> p.unit())
    }

    /// The usual knobs for a population of the given size: a quarter
    /// recombines, three weights in ten mutate, at half strength, half of
    /// them by perturbation, and every survivor is marked for permutation.
    pub fn new(pop_size: usize) -> (config: Config)
        ensures
            config.pop_size == pop_size,
            config.top_ratio_to_recombine == quarter(),
            config.mutation_prob == three_tenths(),
            config.mutation_strength == half(),
            config.perturb_prob == half(),
            config.permutation_prob_f matches PermutationProbF::Uniform(p) && p == Real::one(),
            config.valid() <==> pop_size >= 2,
    {
        Config {
            pop_size,
            top_ratio_to_recombine: Real::from_bits(0x3FD0_0000_0000_0000),
            mutation_prob: Real::from_bits(0x3FD3_3333_3333_3333),
            mutation_strength: Real::from_bits(0x3FE0_0000_0000_0000),
            perturb_prob: Real::from_bits(0x3FE0_0000_0000_0000),
            permutation_prob_f: PermutationProbF::Uniform(Real::one()),
        }
    }

    /// Whether the knobs are valid.
    pub fn is_valid(&self) -> (r: bool)
        ensures
            r == self.valid(),
    {
        let policy: bool = match self.permutation_prob_f {
            PermutationProbF::Uniform(p) => p.is_unit(),
            PermutationProbF::Relative => true,
        };
        self.pop_size >= 2 && self.top_ratio_to_recombine.is_unit() && self.mutation_prob.is_unit()
            && self.mutation_strength.is_unit() && self.perturb_prob.is_unit() && policy
    }
}

} // verus!
