use vstd::prelude::*;

verus! {

/// Why an operation was refused.
#[derive(Debug, Clone, Copy, PartialEq, Eq, Structural)]
pub enum CosyneError {
    /// A vector does not have the length that the topology asks for.
    ShapeMismatch,
    /// The population is smaller than two, or a ratio or a probability lies
    /// outside the interval from zero to one.
    InvalidConfig,
    /// Fewer offspring than cells to replace, or a rank outside the
    /// sub-population.
    Sizing,
    /// An evaluation gave a fitness that is no finite number.
    NonFiniteFitness,
}

} // verus!
