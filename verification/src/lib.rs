//! Cooperative synapse neuroevolution of fixed-topology feed-forward networks.
//!
//! Every synapse of the network evolves in a sub-population of its own: the
//! population holds, for each weight and bias of the topology, as many
//! candidate values as there are networks, each with the running mean of
//! the fitness of the networks that used it.
//!
//! Reals are held as binary64 bit patterns, and their order is decided here,
//! on the bits. Arithmetic on them and random reals are supplied by the
//! caller through [`Numerics`]. What is computed with them is stated over
//! what the supplier's operations give, so everything stated in this crate
//! holds for every supplier, and says as much as the supplier promises.
//! Random indices come from a seeded generator that the population owns.

pub mod activation;
pub mod config;
pub mod cosyne;
pub mod derangement;
pub mod environment;
pub mod error;
pub mod layer;
pub mod network;
pub mod numerics;
pub mod offspring;
pub mod permutation_prob_f;
pub mod population;
pub mod random;
pub mod ranking;
pub mod scalar;
pub mod subpopulation;

pub use crate::activation::Activation;
pub use crate::config::Config;
pub use crate::cosyne::Cosyne;
pub use crate::derangement::random_derangement;
pub use crate::environment::Environment;
pub use crate::error::CosyneError;
pub use crate::layer::Layer;
pub use crate::network::ANN;
pub use crate::numerics::Numerics;
pub use crate::permutation_prob_f::PermutationProbF;
pub use crate::population::Population;
pub use crate::scalar::Real;
