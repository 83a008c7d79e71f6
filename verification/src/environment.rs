use vstd::prelude::*;
use crate::network::ANN;
use crate::scalar::Real;

verus! {

/// What a network is tested in.
pub trait Environment {
    /// The fitness of the network in this environment. Higher is fitter,
    /// and the fitness has to be a finite number.
    fn evaluate(&self, nn: &ANN) -> Real
        requires
            nn.wf(),
    ;
}

/// `fit` is a fitness that the environment gives the network.
pub open spec fn is_evaluation<E: Environment>(env: &E, nn: ANN, fit: Real) -> bool {
    call_ensures(E::evaluate, (env, &nn), fit)
}

} // verus!
