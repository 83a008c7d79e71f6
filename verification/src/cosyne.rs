use vstd::prelude::*;
use crate::config::Config;
use crate::environment::{is_evaluation, Environment};
use crate::error::CosyneError;
use crate::network::ANN;
use crate::numerics::{is_from_count, Numerics};
use crate::population::{folded_grid, generation, Population};
use crate::scalar::Real;
use crate::subpopulation::{values_of, Cell};

verus! {

/// `fit` is a fitness that the environment gives to a network of the
/// topology whose genes are the values of the column.
pub open spec fn is_fitness_of<E: Environment>(
    env: &E,
    topology: ANN,
    column: Seq<Cell>,
    fit: Real,
) -> bool {
    exists|nn: ANN|
        nn.wf() && nn.same_topology(topology) && nn.genes_view() == values_of(column)
            && #[trigger] is_evaluation(env, nn, fit)
}

/// The optimizer: a population, the environment that its networks are
/// tested in, and the fittest network seen so far.
pub struct Cosyne<E: Environment, N: Numerics> {
    config: Config,
    env: E,
    numerics: N,
    pop: Population,
    generation: usize,
    champion_fit_history: Vec<Real>,
    champion: (ANN, Real),
}

impl<E: Environment, N: Numerics> Cosyne<E, N> {
    /// The population.
    pub closed spec fn population(self) -> Population {
        self.pop
    }

    /// How many generations have passed.
    pub closed spec fn generations(self) -> nat {
        self.generation as nat
    }

    /// The fittest network seen so far.
    pub closed spec fn champion_network(self) -> ANN {
        self.champion.0
    }

    /// The fitness of the fittest network seen so far.
    pub closed spec fn champion_fitness(self) -> Real {
        self.champion.1
    }

    /// The champion's fitness after each generation.
    pub closed spec fn history(self) -> Seq<Real> {
        self.champion_fit_history@
    }

    /// The environment.
    pub closed spec fn environment(self) -> E {
        self.env
    }

    /// The supplier of arithmetic and random reals.
    pub closed spec fn supplier(self) -> N {
        self.numerics
    }

    /// `fits` holds, for each column of the population, a finite fitness
    /// that the environment gives its network.
    pub open spec fn evaluated(self, fits: Seq<Real>) -> bool {
        &&& fits.len() == self.population().size()
        &&& forall|j: int|
            0 <= j < fits.len() ==> (#[trigger] fits[j]).finite() && is_fitness_of(
                &self.environment(),
                self.population().topology(),
                self.population().grid()[j],
                fits[j],
            )
    }

    /// The champion of `after` is the fittest of the champion of `self` and
    /// the networks with the fitnesses `fits`: the champion stays unless a
    /// network is strictly fitter, and then it is the first of the fittest
    /// networks, with its fitness.
    pub open spec fn crowned(self, fits: Seq<Real>, after: Self) -> bool {
        &&& self.champion_fitness().key() <= after.champion_fitness().key()
        &&& forall|j: int|
            0 <= j < fits.len() ==> (#[trigger] fits[j]).key() <= after.champion_fitness().key()
        &&& {
            ||| after.champion_fitness() == self.champion_fitness() && after.champion_network()
                == self.champion_network()
            ||| self.champion_fitness().key() < after.champion_fitness().key() && exists|j: int|
                0 <= j < fits.len() && #[trigger] fits[j] == after.champion_fitness()
                    && after.champion_network().same_topology(self.population().topology())
                    && after.champion_network().genes_view() == values_of(
                    self.population().grid()[j],
                ) && forall|k: int| 0 <= k < j ==> (#[trigger] fits[k]).key() < fits[j].key()
        }
    }

    /// The population of `after` is that of `self` with the fitnesses `fits`
    /// folded in, the generation counted.
    pub open spec fn folded(self, fits: Seq<Real>, after: Seq<Seq<Cell>>) -> bool {
        exists|g: Real|
            is_from_count(&self.supplier(), self.population().generation() as usize, g)
                && #[trigger] folded_grid(
                &self.supplier(),
                self.population().grid(),
                g,
                fits,
                after,
            )
    }

    /// The population of `after` is that of `self` with the fitnesses `fits`
    /// folded in and one generation gone through, made or refused as
    /// `done` says.
    pub open spec fn stepped(self, fits: Seq<Real>, after: Self, done: bool) -> bool {
        exists|mid: Seq<Seq<Cell>>|
            self.folded(fits, mid) && #[trigger] generation::<N>(
                &self.supplier(),
                self.population().knobs(),
                self.population().size() as usize,
                mid,
                after.population().grid(),
                self.population().gene_total(),
                done,
            )
    }

    /// The population and the champion are well-formed, the champion's
    /// fitness is finite, and the generations are counted alike everywhere.
    pub closed spec fn wf(self) -> bool {
        &&& self.pop.wf()
        &&& self.pop.knobs() == self.config
        &&& self.pop.generation() == self.generation
        &&& self.champion.0.wf()
        &&& self.champion.1.finite()
        &&& self.champion_fit_history@.len() == self.generation
    }

    /// An optimizer for the topology of `nn` in the environment `env`, with
    /// a population whose generator is started from `seed`. The champion is
    /// the first network of the population, with no fitness yet.
    ///
    /// Refused with `InvalidConfig` exactly where the knobs are not valid.
    pub fn new(env: E, nn: ANN, config: Config, numerics: N, seed: u64) -> (r: Result<
        Cosyne<E, N>,
        CosyneError,
    >)
        requires
            nn.wf(),
        ensures
            r is Ok <==> config.valid(),
            r matches Err(e) ==> e == CosyneError::InvalidConfig,
            r matches Ok(c) ==> {
                &&& c.wf()
                &&& c.generations() == 0
                &&& c.history().len() == 0
                &&& c.champion_fitness() == Real::lowest()
                &&& c.population().knobs() == config
                &&& c.population().topology().same_as(nn)
                &&& c.champion_network().wf()
                &&& c.champion_network().same_topology(nn)
                &&& c.champion_network().gene_count() == nn.gene_count()
                &&& c.champion_network().genes_view() == values_of(c.population().grid()[0])
            },
    {
        let mut numerics = numerics;
        let pop: Population = match Population::new(config, &nn, seed, &mut numerics) {
            Ok(pop) => pop,
            Err(e) => {
                return Err(e);
            },
        };
        let champion: (ANN, Real) = (pop.get_network(0), Real::lowest());
        proof {
            let first = champion.0.layers_view();
            let kept = pop.topology().layers_view();
            let given = nn.layers_view();
            assert forall|k: int| 0 <= k < first.len() implies (#[trigger] first[k]).same_shape(
                given[k],
            ) by {
                assert(first[k].same_shape(kept[k]));
                assert(kept[k].same_as(given[k]));
            }
            crate::network::lemma_count_by_shape(first, given);
        }
        Ok(
            Cosyne {
                config,
                env,
                numerics,
                pop,
                generation: 0,
                champion_fit_history: Vec::new(),
                champion,
            },
        )
    }

    /// Sets the probability that an offspring's weight mutates.
    ///
    /// Refused with `InvalidConfig`, and nothing changed, exactly where `mp`
    /// lies outside the unit interval.
    pub fn set_mutation_prob(&mut self, mp: Real) -> (r: Result<(), CosyneError>)
        requires
            old(self).wf(),
        ensures
            final(self).wf(),
            r is Ok <==> mp.unit(),
            r is Ok ==> final(self).population().knobs() == (Config {
                mutation_prob: mp,
                ..old(self).population().knobs()
            }),
            r matches Err(e) ==> e == CosyneError::InvalidConfig && final(self).population().knobs()
                == old(self).population().knobs(),
            final(self).population().grid() == old(self).population().grid(),
            final(self).champion_fitness() == old(self).champion_fitness(),
            final(self).generations() == old(self).generations(),
    {
        let r = self.pop.set_mutation_prob(mp);
        if r.is_ok() {
            self.config.mutation_prob = mp;
        }
        r
    }

    /// Sets the scale of a mutation.
    ///
    /// Refused with `InvalidConfig`, and nothing changed, exactly where `ms`
    /// lies outside the unit interval.
    pub fn set_mutation_strength(&mut self, ms: Real) -> (r: Result<(), CosyneError>)
        requires
            old(self).wf(),
        ensures
            final(self).wf(),
            r is Ok <==> ms.unit(),
            r is Ok ==> final(self).population().knobs() == (Config {
                mutation_strength: ms,
                ..old(self).population().knobs()
            }),
            r matches Err(e) ==> e == CosyneError::InvalidConfig && final(self).population().knobs()
                == old(self).population().knobs(),
            final(self).population().grid() == old(self).population().grid(),
            final(self).champion_fitness() == old(self).champion_fitness(),
            final(self).generations() == old(self).generations(),
    {
        let r = self.pop.set_mutation_strength(ms);
        if r.is_ok() {
            self.config.mutation_strength = ms;
        }
        r
    }

    /// Sets the probability that a mutation perturbs.
    ///
    /// Refused with `InvalidConfig`, and nothing changed, exactly where `pp`
    /// lies outside the unit interval.
    pub fn set_perturb_prob(&mut self, pp: Real) -> (r: Result<(), CosyneError>)
        requires
            old(self).wf(),
        ensures
            final(self).wf(),
            r is Ok <==> pp.unit(),
            r is Ok ==> final(self).population().knobs() == (Config {
                perturb_prob: pp,
                ..old(self).population().knobs()
            }),
            r matches Err(e) ==> e == CosyneError::InvalidConfig && final(self).population().knobs()
                == old(self).population().knobs(),
            final(self).population().grid() == old(self).population().grid(),
            final(self).champion_fitness() == old(self).champion_fitness(),
            final(self).generations() == old(self).generations(),
    {
        let r = self.pop.set_perturb_prob(pp);
        if r.is_ok() {
            self.config.perturb_prob = pp;
        }
        r
    }

    /// One generation: every network of the population is evaluated in the
    /// environment, the fitnesses are folded into the running means, the
    /// generation is counted, and the population evolves.
    ///
    /// The champion is replaced only by a network of strictly greater
    /// fitness, so its fitness never falls. Refused with `NonFiniteFitness`,
    /// and nothing changed, where an evaluation gives no finite number.
    /// Refused with `Sizing` exactly where the population refuses its
    /// generation, as `generation` says: the evaluations have then been
    /// folded in and counted, and the champion may be a new one.
    pub fn evolve(&mut self) -> (r: Result<(), CosyneError>)
        requires
            old(self).wf(),
            old(self).generations() < usize::MAX,
        ensures
            final(self).wf(),
            final(self).champion_network().wf(),
            final(self).champion_fitness().finite(),
            final(self).champion_fitness().key() >= old(self).champion_fitness().key(),
            ({
                ||| final(self).champion_fitness() == old(self).champion_fitness()
                    && final(self).champion_network() == old(self).champion_network()
                ||| old(self).champion_fitness().less(final(self).champion_fitness())
            }),
            final(self).population().knobs() == old(self).population().knobs(),
            final(self).population().size() == old(self).population().size(),
            r matches Err(e) ==> e == CosyneError::NonFiniteFitness || e == CosyneError::Sizing,
            r != Err::<(), CosyneError>(CosyneError::NonFiniteFitness) ==> {
                &&& final(self).generations() == old(self).generations() + 1
                &&& final(self).history() == old(self).history().push(
                    final(self).champion_fitness(),
                )
                &&& exists|fits: Seq<Real>| #[trigger]
                    old(self).evaluated(fits) && old(self).crowned(fits, *final(self))
                        && old(self).stepped(fits, *final(self), r is Ok)
            },
            r == Err::<(), CosyneError>(CosyneError::NonFiniteFitness) ==> *final(self) == *old(self),
            r == Err::<(), CosyneError>(CosyneError::NonFiniteFitness) ==> exists|j: int, fit: Real|
                0 <= j < old(self).population().size() && !fit.finite() && #[trigger] is_fitness_of(
                    &old(self).environment(),
                    old(self).population().topology(),
                    old(self).population().grid()[j],
                    fit,
                ),
    {
        let size: usize = self.pop.pop_size();
        let mut fits: Vec<Real> = Vec::new();
        let mut best: Real = self.champion.1;
        let mut candidate: Option<ANN> = None;
        let ghost mut chosen: int = 0;
        let mut j: usize = 0;
        while j < size
            invariant
                *self == *old(self),
                self.wf(),
                size == self.pop.size(),
                j <= size,
                fits@.len() == j,
                best.finite(),
                self.champion.1.key() <= best.key(),
                forall|k: int|
                    0 <= k < j ==> (#[trigger] fits@[k]).finite() && fits@[k].key() <= best.key()
                        && is_fitness_of(
                        &self.env,
                        self.pop.topology(),
                        self.pop.grid()[k],
                        fits@[k],
                    ),
                candidate is None ==> best == self.champion.1,
                candidate matches Some(net) ==> {
                    &&& net.wf()
                    &&& self.champion.1.less(best)
                    &&& 0 <= chosen < j
                    &&& fits@[chosen] == best
                    &&& net.same_topology(self.pop.topology())
                    &&& net.genes_view() == values_of(self.pop.grid()[chosen])
                    &&& forall|k: int| 0 <= k < chosen ==> (#[trigger] fits@[k]).key() < best.key()
                },
            decreases size - j,
        {
            let net: ANN = self.pop.get_network(j);
            let fit: Real = self.env.evaluate(&net);
            proof {
                assert(is_evaluation(&self.env, net, fit));
                assert(is_fitness_of(&self.env, self.pop.topology(), self.pop.grid()[j as int], fit));
            }
            if !fit.is_finite() {
                assert(is_fitness_of(
                    &old(self).environment(),
                    old(self).population().topology(),
                    old(self).population().grid()[j as int],
                    fit,
                ));
                return Err(CosyneError::NonFiniteFitness);
            }
            fits.push(fit);
            if fit.gt(&best) {
                best = fit;
                candidate = Some(net);
                proof {
                    chosen = j as int;
                }
            }
            j += 1;
        }
        match candidate {
            Some(net) => {
                self.champion = (net, best);
            },
            None => {},
        }
        let ghost crowned = *self;
        assert(old(self).evaluated(fits@) && old(self).crowned(fits@, crowned));
        let folded = self.pop.update_fitnesses(&fits, &self.numerics);
        assert(folded is Ok);
        self.champion_fit_history.push(self.champion.1);
        self.generation = self.generation + 1;
        let ghost mid = self.pop.grid();
        proof {
            let g = choose|g: Real|
                is_from_count(&self.numerics, crowned.pop.generation() as usize, g)
                    && #[trigger] folded_grid(&self.numerics, crowned.pop.grid(), g, fits@, mid);
            assert(is_from_count(
                &old(self).supplier(),
                old(self).population().generation() as usize,
                g,
            ) && folded_grid(
                &old(self).supplier(),
                old(self).population().grid(),
                g,
                fits@,
                mid,
            ));
            assert(old(self).folded(fits@, mid));
        }
        let r = self.pop.evolve(&mut self.numerics);
        proof {
            assert(generation::<N>(
                &old(self).supplier(),
                old(self).population().knobs(),
                old(self).population().size() as usize,
                mid,
                self.population().grid(),
                old(self).population().gene_total(),
                r is Ok,
            ));
            assert(old(self).crowned(fits@, *self));
            assert(old(self).stepped(fits@, *self, r is Ok));
        }
        r
    }

    /// The fittest network seen so far, and its fitness.
    pub fn champion(&self) -> (c: &(ANN, Real))
        ensures
            c.0 == self.champion_network(),
            c.1 == self.champion_fitness(),
    {
        &self.champion
    }

    /// The champion's fitness after each generation.
    pub fn champion_fit_history(&self) -> (h: &Vec<Real>)
        ensures
            h@ == self.history(),
    {
        &self.champion_fit_history
    }

    /// How many generations have passed.
    pub fn generation(&self) -> (g: usize)
        ensures
            g == self.generations(),
    {
        self.generation
    }
}

} // verus!
