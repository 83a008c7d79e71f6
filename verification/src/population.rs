use vstd::prelude::*;
use rand::rngs::StdRng;
use crate::config::Config;
use crate::error::CosyneError;
use crate::layer::is_drawn;
use crate::network::ANN;
use crate::numerics::{
    is_ceil_count, is_floor_count, is_from_count, is_product, is_quotient, is_sum, Numerics,
};
use crate::derangement::{is_derangement, is_permutation, is_shuffle, random_derangement};
use crate::offspring::{
    cell_mutated, copy_cells, crossover_point, crossover_spread, exchange, exchange_prefix,
    is_crossover_spread, is_drawn_point, mutate, mutated_from, rows_rearranged,
};
use crate::permutation_prob_f::PermutationProbF;
use crate::random::seeded;
use crate::ranking::{is_ranking, lemma_ranking_exists, rank_by_fitness, ranking_of};
use crate::scalar::Real;
use crate::subpopulation::{
    below_count, fitnesses, fitnesses_of, lemma_rank_bounds_below, renewed,
    replace_and_permute_row, values,
    values_of, Cell,
};

verus! {

/// The cells of a vector of columns.
pub open spec fn grid_of(columns: Seq<Vec<Cell>>) -> Seq<Seq<Cell>> {
    Seq::new(columns.len(), |j: int| columns[j]@)
}

/// `outer` columns of `inner` cells each.
pub open spec fn is_grid(grid: Seq<Seq<Cell>>, outer: nat, inner: nat) -> bool {
    &&& grid.len() == outer
    &&& forall|j: int| 0 <= j < outer ==> (#[trigger] grid[j]).len() == inner
}

/// The sub-population of one weight: the `i`-th cell of every column.
pub open spec fn row_of(grid: Seq<Seq<Cell>>, i: int) -> Seq<Cell> {
    Seq::new(grid.len(), |j: int| grid[j][i])
}

/// Two grids that hold the same values, whatever their fitnesses.
pub open spec fn same_values(a: Seq<Seq<Cell>>, b: Seq<Seq<Cell>>) -> bool {
    &&& a.len() == b.len()
    &&& forall|j: int| 0 <= j < a.len() ==> values_of(#[trigger] a[j]) == values_of(b[j])
}

/// The cells by row where they were held by column, and back: the `i`-th
/// vector of the result holds the `i`-th cell of every given vector.
pub fn transpose(columns: &Vec<Vec<Cell>>, inner: usize) -> (rows: Vec<Vec<Cell>>)
    requires
        is_grid(grid_of(columns@), columns@.len() as nat, inner as nat),
    ensures
        rows@.len() == inner,
        is_grid(grid_of(rows@), inner as nat, columns@.len() as nat),
        forall|i: int| 0 <= i < inner ==> (#[trigger] rows@[i])@ == row_of(grid_of(columns@), i),
{
    let mut rows: Vec<Vec<Cell>> = Vec::new();
    let mut i: usize = 0;
    while i < inner
        invariant
            is_grid(grid_of(columns@), columns@.len() as nat, inner as nat),
            i <= inner,
            rows@.len() == i,
            forall|k: int| 0 <= k < i ==> (#[trigger] rows@[k])@ == row_of(grid_of(columns@), k),
        decreases inner - i,
    {
        let mut row: Vec<Cell> = Vec::new();
        let mut j: usize = 0;
        while j < columns.len()
            invariant
                is_grid(grid_of(columns@), columns@.len() as nat, inner as nat),
                i < inner,
                j <= columns@.len(),
                row@.len() == j,
                forall|k: int| 0 <= k < j ==> #[trigger] row@[k] == columns@[k]@[i as int],
            decreases columns@.len() - j,
        {
            assert(grid_of(columns@)[j as int].len() == inner);
            row.push(columns[j][i]);
            j += 1;
        }
        rows.push(row);
        i += 1;
    }
    rows
}

/// Whether there are `inner` cells in every column.
pub fn columns_have(columns: &Vec<Vec<Cell>>, inner: usize) -> (r: bool)
    ensures
        r == is_grid(grid_of(columns@), columns@.len() as nat, inner as nat),
{
    let mut j: usize = 0;
    while j < columns.len()
        invariant
            j <= columns@.len(),
            forall|k: int| 0 <= k < j ==> (#[trigger] grid_of(columns@)[k]).len() == inner,
        decreases columns@.len() - j,
    {
        if columns[j].len() != inner {
            assert(grid_of(columns@)[j as int].len() != inner);
            return false;
        }
        j += 1;
    }
    true
}

/// The last `count` indices of a ranking, the highest first: the fittest.
pub fn elite_of(order: &Vec<usize>, count: usize) -> (elite: Vec<usize>)
    requires
        count <= order@.len(),
    ensures
        elite@.len() == count,
        forall|a: int| 0 <= a < count ==> #[trigger] elite@[a] == order@[order@.len() - 1 - a],
{
    let mut elite: Vec<usize> = Vec::new();
    let mut a: usize = 0;
    while a < count
        invariant
            a <= count <= order@.len(),
            elite@.len() == a,
            forall|b: int| 0 <= b < a ==> #[trigger] elite@[b] == order@[order@.len() - 1 - b],
        decreases count - a,
    {
        elite.push(order[order.len() - 1 - a]);
        a += 1;
    }
    elite
}

/// The threshold of a sub-population at a rank: the fitness that stands at
/// that rank when the cells are ranked by ascending fitness.
pub open spec fn threshold_at(row: Seq<Cell>, rank: int) -> Real {
    row[ranking_of(fitnesses_of(row))[rank] as int].fitness
}

/// A sub-population after replacement and permutation with the threshold at
/// a rank.
pub open spec fn row_renewed<N: Numerics>(
    policy: PermutationProbF,
    row: Seq<Cell>,
    offspring: Seq<Cell>,
    rank: int,
    after: Seq<Cell>,
) -> bool {
    renewed::<N>(policy, row, offspring, threshold_at(row, rank), after)
}

/// Every sub-population after replacement and permutation at a rank.
pub open spec fn renewed_at<N: Numerics>(
    policy: PermutationProbF,
    before: Seq<Seq<Cell>>,
    offspring: Seq<Seq<Cell>>,
    rank: int,
    after: Seq<Seq<Cell>>,
    inner: nat,
) -> bool {
    forall|i: int|
        0 <= i < inner ==> #[trigger] row_renewed::<N>(
            policy,
            row_of(before, i),
            row_of(offspring, i),
            rank,
            row_of(after, i),
        )
}

/// What replacement and permutation at a rank gives: it is done exactly
/// where every offspring has a cell for each gene, the rank is a rank of the
/// population, and the offspring suffice; and where it is not done, nothing
/// is changed.
pub open spec fn replaced_at<N: Numerics>(
    policy: PermutationProbF,
    before: Seq<Seq<Cell>>,
    offspring: Seq<Seq<Cell>>,
    rank: usize,
    after: Seq<Seq<Cell>>,
    inner: nat,
    done: bool,
) -> bool {
    &&& done <==> is_grid(offspring, offspring.len(), inner) && rank < before.len()
        && offspring_suffice(before, offspring.len(), rank as int, inner)
    &&& done ==> renewed_at::<N>(policy, before, offspring, rank as int, after, inner)
    &&& !done ==> after == before
}

/// There are offspring enough: no sub-population has more cells below its
/// threshold at the rank than `count`.
pub open spec fn offspring_suffice(grid: Seq<Seq<Cell>>, count: nat, rank: int, inner: nat) -> bool {
    forall|i: int|
        0 <= i < inner ==> below_count(
            #[trigger] row_of(grid, i),
            threshold_at(row_of(grid, i), rank),
        ) <= count
}

/// The grid once the first `upto` elite columns were crossed, in order, each
/// with the elite column that its partner names, at its point.
pub open spec fn crossed_over(
    grid: Seq<Seq<Cell>>,
    elite: Seq<usize>,
    partners: Seq<usize>,
    points: Seq<usize>,
    upto: int,
) -> Seq<Seq<Cell>>
    decreases upto,
{
    if upto <= 0 {
        grid
    } else {
        exchange(
            crossed_over(grid, elite, partners, points, upto - 1),
            elite[upto - 1] as int,
            elite[partners[upto - 1] as int] as int,
            points[upto - 1] as int,
        )
    }
}

/// `after` is `before` with every elite column crossed with another. The
/// partners are a shuffle of the elite: a permutation that pairs none with
/// itself, where there are two at least. Every point is one that a normal draw
/// gave, around half the genes and with their share `spread_share` as the
/// standard deviation, both as the supplier gives them at the start.
pub open spec fn is_crossing<N: Numerics>(
    numerics: &N,
    before: Seq<Seq<Cell>>,
    elite: Seq<usize>,
    after: Seq<Seq<Cell>>,
    inner: nat,
) -> bool {
    exists|genes: Real, mean: Real, deviation: Real, partners: Seq<usize>, points: Seq<usize>|
        #![trigger is_crossover_spread(numerics, inner as usize, genes, mean, deviation), crossed_over(before, elite, partners, points, elite.len() as int)]
        is_crossover_spread(numerics, inner as usize, genes, mean, deviation) && partners.len()
            == elite.len() && points.len() == elite.len() && is_permutation(partners)
            && is_shuffle(partners) && (elite.len() >= 2 ==> is_derangement(partners)) && (forall|a: int|
            #![trigger points[a]]
            0 <= a < points.len() ==> points[a] <= inner && is_drawn_point::<N>(
                genes,
                mean,
                deviation,
                inner as usize,
                points[a],
            )) && after == crossed_over(before, elite, partners, points, elite.len() as int)
}

/// Crossing depends on no point beyond those that it has come to.
pub proof fn lemma_crossed_points(
    grid: Seq<Seq<Cell>>,
    elite: Seq<usize>,
    partners: Seq<usize>,
    points: Seq<usize>,
    others: Seq<usize>,
    upto: int,
)
    requires
        0 <= upto <= points.len(),
        upto <= others.len(),
        forall|a: int| 0 <= a < upto ==> points[a] == others[a],
    ensures
        crossed_over(grid, elite, partners, points, upto) == crossed_over(
            grid,
            elite,
            partners,
            others,
            upto,
        ),
    decreases upto,
{
    if upto > 0 {
        lemma_crossed_points(grid, elite, partners, points, others, upto - 1);
    }
}

/// The column is `source` with some of its cells mutated.
pub open spec fn column_mutated<N: Numerics>(
    config: Config,
    source: Seq<Cell>,
    column: Seq<Cell>,
) -> bool {
    mutated_from::<N>(config, seq![source], seq![column])
}

/// The offspring are the elite columns, in order, mutated.
pub open spec fn spawned_by<N: Numerics>(
    config: Config,
    grid: Seq<Seq<Cell>>,
    elite: Seq<usize>,
    offspring: Seq<Seq<Cell>>,
) -> bool {
    &&& offspring.len() == elite.len()
    &&& forall|k: int|
        0 <= k < elite.len() ==> elite[k] < grid.len() && column_mutated::<N>(
            config,
            grid[elite[k] as int],
            #[trigger] offspring[k],
        )
}

/// One generation on a population whose elite is not more than the
/// population, from the grid before it to the grid after it. The elite are
/// the fittest columns by mean fitness, as many as the ratio to recombine
/// asks for; they are crossed; the offspring are the elite columns of what
/// that leaves, mutated; and replacement and permutation follow, with the
/// threshold at the rank that the supplier gives as it stands by then.
/// `done` says whether they were done: where not, the crossing stays.
pub open spec fn generation_step<N: Numerics>(
    numerics: &N,
    config: Config,
    size: usize,
    before: Seq<Seq<Cell>>,
    elite: Seq<usize>,
    crossed: Seq<Seq<Cell>>,
    offspring: Seq<Seq<Cell>>,
    later: N,
    rank: usize,
    after: Seq<Seq<Cell>>,
    inner: nat,
    done: bool,
) -> bool {
    &&& is_elite(numerics, before, inner as usize, elite)
    &&& is_elite_count(numerics, config.top_ratio_to_recombine, size, elite.len() as usize)
    &&& elite.len() <= size
    &&& is_crossing::<N>(numerics, before, elite, crossed, inner)
    &&& rows_rearranged(before, crossed, inner)
    &&& spawned_by::<N>(config, crossed, elite, offspring)
    &&& is_grid(offspring, offspring.len(), inner)
    &&& is_threshold_rank(&later, config.top_ratio_to_recombine, size, rank)
    &&& replaced_at::<N>(config.permutation_prob_f, crossed, offspring, rank, after, inner, done)
}

/// One generation, from the grid before it to the grid after it, and
/// whether it was made. It is refused, and nothing changed, where the
/// elite would be more than the population; otherwise it goes as
/// `generation_step` says.
pub open spec fn generation<N: Numerics>(
    numerics: &N,
    config: Config,
    size: usize,
    before: Seq<Seq<Cell>>,
    after: Seq<Seq<Cell>>,
    inner: nat,
    done: bool,
) -> bool {
    ||| !done && after == before && exists|count: usize| #[trigger]
        is_elite_count(numerics, config.top_ratio_to_recombine, size, count) && count > size
    ||| exists|
        elite: Seq<usize>,
        crossed: Seq<Seq<Cell>>,
        offspring: Seq<Seq<Cell>>,
        later: N,
        rank: usize,
    | #[trigger]
        generation_step::<N>(
            numerics,
            config,
            size,
            before,
            elite,
            crossed,
            offspring,
            later,
            rank,
            after,
            inner,
            done,
        )
}

/// `y` is the mean so far times the generations so far, and the new
/// fitness, over one generation more.
pub open spec fn is_folded_mean<N: Numerics>(
    numerics: &N,
    mean: Real,
    generations: Real,
    fitness: Real,
    y: Real,
) -> bool {
    exists|scaled: Real, total: Real, count: Real|
        #![trigger is_product(numerics, mean, generations, scaled), is_sum(numerics, scaled, fitness, total), is_sum(numerics, generations, Real::one(), count)]
        is_product(numerics, mean, generations, scaled) && is_sum(numerics, scaled, fitness, total)
            && is_sum(numerics, generations, Real::one(), count) && is_quotient(
            numerics,
            total,
            count,
            y,
        )
}

/// Every cell of `after` has the value that it had and, as its fitness, its
/// old one with the fitness of its column folded in.
pub open spec fn folded_grid<N: Numerics>(
    numerics: &N,
    before: Seq<Seq<Cell>>,
    generations: Real,
    new_fits: Seq<Real>,
    after: Seq<Seq<Cell>>,
) -> bool {
    &&& after.len() == before.len()
    &&& forall|j: int| 0 <= j < before.len() ==> (#[trigger] after[j]).len() == before[j].len()
    &&& forall|j: int, i: int|
        0 <= j < before.len() && 0 <= i < before[j].len() ==> (#[trigger] after[j][i]).value
            == before[j][i].value && is_folded_mean(
            numerics,
            before[j][i].fitness,
            generations,
            new_fits[j],
            after[j][i].fitness,
        )
}

/// `total` is the sum of the first `upto` fitnesses, taken in order from
/// zero.
pub open spec fn is_total<N: Numerics>(numerics: &N, fits: Seq<Real>, upto: int, total: Real) -> bool
    decreases upto,
{
    if upto <= 0 {
        total == Real::zero()
    } else {
        exists|before: Real|
            is_total(numerics, fits, upto - 1, before) && #[trigger] is_sum(
                numerics,
                before,
                fits[upto - 1],
                total,
            )
    }
}

/// `mean` is the sum of the fitnesses of the column over the number of
/// genes.
pub open spec fn is_column_mean<N: Numerics>(
    numerics: &N,
    column: Seq<Cell>,
    genes: Real,
    mean: Real,
) -> bool {
    exists|total: Real|
        is_total(numerics, fitnesses_of(column), column.len() as int, total) && #[trigger] is_quotient(
            numerics,
            total,
            genes,
            mean,
        )
}

/// The mean fitness of each column, with the number of genes as the
/// supplier gives it.
pub open spec fn are_column_means<N: Numerics>(
    numerics: &N,
    grid: Seq<Seq<Cell>>,
    gene_total: usize,
    means: Seq<Real>,
) -> bool {
    &&& means.len() == grid.len()
    &&& exists|genes: Real| #[trigger]
        is_from_count(numerics, gene_total, genes) && forall|j: int|
            0 <= j < grid.len() ==> is_column_mean(numerics, grid[j], genes, #[trigger] means[j])
}

/// `share` is the ratio times the size of the population.
pub open spec fn is_share<N: Numerics>(numerics: &N, ratio: Real, size: usize, share: Real) -> bool {
    exists|whole: Real|
        is_from_count(numerics, size, whole) && #[trigger] is_product(numerics, ratio, whole, share)
}

/// `count` is the number of columns that recombine: the ratio times the
/// size of the population, rounded up.
pub open spec fn is_elite_count<N: Numerics>(
    numerics: &N,
    ratio: Real,
    size: usize,
    count: usize,
) -> bool {
    exists|share: Real| #[trigger]
        is_share(numerics, ratio, size, share) && is_ceil_count(numerics, share, count)
}

/// `rank` is the rank of the threshold: the ratio times the size of the
/// population, rounded down.
pub open spec fn is_threshold_rank<N: Numerics>(
    numerics: &N,
    ratio: Real,
    size: usize,
    rank: usize,
) -> bool {
    exists|share: Real| #[trigger]
        is_share(numerics, ratio, size, share) && is_floor_count(numerics, share, rank)
}

/// `elite` holds the fittest columns by mean fitness, the fittest first.
pub open spec fn is_elite<N: Numerics>(
    numerics: &N,
    grid: Seq<Seq<Cell>>,
    gene_total: usize,
    elite: Seq<usize>,
) -> bool {
    exists|means: Seq<Real>, order: Seq<usize>|
        #![trigger are_column_means(numerics, grid, gene_total, means), is_ranking(order, means)]
        are_column_means(numerics, grid, gene_total, means) && is_ranking(order, means)
            && elite.len() <= order.len() && forall|a: int|
            0 <= a < elite.len() ==> #[trigger] elite[a] == order[order.len() - 1 - a]
}

/// One fitness more: how the sum goes on.
pub proof fn lemma_total_step<N: Numerics>(
    numerics: &N,
    fits: Seq<Real>,
    upto: int,
    before: Real,
    total: Real,
)
    requires
        0 <= upto < fits.len(),
        is_total(numerics, fits, upto, before),
        is_sum(numerics, before, fits[upto], total),
    ensures
        is_total(numerics, fits, upto + 1, total),
{
    assert(is_total(numerics, fits, upto + 1 - 1, before) && is_sum(
        numerics,
        before,
        fits[upto + 1 - 1],
        total,
    ));
}

/// The running mean of fitness once one more evaluation is folded in: the
/// mean so far times the generations so far, and the new fitness, over one
/// generation more.
pub fn folded_mean<N: Numerics>(mean: Real, generations: Real, fitness: Real, numerics: &N) -> (y:
    Real)
    ensures
        is_folded_mean(numerics, mean, generations, fitness, y),
{
    let scaled: Real = numerics.product(mean, generations);
    let total: Real = numerics.sum(scaled, fitness);
    let count: Real = numerics.sum(generations, Real::one());
    let y: Real = numerics.quotient(total, count);
    assert(is_product(numerics, mean, generations, scaled) && is_sum(
        numerics,
        scaled,
        fitness,
        total,
    ) && is_sum(numerics, generations, Real::one(), count));
    y
}

/// All the sub-populations: for each weight of the topology as many cells
/// as the population has networks. They are held by network, so that a
/// column is the genes of one network and a row is the sub-population of
/// one weight.
pub struct Population {
    config: Config,
    network_topology: ANN,
    sub_populations: Vec<Vec<Cell>>,
    n: usize,
    m: usize,
    current_generation: usize,
    rng: StdRng,
}

impl Population {
    /// The cells, by column.
    pub closed spec fn grid(self) -> Seq<Seq<Cell>> {
        grid_of(self.sub_populations@)
    }

    /// The number of networks: the size of each sub-population.
    pub closed spec fn size(self) -> nat {
        self.m as nat
    }

    /// The number of weights and biases of the topology.
    pub closed spec fn gene_total(self) -> nat {
        self.n as nat
    }

    /// How many generations were folded into the fitnesses.
    pub closed spec fn generation(self) -> nat {
        self.current_generation as nat
    }

    /// The knobs.
    pub closed spec fn knobs(self) -> Config {
        self.config
    }

    /// The topology that every column is decoded into.
    pub closed spec fn topology(self) -> ANN {
        self.network_topology
    }

    /// The knobs are valid, the topology is well-formed, and there is a
    /// column for each network with a cell for each gene.
    pub closed spec fn wf(self) -> bool {
        &&& self.config.valid()
        &&& self.network_topology.wf()
        &&& self.n == self.network_topology.gene_count()
        &&& self.m == self.config.pop_size
        &&& is_grid(grid_of(self.sub_populations@), self.m as nat, self.n as nat)
    }

    /// The same population but for what its cells hold.
    pub open spec fn same_frame(self, other: Population) -> bool {
        &&& self.knobs() == other.knobs()
        &&& self.topology() == other.topology()
        &&& self.size() == other.size()
        &&& self.gene_total() == other.gene_total()
        &&& self.generation() == other.generation()
    }

    /// A population for the topology of `nn`: for each network of the
    /// population the genes of a freshly randomized network, none with a
    /// fitness yet. The partners of crossover will be drawn from a generator
    /// started from `seed`.
    ///
    /// Refused with `InvalidConfig` exactly where the knobs are not valid.
    pub fn new<N: Numerics>(config: Config, nn: &ANN, seed: u64, numerics: &mut N) -> (r: Result<
        Population,
        CosyneError,
    >)
        requires
            nn.wf(),
        ensures
            r is Ok <==> config.valid(),
            r matches Err(e) ==> e == CosyneError::InvalidConfig,
            r matches Ok(p) ==> {
                &&& p.wf()
                &&& p.knobs() == config
                &&& p.size() == config.pop_size
                &&& p.gene_total() == nn.gene_count()
                &&& p.generation() == 0
                &&& p.topology().same_as(*nn)
                &&& is_grid(p.grid(), p.size(), p.gene_total())
                &&& forall|j: int, i: int|
                    0 <= j < p.size() && 0 <= i < p.gene_total() ==> (#[trigger] p.grid()[j][i]).fitness
                        == Real::lowest() && is_drawn::<N>(p.grid()[j][i].value)
            },
    {
        if !config.is_valid() {
            return Err(CosyneError::InvalidConfig);
        }
        let n: usize = nn.num_genes();
        let m: usize = config.pop_size;
        let mut sub_populations: Vec<Vec<Cell>> = Vec::new();
        let mut j: usize = 0;
        while j < m
            invariant
                nn.wf(),
                n == nn.gene_count(),
                j <= m,
                sub_populations@.len() == j,
                forall|k: int| 0 <= k < j ==> (#[trigger] sub_populations@[k])@.len() == n,
                forall|k: int, i: int|
                    0 <= k < j && 0 <= i < n ==> (#[trigger] sub_populations@[k]@[i]).fitness
                        == Real::lowest() && is_drawn::<N>(sub_populations@[k]@[i].value),
            decreases m - j,
        {
            let genes: Vec<Real> = nn.randomize(numerics).genes();
            let mut chromosome: Vec<Cell> = Vec::new();
            let mut i: usize = 0;
            while i < genes.len()
                invariant
                    i <= genes@.len(),
                    chromosome@.len() == i,
                    crate::layer::all_drawn::<N>(genes@),
                    forall|k: int|
                        0 <= k < i ==> (#[trigger] chromosome@[k]).fitness == Real::lowest()
                            && is_drawn::<N>(chromosome@[k].value),
                decreases genes@.len() - i,
            {
                assert(is_drawn::<N>(genes@[i as int]));
                chromosome.push(Cell { value: genes[i], fitness: Real::lowest() });
                i += 1;
            }
            let ghost earlier = sub_populations@;
            sub_populations.push(chromosome);
            proof {
                assert forall|k: int, i: int| 0 <= k < j + 1 && 0 <= i < n implies (
                #[trigger] sub_populations@[k]@[i]).fitness == Real::lowest() && is_drawn::<N>(
                    sub_populations@[k]@[i].value,
                ) by {
                    if k < j {
                        assert(sub_populations@[k] == earlier[k]);
                        assert(earlier[k]@[i].fitness == Real::lowest());
                    } else {
                        assert(chromosome@[i].fitness == Real::lowest());
                    }
                }
            }
            j += 1;
        }
        let network_topology: ANN = nn.snapshot();
        proof {
            nn.lemma_wf();
            network_topology.lemma_wf();
        }
        let p = Population {
            config,
            network_topology,
            sub_populations,
            n,
            m,
            current_generation: 0,
            rng: seeded(seed),
        };
        assert forall|j: int, i: int| 0 <= j < p.size() && 0 <= i < p.gene_total() implies (
        #[trigger] p.grid()[j][i]).fitness == Real::lowest() && is_drawn::<N>(
            p.grid()[j][i].value,
        ) by {
            assert(p.sub_populations@[j]@[i].fitness == Real::lowest());
        }
        Ok(p)
    }

    /// The number of networks.
    pub fn pop_size(&self) -> (m: usize)
        ensures
            m == self.size(),
    {
        self.m
    }

    /// The number of weights and biases of the topology.
    pub fn num_genes(&self) -> (n: usize)
        ensures
            n == self.gene_total(),
    {
        self.n
    }

    /// How many generations were folded into the fitnesses.
    pub fn current_generation(&self) -> (g: usize)
        ensures
            g == self.generation(),
    {
        self.current_generation
    }

    /// The knobs.
    pub fn config(&self) -> (config: Config)
        ensures
            config == self.knobs(),
    {
        self.config
    }

    /// The cell of network `j` for gene `i`.
    pub fn cell(&self, j: usize, i: usize) -> (c: Cell)
        requires
            self.wf(),
            j < self.size(),
            i < self.gene_total(),
        ensures
            c == self.grid()[j as int][i as int],
    {
        assert(grid_of(self.sub_populations@)[j as int].len() == self.n);
        self.sub_populations[j][i]
    }

    /// Sets the probability that an offspring's weight mutates.
    ///
    /// Refused with `InvalidConfig`, and nothing changed, exactly where `mp`
    /// lies outside the unit interval.
    pub fn set_mutation_prob(&mut self, mp: Real) -> (r: Result<(), CosyneError>)
        requires
            old(self).wf(),
        ensures
            final(self).wf(),
            final(self).grid() == old(self).grid(),
            r is Ok <==> mp.unit(),
            r is Ok ==> final(self).knobs() == (Config { mutation_prob: mp, ..old(self).knobs() }),
            r matches Err(e) ==> e == CosyneError::InvalidConfig && final(self).knobs() == old(self).knobs(),
            final(self).topology() == old(self).topology(),
            final(self).generation() == old(self).generation(),
    {
        if !mp.is_unit() {
            return Err(CosyneError::InvalidConfig);
        }
        self.config.mutation_prob = mp;
        Ok(())
    }

    /// Sets the scale of a mutation.
    ///
    /// Refused with `InvalidConfig`, and nothing changed, exactly where `ms`
    /// lies outside the unit interval.
    pub fn set_mutation_strength(&mut self, ms: Real) -> (r: Result<(), CosyneError>)
        requires
            old(self).wf(),
        ensures
            final(self).wf(),
            final(self).grid() == old(self).grid(),
            r is Ok <==> ms.unit(),
            r is Ok ==> final(self).knobs() == (Config {
                mutation_strength: ms,
                ..old(self).knobs()
            }),
            r matches Err(e) ==> e == CosyneError::InvalidConfig && final(self).knobs() == old(self).knobs(),
            final(self).topology() == old(self).topology(),
            final(self).generation() == old(self).generation(),
    {
        if !ms.is_unit() {
            return Err(CosyneError::InvalidConfig);
        }
        self.config.mutation_strength = ms;
        Ok(())
    }

    /// Sets the probability that a mutation perturbs.
    ///
    /// Refused with `InvalidConfig`, and nothing changed, exactly where `pp`
    /// lies outside the unit interval.
    pub fn set_perturb_prob(&mut self, pp: Real) -> (r: Result<(), CosyneError>)
        requires
            old(self).wf(),
        ensures
            final(self).wf(),
            final(self).grid() == old(self).grid(),
            r is Ok <==> pp.unit(),
            r is Ok ==> final(self).knobs() == (Config { perturb_prob: pp, ..old(self).knobs() }),
            r matches Err(e) ==> e == CosyneError::InvalidConfig && final(self).knobs() == old(self).knobs(),
            final(self).topology() == old(self).topology(),
            final(self).generation() == old(self).generation(),
    {
        if !pp.is_unit() {
            return Err(CosyneError::InvalidConfig);
        }
        self.config.perturb_prob = pp;
        Ok(())
    }

    /// The network whose genes are the values of column `j`, in the
    /// population's topology.
    pub fn get_network(&self, j: usize) -> (nn: ANN)
        requires
            self.wf(),
            j < self.size(),
        ensures
            nn.wf(),
            nn.same_topology(self.topology()),
            nn.genes_view() == values_of(self.grid()[j as int]),
    {
        let genes: Vec<Real> = values(&self.sub_populations[j]);
        let mut nn: ANN = self.network_topology.snapshot();
        proof {
            assert(grid_of(self.sub_populations@)[j as int].len() == self.n);
            crate::network::lemma_count_by_shape(
                nn.layers_view(),
                self.network_topology.layers_view(),
            );
        }
        let done = nn.set_genes(&genes);
        assert(done is Ok);
        nn
    }

    /// The sum of the fitnesses of column `j`.
    pub fn get_network_fitness<N: Numerics>(&self, j: usize, numerics: &N) -> (total: Real)
        requires
            self.wf(),
            j < self.size(),
        ensures
            is_total(
                numerics,
                fitnesses_of(self.grid()[j as int]),
                self.gene_total() as int,
                total,
            ),
    {
        let column: &Vec<Cell> = &self.sub_populations[j];
        assert(grid_of(self.sub_populations@)[j as int].len() == self.n);
        let ghost fits = fitnesses_of(column@);
        let mut total: Real = Real::zero();
        let mut i: usize = 0;
        while i < column.len()
            invariant
                i <= column@.len(),
                fits == fitnesses_of(column@),
                is_total(numerics, fits, i as int, total),
            decreases column@.len() - i,
        {
            let ghost before = total;
            total = numerics.sum(total, column[i].fitness);
            proof {
                lemma_total_step(numerics, fits, i as int, before, total);
            }
            i += 1;
        }
        total
    }

    /// Folds the fitness of each evaluated network into the running mean of
    /// every cell of its column, and counts the generation. The values stay.
    ///
    /// Refused with `ShapeMismatch`, and nothing changed, exactly where
    /// there is not one fitness for each network.
    pub fn update_fitnesses<N: Numerics>(&mut self, new_fits: &Vec<Real>, numerics: &N) -> (r:
        Result<(), CosyneError>)
        requires
            old(self).wf(),
            old(self).generation() < usize::MAX,
        ensures
            final(self).wf(),
            final(self).knobs() == old(self).knobs(),
            final(self).topology() == old(self).topology(),
            final(self).size() == old(self).size(),
            final(self).gene_total() == old(self).gene_total(),
            same_values(final(self).grid(), old(self).grid()),
            r is Ok <==> new_fits@.len() == old(self).size(),
            r is Ok ==> final(self).generation() == old(self).generation() + 1,
            r is Ok ==> exists|g: Real|
                is_from_count(numerics, old(self).generation() as usize, g) && #[trigger] folded_grid(
                    numerics,
                    old(self).grid(),
                    g,
                    new_fits@,
                    final(self).grid(),
                ),
            r matches Err(e) ==> e == CosyneError::ShapeMismatch && final(self).grid() == old(self).grid() && final(self).generation() == old(self).generation(),
    {
        if new_fits.len() != self.m {
            return Err(CosyneError::ShapeMismatch);
        }
        let g: Real = numerics.from_count(self.current_generation);
        let ghost before = self.sub_populations@;
        let mut folded: Vec<Vec<Cell>> = Vec::new();
        let mut j: usize = 0;
        while j < self.m
            invariant
                self.wf(),
                self.sub_populations@ == before,
                new_fits@.len() == self.m,
                j <= self.m,
                folded@.len() == j,
                forall|k: int| 0 <= k < j ==> (#[trigger] folded@[k])@.len() == self.n,
                forall|k: int| 0 <= k < j ==> values_of((#[trigger] folded@[k])@) == values_of(before[k]@),
                forall|k: int, i: int|
                    0 <= k < j && 0 <= i < self.n ==> is_folded_mean(
                        numerics,
                        before[k]@[i].fitness,
                        g,
                        new_fits@[k],
                        (#[trigger] folded@[k]@[i]).fitness,
                    ),
            decreases self.m - j,
        {
            let column: &Vec<Cell> = &self.sub_populations[j];
            assert(grid_of(self.sub_populations@)[j as int].len() == self.n);
            let new_fit: Real = new_fits[j];
            let mut fresh: Vec<Cell> = Vec::new();
            let mut i: usize = 0;
            while i < column.len()
                invariant
                    i <= column@.len(),
                    fresh@.len() == i,
                    forall|k: int| 0 <= k < i ==> (#[trigger] fresh@[k]).value == column@[k].value,
                    forall|k: int|
                        0 <= k < i ==> is_folded_mean(
                            numerics,
                            column@[k].fitness,
                            g,
                            new_fit,
                            (#[trigger] fresh@[k]).fitness,
                        ),
                decreases column@.len() - i,
            {
                let cell: Cell = column[i];
                fresh.push(
                    Cell {
                        value: cell.value,
                        fitness: folded_mean(cell.fitness, g, new_fit, numerics),
                    },
                );
                i += 1;
            }
            folded.push(fresh);
            j += 1;
        }
        self.sub_populations = folded;
        self.current_generation = self.current_generation + 1;
        proof {
            let after = grid_of(self.sub_populations@);
            assert forall|k: int| 0 <= k < self.m implies values_of(#[trigger] after[k]) == values_of(
                grid_of(before)[k],
            ) by {
            }
            assert forall|k: int, i: int|
                0 <= k < grid_of(before).len() && 0 <= i < grid_of(before)[k].len() implies (
            #[trigger] after[k][i]).value == grid_of(before)[k][i].value && is_folded_mean(
                numerics,
                grid_of(before)[k][i].fitness,
                g,
                new_fits@[k],
                after[k][i].fitness,
            ) by {
                assert(grid_of(before)[k].len() == self.n);
                assert(values_of(after[k])[i] == values_of(grid_of(before)[k])[i]);
                assert(is_folded_mean(
                    numerics,
                    before[k]@[i].fitness,
                    g,
                    new_fits@[k],
                    folded@[k]@[i].fitness,
                ));
            }
            assert(folded_grid(numerics, grid_of(before), g, new_fits@, after));
            assert(is_from_count(numerics, old(self).generation() as usize, g) && folded_grid(
                numerics,
                old(self).grid(),
                g,
                new_fits@,
                self.grid(),
            ));
        }
        Ok(())
    }

    /// The mean fitness of each column.
    pub fn column_means<N: Numerics>(&self, numerics: &N) -> (means: Vec<Real>)
        requires
            self.wf(),
        ensures
            means@.len() == self.size(),
            are_column_means(numerics, self.grid(), self.gene_total() as usize, means@),
    {
        let genes: Real = numerics.from_count(self.n);
        let mut means: Vec<Real> = Vec::new();
        let mut j: usize = 0;
        while j < self.m
            invariant
                self.wf(),
                j <= self.m,
                means@.len() == j,
                forall|k: int|
                    0 <= k < j ==> is_column_mean(numerics, self.grid()[k], genes, #[trigger] means@[k]),
            decreases self.m - j,
        {
            let total: Real = self.get_network_fitness(j, numerics);
            let mean: Real = numerics.quotient(total, genes);
            proof {
                assert(grid_of(self.sub_populations@)[j as int].len() == self.n);
                assert(is_quotient(numerics, total, genes, mean));
            }
            means.push(mean);
            j += 1;
        }
        assert(is_from_count(numerics, self.n, genes));
        means
    }

    /// The columns that recombine: as many of the fittest by mean fitness
    /// as the ratio to recombine asks for, rounded up, the fittest first.
    ///
    /// Refused with `Sizing` where that would be more than there are.
    pub fn select_elite<N: Numerics>(&self, numerics: &N) -> (r: Result<Vec<usize>, CosyneError>)
        requires
            self.wf(),
        ensures
            r matches Ok(elite) ==> {
                &&& elite@.len() <= self.size()
                &&& forall|a: int| 0 <= a < elite@.len() ==> (#[trigger] elite@[a]) < self.size()
                &&& forall|a: int, b: int|
                    0 <= a < b < elite@.len() ==> elite@[a] != elite@[b]
            },
            r matches Ok(elite) ==> is_elite(
                numerics,
                self.grid(),
                self.gene_total() as usize,
                elite@,
            ) && is_elite_count(
                numerics,
                self.knobs().top_ratio_to_recombine,
                self.size() as usize,
                elite@.len() as usize,
            ),
            r matches Err(e) ==> e == CosyneError::Sizing && exists|count: usize| #[trigger]
                is_elite_count(
                    numerics,
                    self.knobs().top_ratio_to_recombine,
                    self.size() as usize,
                    count,
                ) && count > self.size(),
    {
        let means: Vec<Real> = self.column_means(numerics);
        let order: Vec<usize> = rank_by_fitness(&means);
        let whole: Real = numerics.from_count(self.m);
        let share: Real = numerics.product(self.config.top_ratio_to_recombine, whole);
        let count: usize = numerics.ceil_count(share);
        proof {
            assert(is_from_count(numerics, self.m, whole) && is_product(
                numerics,
                self.config.top_ratio_to_recombine,
                whole,
                share,
            ));
            assert(is_share(numerics, self.config.top_ratio_to_recombine, self.m, share)
                && is_ceil_count(numerics, share, count));
            assert(is_elite_count(
                numerics,
                self.knobs().top_ratio_to_recombine,
                self.size() as usize,
                count,
            ));
        }
        if count > self.m {
            return Err(CosyneError::Sizing);
        }
        let elite: Vec<usize> = elite_of(&order, count);
        proof {
            assert(are_column_means(numerics, self.grid(), self.n, means@) && is_ranking(
                order@,
                means@,
            ));
        }
        Ok(elite)
    }

    /// Crosses each elite column with another: the partners come from a
    /// derangement, so that no column is crossed with itself, and each pair
    /// exchanges its cells before a drawn point, in place.
    ///
    /// Every row keeps its cells, and a column that is not elite stays as
    /// it is.
    pub fn crossover<N: Numerics>(&mut self, elite: &Vec<usize>, numerics: &mut N)
        requires
            old(self).wf(),
            forall|a: int| 0 <= a < elite@.len() ==> (#[trigger] elite@[a]) < old(self).size(),
        ensures
            final(self).wf(),
            final(self).same_frame(*old(self)),
            is_crossing::<N>(
                &*old(numerics),
                old(self).grid(),
                elite@,
                final(self).grid(),
                old(self).gene_total(),
            ),
            rows_rearranged(old(self).grid(), final(self).grid(), old(self).gene_total()),
            forall|j: int|
                0 <= j < old(self).size() && (forall|a: int|
                    0 <= a < elite@.len() ==> elite@[a] != j) ==> #[trigger] final(self).grid()[j]
                    == old(self).grid()[j],
    {
        let ghost before = self.sub_populations@;
        let deranged: Vec<usize> = random_derangement(elite.len(), &mut self.rng);
        let (genes, mean, deviation) = crossover_spread(self.n, &*numerics);
        let ghost mut points: Seq<usize> = Seq::empty();
        let mut a: usize = 0;
        while a < elite.len()
            invariant
                self.wf(),
                self.same_frame(*old(self)),
                a <= elite@.len(),
                deranged@.len() == elite@.len(),
                is_permutation(deranged@),
                forall|b: int| 0 <= b < elite@.len() ==> (#[trigger] elite@[b]) < self.m,
                points.len() == a,
                is_crossover_spread(&*old(numerics), self.n, genes, mean, deviation),
                forall|b: int|
                    #![trigger points[b]]
                    0 <= b < a ==> points[b] <= self.n && is_drawn_point::<N>(
                        genes,
                        mean,
                        deviation,
                        self.n,
                        points[b],
                    ),
                grid_of(self.sub_populations@) == crossed_over(
                    grid_of(before),
                    elite@,
                    deranged@,
                    points,
                    a as int,
                ),
                rows_rearranged(grid_of(before), grid_of(self.sub_populations@), self.n as nat),
                forall|j: int|
                    0 <= j < self.m && (forall|b: int| 0 <= b < elite@.len() ==> elite@[b] != j)
                        ==> (#[trigger] self.sub_populations@[j])@ == before[j]@,
            decreases elite@.len() - a,
        {
            let left: usize = elite[a];
            let partner: usize = deranged[a];
            let right: usize = elite[partner];
            let cross_p: Real = numerics.draw_normal(mean, deviation);
            let point: usize = crossover_point(cross_p, genes, self.n, &*numerics);
            assert(is_drawn_point::<N>(genes, mean, deviation, self.n, point)) by {
                assert(crate::numerics::is_normal_draw::<N>(mean, deviation, cross_p)
                    && crate::offspring::is_crossover_point(
                    &*numerics,
                    cross_p,
                    genes,
                    self.n,
                    point,
                ));
            }
            let ghost earlier = grid_of(self.sub_populations@);
            exchange_prefix(&mut self.sub_populations, left, right, point, self.n);
            proof {
                let now = self.sub_populations@;
                assert forall|i: int| 0 <= i < self.n implies (#[trigger] row_of(grid_of(now), i)).to_multiset()
                    == row_of(grid_of(before), i).to_multiset() by {
                }
                let longer = points.push(point);
                lemma_crossed_points(grid_of(before), elite@, deranged@, longer, points, a as int);
                assert(crossed_over(grid_of(before), elite@, deranged@, longer, a + 1) == exchange(
                    crossed_over(grid_of(before), elite@, deranged@, longer, a + 1 - 1),
                    elite@[a + 1 - 1] as int,
                    elite@[deranged@[a + 1 - 1] as int] as int,
                    longer[a + 1 - 1] as int,
                ));
                points = longer;
            }
            a += 1;
        }
        proof {
            assert(is_crossing::<N>(
                &*old(numerics),
                grid_of(before),
                elite@,
                grid_of(self.sub_populations@),
                self.n as nat,
            )) by {
                assert(is_crossover_spread(
                    &*old(numerics),
                    (self.n as nat) as usize,
                    genes,
                    mean,
                    deviation,
                ) && grid_of(self.sub_populations@) == crossed_over(
                    grid_of(before),
                    elite@,
                    deranged@,
                    points,
                    elite@.len() as int,
                ));
            }
            assert forall|j: int|
                0 <= j < self.m && (forall|b: int|
                    0 <= b < elite@.len() ==> elite@[b] != j) implies #[trigger] grid_of(
                self.sub_populations@,
            )[j] == grid_of(before)[j] by {
            }
        }
    }

    /// The offspring of a generation: the elite columns are crossed in
    /// place, and copies of them are mutated.
    ///
    /// Every row of the population keeps its cells, and every offspring is
    /// a column of the population, mutated. Refused with `Sizing`, and
    /// nothing changed, where the elite would be more than the population.
    pub fn spawn_offspring<N: Numerics>(&mut self, numerics: &mut N) -> (r: Result<
        Vec<Vec<Cell>>,
        CosyneError,
    >)
        requires
            old(self).wf(),
        ensures
            final(self).wf(),
            final(self).same_frame(*old(self)),
            rows_rearranged(old(self).grid(), final(self).grid(), old(self).gene_total()),
            r matches Ok(o) ==> {
                &&& o@.len() <= old(self).size()
                &&& is_grid(grid_of(o@), o@.len() as nat, old(self).gene_total())
                &&& is_elite_count(
                    &*old(numerics),
                    old(self).knobs().top_ratio_to_recombine,
                    old(self).size() as usize,
                    o@.len() as usize,
                )
                &&& exists|elite: Seq<usize>| #[trigger]
                    is_elite(
                        &*old(numerics),
                        old(self).grid(),
                        old(self).gene_total() as usize,
                        elite,
                    ) && is_crossing::<N>(
                        &*old(numerics),
                        old(self).grid(),
                        elite,
                        final(self).grid(),
                        old(self).gene_total(),
                    ) && spawned_by::<N>(
                        old(self).knobs(),
                        final(self).grid(),
                        elite,
                        grid_of(o@),
                    )
            },
            r matches Err(e) ==> e == CosyneError::Sizing && final(self).grid() == old(self).grid()
                && exists|count: usize| #[trigger]
                is_elite_count(
                    &*old(numerics),
                    old(self).knobs().top_ratio_to_recombine,
                    old(self).size() as usize,
                    count,
                ) && count > old(self).size(),
    {
        let elite: Vec<usize> = match self.select_elite(&*numerics) {
            Ok(elite) => elite,
            Err(e) => {
                return Err(e);
            },
        };
        self.crossover(&elite, numerics);
        let mut o: Vec<Vec<Cell>> = Vec::new();
        let mut a: usize = 0;
        while a < elite.len()
            invariant
                self.wf(),
                a <= elite@.len(),
                forall|b: int| 0 <= b < elite@.len() ==> (#[trigger] elite@[b]) < self.m,
                o@.len() == a,
                forall|k: int| 0 <= k < a ==> (#[trigger] o@[k])@ == self.sub_populations@[elite@[k] as int]@,
            decreases elite@.len() - a,
        {
            let column: Vec<Cell> = copy_cells(&self.sub_populations[elite[a]]);
            o.push(column);
            a += 1;
        }
        let ghost copies = o@;
        let config: Config = self.config;
        mutate(&config, &mut o, numerics);
        proof {
            let grid = grid_of(self.sub_populations@);
            assert forall|k: int| 0 <= k < o@.len() implies (#[trigger] grid_of(o@)[k]).len()
                == self.n by {
                assert(grid_of(copies)[k].len() == grid[elite@[k] as int].len());
            }
            let strength = self.config;
            assert forall|k: int| 0 <= k < elite@.len() implies column_mutated::<N>(
                strength,
                grid[elite@[k] as int],
                #[trigger] grid_of(o@)[k],
            ) by {
                let j = elite@[k] as int;
                assert(grid_of(copies)[k] == grid[j]);
                let was = seq![grid[j]];
                let now = seq![grid_of(o@)[k]];
                assert forall|c: int, i: int|
                    0 <= c < was.len() && 0 <= i < was[c].len() implies cell_mutated::<N>(
                    strength,
                    was[c][i],
                    #[trigger] now[c][i],
                ) by {
                    assert(cell_mutated::<N>(strength, grid_of(copies)[k][i], grid_of(o@)[k][i]));
                }
                assert(column_mutated::<N>(strength, grid[j], grid_of(o@)[k]));
            }
        }
        Ok(o)
    }

    /// Replacement and permutation with the threshold at a given rank.
    ///
    /// In every sub-population the cells are ranked by ascending fitness and
    /// the fitness at `rank` is the threshold: each cell below it is
    /// replaced by the next unused offspring of its row, and the values of
    /// the others are permuted among those that were marked.
    ///
    /// Refused with `ShapeMismatch` where an offspring has not a cell for
    /// each gene, and with `Sizing` where the rank is no rank of the
    /// population or the offspring of a row run out; nothing is changed
    /// then. As many offspring as the rank are always enough.
    pub fn replace_and_permute_at<N: Numerics>(
        &mut self,
        o: &Vec<Vec<Cell>>,
        rank: usize,
        numerics: &mut N,
    ) -> (r: Result<(), CosyneError>)
        requires
            old(self).wf(),
        ensures
            final(self).wf(),
            final(self).same_frame(*old(self)),
            !is_grid(grid_of(o@), o@.len() as nat, old(self).gene_total()) <==> r == Err::<
                (),
                CosyneError,
            >(CosyneError::ShapeMismatch),
            r is Ok <==> is_grid(grid_of(o@), o@.len() as nat, old(self).gene_total()) && rank
                < old(self).size() && offspring_suffice(
                old(self).grid(),
                o@.len() as nat,
                rank as int,
                old(self).gene_total(),
            ),
            r matches Err(e) ==> (e == CosyneError::ShapeMismatch || e == CosyneError::Sizing)
                && final(self).grid() == old(self).grid(),
            rank < old(self).size() && rank <= o@.len() ==> offspring_suffice(
                old(self).grid(),
                o@.len() as nat,
                rank as int,
                old(self).gene_total(),
            ),
            r is Ok ==> renewed_at::<N>(
                old(self).knobs().permutation_prob_f,
                old(self).grid(),
                grid_of(o@),
                rank as int,
                final(self).grid(),
                old(self).gene_total(),
            ),
    {
        let ghost before = grid_of(self.sub_populations@);
        proof {
            if rank < self.m && rank <= o@.len() {
                assert forall|k: int| 0 <= k < self.n implies below_count(
                    #[trigger] row_of(before, k),
                    threshold_at(row_of(before, k), rank as int),
                ) <= o@.len() by {
                    let row = row_of(before, k);
                    assert(is_ranking(ranking_of(fitnesses_of(row)), fitnesses_of(row))) by {
                        lemma_ranking_exists(fitnesses_of(row));
                    }
                    lemma_rank_bounds_below(row, ranking_of(fitnesses_of(row)), rank as int);
                }
            }
        }
        if !columns_have(o, self.n) {
            return Err(CosyneError::ShapeMismatch);
        }
        if rank >= self.m {
            return Err(CosyneError::Sizing);
        }
        let policy: PermutationProbF = self.config.permutation_prob_f;
        let mut rows: Vec<Vec<Cell>> = transpose(&self.sub_populations, self.n);
        let offspring_rows: Vec<Vec<Cell>> = transpose(o, self.n);
        let mut i: usize = 0;
        while i < self.n
            invariant
                self.wf(),
                *self == *old(self),
                before == grid_of(self.sub_populations@),
                policy == self.config.permutation_prob_f,
                is_grid(grid_of(o@), o@.len() as nat, self.n as nat),
                rank < self.m,
                rank <= o@.len() ==> offspring_suffice(
                    before,
                    o@.len() as nat,
                    rank as int,
                    self.n as nat,
                ),
                i <= self.n,
                rows@.len() == self.n,
                offspring_rows@.len() == self.n,
                forall|k: int| 0 <= k < self.n ==> (#[trigger] rows@[k])@.len() == self.m,
                forall|k: int|
                    0 <= k < self.n ==> (#[trigger] offspring_rows@[k])@ == row_of(grid_of(o@), k),
                forall|k: int| i <= k < self.n ==> (#[trigger] rows@[k])@ == row_of(before, k),
                forall|k: int|
                    0 <= k < i ==> below_count(
                        #[trigger] row_of(before, k),
                        threshold_at(row_of(before, k), rank as int),
                    ) <= o@.len(),
                forall|k: int|
                    0 <= k < i ==> row_renewed::<N>(
                        policy,
                        row_of(before, k),
                        row_of(grid_of(o@), k),
                        rank as int,
                        (#[trigger] rows@[k])@,
                    ),
            decreases self.n - i,
        {
            let mut row: Vec<Cell> = copy_cells(&rows[i]);
            let fits: Vec<Real> = fitnesses(&row);
            let order: Vec<usize> = rank_by_fitness(&fits);
            let threshold: Real = fits[order[rank]];
            let ghost was = row@;
            proof {
                assert(was == row_of(before, i as int));
                assert(threshold == threshold_at(was, rank as int));
                assert(offspring_rows@[i as int]@.len() == o@.len());
            }
            match replace_and_permute_row(&mut row, &offspring_rows[i], threshold, &policy, numerics) {
                Err(e) => {
                    assert(below_count(
                        row_of(before, i as int),
                        threshold_at(row_of(before, i as int), rank as int),
                    ) > o@.len());
                    return Err(e);
                },
                Ok(()) => {},
            }
            let ghost earlier = rows@;
            rows.set(i, row);
            proof {
                assert forall|k: int| 0 <= k < i + 1 implies row_renewed::<N>(
                    policy,
                    row_of(before, k),
                    row_of(grid_of(o@), k),
                    rank as int,
                    (#[trigger] rows@[k])@,
                ) by {
                    if k < i {
                        assert(rows@[k] == earlier[k]);
                    }
                }
            }
            i += 1;
        }
        self.sub_populations = transpose(&rows, self.m);
        proof {
            let after = grid_of(self.sub_populations@);
            assert forall|k: int| 0 <= k < self.n implies #[trigger] row_renewed::<N>(
                policy,
                row_of(before, k),
                row_of(grid_of(o@), k),
                rank as int,
                row_of(after, k),
            ) by {
                assert(row_of(after, k) =~= rows@[k]@) by {
                    assert forall|j: int| 0 <= j < self.m implies row_of(after, k)[j]
                        == rows@[k]@[j] by {
                    }
                }
                assert(row_renewed::<N>(
                    policy,
                    row_of(before, k),
                    row_of(grid_of(o@), k),
                    rank as int,
                    rows@[k]@,
                ));
            }
        }
        Ok(())
    }

    /// The rank at which the threshold of replacement stands: the ratio to
    /// recombine times the size of the population, rounded down.
    pub fn threshold_rank<N: Numerics>(&self, numerics: &N) -> (rank: usize)
        ensures
            is_threshold_rank(
                numerics,
                self.knobs().top_ratio_to_recombine,
                self.size() as usize,
                rank,
            ),
    {
        let whole: Real = numerics.from_count(self.m);
        let share: Real = numerics.product(self.config.top_ratio_to_recombine, whole);
        let rank: usize = numerics.floor_count(share);
        proof {
            assert(is_from_count(numerics, self.m, whole) && is_product(
                numerics,
                self.config.top_ratio_to_recombine,
                whole,
                share,
            ));
            assert(is_share(numerics, self.config.top_ratio_to_recombine, self.m, share)
                && is_floor_count(numerics, share, rank));
            assert(is_threshold_rank(
                numerics,
                self.knobs().top_ratio_to_recombine,
                self.size() as usize,
                rank,
            ));
        }
        rank
    }

    /// Replaces the least fit cells of every sub-population by offspring
    /// and permutes the values of the others.
    ///
    /// The threshold stands at the rank that the ratio to recombine gives,
    /// rounded down. See `replace_and_permute_at` for what is done at that
    /// rank, and for what is refused.
    pub fn replace_and_permute<N: Numerics>(&mut self, o: &Vec<Vec<Cell>>, numerics: &mut N) -> (r:
        Result<(), CosyneError>)
        requires
            old(self).wf(),
        ensures
            final(self).wf(),
            final(self).same_frame(*old(self)),
            !is_grid(grid_of(o@), o@.len() as nat, old(self).gene_total()) <==> r == Err::<
                (),
                CosyneError,
            >(CosyneError::ShapeMismatch),
            r matches Err(e) ==> (e == CosyneError::ShapeMismatch || e == CosyneError::Sizing)
                && final(self).grid() == old(self).grid(),
            exists|rank: usize| #[trigger]
                is_threshold_rank(
                    &*old(numerics),
                    old(self).knobs().top_ratio_to_recombine,
                    old(self).size() as usize,
                    rank,
                ) && replaced_at::<N>(
                    old(self).knobs().permutation_prob_f,
                    old(self).grid(),
                    grid_of(o@),
                    rank,
                    final(self).grid(),
                    old(self).gene_total(),
                    r is Ok,
                ),
    {
        let rank: usize = self.threshold_rank(&*numerics);
        let r = self.replace_and_permute_at(o, rank, numerics);
        proof {
            assert(replaced_at::<N>(
                old(self).knobs().permutation_prob_f,
                old(self).grid(),
                grid_of(o@),
                rank,
                self.grid(),
                old(self).gene_total(),
                r is Ok,
            ));
        }
        r
    }

    /// One generation: offspring are spawned from the elite, then the least
    /// fit cells of every sub-population are replaced by them and the
    /// values of the others permuted. The fitnesses must have been updated
    /// before.
    ///
    /// Refused with `Sizing` exactly as `generation` says: where the elite
    /// would be more than the population, and then nothing is changed; or
    /// where the rank of the threshold is no rank of the population or the
    /// offspring do not suffice, and then the elite columns stay crossed
    /// and nothing else is changed. Whatever happens, the population keeps
    /// its knobs, its topology and its shape.
    pub fn evolve<N: Numerics>(&mut self, numerics: &mut N) -> (r: Result<(), CosyneError>)
        requires
            old(self).wf(),
        ensures
            final(self).wf(),
            final(self).same_frame(*old(self)),
            is_grid(final(self).grid(), old(self).size(), old(self).gene_total()),
            r matches Err(e) ==> e == CosyneError::Sizing,
            generation::<N>(
                &*old(numerics),
                old(self).knobs(),
                old(self).size() as usize,
                old(self).grid(),
                final(self).grid(),
                old(self).gene_total(),
                r is Ok,
            ),
    {
        let offspring: Vec<Vec<Cell>> = match self.spawn_offspring(numerics) {
            Ok(o) => o,
            Err(e) => {
                return Err(e);
            },
        };
        let ghost crossed = self.grid();
        let ghost elite = choose|elite: Seq<usize>| #[trigger]
            is_elite(&*old(numerics), old(self).grid(), old(self).gene_total() as usize, elite)
                && is_crossing::<N>(
                &*old(numerics),
                old(self).grid(),
                elite,
                crossed,
                old(self).gene_total(),
            ) && spawned_by::<N>(old(self).knobs(), crossed, elite, grid_of(offspring@));
        let ghost later = *numerics;
        let r = self.replace_and_permute(&offspring, numerics);
        proof {
            let rank = choose|rank: usize| #[trigger]
                is_threshold_rank(
                    &later,
                    old(self).knobs().top_ratio_to_recombine,
                    old(self).size() as usize,
                    rank,
                ) && replaced_at::<N>(
                    old(self).knobs().permutation_prob_f,
                    crossed,
                    grid_of(offspring@),
                    rank,
                    self.grid(),
                    old(self).gene_total(),
                    r is Ok,
                );
            assert(generation_step::<N>(
                &*old(numerics),
                old(self).knobs(),
                old(self).size() as usize,
                old(self).grid(),
                elite,
                crossed,
                grid_of(offspring@),
                later,
                rank,
                self.grid(),
                old(self).gene_total(),
                r is Ok,
            ));
        }
        r
    }
}

} // verus!
