use cosyne::derangement::identity_indices;
use cosyne::layer::spread;
use cosyne::offspring::{
    copy_cells, crossover_point, crossover_spread, exchange_prefix, mutate, mutate_cell,
    noise_deviation, perturbed, replacement, spread_share,
};
use cosyne::permutation_prob_f::{extremes, scale};
use cosyne::population::{columns_have, elite_of, folded_mean, transpose};
use cosyne::ranking::rank_by_fitness;
use cosyne::subpopulation::{
    count_below, fitnesses, mark_survivors, replace_and_permute_row, replace_below, rotate_values,
    survivor_flags, values, Cell,
};
use cosyne::{
    random_derangement, Activation, Config, Cosyne, CosyneError, Environment, Numerics,
    PermutationProbF, Population, Real, ANN,
};
use rand::rngs::StdRng;
use rand::{Rng, SeedableRng};
use rand_distr::{Distribution, Normal};

fn f(x: Real) -> f64 {
    f64::from_bits(x.to_bits())
}

fn r(x: f64) -> Real {
    Real::from_bits(x.to_bits())
}

fn reals(xs: &[f64]) -> Vec<Real> {
    xs.iter().map(|x| r(*x)).collect()
}

fn plain(xs: &Vec<Real>) -> Vec<f64> {
    xs.iter().map(|x| f(*x)).collect()
}

fn round(x: f64, digits: i32) -> f64 {
    let scale = 10f64.powi(digits);
    (x * scale).round() / scale
}

fn cell(value: f64, fitness: f64) -> Cell {
    Cell { value: r(value), fitness: r(fitness) }
}

fn cells(pairs: &[(f64, f64)]) -> Vec<Cell> {
    pairs.iter().map(|(v, fit)| cell(*v, *fit)).collect()
}

fn sorted(mut xs: Vec<f64>) -> Vec<f64> {
    xs.sort_by(|a, b| a.partial_cmp(b).unwrap());
    xs
}

/// Arithmetic on floats; draws from a seeded generator, or from a script
/// where one is given.
struct Floats {
    rng: StdRng,
    script: Vec<f64>,
    next: usize,
    normal: Option<f64>,
    normals_asked: Vec<(f64, f64)>,
}

fn floats(seed: u64) -> Floats {
    Floats {
        rng: StdRng::seed_from_u64(seed),
        script: vec![],
        next: 0,
        normal: None,
        normals_asked: vec![],
    }
}

fn scripted(draws: &[f64], normal: f64) -> Floats {
    Floats {
        rng: StdRng::seed_from_u64(0),
        script: draws.to_vec(),
        next: 0,
        normal: Some(normal),
        normals_asked: vec![],
    }
}

impl Numerics for Floats {
    fn sum(&self, a: Real, b: Real) -> Real {
        r(f(a) + f(b))
    }
    fn difference(&self, a: Real, b: Real) -> Real {
        r(f(a) - f(b))
    }
    fn product(&self, a: Real, b: Real) -> Real {
        r(f(a) * f(b))
    }
    fn quotient(&self, a: Real, b: Real) -> Real {
        r(f(a) / f(b))
    }
    fn exp(&self, a: Real) -> Real {
        r(f(a).exp())
    }
    fn ln(&self, a: Real) -> Real {
        r(f(a).ln())
    }
    fn tanh(&self, a: Real) -> Real {
        r(f(a).tanh())
    }
    fn sqrt(&self, a: Real) -> Real {
        r(f(a).sqrt())
    }
    fn from_count(&self, n: usize) -> Real {
        r(n as f64)
    }
    fn floor_count(&self, a: Real) -> usize {
        f(a).floor() as usize
    }
    fn ceil_count(&self, a: Real) -> usize {
        f(a).ceil() as usize
    }
    fn round_count(&self, a: Real) -> usize {
        f(a).round() as usize
    }
    fn draw_unit(&mut self) -> Real {
        if self.next < self.script.len() {
            self.next += 1;
            r(self.script[self.next - 1])
        } else {
            r(self.rng.gen::<f64>())
        }
    }
    fn draw_normal(&mut self, mean: Real, deviation: Real) -> Real {
        self.normals_asked.push((f(mean), f(deviation)));
        match self.normal {
            Some(x) => r(x),
            None => match Normal::new(f(mean), f(deviation)) {
                Ok(d) => r(d.sample(&mut self.rng)),
                Err(_) => mean,
            },
        }
    }
}

fn column_of(pop: &Population, j: usize) -> Vec<Cell> {
    (0..pop.num_genes()).map(|i| pop.cell(j, i)).collect()
}

fn row_of(pop: &Population, i: usize) -> Vec<Cell> {
    (0..pop.pop_size()).map(|j| pop.cell(j, i)).collect()
}

fn cell_key(c: &Cell) -> (u64, u64) {
    (c.value.to_bits(), c.fitness.to_bits())
}

fn same_cells(a: &Vec<Cell>, b: &Vec<Cell>) -> bool {
    let mut x: Vec<(u64, u64)> = a.iter().map(cell_key).collect();
    let mut y: Vec<(u64, u64)> = b.iter().map(cell_key).collect();
    x.sort();
    y.sort();
    x == y
}

fn population(size: usize, seed: u64) -> (Population, Floats) {
    let mut n = floats(seed);
    let mut nn = ANN::new(2, 1, Activation::Tanh, &mut n);
    nn.add_layer(3, Activation::Tanh, &mut n);
    let pop = Population::new(Config::new(size), &nn, seed, &mut n).ok().unwrap();
    (pop, n)
}

// ---- permutation probability

#[test]
fn permutation_prob_f() {
    let n = floats(1);
    let ppf = PermutationProbF::Uniform(r(1.0));
    assert_eq!(f(ppf.get_probability(&vec![], r(0.5), &n)), 1.0);

    let ppf = PermutationProbF::Relative;
    let spf: Vec<Real> = reals(&[0.1, 0.2, 0.5, -0.1, -0.2]);
    let weight_fit: Real = spf[0];
    let prob: f64 = f(ppf.get_probability(&spf, weight_fit, &n));
    assert_eq!(round(prob, 3), 0.571);
}

#[test]
fn relative_probability_falls_with_fitness() {
    let n = floats(2);
    let ppf = PermutationProbF::Relative;
    let spf = reals(&[1.0, 3.0, 5.0]);
    assert_eq!(f(ppf.get_probability(&spf, r(1.0), &n)), 1.0);
    assert_eq!(f(ppf.get_probability(&spf, r(3.0), &n)), 0.5);
    assert_eq!(f(ppf.get_probability(&spf, r(5.0), &n)), 0.0);
}

#[test]
fn relative_probability_of_level_fitnesses_is_one() {
    let n = floats(3);
    let ppf = PermutationProbF::Relative;
    for level in [0.0, -3.5, 7.25, f64::MIN, f64::NEG_INFINITY] {
        let p = f(ppf.get_probability(&reals(&[level; 4]), r(level), &n));
        assert!(p.is_finite());
        assert_eq!(p, 1.0);
    }
    let p = f(ppf.get_probability(&reals(&[2.0]), r(2.0), &n));
    assert_eq!(p, 1.0);
    // the two zeros are one fitness
    let p = f(ppf.get_probability(&reals(&[0.0, -0.0]), r(0.0), &n));
    assert_eq!(p, 1.0);
}

#[test]
fn uniform_probability_is_its_constant() {
    let n = floats(4);
    let ppf = PermutationProbF::Uniform(r(0.125));
    assert_eq!(f(ppf.get_probability(&reals(&[1.0, 2.0]), r(1.0), &n)), 0.125);
    assert_eq!(f(ppf.get_probability(&reals(&[5.0, 5.0]), r(9.0), &n)), 0.125);
}

#[test]
fn extremes_are_the_first_least_and_greatest() {
    let (lo, hi) = extremes(&reals(&[0.1, 0.2, 0.5, -0.1, -0.2]));
    assert_eq!(f(lo), -0.2);
    assert_eq!(f(hi), 0.5);
    let (lo, hi) = extremes(&reals(&[-0.0, 0.0]));
    assert_eq!(lo.to_bits(), (-0.0f64).to_bits());
    assert_eq!(hi.to_bits(), (-0.0f64).to_bits());
    let (lo, hi) = extremes(&reals(&[4.0]));
    assert_eq!((f(lo), f(hi)), (4.0, 4.0));
}

#[test]
fn scale_takes_a_range_to_another() {
    let n = floats(5);
    assert_eq!(f(scale(r(0.0), r(10.0), r(0.0), r(1.0), r(2.5), &n)), 0.25);
    assert_eq!(f(scale(r(-1.0), r(1.0), r(10.0), r(20.0), r(0.0), &n)), 15.0);
    assert_eq!(f(scale(r(0.0), r(4.0), r(1.0), r(3.0), r(4.0), &n)), 3.0);
}

// ---- derangement

#[test]
fn test_random_derangement() {
    let length: usize = 10;
    let d = random_derangement(length, &mut StdRng::seed_from_u64(10));
    assert_eq!(d.len(), length);
    assert!(!d.iter().zip(0..length).any(|(d, i)| *d == i));
}

#[test]
fn derangements_are_permutations_without_fixed_points() {
    let mut rng = StdRng::seed_from_u64(11);
    for length in 2..60usize {
        for _ in 0..20 {
            let d = random_derangement(length, &mut rng);
            assert_eq!(d.len(), length);
            let mut seen = vec![false; length];
            for (i, x) in d.iter().enumerate() {
                assert!(*x < length);
                assert_ne!(*x, i);
                assert!(!seen[*x]);
                seen[*x] = true;
            }
        }
    }
}

#[test]
fn derangement_below_two_indices() {
    let mut rng = StdRng::seed_from_u64(12);
    assert_eq!(random_derangement(0, &mut rng), Vec::<usize>::new());
    assert_eq!(random_derangement(1, &mut rng), vec![0]);
    assert_eq!(random_derangement(2, &mut rng), vec![1, 0]);
}

#[test]
fn derangements_vary() {
    let mut rng = StdRng::seed_from_u64(13);
    let first = random_derangement(30, &mut rng);
    let mut differs = false;
    for _ in 0..20 {
        if random_derangement(30, &mut rng) != first {
            differs = true;
        }
    }
    assert!(differs);
    // one seed, one derangement
    let again = random_derangement(30, &mut StdRng::seed_from_u64(13));
    assert_eq!(again, first);
}

#[test]
fn identity_indices_stand_in_place() {
    assert_eq!(identity_indices(4), vec![0, 1, 2, 3]);
    assert_eq!(identity_indices(0), Vec::<usize>::new());
}

// ---- ranking

#[test]
fn rank_by_fitness_is_ascending_and_stable() {
    let fits = reals(&[0.5, -1.0, 0.5, 2.0, f64::NEG_INFINITY]);
    assert_eq!(rank_by_fitness(&fits), vec![4, 1, 0, 2, 3]);
    assert_eq!(rank_by_fitness(&reals(&[3.0, 2.0, 1.0])), vec![2, 1, 0]);
    assert_eq!(rank_by_fitness(&reals(&[1.0, 1.0, 1.0])), vec![0, 1, 2]);
    assert_eq!(rank_by_fitness(&reals(&[])), Vec::<usize>::new());
    assert_eq!(rank_by_fitness(&reals(&[f64::MIN, -0.0, 0.0, f64::MAX])), vec![0, 1, 2, 3]);
}

#[test]
fn rank_by_fitness_agrees_with_a_stable_sort() {
    let mut n = floats(6);
    for _ in 0..50 {
        let fits: Vec<f64> = (0..40).map(|_| (f(n.draw_unit()) * 8.0).floor()).collect();
        let mut expected: Vec<usize> = (0..fits.len()).collect();
        expected.sort_by(|a, b| fits[*a].partial_cmp(&fits[*b]).unwrap());
        assert_eq!(rank_by_fitness(&reals(&fits)), expected);
    }
}

#[test]
fn elite_of_takes_the_fittest_first() {
    assert_eq!(elite_of(&vec![3, 1, 2, 0], 2), vec![0, 2]);
    assert_eq!(elite_of(&vec![3, 1, 2, 0], 4), vec![0, 2, 1, 3]);
    assert_eq!(elite_of(&vec![3, 1, 2, 0], 0), Vec::<usize>::new());
}

// ---- one sub-population

#[test]
fn count_below_counts_by_rank() {
    let row = cells(&[(1.0, 1.0), (2.0, 5.0), (3.0, 2.0), (4.0, 7.0), (5.0, 0.0)]);
    assert_eq!(count_below(&row, r(2.0)), 2);
    assert_eq!(count_below(&row, r(0.0)), 0);
    assert_eq!(count_below(&row, r(100.0)), 5);
    assert_eq!(plain(&fitnesses(&row)), vec![1.0, 5.0, 2.0, 7.0, 0.0]);
    assert_eq!(plain(&values(&row)), vec![1.0, 2.0, 3.0, 4.0, 5.0]);
    assert_eq!(survivor_flags(&row, r(2.0)), vec![false, true, true, true, false]);
}

#[test]
fn replace_below_takes_offspring_in_order() {
    let mut row = cells(&[(1.0, 1.0), (2.0, 5.0), (3.0, 2.0), (4.0, 7.0), (5.0, 0.0)]);
    let offspring = cells(&[(-1.0, f64::MIN), (-2.0, 9.0), (-3.0, 9.0)]);
    assert_eq!(replace_below(&mut row, &offspring, r(2.0)), Ok(2));
    assert_eq!(
        row,
        cells(&[(-1.0, f64::MIN), (2.0, 5.0), (3.0, 2.0), (4.0, 7.0), (-2.0, 9.0)])
    );
}

#[test]
fn replace_below_refuses_where_offspring_run_out() {
    let mut row = cells(&[(1.0, 1.0), (2.0, 5.0), (3.0, 2.0), (4.0, 7.0), (5.0, 0.0)]);
    let before = row.clone();
    let offspring = cells(&[(-1.0, f64::MIN)]);
    assert_eq!(replace_below(&mut row, &offspring, r(2.0)), Err(CosyneError::Sizing));
    assert_eq!(row, before);
    assert_eq!(replace_below(&mut row, &offspring, r(1.0)), Ok(1));
    assert_eq!(row[4], cell(-1.0, f64::MIN));
}

#[test]
fn rotate_values_moves_values_and_leaves_fitnesses() {
    let mut row = cells(&[(10.0, 1.0), (20.0, 2.0), (30.0, 3.0), (40.0, 4.0), (50.0, 5.0)]);
    rotate_values(&mut row, &vec![0, 2, 3]);
    assert_eq!(
        row,
        cells(&[(40.0, 1.0), (20.0, 2.0), (10.0, 3.0), (30.0, 4.0), (50.0, 5.0)])
    );
}

#[test]
fn rotate_values_of_few_marks() {
    let before = cells(&[(10.0, 1.0), (20.0, 2.0), (30.0, 3.0)]);
    let mut row = before.clone();
    rotate_values(&mut row, &vec![]);
    assert_eq!(row, before);
    rotate_values(&mut row, &vec![1]);
    assert_eq!(row, before);
    rotate_values(&mut row, &vec![0, 2]);
    assert_eq!(row, cells(&[(30.0, 1.0), (20.0, 2.0), (10.0, 3.0)]));
}

#[test]
fn mark_survivors_marks_by_the_draw() {
    let row = cells(&[(1.0, 1.0), (2.0, 5.0), (3.0, 2.0), (4.0, 7.0)]);
    let keep = vec![true, false, true, true];
    let mut n = floats(7);
    let all = mark_survivors(&row, &keep, &PermutationProbF::Uniform(r(1.0)), &mut n);
    assert_eq!(all, vec![0, 2, 3]);
    let none = mark_survivors(&row, &keep, &PermutationProbF::Uniform(r(0.0)), &mut n);
    assert_eq!(none, Vec::<usize>::new());
    // draws of 0.4, 0.6, 0.4 against a probability of a half
    let mut n = scripted(&[0.4, 0.6, 0.4], 0.0);
    let some = mark_survivors(&row, &keep, &PermutationProbF::Uniform(r(0.5)), &mut n);
    assert_eq!(some, vec![0, 3]);
}

#[test]
fn replace_and_permute_row_replaces_then_rotates_the_survivors() {
    let mut row = cells(&[(1.0, 1.0), (2.0, 5.0), (3.0, 2.0), (4.0, 7.0), (5.0, 0.0)]);
    let offspring = cells(&[(-1.0, f64::MIN), (-2.0, f64::MIN)]);
    let mut n = floats(8);
    let done = replace_and_permute_row(
        &mut row,
        &offspring,
        r(2.0),
        &PermutationProbF::Uniform(r(1.0)),
        &mut n,
    );
    assert_eq!(done, Ok(()));
    // the survivors are the cells 1, 2 and 3, and all of them are marked
    assert_eq!(
        row,
        cells(&[(-1.0, f64::MIN), (4.0, 5.0), (2.0, 2.0), (3.0, 7.0), (-2.0, f64::MIN)])
    );
}

#[test]
fn replace_and_permute_row_conserves_the_surviving_values() {
    let mut n = floats(9);
    for round in 0..200 {
        let len = 3 + round % 12;
        let before: Vec<Cell> = (0..len)
            .map(|_| cell(f(n.draw_unit()), (f(n.draw_unit()) * 6.0).floor()))
            .collect();
        let offspring: Vec<Cell> = (0..len).map(|k| cell(100.0 + k as f64, f64::MIN)).collect();
        let threshold = 3.0;
        let policy = if round % 2 == 0 {
            PermutationProbF::Relative
        } else {
            PermutationProbF::Uniform(r(0.7))
        };
        let mut row = before.clone();
        assert_eq!(
            replace_and_permute_row(&mut row, &offspring, r(threshold), &policy, &mut n),
            Ok(())
        );
        assert_eq!(row.len(), before.len());
        let mut used = 0;
        let mut kept_before = vec![];
        let mut kept_after = vec![];
        for j in 0..len {
            if f(before[j].fitness) < threshold {
                assert_eq!(row[j], offspring[used]);
                used += 1;
            } else {
                assert_eq!(row[j].fitness, before[j].fitness);
                kept_before.push(f(before[j].value));
                kept_after.push(f(row[j].value));
            }
        }
        assert_eq!(sorted(kept_before), sorted(kept_after));
    }
}

#[test]
fn replace_and_permute_row_refuses_and_leaves_the_row() {
    let before = cells(&[(1.0, 1.0), (2.0, 5.0), (3.0, 2.0)]);
    let mut row = before.clone();
    let mut n = floats(10);
    let done = replace_and_permute_row(
        &mut row,
        &cells(&[(9.0, 9.0)]),
        r(5.0),
        &PermutationProbF::Uniform(r(1.0)),
        &mut n,
    );
    assert_eq!(done, Err(CosyneError::Sizing));
    assert_eq!(row, before);
}

// ---- crossover and mutation

#[test]
fn exchange_prefix_crosses_two_columns() {
    let mut columns = vec![
        cells(&[(1.0, 0.1), (2.0, 0.2), (3.0, 0.3)]),
        cells(&[(4.0, 0.4), (5.0, 0.5), (6.0, 0.6)]),
        cells(&[(7.0, 0.7), (8.0, 0.8), (9.0, 0.9)]),
    ];
    exchange_prefix(&mut columns, 0, 2, 2, 3);
    assert_eq!(columns[0], cells(&[(7.0, 0.7), (8.0, 0.8), (3.0, 0.3)]));
    assert_eq!(columns[1], cells(&[(4.0, 0.4), (5.0, 0.5), (6.0, 0.6)]));
    assert_eq!(columns[2], cells(&[(1.0, 0.1), (2.0, 0.2), (9.0, 0.9)]));
    let before = columns.clone();
    exchange_prefix(&mut columns, 1, 1, 3, 3);
    assert_eq!(columns, before);
    exchange_prefix(&mut columns, 0, 1, 0, 3);
    assert_eq!(columns, before);
    exchange_prefix(&mut columns, 0, 1, 3, 3);
    assert_eq!(columns[0], before[1]);
    assert_eq!(columns[1], before[0]);
}

#[test]
fn crossover_point_is_clipped_and_rounded() {
    let n = floats(11);
    assert_eq!(crossover_point(r(-1.0), r(10.0), 10, &n), 0);
    assert_eq!(crossover_point(r(-1e-9), r(10.0), 10, &n), 0);
    assert_eq!(crossover_point(r(10.5), r(10.0), 10, &n), 10);
    assert_eq!(crossover_point(r(f64::INFINITY), r(10.0), 10, &n), 10);
    assert_eq!(crossover_point(r(2.4), r(10.0), 10, &n), 2);
    assert_eq!(crossover_point(r(2.5), r(10.0), 10, &n), 3);
    assert_eq!(crossover_point(r(0.0), r(10.0), 10, &n), 0);
    assert_eq!(crossover_point(r(10.0), r(10.0), 10, &n), 10);
    assert_eq!(crossover_point(r(9.6), r(10.0), 10, &n), 10);
}

#[test]
fn formulas_of_mutation_and_crossover() {
    let n = floats(40);
    assert_eq!(f(spread(r(0.75), &n)), 0.5);
    assert_eq!(f(spread(r(0.0), &n)), -1.0);
    assert_eq!(f(spread(r(1.0), &n)), 1.0);
    assert_eq!(f(perturbed(r(0.25), r(1.5), r(0.5), &n)), 1.0);
    assert_eq!(f(perturbed(r(0.25), r(-1.0), r(0.25), &n)), 0.0);
    assert_eq!(f(replacement(r(0.75), r(0.5), &n)), 0.25);
    assert_eq!(f(replacement(r(0.25), r(1.0), &n)), -0.5);
    assert_eq!(f(spread_share()), 0.33);
    assert_eq!(f(noise_deviation()), 0.4);
    let (whole, mean, deviation) = crossover_spread(13, &n);
    assert_eq!((f(whole), f(mean), f(deviation)), (13.0, 6.5, 13.0 * 0.33));
}

#[test]
fn threshold_rank_rounds_down() {
    let (pop, n) = population(10, 41);
    // a quarter of ten
    assert_eq!(pop.threshold_rank(&n), 2);
    let (pop, n) = population(8, 42);
    assert_eq!(pop.threshold_rank(&n), 2);
    let (pop, n) = population(3, 43);
    assert_eq!(pop.threshold_rank(&n), 0);
}

#[test]
fn mutate_cell_leaves_perturbs_or_replaces() {
    let config = Config::new(10);
    let before = cell(0.25, 3.0);

    // the first draw is no less than the probability of mutation
    let mut n = scripted(&[0.3], 1.0);
    assert_eq!(mutate_cell(&config, before, &mut n), before);
    let mut n = scripted(&[0.9], 1.0);
    assert_eq!(mutate_cell(&config, before, &mut n), before);

    // mutation, then perturbation: the value and the noise at half strength
    let mut n = scripted(&[0.1, 0.2], 1.5);
    let after = mutate_cell(&config, before, &mut n);
    assert_eq!(f(after.value), 0.25 + 1.5 * 0.5);
    assert_eq!(f(after.fitness), f64::MIN);
    assert_eq!(n.normals_asked, vec![(0.0, 0.4)]);

    // mutation, then replacement: a draw between minus one and one, at half strength
    let mut n = scripted(&[0.1, 0.5, 0.75], 1.5);
    let after = mutate_cell(&config, before, &mut n);
    assert_eq!(f(after.value), (0.75 * 2.0 - 1.0) * 0.5);
    assert_eq!(f(after.fitness), f64::MIN);
    assert!(n.normals_asked.is_empty());
}

#[test]
fn mutate_resets_the_fitness_of_what_it_changes() {
    let mut n = floats(12);
    let config = Config::new(10);
    let before: Vec<Vec<Cell>> = (0..6)
        .map(|k| (0..40).map(|i| cell((k * 40 + i) as f64, 1.0)).collect())
        .collect();
    let mut o = before.clone();
    mutate(&config, &mut o, &mut n);
    assert_eq!(o.len(), before.len());
    let mut changed = 0;
    for k in 0..before.len() {
        assert_eq!(o[k].len(), before[k].len());
        for i in 0..before[k].len() {
            if o[k][i] != before[k][i] {
                assert_eq!(f(o[k][i].fitness), f64::MIN);
                changed += 1;
            }
        }
    }
    // three cells in ten mutate
    assert!(changed > 30 && changed < 120, "{} cells changed", changed);
}

#[test]
fn mutate_with_no_probability_changes_nothing() {
    let mut n = floats(13);
    let mut config = Config::new(10);
    config.mutation_prob = r(0.0);
    let before: Vec<Vec<Cell>> = vec![cells(&[(1.0, 1.0), (2.0, 2.0)]); 3];
    let mut o = before.clone();
    mutate(&config, &mut o, &mut n);
    assert_eq!(o, before);
}

#[test]
fn copy_cells_and_transpose() {
    let column = cells(&[(1.0, 0.1), (2.0, 0.2)]);
    assert_eq!(copy_cells(&column), column);
    let columns = vec![
        cells(&[(1.0, 0.1), (2.0, 0.2), (3.0, 0.3)]),
        cells(&[(4.0, 0.4), (5.0, 0.5), (6.0, 0.6)]),
    ];
    let rows = transpose(&columns, 3);
    assert_eq!(
        rows,
        vec![
            cells(&[(1.0, 0.1), (4.0, 0.4)]),
            cells(&[(2.0, 0.2), (5.0, 0.5)]),
            cells(&[(3.0, 0.3), (6.0, 0.6)]),
        ]
    );
    assert_eq!(transpose(&rows, 2), columns);
    assert_eq!(transpose(&vec![], 2), vec![Vec::<Cell>::new(), Vec::<Cell>::new()]);
    assert!(columns_have(&columns, 3));
    assert!(!columns_have(&columns, 2));
    assert!(columns_have(&vec![], 5));
}

// ---- the population

#[test]
fn population_new_has_a_column_for_each_network() {
    let (pop, _) = population(20, 14);
    assert_eq!(pop.pop_size(), 20);
    assert_eq!(pop.num_genes(), (3 * 2 + 3) + (1 * 3 + 1));
    assert_eq!(pop.current_generation(), 0);
    assert_eq!(pop.config().pop_size, 20);
    for j in 0..20 {
        for i in 0..13 {
            let c = pop.cell(j, i);
            assert_eq!(f(c.fitness), f64::MIN);
            assert!(f(c.value) >= -1.0 && f(c.value) <= 1.0);
        }
    }
    assert_ne!(column_of(&pop, 0), column_of(&pop, 1));
}

#[test]
fn population_new_refuses_invalid_knobs() {
    let mut n = floats(15);
    let nn = ANN::new(2, 1, Activation::Tanh, &mut n);
    assert!(matches!(
        Population::new(Config::new(1), &nn, 1, &mut n),
        Err(CosyneError::InvalidConfig)
    ));
    assert!(matches!(
        Population::new(Config::new(0), &nn, 1, &mut n),
        Err(CosyneError::InvalidConfig)
    ));
    let mut config = Config::new(10);
    config.top_ratio_to_recombine = r(1.25);
    assert!(matches!(Population::new(config, &nn, 1, &mut n), Err(CosyneError::InvalidConfig)));
    let mut config = Config::new(10);
    config.top_ratio_to_recombine = r(-0.25);
    assert!(matches!(Population::new(config, &nn, 1, &mut n), Err(CosyneError::InvalidConfig)));
    assert!(Population::new(Config::new(2), &nn, 1, &mut n).is_ok());
}

#[test]
fn get_network_decodes_a_column() {
    let (pop, n) = population(6, 16);
    for j in 0..6 {
        let nn = pop.get_network(j);
        assert_eq!(nn.genes(), values(&column_of(&pop, j)));
        assert_eq!(nn.num_inputs(), 2);
        assert_eq!(nn.num_outputs(), 1);
        assert_eq!(nn.num_layers(), 2);
        assert_eq!(nn.forward(reals(&[1.0, 0.0]), &n).unwrap().len(), 1);
    }
}

#[test]
fn update_fitnesses_keeps_the_running_mean() {
    let (mut pop, n) = population(4, 17);
    let values_before: Vec<Vec<Cell>> = (0..4).map(|j| column_of(&pop, j)).collect();
    let samples = [
        [1.0, 10.0, -4.0, 0.5],
        [2.0, 20.0, -2.0, 0.25],
        [6.0, 0.0, 3.0, 0.75],
        [-1.0, 2.0, 7.0, 1.5],
        [4.5, -8.0, 1.0, 0.0],
    ];
    for (g, fits) in samples.iter().enumerate() {
        assert_eq!(pop.update_fitnesses(&reals(fits), &n), Ok(()));
        assert_eq!(pop.current_generation(), g + 1);
        for j in 0..4 {
            let mean: f64 = samples[..=g].iter().map(|s| s[j]).sum::<f64>() / (g + 1) as f64;
            for i in 0..pop.num_genes() {
                assert!((f(pop.cell(j, i).fitness) - mean).abs() < 1e-12);
                assert_eq!(pop.cell(j, i).value, values_before[j][i].value);
            }
        }
    }
    // after the first fold the mean is the sample itself
    let (mut pop, n) = population(2, 18);
    pop.update_fitnesses(&reals(&[3.25, -7.5]), &n).unwrap();
    assert_eq!(f(pop.cell(0, 0).fitness), 3.25);
    assert_eq!(f(pop.cell(1, 5).fitness), -7.5);
}

#[test]
fn folded_mean_is_the_mean_with_one_more() {
    let n = floats(19);
    assert_eq!(f(folded_mean(r(2.0), r(3.0), r(6.0), &n)), 3.0);
    assert_eq!(f(folded_mean(r(f64::MIN), r(0.0), r(1.5), &n)), 1.5);
    assert_eq!(f(folded_mean(r(1.0), r(1.0), r(2.0), &n)), 1.5);
}

#[test]
fn update_fitnesses_refuses_a_wrong_count() {
    let (mut pop, n) = population(4, 20);
    let before: Vec<Vec<Cell>> = (0..4).map(|j| column_of(&pop, j)).collect();
    assert_eq!(pop.update_fitnesses(&reals(&[1.0; 3]), &n), Err(CosyneError::ShapeMismatch));
    assert_eq!(pop.update_fitnesses(&reals(&[1.0; 5]), &n), Err(CosyneError::ShapeMismatch));
    assert_eq!(pop.current_generation(), 0);
    for j in 0..4 {
        assert_eq!(column_of(&pop, j), before[j]);
    }
}

#[test]
fn get_network_fitness_sums_the_column() {
    let (mut pop, n) = population(3, 21);
    pop.update_fitnesses(&reals(&[1.0, 2.0, -0.5]), &n).unwrap();
    assert_eq!(f(pop.get_network_fitness(0, &n)), 13.0);
    assert_eq!(f(pop.get_network_fitness(1, &n)), 26.0);
    assert_eq!(f(pop.get_network_fitness(2, &n)), -6.5);
    assert_eq!(plain(&pop.column_means(&n)), vec![1.0, 2.0, -0.5]);
}

#[test]
fn setters_check_the_unit_interval() {
    let (mut pop, _) = population(4, 22);
    assert_eq!(pop.set_mutation_prob(r(0.75)), Ok(()));
    assert_eq!(f(pop.config().mutation_prob), 0.75);
    assert_eq!(pop.set_mutation_prob(r(1.5)), Err(CosyneError::InvalidConfig));
    assert_eq!(f(pop.config().mutation_prob), 0.75);

    assert_eq!(pop.set_mutation_strength(r(1.0)), Ok(()));
    assert_eq!(f(pop.config().mutation_strength), 1.0);
    assert_eq!(pop.set_mutation_strength(r(-0.5)), Err(CosyneError::InvalidConfig));
    assert_eq!(f(pop.config().mutation_strength), 1.0);

    assert_eq!(pop.set_perturb_prob(r(0.0)), Ok(()));
    assert_eq!(f(pop.config().perturb_prob), 0.0);
    assert_eq!(pop.set_perturb_prob(r(f64::NAN)), Err(CosyneError::InvalidConfig));
    assert_eq!(f(pop.config().perturb_prob), 0.0);
}

#[test]
fn select_elite_takes_the_fittest_quarter() {
    let (mut pop, n) = population(8, 23);
    pop.update_fitnesses(&reals(&[3.0, 9.0, 1.0, 7.0, 5.0, 2.0, 8.0, 4.0]), &n).unwrap();
    // a quarter of eight, the fittest first
    assert_eq!(pop.select_elite(&n), Ok(vec![1, 6]));
    let (mut pop, n) = population(10, 24);
    pop.update_fitnesses(&reals(&[0.0, 1.0, 2.0, 3.0, 4.0, 5.0, 6.0, 7.0, 8.0, 9.0]), &n).unwrap();
    // a quarter of ten, rounded up
    assert_eq!(pop.select_elite(&n), Ok(vec![9, 8, 7]));
}

#[test]
fn crossover_keeps_the_cells_of_every_row() {
    let (mut pop, mut n) = population(10, 25);
    pop.update_fitnesses(&reals(&[0.0, 1.0, 2.0, 3.0, 4.0, 5.0, 6.0, 7.0, 8.0, 9.0]), &n).unwrap();
    let rows_before: Vec<Vec<Cell>> = (0..pop.num_genes()).map(|i| row_of(&pop, i)).collect();
    let columns_before: Vec<Vec<Cell>> = (0..10).map(|j| column_of(&pop, j)).collect();
    let elite = vec![9, 8, 7, 2];
    pop.crossover(&elite, &mut n);
    for i in 0..pop.num_genes() {
        assert!(same_cells(&row_of(&pop, i), &rows_before[i]));
    }
    for j in 0..10 {
        if !elite.contains(&j) {
            assert_eq!(column_of(&pop, j), columns_before[j]);
        }
    }
    // the points are drawn around half the genes, a third of them wide
    assert_eq!(n.normals_asked.len(), 4);
    for asked in &n.normals_asked {
        assert_eq!(*asked, (13.0 / 2.0, 13.0 * 0.33));
    }
}

#[test]
fn crossover_at_a_scripted_point() {
    let (mut pop, _) = population(4, 26);
    let columns_before: Vec<Vec<Cell>> = (0..4).map(|j| column_of(&pop, j)).collect();
    // every draw gives the point 5
    let mut n = scripted(&[], 5.0);
    pop.crossover(&vec![1, 3], &mut n);
    // the two columns exchange their first five cells, and then exchange them back
    for j in 0..4 {
        assert_eq!(column_of(&pop, j), columns_before[j]);
    }
    let mut n = scripted(&[], 5.0);
    pop.crossover(&vec![2], &mut n);
    for j in 0..4 {
        assert_eq!(column_of(&pop, j), columns_before[j]);
    }
}

#[test]
fn spawn_offspring_copies_and_mutates_the_elite() {
    let (mut pop, mut n) = population(20, 27);
    let fits: Vec<f64> = (0..20).map(|j| j as f64).collect();
    pop.update_fitnesses(&reals(&fits), &n).unwrap();
    let rows_before: Vec<Vec<Cell>> = (0..pop.num_genes()).map(|i| row_of(&pop, i)).collect();
    let o = pop.spawn_offspring(&mut n).unwrap();
    assert_eq!(o.len(), 5);
    for i in 0..pop.num_genes() {
        assert!(same_cells(&row_of(&pop, i), &rows_before[i]));
    }
    let elite = [19, 18, 17, 16, 15];
    for (k, column) in o.iter().enumerate() {
        assert_eq!(column.len(), pop.num_genes());
        let source = column_of(&pop, elite[k]);
        for i in 0..column.len() {
            assert!(column[i] == source[i] || f(column[i].fitness) == f64::MIN);
        }
    }
}

#[test]
fn replace_and_permute_at_conserves_every_row() {
    let (mut pop, mut n) = population(12, 28);
    let fits: Vec<f64> = vec![5.0, 1.0, 9.0, 3.0, 3.0, 7.0, 0.0, 8.0, 2.0, 6.0, 4.0, 3.0];
    pop.update_fitnesses(&reals(&fits), &n).unwrap();
    let genes = pop.num_genes();
    let rows_before: Vec<Vec<Cell>> = (0..genes).map(|i| row_of(&pop, i)).collect();
    let o: Vec<Vec<Cell>> = (0..3)
        .map(|k| (0..genes).map(|i| cell(1000.0 + (k * genes + i) as f64, f64::MIN)).collect())
        .collect();
    // the fitness at rank three is 3, and three cells lie below it
    assert_eq!(pop.replace_and_permute_at(&o, 3, &mut n), Ok(()));
    assert_eq!(pop.pop_size(), 12);
    assert_eq!(pop.num_genes(), genes);
    for i in 0..genes {
        let row = row_of(&pop, i);
        assert_eq!(row.len(), 12);
        let mut used = 0;
        let mut kept_before = vec![];
        let mut kept_after = vec![];
        for j in 0..12 {
            if fits[j] < 3.0 {
                assert_eq!(row[j], o[used][i]);
                used += 1;
            } else {
                assert_eq!(row[j].fitness, rows_before[i][j].fitness);
                kept_before.push(f(rows_before[i][j].value));
                kept_after.push(f(row[j].value));
            }
        }
        assert_eq!(used, 3);
        assert_eq!(sorted(kept_before.clone()), sorted(kept_after.clone()));
        // every survivor is marked, so every surviving value moves on by one
        assert_ne!(kept_before, kept_after);
        let mut turned = kept_before.clone();
        turned.rotate_right(1);
        assert_eq!(turned, kept_after);
    }
}

#[test]
fn replace_and_permute_at_refuses_and_changes_nothing() {
    let (mut pop, mut n) = population(6, 29);
    pop.update_fitnesses(&reals(&[5.0, 1.0, 9.0, 3.0, 0.0, 7.0]), &n).unwrap();
    let genes = pop.num_genes();
    let before: Vec<Vec<Cell>> = (0..6).map(|j| column_of(&pop, j)).collect();
    let o: Vec<Vec<Cell>> = vec![vec![cell(0.0, f64::MIN); genes]; 2];

    // a rank that the population does not have
    assert_eq!(pop.replace_and_permute_at(&o, 6, &mut n), Err(CosyneError::Sizing));
    assert_eq!(pop.replace_and_permute_at(&o, 100, &mut n), Err(CosyneError::Sizing));
    // three cells below the fitness at rank three, and two offspring
    assert_eq!(pop.replace_and_permute_at(&o, 3, &mut n), Err(CosyneError::Sizing));
    // offspring without a cell for each gene
    let short: Vec<Vec<Cell>> = vec![vec![cell(0.0, f64::MIN); genes - 1]; 4];
    assert_eq!(pop.replace_and_permute_at(&short, 2, &mut n), Err(CosyneError::ShapeMismatch));
    assert_eq!(pop.replace_and_permute(&short, &mut n), Err(CosyneError::ShapeMismatch));
    for j in 0..6 {
        assert_eq!(column_of(&pop, j), before[j]);
    }
    // as many offspring as the rank are enough
    assert_eq!(pop.replace_and_permute_at(&o, 2, &mut n), Ok(()));
}

#[test]
fn replace_and_permute_takes_the_rank_from_the_ratio() {
    let (mut pop, mut n) = population(8, 30);
    let fits = [5.0, 1.0, 9.0, 3.0, 0.0, 7.0, 4.0, 2.0];
    pop.update_fitnesses(&reals(&fits), &n).unwrap();
    let genes = pop.num_genes();
    let o: Vec<Vec<Cell>> = (0..2)
        .map(|k| (0..genes).map(|i| cell(1000.0 + (k * genes + i) as f64, f64::MIN)).collect())
        .collect();
    // a quarter of eight: the fitness at rank two is 2, and the cells 4 and 1 lie below
    assert_eq!(pop.replace_and_permute(&o, &mut n), Ok(()));
    for i in 0..genes {
        assert_eq!(pop.cell(1, i), o[0][i]);
        assert_eq!(pop.cell(4, i), o[1][i]);
        for j in [0, 2, 3, 5, 6, 7] {
            assert_eq!(f(pop.cell(j, i).fitness), fits[j]);
        }
    }
}

#[test]
fn population_evolve_keeps_the_shape() {
    let (mut pop, mut n) = population(20, 31);
    for g in 0..10 {
        let fits: Vec<f64> = (0..20).map(|j| ((j * 7 + g * 3) % 20) as f64).collect();
        pop.update_fitnesses(&reals(&fits), &n).unwrap();
        assert_eq!(pop.evolve(&mut n), Ok(()));
        assert_eq!(pop.pop_size(), 20);
        assert_eq!(pop.num_genes(), 13);
        assert_eq!(pop.current_generation(), g + 1);
        for j in 0..20 {
            assert_eq!(pop.get_network(j).num_genes(), 13);
        }
    }
}

// ---- the optimizer

struct Target {
    n: Floats,
}

impl Environment for Target {
    fn evaluate(&self, nn: &ANN) -> Real {
        let out = f(nn.forward(reals(&[1.0, 1.0]), &self.n).unwrap()[0]);
        r(-((out - 0.5) * (out - 0.5)))
    }
}

struct Broken;

impl Environment for Broken {
    fn evaluate(&self, _nn: &ANN) -> Real {
        r(f64::NAN)
    }
}

struct XorEnvironment {
    n: Floats,
}

impl Environment for XorEnvironment {
    fn evaluate(&self, nn: &ANN) -> Real {
        let mut distance: f64;

        let mut output = plain(&nn.forward(reals(&[0.0, 0.0]), &self.n).unwrap());
        distance = (0.0 - output[0]).abs();
        output = plain(&nn.forward(reals(&[0.0, 1.0]), &self.n).unwrap());
        distance += (1.0 - output[0]).abs();
        output = plain(&nn.forward(reals(&[1.0, 0.0]), &self.n).unwrap());
        distance += (1.0 - output[0]).abs();
        output = plain(&nn.forward(reals(&[1.0, 1.0]), &self.n).unwrap());
        distance += (0.0 - output[0]).abs();

        r((4.0 - distance).powi(2))
    }
}

#[test]
fn cosyne_new_starts_without_a_fitness() {
    let mut n = floats(32);
    let nn = ANN::new(2, 1, Activation::Linear, &mut n);
    let cosyne = Cosyne::new(Target { n: floats(0) }, nn, Config::new(20), n, 7).ok().unwrap();
    assert_eq!(f(cosyne.champion().1), f64::MIN);
    assert_eq!(cosyne.champion().0.num_genes(), 3);
    assert_eq!(cosyne.generation(), 0);
    assert!(cosyne.champion_fit_history().is_empty());
}

#[test]
fn cosyne_new_refuses_invalid_knobs() {
    let mut n = floats(33);
    let nn = ANN::new(2, 1, Activation::Linear, &mut n);
    let made = Cosyne::new(Target { n: floats(0) }, nn, Config::new(1), n, 7);
    assert!(matches!(made, Err(CosyneError::InvalidConfig)));
}

#[test]
fn champion_fitness_never_falls() {
    let mut n = floats(34);
    let nn = ANN::new(2, 1, Activation::Linear, &mut n);
    let mut config = Config::new(20);
    config.top_ratio_to_recombine = r(0.25);
    let mut cosyne = Cosyne::new(Target { n: floats(0) }, nn, config, n, 7).ok().unwrap();
    let mut last = f64::MIN;
    for g in 0..50 {
        assert_eq!(cosyne.evolve(), Ok(()));
        let fitness = f(cosyne.champion().1);
        assert!(fitness >= last);
        assert!(fitness <= 0.0);
        last = fitness;
        assert_eq!(cosyne.generation(), g + 1);
        assert_eq!(cosyne.champion_fit_history().len(), g + 1);
        assert_eq!(f(cosyne.champion_fit_history()[g]), fitness);
        // the champion is a snapshot: it still has the fitness that it was given
        let again = Target { n: floats(0) }.evaluate(&cosyne.champion().0);
        assert_eq!(f(again), fitness);
    }
    let history = plain(cosyne.champion_fit_history());
    assert!(history.windows(2).all(|w| w[0] <= w[1]));
    assert!(last > -0.05);
}

#[test]
fn a_fitness_that_is_no_finite_number_is_refused() {
    let mut n = floats(35);
    let nn = ANN::new(2, 1, Activation::Linear, &mut n);
    let mut cosyne = Cosyne::new(Broken, nn, Config::new(4), n, 7).ok().unwrap();
    let champion = cosyne.champion().0.genes();
    assert_eq!(cosyne.evolve(), Err(CosyneError::NonFiniteFitness));
    assert_eq!(cosyne.generation(), 0);
    assert!(cosyne.champion_fit_history().is_empty());
    assert_eq!(f(cosyne.champion().1), f64::MIN);
    assert_eq!(cosyne.champion().0.genes(), champion);
}

#[test]
fn cosyne_setters_check_the_unit_interval() {
    let mut n = floats(36);
    let nn = ANN::new(2, 1, Activation::Linear, &mut n);
    let mut cosyne = Cosyne::new(Target { n: floats(0) }, nn, Config::new(4), n, 7).ok().unwrap();
    assert_eq!(cosyne.set_mutation_prob(r(0.9)), Ok(()));
    assert_eq!(cosyne.set_mutation_prob(r(1.1)), Err(CosyneError::InvalidConfig));
    assert_eq!(cosyne.set_mutation_strength(r(0.1)), Ok(()));
    assert_eq!(cosyne.set_mutation_strength(r(-0.1)), Err(CosyneError::InvalidConfig));
    assert_eq!(cosyne.set_perturb_prob(r(1.0)), Ok(()));
    assert_eq!(cosyne.set_perturb_prob(r(2.0)), Err(CosyneError::InvalidConfig));
    assert_eq!(cosyne.evolve(), Ok(()));
}

#[test]
fn a_ratio_of_one_leaves_no_rank_for_the_threshold() {
    let mut n = floats(38);
    let nn = ANN::new(2, 1, Activation::Linear, &mut n);
    let mut config = Config::new(6);
    config.top_ratio_to_recombine = r(1.0);
    let mut cosyne = Cosyne::new(Target { n: floats(0) }, nn, config, n, 7).ok().unwrap();
    assert_eq!(cosyne.evolve(), Err(CosyneError::Sizing));
    // the evaluations were made, folded in and counted: the champion has a fitness
    assert_eq!(cosyne.generation(), 1);
    assert_eq!(cosyne.champion_fit_history().len(), 1);
    assert_eq!(cosyne.champion_fit_history()[0], cosyne.champion().1);
    assert!(f(cosyne.champion().1) > f64::MIN);
    assert!(f(cosyne.champion().1) <= 0.0);
    // and the optimizer can go on
    let before = f(cosyne.champion().1);
    assert_eq!(cosyne.evolve(), Err(CosyneError::Sizing));
    assert_eq!(cosyne.generation(), 2);
    assert!(f(cosyne.champion().1) >= before);
}

#[test]
fn the_champion_is_the_first_of_the_fittest() {
    struct Level;
    impl Environment for Level {
        fn evaluate(&self, _nn: &ANN) -> Real {
            r(1.5)
        }
    }
    let mut n = floats(44);
    let nn = ANN::new(2, 1, Activation::Linear, &mut n);
    let mut cosyne = Cosyne::new(Level, nn, Config::new(5), n, 9).ok().unwrap();
    // before any evaluation the champion is the first network of the population
    let first = cosyne.champion().0.genes();
    assert_eq!(cosyne.champion().0.num_genes(), 3);
    assert_eq!(cosyne.evolve(), Ok(()));
    // every network has the same fitness: the champion is the first of them
    assert_eq!(f(cosyne.champion().1), 1.5);
    assert_eq!(cosyne.champion().0.genes(), first);
}

#[test]
fn without_marks_the_survivors_stay_where_they_are() {
    let mut n = floats(45);
    let nn = ANN::new(2, 1, Activation::Linear, &mut n);
    let mut config = Config::new(4);
    config.top_ratio_to_recombine = r(0.5);
    config.permutation_prob_f = PermutationProbF::Uniform(r(0.0));
    let mut pop = Population::new(config, &nn, 3, &mut n).ok().unwrap();
    pop.update_fitnesses(&reals(&[1.0, 2.0, 3.0, 4.0]), &n).unwrap();
    let genes = pop.num_genes();
    let before: Vec<Vec<Cell>> = (0..4).map(|j| column_of(&pop, j)).collect();
    let o: Vec<Vec<Cell>> = (0..2)
        .map(|k| (0..genes).map(|i| cell(-((k * genes + i) as f64) - 1.0, 0.0)).collect())
        .collect();
    assert_eq!(pop.replace_and_permute(&o, &mut n), Ok(()));
    for i in 0..genes {
        // the two cells below the fitness at rank two are replaced, in every row
        assert_eq!(pop.cell(0, i), o[0][i]);
        assert_eq!(pop.cell(1, i), o[1][i]);
        assert_eq!(pop.cell(2, i), before[2][i]);
        assert_eq!(pop.cell(3, i), before[3][i]);
    }
}

#[test]
fn a_ratio_of_zero_replaces_nothing() {
    let mut n = floats(39);
    let nn = ANN::new(2, 1, Activation::Linear, &mut n);
    let mut config = Config::new(6);
    config.top_ratio_to_recombine = r(0.0);
    config.permutation_prob_f = PermutationProbF::Uniform(r(0.0));
    let mut pop = Population::new(config, &nn, 3, &mut n).ok().unwrap();
    pop.update_fitnesses(&reals(&[5.0, 1.0, 9.0, 3.0, 0.0, 7.0]), &n).unwrap();
    let before: Vec<Vec<Cell>> = (0..6).map(|j| column_of(&pop, j)).collect();
    assert_eq!(pop.select_elite(&n), Ok(vec![]));
    assert_eq!(pop.evolve(&mut n), Ok(()));
    for j in 0..6 {
        assert_eq!(column_of(&pop, j), before[j]);
    }
}

fn run_of(seed: u64, draws: u64) -> Vec<Vec<Cell>> {
    let mut n = floats(draws);
    let nn = ANN::new(2, 1, Activation::Tanh, &mut n);
    let mut pop = Population::new(Config::new(12), &nn, seed, &mut n).ok().unwrap();
    for g in 0..5 {
        let fits: Vec<f64> = (0..12).map(|j| ((j * 5 + g) % 12) as f64).collect();
        pop.update_fitnesses(&reals(&fits), &n).unwrap();
        pop.evolve(&mut n).unwrap();
    }
    (0..12).map(|j| column_of(&pop, j)).collect()
}

#[test]
fn one_seed_gives_one_run() {
    assert_eq!(run_of(5, 40), run_of(5, 40));
    assert_ne!(run_of(5, 40), run_of(6, 40));
    assert_ne!(run_of(5, 40), run_of(5, 41));
}

#[test]
fn xor() {
    let mut n = floats(37);
    let config = Config::new(100);
    let env = XorEnvironment { n: floats(0) };
    let activation = Activation::Relu;
    let mut nn = ANN::new(2, 1, activation, &mut n);
    nn.add_layer(2, Activation::Relu, &mut n);
    let mut cosyne = Cosyne::new(env, nn, config, n, 7).ok().unwrap();
    for _ in 0..100 {
        assert_eq!(cosyne.evolve(), Ok(()));
    }
    let champion = cosyne.champion();
    println!("champion: {:?}", champion);
    assert!(f(champion.1) > 3.9);
}
