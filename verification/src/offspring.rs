use vstd::prelude::*;
use crate::config::Config;
use crate::layer::{is_spread, spread};
use crate::numerics::{
    is_from_count, is_normal_draw, is_product, is_quotient, is_round_count, is_sum, is_unit_draw,
    Numerics,
};
use crate::population::{grid_of, is_grid, row_of};
use crate::scalar::Real;
use crate::subpopulation::Cell;

verus! {

pub open spec fn spread_share_spec() -> Real {
    Real { bits: 0x3FD5_1EB8_51EB_851F }
}

pub open spec fn noise_deviation_spec() -> Real {
    Real { bits: 0x3FD9_9999_9999_999A }
}

/// Thirty-three hundredths: the share of the genes that is the standard
/// deviation of the points of crossover.
#[verifier::when_used_as_spec(spread_share_spec)]
pub fn spread_share() -> (r: Real)
    ensures
        r == spread_share_spec(),
{
    Real::from_bits(0x3FD5_1EB8_51EB_851F)
}

/// Four tenths: the standard deviation of the noise of a perturbation.
#[verifier::when_used_as_spec(noise_deviation_spec)]
pub fn noise_deviation() -> (r: Real)
    ensures
        r == noise_deviation_spec(),
{
    Real::from_bits(0x3FD9_9999_9999_999A)
}

/// A column that has the first `point` cells of `donor` and the rest of
/// `keeper`.
pub open spec fn crossed(keeper: Seq<Cell>, donor: Seq<Cell>, point: int) -> Seq<Cell> {
    donor.subrange(0, point) + keeper.subrange(point, keeper.len() as int)
}

/// The grid with the first `point` cells of two columns exchanged, value
/// and fitness. A column exchanged with itself stays.
pub open spec fn exchange(grid: Seq<Seq<Cell>>, left: int, right: int, point: int) -> Seq<Seq<Cell>> {
    if left == right {
        grid
    } else {
        grid.update(left, crossed(grid[left], grid[right], point)).update(
            right,
            crossed(grid[right], grid[left], point),
        )
    }
}

/// The cells of a row are the same as before, each as often.
pub open spec fn rows_rearranged(before: Seq<Seq<Cell>>, after: Seq<Seq<Cell>>, inner: nat) -> bool {
    forall|i: int|
        0 <= i < inner ==> (#[trigger] row_of(after, i)).to_multiset() == row_of(
            before,
            i,
        ).to_multiset()
}

/// `y` is the value that mutation gives in place of `value`. A draw from
/// the unit interval decides how: where it falls below the probability of
/// perturbation, `y` is `value` perturbed by a normal draw around zero;
/// otherwise it is a replacement from one more draw from the unit interval.
/// Either is scaled by the strength of mutation, with the arithmetic of the
/// supplier as it stood then.
pub open spec fn is_mutation<N: Numerics>(config: Config, value: Real, y: Real) -> bool {
    exists|kind: Real| #[trigger]
        is_unit_draw::<N>(kind) && (if kind.less(config.perturb_prob) {
            exists|supplier: N, noise: Real|
                is_normal_draw::<N>(Real::zero(), noise_deviation_spec(), noise)
                    && #[trigger] is_perturbed(
                    &supplier,
                    value,
                    noise,
                    config.mutation_strength,
                    y,
                )
        } else {
            exists|supplier: N, drawn: Real|
                is_unit_draw::<N>(drawn) && #[trigger] is_replacement(
                    &supplier,
                    drawn,
                    config.mutation_strength,
                    y,
                )
        })
}

/// `after` is what mutation makes of the cell. A draw from the unit
/// interval decides whether the cell mutates: where it falls below the
/// probability of mutation, the cell loses its fitness and gets the value
/// that mutation gives in place of its own; otherwise it stays as it is.
pub open spec fn cell_mutated<N: Numerics>(config: Config, cell: Cell, after: Cell) -> bool {
    exists|chance: Real| #[trigger]
        is_unit_draw::<N>(chance) && (if chance.less(config.mutation_prob) {
            after.fitness == Real::lowest() && is_mutation::<N>(config, cell.value, after.value)
        } else {
            after == cell
        })
}

/// Every cell of `after` is what mutation makes of the cell in its place in
/// `before`.
pub open spec fn mutated_from<N: Numerics>(
    config: Config,
    before: Seq<Seq<Cell>>,
    after: Seq<Seq<Cell>>,
) -> bool {
    &&& after.len() == before.len()
    &&& forall|k: int| 0 <= k < before.len() ==> (#[trigger] after[k]).len() == before[k].len()
    &&& forall|k: int, i: int|
        0 <= k < before.len() && 0 <= i < before[k].len() ==> cell_mutated::<N>(
            config,
            before[k][i],
            #[trigger] after[k][i],
        )
}

/// Exchanging two cells of a sequence keeps its cells.
pub proof fn lemma_exchange_cells(row: Seq<Cell>, a: int, b: int)
    requires
        0 <= a < row.len(),
        0 <= b < row.len(),
    ensures
        row.update(a, row[b]).update(b, row[a]).to_multiset() == row.to_multiset(),
{
    let halfway = row.update(a, row[b]);
    vstd::seq_lib::to_multiset_update(row, a, row[b]);
    vstd::seq_lib::to_multiset_update(halfway, b, row[a]);
    if a == b {
        assert(row.update(a, row[b]).update(b, row[a]) =~= row);
    } else {
        assert(halfway[b] == row[b]);
        assert(row.to_multiset().count(row[a]) > 0) by {
            vstd::seq_lib::to_multiset_contains(row, row[a]);
            assert(row.contains(row[a]));
        }
        assert(row.to_multiset().insert(row[b]).remove(row[a]).insert(row[a]).remove(row[b])
            =~= row.to_multiset());
    }
}

/// The cells of `source`, in a vector of their own.
pub fn copy_cells(source: &Vec<Cell>) -> (out: Vec<Cell>)
    ensures
        out@ == source@,
{
    let mut out: Vec<Cell> = Vec::new();
    let mut i: usize = 0;
    while i < source.len()
        invariant
            i <= source@.len(),
            out@ == source@.subrange(0, i as int),
        decreases source@.len() - i,
    {
        out.push(source[i]);
        i += 1;
    }
    out
}

/// Single-point crossover of two columns: they exchange their first `point`
/// cells, value and fitness. Every row keeps its cells.
pub fn exchange_prefix(columns: &mut Vec<Vec<Cell>>, left: usize, right: usize, point: usize, inner: usize)
    requires
        is_grid(grid_of(old(columns)@), old(columns)@.len() as nat, inner as nat),
        left < old(columns)@.len(),
        right < old(columns)@.len(),
        point <= inner,
    ensures
        final(columns)@.len() == old(columns)@.len(),
        is_grid(grid_of(final(columns)@), old(columns)@.len() as nat, inner as nat),
        forall|j: int|
            0 <= j < old(columns)@.len() && j != left && j != right ==> (#[trigger] final(columns)@[j])@
                == old(columns)@[j]@,
        left != right ==> final(columns)@[left as int]@ == crossed(
            old(columns)@[left as int]@,
            old(columns)@[right as int]@,
            point as int,
        ),
        left != right ==> final(columns)@[right as int]@ == crossed(
            old(columns)@[right as int]@,
            old(columns)@[left as int]@,
            point as int,
        ),
        left == right ==> final(columns)@[left as int]@ == old(columns)@[left as int]@,
        grid_of(final(columns)@) == exchange(
            grid_of(old(columns)@),
            left as int,
            right as int,
            point as int,
        ),
        rows_rearranged(grid_of(old(columns)@), grid_of(final(columns)@), inner as nat),
{
    let ghost before = columns@;
    assert(grid_of(before)[left as int].len() == inner);
    assert(grid_of(before)[right as int].len() == inner);
    if left == right {
        return ;
    }
    let mut first: Vec<Cell> = copy_cells(&columns[left]);
    let mut second: Vec<Cell> = copy_cells(&columns[right]);
    let mut i: usize = 0;
    while i < point
        invariant
            i <= point <= inner,
            first@.len() == inner,
            second@.len() == inner,
            before[left as int]@.len() == inner,
            before[right as int]@.len() == inner,
            first@ == crossed(before[left as int]@, before[right as int]@, i as int),
            second@ == crossed(before[right as int]@, before[left as int]@, i as int),
        decreases point - i,
    {
        let from_left: Cell = first[i];
        let from_right: Cell = second[i];
        first.set(i, from_right);
        second.set(i, from_left);
        i += 1;
    }
    columns.set(left, first);
    columns.set(right, second);
    proof {
        let after = columns@;
        assert(grid_of(after) =~= exchange(
            grid_of(before),
            left as int,
            right as int,
            point as int,
        ));
        assert forall|j: int| 0 <= j < before.len() implies (#[trigger] grid_of(after)[j]).len()
            == inner by {
            assert(grid_of(before)[j].len() == inner);
        }
        assert forall|r: int| 0 <= r < inner implies (#[trigger] row_of(grid_of(after), r)).to_multiset()
            == row_of(grid_of(before), r).to_multiset() by {
            let was = row_of(grid_of(before), r);
            let now = row_of(grid_of(after), r);
            if r < point {
                lemma_exchange_cells(was, left as int, right as int);
                assert(now =~= was.update(left as int, was[right as int]).update(
                    right as int,
                    was[left as int],
                ));
            } else {
                assert(now =~= was);
            }
        }
    }
}

/// `point` is where the draw `cross_p` puts a crossover of columns of `n`
/// cells, `limit` being `n` as a real: nowhere if the draw is below zero,
/// after the last gene if it is above the limit, and otherwise at the count
/// nearest to it that the supplier gives, `n` at most.
pub open spec fn is_crossover_point<N: Numerics>(
    numerics: &N,
    cross_p: Real,
    limit: Real,
    n: usize,
    point: usize,
) -> bool {
    if cross_p.less(Real::zero()) {
        point == 0
    } else if limit.less(cross_p) {
        point == n
    } else {
        exists|rounded: usize| #[trigger]
            is_round_count(numerics, cross_p, rounded) && point == if rounded > n {
                n
            } else {
                rounded
            }
    }
}

/// The number of genes as a real, half of it, and its share `spread_share`,
/// as the supplier gives them.
pub open spec fn is_crossover_spread<N: Numerics>(
    numerics: &N,
    n: usize,
    genes: Real,
    mean: Real,
    deviation: Real,
) -> bool {
    &&& is_from_count(numerics, n, genes)
    &&& is_quotient(numerics, genes, Real::two(), mean)
    &&& is_product(numerics, genes, spread_share_spec(), deviation)
}

/// `point` is a point of crossover that a draw gave: a normal draw around
/// `mean` with the standard deviation `deviation`, put to a point with the
/// arithmetic of the supplier as it stood then.
pub open spec fn is_drawn_point<N: Numerics>(
    genes: Real,
    mean: Real,
    deviation: Real,
    n: usize,
    point: usize,
) -> bool {
    exists|supplier: N, cross_p: Real|
        is_normal_draw::<N>(mean, deviation, cross_p) && #[trigger] is_crossover_point(
            &supplier,
            cross_p,
            genes,
            n,
            point,
        )
}

/// Where two columns are crossed, from a draw: nowhere below zero, after
/// the last gene above the number of genes, and otherwise at the count
/// nearest to the draw, the number of genes at most.
pub fn crossover_point<N: Numerics>(cross_p: Real, limit: Real, n: usize, numerics: &N) -> (point:
    usize)
    ensures
        point <= n,
        is_crossover_point(numerics, cross_p, limit, n, point),
{
    if cross_p.lt(&Real::zero()) {
        0
    } else if cross_p.gt(&limit) {
        n
    } else {
        let rounded: usize = numerics.round_count(cross_p);
        assert(is_round_count(numerics, cross_p, rounded));
        if rounded > n {
            n
        } else {
            rounded
        }
    }
}

/// `y` is the value and the noise scaled by the strength.
pub open spec fn is_perturbed<N: Numerics>(
    numerics: &N,
    value: Real,
    noise: Real,
    strength: Real,
    y: Real,
) -> bool {
    exists|scaled: Real| #[trigger]
        is_product(numerics, noise, strength, scaled) && is_sum(numerics, value, scaled, y)
}

/// `y` is the spread of the draw, scaled by the strength.
pub open spec fn is_replacement<N: Numerics>(
    numerics: &N,
    drawn: Real,
    strength: Real,
    y: Real,
) -> bool {
    exists|fresh: Real| #[trigger]
        is_spread(numerics, drawn, fresh) && is_product(numerics, fresh, strength, y)
}

/// A value perturbed by noise: the value and the noise scaled by the
/// strength of mutation.
pub fn perturbed<N: Numerics>(value: Real, noise: Real, strength: Real, numerics: &N) -> (y: Real)
    ensures
        is_perturbed(numerics, value, noise, strength, y),
{
    let scaled: Real = numerics.product(noise, strength);
    let y: Real = numerics.sum(value, scaled);
    assert(is_product(numerics, noise, strength, scaled));
    y
}

/// A value to replace another, from a draw from the unit interval: the
/// spread of the draw, scaled by the strength of mutation.
pub fn replacement<N: Numerics>(drawn: Real, strength: Real, numerics: &N) -> (y: Real)
    ensures
        is_replacement(numerics, drawn, strength, y),
{
    let fresh: Real = spread(drawn, numerics);
    let y: Real = numerics.product(fresh, strength);
    assert(is_spread(numerics, drawn, fresh));
    y
}

/// Around what, and how widely, the points of crossover are drawn for
/// columns of `genes` cells: the number of genes as a real, half of it as
/// the mean, and its share `spread_share` as the standard deviation.
pub fn crossover_spread<N: Numerics>(genes: usize, numerics: &N) -> (r: (Real, Real, Real))
    ensures
        is_crossover_spread(numerics, genes, r.0, r.1, r.2),
{
    let whole: Real = numerics.from_count(genes);
    let mean: Real = numerics.quotient(whole, Real::two());
    let deviation: Real = numerics.product(whole, spread_share());
    (whole, mean, deviation)
}

/// Mutates one cell of an offspring, or leaves it.
///
/// A first draw from the unit interval is held against the probability of
/// mutation. Where it falls below, the cell loses its fitness and gets a
/// new value: a second draw is held against the probability of
/// perturbation, and the new value is the old one and a normal draw scaled
/// by the strength where it falls below, and otherwise a draw between minus
/// one and one scaled by the strength.
pub fn mutate_cell<N: Numerics>(config: &Config, cell: Cell, numerics: &mut N) -> (after: Cell)
    ensures
        cell_mutated::<N>(*config, cell, after),
{
    let chance: Real = numerics.draw_unit();
    assert(is_unit_draw::<N>(chance));
    if !chance.lt(&config.mutation_prob) {
        return cell;
    }
    let kind: Real = numerics.draw_unit();
    assert(is_unit_draw::<N>(kind));
    let value: Real = if kind.lt(&config.perturb_prob) {
        let noise: Real = numerics.draw_normal(Real::zero(), noise_deviation());
        assert(is_normal_draw::<N>(Real::zero(), noise_deviation_spec(), noise));
        let value: Real = perturbed(cell.value, noise, config.mutation_strength, &*numerics);
        assert(is_perturbed(&*numerics, cell.value, noise, config.mutation_strength, value));
        value
    } else {
        let drawn: Real = numerics.draw_unit();
        assert(is_unit_draw::<N>(drawn));
        let value: Real = replacement(drawn, config.mutation_strength, &*numerics);
        assert(is_replacement(&*numerics, drawn, config.mutation_strength, value));
        value
    };
    assert(is_mutation::<N>(*config, cell.value, value));
    Cell { value, fitness: Real::lowest() }
}

/// Mutates the offspring, cell by cell: every cell becomes what
/// `mutate_cell` makes of it.
pub fn mutate<N: Numerics>(config: &Config, o: &mut Vec<Vec<Cell>>, numerics: &mut N)
    ensures
        mutated_from::<N>(*config, grid_of(old(o)@), grid_of(final(o)@)),
        final(o)@.len() == old(o)@.len(),
{
    let ghost before = o@;
    let ghost strength = *config;
    let mut k: usize = 0;
    while k < o.len()
        invariant
            strength == *config,
            k <= before.len(),
            o@.len() == before.len(),
            forall|c: int| 0 <= c < before.len() ==> (#[trigger] o@[c])@.len() == before[c]@.len(),
            forall|c: int| k <= c < before.len() ==> (#[trigger] o@[c])@ == before[c]@,
            forall|c: int, i: int|
                0 <= c < k && 0 <= i < before[c]@.len() ==> cell_mutated::<N>(
                    strength,
                    before[c]@[i],
                    #[trigger] o@[c]@[i],
                ),
        decreases before.len() - k,
    {
        let mut fresh: Vec<Cell> = Vec::new();
        let mut i: usize = 0;
        while i < o[k].len()
            invariant
                strength == *config,
                k < o@.len(),
                i <= o@[k as int]@.len(),
                fresh@.len() == i,
                forall|c: int|
                    0 <= c < i ==> cell_mutated::<N>(
                        strength,
                        o@[k as int]@[c],
                        #[trigger] fresh@[c],
                    ),
            decreases o@[k as int]@.len() - i,
        {
            let cell: Cell = o[k][i];
            fresh.push(mutate_cell(config, cell, numerics));
            i += 1;
        }
        let ghost earlier = o@;
        o.set(k, fresh);
        proof {
            assert forall|c: int, i: int|
                0 <= c < k + 1 && 0 <= i < before[c]@.len() implies cell_mutated::<N>(
                strength,
                before[c]@[i],
                #[trigger] o@[c]@[i],
            ) by {
                if c != k {
                    assert(o@[c] == earlier[c]);
                    assert(cell_mutated::<N>(strength, before[c]@[i], earlier[c]@[i]));
                } else {
                    assert(earlier[k as int]@ == before[k as int]@);
                    assert(cell_mutated::<N>(strength, earlier[k as int]@[i], fresh@[i]));
                }
            }
        }
        k += 1;
    }
    proof {
        assert forall|c: int, i: int|
            0 <= c < before.len() && 0 <= i < grid_of(before)[c].len() implies cell_mutated::<N>(
            strength,
            grid_of(before)[c][i],
            #[trigger] grid_of(o@)[c][i],
        ) by {
            assert(cell_mutated::<N>(strength, before[c]@[i], o@[c]@[i]));
        }
    }
}

} // verus!
