use vstd::prelude::*;
use vstd::multiset::Multiset;
use crate::error::CosyneError;
use crate::numerics::{is_unit_draw, Numerics};
use crate::permutation_prob_f::PermutationProbF;
use crate::ranking::{has_entry, is_ranking, ranks_before};
use crate::scalar::Real;

verus! {

/// One candidate value of a weight, with the running mean of the fitness of
/// the networks that used it.
#[derive(Clone, Copy, Debug, PartialEq, Eq, Structural)]
pub struct Cell {
    pub value: Real,
    pub fitness: Real,
}

/// Whether the cell's fitness ranks below the threshold.
pub open spec fn below(cell: Cell, threshold: Real) -> bool {
    cell.fitness.key() < threshold.key()
}

/// How many cells of the sub-population rank below the threshold.
pub open spec fn below_count(row: Seq<Cell>, threshold: Real) -> nat
    decreases row.len(),
{
    if row.len() == 0 {
        0
    } else {
        below_count(row.drop_last(), threshold) + if below(row.last(), threshold) {
            1nat
        } else {
            0nat
        }
    }
}

/// For each cell, whether it survives: it does not rank below the threshold.
pub open spec fn survivors(row: Seq<Cell>, threshold: Real) -> Seq<bool> {
    Seq::new(row.len(), |j: int| !below(row[j], threshold))
}

/// The sub-population with every cell below the threshold replaced by the
/// next unused offspring, in order.
pub open spec fn replaced_row(row: Seq<Cell>, offspring: Seq<Cell>, threshold: Real) -> Seq<Cell> {
    Seq::new(
        row.len(),
        |j: int|
            if below(row[j], threshold) {
                offspring[below_count(row.subrange(0, j), threshold) as int]
            } else {
                row[j]
            },
    )
}

/// The values of the cells that are kept, each as often as it occurs.
pub open spec fn kept_values(row: Seq<Cell>, keep: Seq<bool>) -> Multiset<Real>
    decreases row.len(),
{
    if row.len() == 0 {
        Multiset::empty()
    } else {
        let rest = kept_values(row.drop_last(), keep.drop_last());
        if keep.last() {
            rest.insert(row.last().value)
        } else {
            rest
        }
    }
}

/// The marked indices rise, and each is an index of the sub-population.
pub open spec fn marks_in(marked: Seq<usize>, len: nat) -> bool {
    &&& forall|a: int, b: int| 0 <= a < b < marked.len() ==> marked[a] < marked[b]
    &&& forall|a: int| 0 <= a < marked.len() ==> (#[trigger] marked[a]) < len
}

/// Every marked cell is kept.
pub open spec fn marks_kept(marked: Seq<usize>, keep: Seq<bool>) -> bool {
    forall|a: int|
        0 <= a < marked.len() ==> (#[trigger] marked[a]) < keep.len() && keep[marked[a] as int]
}

/// The marked index from which the cell at the `s`-th marked index takes its
/// value: the one before it, and for the first the last.
pub open spec fn donor(marked: Seq<usize>, s: int) -> int {
    if s == 0 {
        marked[marked.len() - 1] as int
    } else {
        marked[s - 1] as int
    }
}

/// `after` is `row` with the values of the marked cells rotated by one
/// place in marked order. Fitnesses stay, and cells not marked stay.
pub open spec fn rotated(row: Seq<Cell>, marked: Seq<usize>, after: Seq<Cell>) -> bool {
    &&& after.len() == row.len()
    &&& forall|j: int| 0 <= j < row.len() ==> (#[trigger] after[j]).fitness == row[j].fitness
    &&& forall|j: int|
        0 <= j < row.len() && (forall|a: int| 0 <= a < marked.len() ==> marked[a] != j)
            ==> #[trigger] after[j] == row[j]
    &&& forall|s: int|
        0 <= s < marked.len() ==> after[(#[trigger] marked[s]) as int].value == row[donor(
            marked,
            s,
        )].value
}

/// The first cells have no more below the threshold than all of them.
pub proof fn lemma_below_prefix(row: Seq<Cell>, threshold: Real, j: int)
    requires
        0 <= j <= row.len(),
    ensures
        below_count(row.subrange(0, j), threshold) <= below_count(row, threshold),
        j < row.len() ==> below_count(row.subrange(0, j + 1), threshold) == below_count(
            row.subrange(0, j),
            threshold,
        ) + if below(row[j], threshold) {
            1nat
        } else {
            0nat
        },
        j < row.len() && below(row[j], threshold) ==> below_count(row.subrange(0, j), threshold)
            < below_count(row, threshold),
    decreases row.len(),
{
    if j == row.len() {
        assert(row.subrange(0, j) =~= row);
    } else {
        assert(row.subrange(0, j + 1).drop_last() =~= row.subrange(0, j));
        assert(row.drop_last().subrange(0, j) =~= row.subrange(0, j));
        lemma_below_prefix(row.drop_last(), threshold, j);
        if j == row.len() - 1 {
            assert(row.drop_last().subrange(0, j) =~= row.drop_last());
        }
    }
}

/// What a change of one cell does to the kept values: nothing where the
/// cell is not kept, and where it is, the new value takes the old one's place.
pub proof fn lemma_update_kept(row: Seq<Cell>, keep: Seq<bool>, a: int, cell: Cell)
    requires
        0 <= a < row.len(),
        keep.len() == row.len(),
    ensures
        !keep[a] ==> kept_values(row.update(a, cell), keep) == kept_values(row, keep),
        keep[a] ==> kept_values(row, keep).count(row[a].value) > 0,
        keep[a] ==> kept_values(row.update(a, cell), keep) == kept_values(row, keep).remove(
            row[a].value,
        ).insert(cell.value),
    decreases row.len(),
{
    let changed = row.update(a, cell);
    if a == row.len() - 1 {
        assert(changed.drop_last() =~= row.drop_last());
        if keep[a] {
            assert(kept_values(changed, keep) =~= kept_values(row, keep).remove(
                row[a].value,
            ).insert(cell.value));
        }
    } else {
        assert(changed.drop_last() =~= row.drop_last().update(a, cell));
        lemma_update_kept(row.drop_last(), keep.drop_last(), a, cell);
        if keep[a] {
            assert(kept_values(changed, keep) =~= kept_values(row, keep).remove(
                row[a].value,
            ).insert(cell.value));
        }
    }
}

/// Exchanging the values of two kept cells keeps the kept values.
pub proof fn lemma_exchange_kept(row: Seq<Cell>, keep: Seq<bool>, a: int, b: int)
    requires
        0 <= a < row.len(),
        0 <= b < row.len(),
        a != b,
        keep.len() == row.len(),
        keep[a],
        keep[b],
    ensures
        kept_values(
            row.update(a, Cell { value: row[b].value, fitness: row[a].fitness }).update(
                b,
                Cell { value: row[a].value, fitness: row[b].fitness },
            ),
            keep,
        ) == kept_values(row, keep),
{
    let first = Cell { value: row[b].value, fitness: row[a].fitness };
    let second = Cell { value: row[a].value, fitness: row[b].fitness };
    let halfway = row.update(a, first);
    lemma_update_kept(row, keep, a, first);
    lemma_update_kept(halfway, keep, b, second);
    assert(halfway[b] == row[b]);
    assert(kept_values(halfway.update(b, second), keep) =~= kept_values(row, keep));
}

/// Sub-populations that agree in every kept cell's value have the same
/// kept values.
pub proof fn lemma_kept_agree(row: Seq<Cell>, other: Seq<Cell>, keep: Seq<bool>)
    requires
        row.len() == other.len(),
        keep.len() == row.len(),
        forall|j: int| 0 <= j < row.len() && keep[j] ==> (#[trigger] row[j]).value == other[j].value,
    ensures
        kept_values(row, keep) == kept_values(other, keep),
    decreases row.len(),
{
    if row.len() > 0 {
        assert forall|j: int| 0 <= j < row.len() - 1 && keep.drop_last()[j] implies (
        #[trigger] row.drop_last()[j]).value == other.drop_last()[j].value by {
            assert(row[j].value == other[j].value);
        }
        lemma_kept_agree(row.drop_last(), other.drop_last(), keep.drop_last());
        if keep.last() {
            assert(row[row.len() - 1].value == other[row.len() - 1].value);
        }
    }
}

/// How many cells rank below the threshold.
pub fn count_below(row: &Vec<Cell>, threshold: Real) -> (count: usize)
    ensures
        count == below_count(row@, threshold),
{
    let mut count: usize = 0;
    let mut j: usize = 0;
    while j < row.len()
        invariant
            j <= row@.len(),
            count == below_count(row@.subrange(0, j as int), threshold),
            count <= j,
        decreases row@.len() - j,
    {
        proof {
            lemma_below_prefix(row@, threshold, j as int);
        }
        if row[j].fitness.precedes(&threshold) {
            count += 1;
        }
        j += 1;
    }
    assert(row@.subrange(0, j as int) =~= row@);
    count
}

/// Replaces every cell whose fitness ranks below the threshold by the next
/// unused offspring, in order, and says how many it replaced.
///
/// Refused with `Sizing`, and nothing changed, exactly where more cells rank
/// below the threshold than there are offspring.
pub fn replace_below(row: &mut Vec<Cell>, offspring: &Vec<Cell>, threshold: Real) -> (r: Result<
    usize,
    CosyneError,
>)
    ensures
        r is Ok <==> below_count(old(row)@, threshold) <= offspring@.len(),
        r matches Ok(count) ==> count == below_count(old(row)@, threshold) && final(row)@
            == replaced_row(old(row)@, offspring@, threshold),
        r matches Err(e) ==> e == CosyneError::Sizing && final(row)@ == old(row)@,
{
    let count: usize = count_below(row, threshold);
    if count > offspring.len() {
        return Err(CosyneError::Sizing);
    }
    let ghost before = row@;
    let mut offspring_idx: usize = 0;
    let mut j: usize = 0;
    while j < row.len()
        invariant
            j <= before.len(),
            row@.len() == before.len(),
            count == below_count(before, threshold),
            count <= offspring@.len(),
            offspring_idx == below_count(before.subrange(0, j as int), threshold),
            forall|k: int| 0 <= k < j ==> #[trigger] row@[k] == replaced_row(
                before,
                offspring@,
                threshold,
            )[k],
            forall|k: int| j <= k < before.len() ==> #[trigger] row@[k] == before[k],
        decreases before.len() - j,
    {
        proof {
            lemma_below_prefix(before, threshold, j as int);
        }
        if row[j].fitness.precedes(&threshold) {
            row.set(j, offspring[offspring_idx]);
            offspring_idx += 1;
        }
        j += 1;
    }
    Ok(count)
}

/// Rotates the values of the marked cells by one place in marked order:
/// each takes the value of the marked cell before it, and the first that of
/// the last. Fitnesses stay where they are, and so does every cell that is
/// not marked; whatever set of cells holds all the marked ones keeps its
/// values.
pub fn rotate_values(row: &mut Vec<Cell>, marked: &Vec<usize>)
    requires
        marks_in(marked@, old(row)@.len()),
    ensures
        rotated(old(row)@, marked@, final(row)@),
        forall|keep: Seq<bool>|
            keep.len() == old(row)@.len() && marks_kept(marked@, keep) ==> #[trigger] kept_values(
                final(row)@,
                keep,
            ) == kept_values(old(row)@, keep),
{
    if marked.len() == 0 {
        return ;
    }
    let ghost before = row@;
    let head: usize = marked[0];
    let mut s: usize = 1;
    while s < marked.len()
        invariant
            marks_in(marked@, before.len()),
            marked@.len() > 0,
            head == marked@[0],
            1 <= s <= marked@.len(),
            row@.len() == before.len(),
            forall|j: int| 0 <= j < before.len() ==> (#[trigger] row@[j]).fitness == before[j].fitness,
            forall|j: int|
                0 <= j < before.len() && (forall|a: int| 0 <= a < marked@.len() ==> marked@[a] != j)
                    ==> #[trigger] row@[j] == before[j],
            row@[head as int].value == before[marked@[s - 1] as int].value,
            forall|u: int|
                1 <= u < s ==> row@[(#[trigger] marked@[u]) as int].value == before[marked@[u
                    - 1] as int].value,
            forall|u: int| s <= u < marked@.len() ==> row@[(#[trigger] marked@[u]) as int] == before[marked@[u] as int],
            forall|keep: Seq<bool>|
                keep.len() == before.len() && marks_kept(marked@, keep) ==> #[trigger] kept_values(
                    row@,
                    keep,
                ) == kept_values(before, keep),
        decreases marked@.len() - s,
    {
        let at: usize = marked[s];
        let first: Cell = row[head];
        let other: Cell = row[at];
        let ghost earlier = row@;
        row.set(head, Cell { value: other.value, fitness: first.fitness });
        row.set(at, Cell { value: first.value, fitness: other.fitness });
        proof {
            let now = row@;
            assert(now =~= earlier.update(
                head as int,
                Cell { value: earlier[at as int].value, fitness: earlier[head as int].fitness },
            ).update(
                at as int,
                Cell { value: earlier[head as int].value, fitness: earlier[at as int].fitness },
            ));
            assert forall|keep: Seq<bool>|
                keep.len() == before.len() && marks_kept(marked@, keep) implies #[trigger] kept_values(
                now,
                keep,
            ) == kept_values(before, keep) by {
                lemma_exchange_kept(earlier, keep, head as int, at as int);
            }
            assert forall|u: int| 1 <= u < s + 1 implies now[(#[trigger] marked@[u]) as int].value
                == before[marked@[u - 1] as int].value by {
            }
            assert forall|u: int| s + 1 <= u < marked@.len() implies now[(
            #[trigger] marked@[u]) as int] == before[marked@[u] as int] by {
            }
            assert forall|j: int|
                0 <= j < before.len() && (forall|a: int|
                    0 <= a < marked@.len() ==> marked@[a] != j) implies #[trigger] now[j]
                == before[j] by {
            }
        }
        s += 1;
    }
    proof {
        assert forall|t: int| 0 <= t < marked@.len() implies row@[(#[trigger] marked@[t]) as int].value
            == before[donor(marked@, t)].value by {
        }
    }
}

/// The fitnesses of the cells, in order.
pub open spec fn fitnesses_of(row: Seq<Cell>) -> Seq<Real> {
    Seq::new(row.len(), |j: int| row[j].fitness)
}

/// The values of the cells, in order.
pub open spec fn values_of(row: Seq<Cell>) -> Seq<Real> {
    Seq::new(row.len(), |j: int| row[j].value)
}

/// What one step of replacement and permutation makes of a sub-population.
///
/// Every cell below the threshold is replaced by the next unused offspring.
/// Then the cells that were not below it are marked as the policy and the
/// draws decide, each against the fitnesses of the row as it stands after
/// the replacement, and the values of the marked cells are rotated by one
/// place. So every replaced cell is its offspring, every other cell keeps
/// its fitness, and the values of those other cells are the same as
/// before, each as often.
pub open spec fn renewed<N: Numerics>(
    policy: PermutationProbF,
    row: Seq<Cell>,
    offspring: Seq<Cell>,
    threshold: Real,
    after: Seq<Cell>,
) -> bool {
    &&& after.len() == row.len()
    &&& exists|marked: Seq<usize>|
        marks_in(marked, row.len()) && marks_kept(marked, survivors(row, threshold))
            && marked_upto::<N>(
            policy,
            replaced_row(row, offspring, threshold),
            survivors(row, threshold),
            marked,
            row.len() as int,
        ) && #[trigger] rotated(replaced_row(row, offspring, threshold), marked, after)
    &&& forall|j: int|
        0 <= j < row.len() && below(row[j], threshold) ==> #[trigger] after[j] == replaced_row(
            row,
            offspring,
            threshold,
        )[j]
    &&& forall|j: int|
        0 <= j < row.len() && !below(row[j], threshold) ==> (#[trigger] after[j]).fitness
            == row[j].fitness
    &&& kept_values(after, survivors(row, threshold)) == kept_values(
        row,
        survivors(row, threshold),
    )
}

/// The fitnesses of the cells, in order.
pub fn fitnesses(row: &Vec<Cell>) -> (fits: Vec<Real>)
    ensures
        fits@ == fitnesses_of(row@),
{
    let mut fits: Vec<Real> = Vec::new();
    let mut j: usize = 0;
    while j < row.len()
        invariant
            j <= row@.len(),
            fits@.len() == j,
            forall|k: int| 0 <= k < j ==> #[trigger] fits@[k] == row@[k].fitness,
        decreases row@.len() - j,
    {
        fits.push(row[j].fitness);
        j += 1;
    }
    fits
}

/// The values of the cells, in order.
pub fn values(row: &Vec<Cell>) -> (out: Vec<Real>)
    ensures
        out@ == values_of(row@),
{
    let mut out: Vec<Real> = Vec::new();
    let mut j: usize = 0;
    while j < row.len()
        invariant
            j <= row@.len(),
            out@.len() == j,
            forall|k: int| 0 <= k < j ==> #[trigger] out@[k] == row@[k].value,
        decreases row@.len() - j,
    {
        out.push(row[j].value);
        j += 1;
    }
    out
}

/// For each cell, whether it survives the threshold.
pub fn survivor_flags(row: &Vec<Cell>, threshold: Real) -> (keep: Vec<bool>)
    ensures
        keep@ == survivors(row@, threshold),
{
    let mut keep: Vec<bool> = Vec::new();
    let mut j: usize = 0;
    while j < row.len()
        invariant
            j <= row@.len(),
            keep@.len() == j,
            forall|k: int| 0 <= k < j ==> #[trigger] keep@[k] == !below(row@[k], threshold),
        decreases row@.len() - j,
    {
        keep.push(!row[j].fitness.precedes(&threshold));
        j += 1;
    }
    keep
}

/// Whether a cell of the fitness `weight_fit` is marked, as a draw decides:
/// it is marked where a draw from the unit interval falls below the
/// probability that the policy gives its fitness among the fitnesses `fits`,
/// with the arithmetic of the supplier as it stood then.
pub open spec fn is_mark<N: Numerics>(
    policy: PermutationProbF,
    fits: Seq<Real>,
    weight_fit: Real,
    marked: bool,
) -> bool {
    exists|supplier: N, prob: Real, drawn: Real|
        #![trigger policy.is_probability(&supplier, fits, weight_fit, prob), drawn.less(prob)]
        policy.is_probability(&supplier, fits, weight_fit, prob) && is_unit_draw::<N>(drawn)
            && marked == drawn.less(prob)
}

/// The marks among the first `upto` cells are those that the draws decide:
/// a cell that is kept is marked or not as its draw falls, and a cell that
/// is not kept is not marked.
pub open spec fn marked_upto<N: Numerics>(
    policy: PermutationProbF,
    row: Seq<Cell>,
    keep: Seq<bool>,
    marked: Seq<usize>,
    upto: int,
) -> bool {
    forall|j: int|
        #![trigger has_entry(marked, j)]
        0 <= j < upto ==> (if keep[j] {
            is_mark::<N>(policy, fitnesses_of(row), row[j].fitness, has_entry(marked, j))
        } else {
            !has_entry(marked, j)
        })
}

/// The entries of a sequence with one more: those that it had, and the new
/// one.
pub proof fn lemma_entry_after_push(marked: Seq<usize>, x: usize, k: int)
    ensures
        has_entry(marked.push(x), k) == (has_entry(marked, k) || k == x),
{
    let longer = marked.push(x);
    if has_entry(marked, k) {
        let a = choose|a: int| 0 <= a < marked.len() && #[trigger] marked[a] == k;
        assert(longer[a] == k);
    }
    if k == x {
        assert(longer[marked.len() as int] == k);
    }
    if has_entry(longer, k) {
        let a = choose|a: int| 0 <= a < longer.len() && #[trigger] longer[a] == k;
        if a < marked.len() {
            assert(marked[a] == k);
        }
    }
}

/// Rising marks with the same entries agree in their first `upto` marks.
pub proof fn lemma_marks_agree(a: Seq<usize>, b: Seq<usize>, len: nat, upto: int)
    requires
        marks_in(a, len),
        marks_in(b, len),
        forall|j: int| 0 <= j < len ==> has_entry(a, j) == has_entry(b, j),
        0 <= upto <= a.len(),
    ensures
        upto <= b.len(),
        forall|k: int| 0 <= k < upto ==> a[k] == b[k],
    decreases upto,
{
    if upto > 0 {
        lemma_marks_agree(a, b, len, upto - 1);
        let k = upto - 1;
        assert(a[k] < len);
        assert(has_entry(a, a[k] as int));
        assert(has_entry(b, a[k] as int));
        let q = choose|q: int| 0 <= q < b.len() && #[trigger] b[q] == a[k] as int;
        if q < k {
            assert(a[q] == b[q]);
            assert(a[q] < a[k]);
        }
        assert(b[k] < len);
        assert(has_entry(b, b[k] as int));
        assert(has_entry(a, b[k] as int));
        let t = choose|t: int| 0 <= t < a.len() && #[trigger] a[t] == b[k] as int;
        if t < k {
            assert(a[t] == b[t]);
            assert(b[t] < b[k]);
        }
        if k < t {
            assert(a[k] < a[t]);
        }
        if k < q {
            assert(b[k] < b[q]);
        }
    }
}

/// Rising marks are determined by which cells are marked.
pub proof fn lemma_marks_determined(a: Seq<usize>, b: Seq<usize>, len: nat)
    requires
        marks_in(a, len),
        marks_in(b, len),
        forall|j: int| 0 <= j < len ==> has_entry(a, j) == has_entry(b, j),
    ensures
        a == b,
{
    lemma_marks_agree(a, b, len, a.len() as int);
    lemma_marks_agree(b, a, len, b.len() as int);
    assert(a =~= b);
}

/// Marks cells for permutation, in order. Only a cell that `keep` allows
/// can be marked: for each such cell the policy gives the probability of
/// its fitness among the fitnesses of all the cells, a draw from the unit
/// interval is taken, and the cell is marked where the draw falls below the
/// probability.
pub fn mark_survivors<N: Numerics>(
    row: &Vec<Cell>,
    keep: &Vec<bool>,
    policy: &PermutationProbF,
    numerics: &mut N,
) -> (marked: Vec<usize>)
    requires
        keep@.len() == row@.len(),
    ensures
        marks_in(marked@, row@.len()),
        marks_kept(marked@, keep@),
        marked_upto::<N>(*policy, row@, keep@, marked@, row@.len() as int),
        forall|other: Seq<usize>|
            #![trigger marks_in(other, row@.len())]
            marks_in(other, row@.len()) && (forall|j: int|
                0 <= j < row@.len() ==> has_entry(other, j) == has_entry(marked@, j)) ==> other
                == marked@,
{
    let sub_pop_fits: Vec<Real> = fitnesses(row);
    let mut marked: Vec<usize> = Vec::new();
    let mut j: usize = 0;
    while j < row.len()
        invariant
            j <= row@.len(),
            keep@.len() == row@.len(),
            sub_pop_fits@ == fitnesses_of(row@),
            marks_in(marked@, row@.len()),
            marks_kept(marked@, keep@),
            forall|a: int| 0 <= a < marked@.len() ==> (#[trigger] marked@[a]) < j,
            marked_upto::<N>(*policy, row@, keep@, marked@, j as int),
        decreases row@.len() - j,
    {
        let ghost earlier = marked@;
        let ghost mut decided: bool = false;
        if keep[j] {
            let ghost supplier = *numerics;
            let prob: Real = policy.get_probability(&sub_pop_fits, row[j].fitness, &*numerics);
            let drawn: Real = numerics.draw_unit();
            if drawn.lt(&prob) {
                marked.push(j);
            }
            proof {
                decided = drawn.less(prob);
                assert(policy.is_probability(&supplier, fitnesses_of(row@), row@[j as int].fitness, prob)
                    && is_unit_draw::<N>(drawn) && decided == drawn.less(prob));
                assert(is_mark::<N>(*policy, fitnesses_of(row@), row@[j as int].fitness, decided));
            }
        }
        proof {
            assert(!has_entry(earlier, j as int)) by {
                if has_entry(earlier, j as int) {
                    let a = choose|a: int| 0 <= a < earlier.len() && #[trigger] earlier[a] == j as int;
                    assert(earlier[a] < j);
                }
            }
            assert forall|k: int| #![trigger has_entry(marked@, k)] 0 <= k < j + 1 implies (if keep@[k] {
                is_mark::<N>(*policy, fitnesses_of(row@), row@[k].fitness, has_entry(marked@, k))
            } else {
                !has_entry(marked@, k)
            }) by {
                if marked@ != earlier {
                    lemma_entry_after_push(earlier, j, k);
                }
                if k < j {
                    assert(if keep@[k] {
                        is_mark::<N>(*policy, fitnesses_of(row@), row@[k].fitness, has_entry(earlier, k))
                    } else {
                        !has_entry(earlier, k)
                    });
                } else {
                    assert(has_entry(marked@, k) == (keep@[k] && decided));
                }
            }
        }
        j += 1;
    }
    proof {
        assert forall|other: Seq<usize>|
            #![trigger marks_in(other, row@.len())]
            marks_in(other, row@.len()) && (forall|j: int|
                0 <= j < row@.len() ==> has_entry(other, j) == has_entry(marked@, j)) implies other
            == marked@ by {
            lemma_marks_determined(other, marked@, row@.len());
        }
    }
    marked
}

/// One step of replacement and permutation on one sub-population.
///
/// Every cell whose fitness ranks below the threshold is replaced by the
/// next unused offspring; then the surviving cells are marked, each with the
/// probability that the policy gives it, and the values of the marked cells
/// are rotated by one place.
///
/// Refused with `Sizing`, and nothing changed, exactly where more cells rank
/// below the threshold than there are offspring.
pub fn replace_and_permute_row<N: Numerics>(
    row: &mut Vec<Cell>,
    offspring: &Vec<Cell>,
    threshold: Real,
    policy: &PermutationProbF,
    numerics: &mut N,
) -> (r: Result<(), CosyneError>)
    ensures
        r is Ok <==> below_count(old(row)@, threshold) <= offspring@.len(),
        r is Ok ==> renewed::<N>(*policy, old(row)@, offspring@, threshold, final(row)@),
        r matches Err(e) ==> e == CosyneError::Sizing && final(row)@ == old(row)@,
{
    let ghost before = row@;
    let keep: Vec<bool> = survivor_flags(row, threshold);
    match replace_below(row, offspring, threshold) {
        Err(e) => {
            return Err(e);
        },
        Ok(_) => {},
    }
    let ghost replaced = row@;
    let marked: Vec<usize> = mark_survivors(row, &keep, policy, numerics);
    rotate_values(row, &marked);
    proof {
        let after = row@;
        assert(marks_in(marked@, before.len()) && marks_kept(marked@, keep@) && marked_upto::<N>(
            *policy,
            replaced,
            keep@,
            marked@,
            before.len() as int,
        ) && rotated(replaced, marked@, after));
        lemma_kept_agree(replaced, before, keep@);
        assert forall|j: int| 0 <= j < before.len() && below(before[j], threshold) implies #[trigger] after[j]
            == replaced[j] by {
            assert forall|a: int| 0 <= a < marked@.len() implies marked@[a] != j by {
            }
        }
    }
    Ok(())
}
pub open spec fn hits(order: Seq<usize>, upto: int, p: int) -> nat
    decreases upto,
{
    if upto <= 0 {
        0
    } else {
        hits(order, upto - 1, p) + if order[upto - 1] < p {
            1nat
        } else {
            0nat
        }
    }
}

/// No more ranks hold an index below `p` than there are ranks, and a rank
/// that holds `p` itself is one more for the next index.
pub proof fn lemma_hits(order: Seq<usize>, upto: int, p: int)
    requires
        0 <= upto <= order.len(),
    ensures
        hits(order, upto, p) <= upto,
        hits(order, upto, p) <= hits(order, upto, p + 1),
        (exists|a: int| 0 <= a < upto && #[trigger] order[a] == p) ==> hits(order, upto, p) < hits(
            order,
            upto,
            p + 1,
        ),
    decreases upto,
{
    if upto > 0 {
        lemma_hits(order, upto - 1, p);
        if exists|a: int| 0 <= a < upto && #[trigger] order[a] == p {
            let a = choose|a: int| 0 <= a < upto && #[trigger] order[a] == p;
            if a < upto - 1 {
                assert(order[a] == p);
            }
        }
    }
}

/// Among the first cells, no more rank below the fitness at a rank than
/// ranks before it hold their indices.
pub proof fn lemma_below_hits(row: Seq<Cell>, order: Seq<usize>, rank: int, p: int)
    requires
        is_ranking(order, fitnesses_of(row)),
        0 <= rank < row.len(),
        0 <= p <= row.len(),
    ensures
        below_count(row.subrange(0, p), row[order[rank] as int].fitness) <= hits(order, rank, p),
    decreases p,
{
    let fits = fitnesses_of(row);
    let threshold = row[order[rank] as int].fitness;
    if p > 0 {
        lemma_below_hits(row, order, rank, p - 1);
        lemma_below_prefix(row, threshold, p - 1);
        lemma_hits(order, rank, p - 1);
        if below(row[p - 1], threshold) {
            assert(has_entry(order, p - 1));
            let a = choose|a: int| 0 <= a < order.len() && #[trigger] order[a] == p - 1;
            assert(fits[p - 1] == row[p - 1].fitness);
            assert(fits[order[rank] as int] == threshold);
            if a > rank {
                assert(ranks_before(fits, order[rank] as int, order[a] as int));
            }
            assert(a < rank);
            assert(order[a] == p - 1);
        }
    } else {
        assert(row.subrange(0, 0) =~= Seq::<Cell>::empty());
    }
}

/// No more cells rank below the fitness at a rank than the rank says: as
/// many offspring as the rank are enough to replace them.
pub proof fn lemma_rank_bounds_below(row: Seq<Cell>, order: Seq<usize>, rank: int)
    requires
        is_ranking(order, fitnesses_of(row)),
        0 <= rank < row.len(),
    ensures
        below_count(row, row[order[rank] as int].fitness) <= rank,
{
    lemma_below_hits(row, order, rank, row.len() as int);
    lemma_hits(order, rank, row.len() as int);
    assert(row.subrange(0, row.len() as int) =~= row);
}

} // verus!
