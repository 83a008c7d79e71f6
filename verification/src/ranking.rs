use vstd::prelude::*;
use crate::derangement::is_permutation;
use crate::scalar::Real;

verus! {

/// Whether index `a` ranks before index `b`: by fitness, and among equal
/// fitnesses the lower index first.
pub open spec fn ranks_before(fits: Seq<Real>, a: int, b: int) -> bool {
    fits[a].key() < fits[b].key() || (fits[a].key() == fits[b].key() && a < b)
}

/// Whether `j` is an entry.
pub open spec fn has_entry(order: Seq<usize>, j: int) -> bool {
    exists|a: int| 0 <= a < order.len() && #[trigger] order[a] == j
}

/// Every index below the length is an entry.
pub open spec fn covers(order: Seq<usize>) -> bool {
    forall|j: int| 0 <= j < order.len() ==> #[trigger] has_entry(order, j)
}

/// The indices of `fits` in ascending order of fitness. There is one such
/// order, as no two indices rank alike: see `lemma_ranking_unique`.
pub open spec fn is_ranking(order: Seq<usize>, fits: Seq<Real>) -> bool {
    &&& order.len() == fits.len()
    &&& is_permutation(order)
    &&& covers(order)
    &&& forall|a: int, b: int|
        0 <= a < b < order.len() ==> ranks_before(fits, #[trigger] order[a] as int, #[trigger] order[b] as int)
}

/// The ranking of given fitnesses: the one that there is.
pub open spec fn ranking_of(fits: Seq<Real>) -> Seq<usize> {
    choose|order: Seq<usize>| is_ranking(order, fits)
}

/// The indices below `count` in ascending order of fitness.
pub open spec fn ranked_prefix(order: Seq<usize>, fits: Seq<Real>, count: int) -> bool {
    &&& order.len() == count
    &&& is_permutation(order)
    &&& covers(order)
    &&& forall|a: int, b: int|
        0 <= a < b < order.len() ==> ranks_before(fits, #[trigger] order[a] as int, #[trigger] order[b] as int)
}

/// Ranks the indices of `fits` by ascending fitness, the lower index first
/// among equal fitnesses. The result is the one ranking that there is.
pub fn rank_by_fitness(fits: &Vec<Real>) -> (order: Vec<usize>)
    ensures
        is_ranking(order@, fits@),
        order@ == ranking_of(fits@),
        forall|other: Seq<usize>| #[trigger] is_ranking(other, fits@) ==> other == order@,
{
    let mut order: Vec<usize> = Vec::new();
    let mut i: usize = 0;
    while i < fits.len()
        invariant
            i <= fits@.len(),
            ranked_prefix(order@, fits@, i as int),
        decreases fits@.len() - i,
    {
        let mut pos: usize = order.len();
        while pos > 0 && fits[i].precedes(&fits[order[pos - 1]])
            invariant
                i < fits@.len(),
                pos <= order@.len(),
                ranked_prefix(order@, fits@, i as int),
                forall|b: int| pos <= b < order@.len() ==> fits@[i as int].key() < fits@[(
                #[trigger] order@[b]) as int].key(),
            decreases pos,
        {
            pos -= 1;
        }
        let ghost before = order@;
        order.insert(pos, i);
        proof {
            let after = order@;
            assert forall|a: int, b: int|
                0 <= a < after.len() && 0 <= b < after.len() && a != b implies after[a]
                != after[b] by {
            }
            assert forall|j: int| 0 <= j < after.len() implies #[trigger] has_entry(after, j) by {
                if j == i {
                    assert(after[pos as int] == j);
                } else {
                    assert(has_entry(before, j));
                    let a0 = choose|a: int| 0 <= a < before.len() && #[trigger] before[a] == j;
                    if a0 < pos {
                        assert(after[a0] == j);
                    } else {
                        assert(after[a0 + 1] == j);
                    }
                }
            }
            assert forall|a: int, b: int| 0 <= a < b < after.len() implies ranks_before(
                fits@,
                #[trigger] after[a] as int,
                #[trigger] after[b] as int,
            ) by {
            }
        }
        i += 1;
    }
    proof {
        assert forall|other: Seq<usize>| #[trigger] is_ranking(other, fits@) implies other
            == order@ by {
            lemma_ranking_unique(other, order@, fits@);
        }
        assert(is_ranking(ranking_of(fits@), fits@));
    }
    order
}

/// Two rankings of the same fitnesses agree in their first `upto` ranks.
pub proof fn lemma_rankings_agree(a: Seq<usize>, b: Seq<usize>, fits: Seq<Real>, upto: int)
    requires
        is_ranking(a, fits),
        is_ranking(b, fits),
        0 <= upto <= fits.len(),
    ensures
        forall|k: int| 0 <= k < upto ==> a[k] == b[k],
    decreases upto,
{
    if upto > 0 {
        lemma_rankings_agree(a, b, fits, upto - 1);
        let p = upto - 1;
        if a[p] != b[p] {
            assert(has_entry(a, b[p] as int));
            let q = choose|q: int| 0 <= q < a.len() && #[trigger] a[q] == b[p] as int;
            if q < p {
                assert(a[q] == b[q]);
            }
            assert(ranks_before(fits, a[p] as int, a[q] as int));
            assert(has_entry(b, a[p] as int));
            let t = choose|t: int| 0 <= t < b.len() && #[trigger] b[t] == a[p] as int;
            if t < p {
                assert(a[t] == b[t]);
            }
            assert(ranks_before(fits, b[p] as int, b[t] as int));
        }
    }
}

/// There is one ranking of given fitnesses.
pub proof fn lemma_ranking_unique(a: Seq<usize>, b: Seq<usize>, fits: Seq<Real>)
    requires
        is_ranking(a, fits),
        is_ranking(b, fits),
    ensures
        a == b,
{
    lemma_rankings_agree(a, b, fits, fits.len() as int);
    assert(a =~= b);
}

/// Fitnesses have a ranking: the indices in place, put in order one by one.
pub proof fn lemma_ranking_exists(fits: Seq<Real>)
    requires
        fits.len() <= usize::MAX,
    ensures
        is_ranking(ranking_of(fits), fits),
    decreases fits.len(),
{
    if fits.len() == 0 {
        assert(is_ranking(Seq::<usize>::empty(), fits));
    } else {
        let front = fits.drop_last();
        lemma_ranking_exists(front);
        let before = ranking_of(front);
        assert(before.len() == front.len());
        assert(front =~= fits.take(before.len() as int));
        let last = (fits.len() - 1) as usize;
        let pos = first_above(before, fits, last as int, 0);
        lemma_first_above(before, fits, last as int, 0);
        let after = before.insert(pos, last);
        assert forall|a: int| 0 <= a < after.len() implies 0 <= #[trigger] after[a] < after.len() by {
            if a < pos {
                assert(after[a] == before[a]);
            } else if a > pos {
                assert(after[a] == before[a - 1]);
            }
        }
        assert forall|a: int, b: int|
            0 <= a < after.len() && 0 <= b < after.len() && a != b implies after[a] != after[b] by {
            let a0 = if a < pos { a } else { a - 1 };
            let b0 = if b < pos { b } else { b - 1 };
            if a != pos {
                assert(after[a] == before[a0]);
            }
            if b != pos {
                assert(after[b] == before[b0]);
            }
        }
        assert forall|j: int| 0 <= j < after.len() implies #[trigger] has_entry(after, j) by {
            if j == last {
                assert(after[pos] == j);
            } else {
                assert(has_entry(before, j));
                let a0 = choose|a: int| 0 <= a < before.len() && #[trigger] before[a] == j;
                if a0 < pos {
                    assert(after[a0] == j);
                } else {
                    assert(after[a0 + 1] == j);
                }
            }
        }
        assert forall|a: int, b: int| 0 <= a < b < after.len() implies ranks_before(
            fits,
            #[trigger] after[a] as int,
            #[trigger] after[b] as int,
        ) by {
            let a0 = if a < pos { a } else { a - 1 };
            let b0 = if b < pos { b } else { b - 1 };
            if a != pos && b != pos {
                assert(after[a] == before[a0]);
                assert(after[b] == before[b0]);
                assert(ranks_before(front, before[a0] as int, before[b0] as int));
                assert(front[before[a0] as int] == fits[before[a0] as int]);
                assert(front[before[b0] as int] == fits[before[b0] as int]);
            } else if a == pos {
                assert(after[b] == before[b0]);
                assert(front[before[b0] as int] == fits[before[b0] as int]);
            } else {
                assert(after[a] == before[a0]);
                assert(front[before[a0] as int] == fits[before[a0] as int]);
            }
        }
        assert(is_ranking(after, fits));
    }
}

/// The first rank from `from` on whose index has a fitness above that of
/// `index`, or the length where there is none.
pub open spec fn first_above(order: Seq<usize>, fits: Seq<Real>, index: int, from: int) -> int
    decreases order.len() - from,
{
    if from >= order.len() {
        order.len() as int
    } else if fits[index].key() < fits[order[from] as int].key() {
        from
    } else {
        first_above(order, fits, index, from + 1)
    }
}

/// Up to the first rank above, no fitness is above; and in a ranking of the
/// indices before `index`, every fitness from there on is above.
pub proof fn lemma_first_above(order: Seq<usize>, fits: Seq<Real>, index: int, from: int)
    requires
        0 <= from <= order.len(),
        is_ranking(order, fits.take(order.len() as int)),
        order.len() <= index < fits.len(),
    ensures
        from <= first_above(order, fits, index, from) <= order.len(),
        forall|a: int|
            from <= a < first_above(order, fits, index, from) ==> fits[(#[trigger] order[a]) as int].key()
                <= fits[index].key(),
        forall|b: int|
            first_above(order, fits, index, from) <= b < order.len() ==> fits[index].key() < fits[(
            #[trigger] order[b]) as int].key(),
    decreases order.len() - from,
{
    let front = fits.take(order.len() as int);
    if from < order.len() {
        if fits[index].key() < fits[order[from] as int].key() {
            assert forall|b: int| from <= b < order.len() implies fits[index].key() < fits[(
            #[trigger] order[b]) as int].key() by {
                if b > from {
                    assert(ranks_before(front, order[from] as int, order[b] as int));
                    assert(front[order[from] as int] == fits[order[from] as int]);
                    assert(front[order[b] as int] == fits[order[b] as int]);
                }
            }
        } else {
            lemma_first_above(order, fits, index, from + 1);
        }
    }
}

} // verus!
