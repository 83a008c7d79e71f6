use vstd::prelude::*;
use rand::rngs::StdRng;
use crate::random::draw_below;

verus! {

/// Every entry is an index of the sequence and no entry occurs twice: the
/// sequence is a permutation of the indices below its length.
pub open spec fn is_permutation(s: Seq<usize>) -> bool {
    &&& forall|i: int| 0 <= i < s.len() ==> 0 <= #[trigger] s[i] < s.len()
    &&& forall|i: int, j: int| 0 <= i < s.len() && 0 <= j < s.len() && i != j ==> s[i] != s[j]
}

/// No index is its own entry.
pub open spec fn is_derangement(s: Seq<usize>) -> bool {
    forall|i: int| 0 <= i < s.len() ==> #[trigger] s[i] != i
}

/// The sequence with the entries at `j` and `p` exchanged.
pub open spec fn exchanged(s: Seq<usize>, j: int, p: int) -> Seq<usize> {
    s.update(j, s[p]).update(p, s[j])
}

/// What holds of a shuffle that has settled every index above `j`: the settled
/// indices are no fixed points, and an index up to `j` holds itself or an
/// entry above `j`.
pub open spec fn settled_above(s: Seq<usize>, j: int) -> bool {
    &&& forall|k: int| j < k < s.len() ==> #[trigger] s[k] != k
    &&& forall|k: int| 0 <= k <= j && k < s.len() ==> #[trigger] s[k] == k || s[k] > j
}

/// The indices after the exchanges from the last index down to `from`: each
/// of those indices exchanged its entry with the entry at the index that
/// was drawn for it.
pub open spec fn shuffled(length: nat, draws: Seq<usize>, from: int) -> Seq<usize>
    decreases length - from,
{
    if from >= length {
        Seq::new(length, |i: int| i as usize)
    } else {
        exchanged(shuffled(length, draws, from + 1), from, draws[from] as int)
    }
}

/// The sequence is what the exchanges make of some draws, each for an
/// index from the second on and below its index.
pub open spec fn is_shuffle(d: Seq<usize>) -> bool {
    exists|draws: Seq<usize>|
        draws.len() == d.len() && (forall|j: int|
            1 <= j < d.len() ==> (#[trigger] draws[j]) < j) && d == #[trigger] shuffled(
            d.len(),
            draws,
            1,
        )
}

/// The exchanges from `from` on depend on no draw for an index before it.
pub proof fn lemma_shuffled_draws(length: nat, draws: Seq<usize>, others: Seq<usize>, from: int)
    requires
        0 <= from,
        draws.len() == length,
        others.len() == length,
        forall|k: int| from <= k < length ==> draws[k] == others[k],
    ensures
        shuffled(length, draws, from) == shuffled(length, others, from),
    decreases length - from,
{
    if from < length {
        lemma_shuffled_draws(length, draws, others, from + 1);
    }
}

/// The indices below `length`, each at its own place.
pub fn identity_indices(length: usize) -> (v: Vec<usize>)
    ensures
        v@.len() == length,
        forall|i: int| 0 <= i < length ==> #[trigger] v@[i] == i,
{
    let mut v: Vec<usize> = Vec::new();
    let mut i: usize = 0;
    while i < length
        invariant
            i <= length,
            v@.len() == i,
            forall|k: int| 0 <= k < i ==> #[trigger] v@[k] == k,
        decreases length - i,
    {
        v.push(i);
        i += 1;
    }
    v
}

/// Exchanges the entry at `j` with the entry at the drawn index `p` below it,
/// which settles index `j`.
pub fn settle(v: &mut Vec<usize>, j: usize, p: usize)
    requires
        p < j < old(v)@.len(),
        is_permutation(old(v)@),
        settled_above(old(v)@, j as int),
    ensures
        final(v)@ == exchanged(old(v)@, j as int, p as int),
        is_permutation(final(v)@),
        settled_above(final(v)@, j - 1),
        final(v)@[p as int] >= j,
{
    let at_j: usize = v[j];
    let at_p: usize = v[p];
    v.set(j, at_p);
    v.set(p, at_j);
}

/// A random permutation of the indices below `length` that leaves no index in
/// place, for pairing each index with another.
///
/// From the last index down to the second, each index exchanges its entry
/// with that of an index below it, drawn from the generator: the result is
/// what `shuffled` makes of the draws. An index not yet settled holds
/// itself or an entry from above, so the exchange never brings an index its
/// own entry and no draw has to be taken again. Below two indices there is
/// no such permutation, and the indices come back in place.
pub fn random_derangement(length: usize, rng: &mut StdRng) -> (d: Vec<usize>)
    ensures
        d@.len() == length,
        is_permutation(d@),
        length >= 2 ==> is_derangement(d@),
        is_shuffle(d@),
{
    let mut v: Vec<usize> = identity_indices(length);
    let ghost mut draws: Seq<usize> = Seq::new(length as nat, |i: int| 0usize);
    assert(v@ =~= shuffled(length as nat, draws, length as int));
    if length < 2 {
        assert(v@ =~= shuffled(length as nat, draws, 1));
        assert(is_shuffle(v@));
        return v;
    }
    let mut j: usize = length - 1;
    while j > 0
        invariant
            length >= 2,
            j < length,
            v@.len() == length,
            is_permutation(v@),
            settled_above(v@, j as int),
            j == 0 ==> v@[0] != 0,
            draws.len() == length,
            forall|k: int| j < k < length ==> (#[trigger] draws[k]) < k,
            v@ == shuffled(length as nat, draws, j + 1),
        decreases j,
    {
        let p: usize = draw_below(rng, j);
        proof {
            let longer = draws.update(j as int, p);
            lemma_shuffled_draws(length as nat, longer, draws, j + 1);
            draws = longer;
        }
        settle(&mut v, j, p);
        j -= 1;
    }
    assert(is_shuffle(v@)) by {
        assert(v@ == shuffled(v@.len(), draws, 1));
    }
    v
}

} // verus!
