//! Move ordering: a cheap pre-sort of candidate moves for the search.

use crate::bot::evaluation::{weight, WEIGHT_LOOKUP};
use vstd::prelude::*;

verus! {

/// The squares of `moves` are in ascending order of weight.
pub open spec fn ordered_by_weight(moves: Seq<usize>) -> bool {
    forall|i: int, j: int|
        0 <= i <= j < moves.len() ==> weight(moves[i] as int) <= weight(moves[j] as int)
}

/// Exchanging two entries of a sequence keeps what it holds.
pub proof fn lemma_swap_keeps_entries(s: Seq<usize>, i: int, j: int)
    requires
        0 <= i < s.len(),
        0 <= j < s.len(),
    ensures
        s.update(i, s[j]).update(j, s[i]).to_multiset() == s.to_multiset(),
{
    vstd::seq_lib::to_multiset_update(s, i, s[j]);
    vstd::seq_lib::to_multiset_update(s.update(i, s[j]), j, s[i]);
    vstd::seq_lib::to_multiset_contains(s, s[i]);
    vstd::seq_lib::to_multiset_contains(s, s[j]);
    assert(s.to_multiset().count(s[i]) > 0);
    assert(s.to_multiset().count(s[j]) > 0);
    assert(s.update(i, s[j]).update(j, s[i]).to_multiset() =~= s.to_multiset());
}

/// Sorts `moves` in place by ascending weight of their squares: afterwards it
/// holds the same moves, each as often as before, and no move stands before
/// one of lower weight.
pub fn heuristic_order(moves: &mut [usize])
    requires
        forall|k: int| 0 <= k < old(moves)@.len() ==> #[trigger] old(moves)@[k] < 64,
    ensures
        final(moves)@.len() == old(moves)@.len(),
        final(moves)@.to_multiset() == old(moves)@.to_multiset(),
        ordered_by_weight(final(moves)@),
        forall|k: int| 0 <= k < final(moves)@.len() ==> #[trigger] final(moves)@[k] < 64,
{
    let n = moves.len();
    let mut i: usize = 1;
    while i < n
        invariant
            1 <= i,
            n == moves@.len(),
            n == old(moves)@.len(),
            moves@.to_multiset() == old(moves)@.to_multiset(),
            forall|k: int| 0 <= k < n ==> #[trigger] moves@[k] < 64,
            forall|a: int, b: int|
                0 <= a <= b < i && b < n ==> weight(moves@[a] as int) <= weight(moves@[b] as int),
        decreases n - i,
    {
        let mut j: usize = i;
        while j > 0 && WEIGHT_LOOKUP[moves[j - 1]] > WEIGHT_LOOKUP[moves[j]]
            invariant
                j <= i < n,
                n == moves@.len(),
                n == old(moves)@.len(),
                moves@.to_multiset() == old(moves)@.to_multiset(),
                forall|k: int| 0 <= k < n ==> #[trigger] moves@[k] < 64,
                forall|a: int, b: int|
                    0 <= a <= b <= i && a != j && b != j ==> weight(moves@[a] as int) <= weight(
                        moves@[b] as int,
                    ),
                forall|b: int|
                    j < b <= i ==> weight(moves@[j as int] as int) < weight(moves@[b] as int),
            decreases j,
        {
            proof {
                lemma_swap_keeps_entries(moves@, j - 1, j as int);
            }
            let lower = moves[j - 1];
            let upper = moves[j];
            moves[j - 1] = upper;
            moves[j] = lower;
            j -= 1;
        }
        i += 1;
    }
}

} // verus!
