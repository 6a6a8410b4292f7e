//! The decisions of the theoretical-greedy heuristic for binary problems:
//! given the order in which the hyperplane ranks the items, which of them go
//! into the knapsack.
use vstd::prelude::*;
use crate::binary_solvers::generalized_greedy::takes;
use crate::compatible_problem_type_trait::CompatibleProblemType;
use crate::item::{BinaryProblemItems, Item};
use crate::knapsack::KnapsackBinary;
use crate::problem_type::lemma_view_of;

verus! {

/// The theoretical-greedy heuristic for binary problems with a single
/// knapsack.
#[derive(Clone, Copy, PartialEq, Debug)]
pub struct TheoreticalGreedy;

/// What the knapsack holds after the items named from place `from` of the
/// rank on went in, one unit each, up to the first that it does not take.
pub open spec fn ranked_until_full(
    capacity: Seq<u64>,
    held: Seq<(Seq<u64>, u64)>,
    keys: Seq<Seq<u64>>,
    rank: Seq<usize>,
    from: int,
) -> Seq<(Seq<u64>, u64)>
    decreases rank.len() - from,
{
    if from < 0 || from >= rank.len() {
        held
    } else if takes(capacity, held, keys[rank[from] as int]) {
        ranked_until_full(
            capacity,
            held.push((keys[rank[from] as int], 1u64)),
            keys,
            rank,
            from + 1,
        )
    } else {
        held
    }
}

impl TheoreticalGreedy {
    /// Fills the knapsack with the items in the order of the rank, one unit
    /// each, and stops at the first item that does not fit.
    pub fn fill_in_rank<T, const S: usize>(
        items: &BinaryProblemItems<T, S>,
        knapsack: &mut KnapsackBinary<T, S>,
        rank: &Vec<usize>,
    ) where T: CompatibleProblemType
        requires
            old(knapsack).wf(),
            forall|i: int| 0 <= i < rank@.len() ==> (#[trigger] rank@[i]) < items@.len(),
        ensures
            final(knapsack).wf(),
            final(knapsack)@.capacity == old(knapsack)@.capacity,
            final(knapsack)@.items == ranked_until_full(
                old(knapsack)@.capacity,
                old(knapsack)@.items,
                crate::binary_solvers::generalized_greedy::all_keys(*items),
                rank@,
                0,
            ),
    {
        let ghost capacity = knapsack@.capacity;
        let ghost start = knapsack@.items;
        let ghost keys = crate::binary_solvers::generalized_greedy::all_keys(*items);
        let mut i: usize = 0;
        let mut full = false;
        while !full && i < rank.len()
            invariant
                i <= rank@.len(),
                keys == crate::binary_solvers::generalized_greedy::all_keys(*items),
                forall|k: int| 0 <= k < rank@.len() ==> (#[trigger] rank@[k]) < items@.len(),
                knapsack.wf(),
                knapsack@.capacity == capacity,
                !full ==> ranked_until_full(capacity, start, keys, rank@, 0) == ranked_until_full(
                    capacity,
                    knapsack@.items,
                    keys,
                    rank@,
                    i as int,
                ),
                full ==> ranked_until_full(capacity, start, keys, rank@, 0) == knapsack@.items,
            decreases rank@.len() - i, if full { 0int } else { 1int },
        {
            let listed = items.items[rank[i]];
            let item = Item::<T, S> {
                value: listed.value,
                weights: listed.weights,
                quantity: T::identity(),
            };
            proof {
                assert(item.key_spec() =~= keys[rank@[i as int] as int]);
                lemma_view_of(knapsack@, S as nat);
            }
            if knapsack.add(item) {
                i = i + 1;
            } else {
                full = true;
            }
        }
    }
}

} // verus!
