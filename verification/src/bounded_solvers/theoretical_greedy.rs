//! The decisions of the theoretical-greedy heuristic for bounded problems:
//! given the order in which the hyperplane ranks the items, how many units
//! of each go into the knapsack.
use vstd::prelude::*;
use crate::compatible_problem_type_trait::CompatibleProblemType;
use crate::holdings::merged;
use crate::item::{Item, ProblemItems};
use crate::knapsack::{accepts, Knapsack};
use crate::problem_type::{lemma_view_of, view_of};

verus! {

/// The theoretical-greedy heuristic for bounded problems with a single
/// knapsack.
#[derive(Clone, Copy, PartialEq, Debug)]
pub struct TheoreticalGreedy;

/// The most units of the given weight, out of `quantity`, that the room
/// holds as far as its first `upto` dimensions go: the least, over the
/// dimensions in which a unit weighs anything, of the room divided by the
/// weight, and no more than `quantity`.
pub open spec fn most_units(weight: Seq<u64>, room: Seq<u64>, quantity: u64, upto: int) -> u64
    decreases upto,
{
    if upto <= 0 {
        quantity
    } else {
        let before = most_units(weight, room, quantity, upto - 1);
        if weight[upto - 1] != 0 && room[upto - 1] / weight[upto - 1] < before {
            room[upto - 1] / weight[upto - 1]
        } else {
            before
        }
    }
}

/// `most_units` is the largest count that fits: it is within the quantity,
/// it fits in every dimension, and one unit more, where the quantity has
/// one, does not fit in some dimension.
pub proof fn lemma_most_units(weight: Seq<u64>, room: Seq<u64>, quantity: u64, upto: int)
    requires
        0 <= upto <= room.len(),
        weight.len() == room.len(),
    ensures
        most_units(weight, room, quantity, upto) <= quantity,
        forall|d: int|
            0 <= d < upto ==> most_units(weight, room, quantity, upto) * #[trigger] weight[d]
                <= room[d],
        most_units(weight, room, quantity, upto) < quantity ==> exists|d: int|
            0 <= d < upto && (most_units(weight, room, quantity, upto) + 1) * #[trigger] weight[d]
                > room[d],
    decreases upto,
{
    if upto > 0 {
        lemma_most_units(weight, room, quantity, upto - 1);
        let before = most_units(weight, room, quantity, upto - 1);
        let now = most_units(weight, room, quantity, upto);
        let w = weight[upto - 1];
        let r = room[upto - 1];
        assert(now <= before);
        assert forall|d: int| 0 <= d < upto implies now * #[trigger] weight[d] <= room[d] by {
            if d < upto - 1 {
                assert(before * weight[d] <= room[d]);
                assert(now * weight[d] <= before * weight[d]) by (nonlinear_arith)
                    requires
                        0 <= now <= before,
                        0 <= weight[d],
                ;
            } else if w == 0 {
                assert(now * w == 0) by (nonlinear_arith)
                    requires
                        w == 0,
                ;
            } else {
                vstd::arithmetic::div_mod::lemma_fundamental_div_mod(r as int, w as int);
                assert(now <= r / w);
                assert(now * w <= (r / w) * w) by (nonlinear_arith)
                    requires
                        0 <= now <= r / w,
                        0 < w,
                ;
                assert((r / w) * w == w * (r / w)) by (nonlinear_arith);
            }
        }
        if now < quantity {
            if now == before {
                let d = choose|d: int|
                    0 <= d < upto - 1 && (before + 1) * #[trigger] weight[d] > room[d];
                assert((now + 1) * weight[d] > room[d]);
            } else {
                vstd::arithmetic::div_mod::lemma_fundamental_div_mod(r as int, w as int);
                vstd::arithmetic::div_mod::lemma_mod_bound(r as int, w as int);
                assert((r / w + 1) * w == w * (r / w) + w) by (nonlinear_arith);
                assert((now + 1) * weight[upto - 1] > room[upto - 1]);
            }
        }
    }
}

/// What the knapsack holds after the items named from place `from` of the
/// rank on were offered to it in order: of each as many units as fit, where
/// the knapsack accepts them.
pub open spec fn ranked_fill(
    capacity: Seq<u64>,
    held: Seq<(Seq<u64>, u64)>,
    entries: Seq<(Seq<u64>, u64)>,
    rank: Seq<usize>,
    limit: u64,
    from: int,
) -> Seq<(Seq<u64>, u64)>
    decreases rank.len() - from,
{
    if from < 0 || from >= rank.len() {
        held
    } else {
        let entry = entries[rank[from] as int];
        let view = view_of(capacity, held);
        let room = Seq::new(capacity.len(), |d: int| (capacity[d] - view.weights[d]) as u64);
        let count = most_units(entry.0.skip(1), room, entry.1, capacity.len() as int);
        let next = if count > 0 && accepts(view, entry.0, count, limit) {
            merged(held, entry.0, count)
        } else {
            held
        };
        ranked_fill(capacity, next, entries, rank, limit, from + 1)
    }
}

impl TheoreticalGreedy {
    /// Fills the knapsack with the items in the order of the rank: of each
    /// item as many units as the room still holds.
    pub fn fill_in_rank<T, const S: usize>(
        items: &ProblemItems<T, S>,
        knapsack: &mut Knapsack<T, S>,
        rank: &Vec<usize>,
    ) where T: CompatibleProblemType
        requires
            items.wf(),
            old(knapsack).wf(),
            forall|i: int| 0 <= i < rank@.len() ==> (#[trigger] rank@[i]) < items@.len(),
        ensures
            final(knapsack).wf(),
            final(knapsack)@.capacity == old(knapsack)@.capacity,
            final(knapsack)@.items == ranked_fill(
                old(knapsack)@.capacity,
                old(knapsack)@.items,
                items@,
                rank@,
                T::key_limit(),
                0,
            ),
    {
        let ghost capacity = knapsack@.capacity;
        let ghost start = knapsack@.items;
        let list = items.iter();
        let mut i: usize = 0;
        while i < rank.len()
            invariant
                i <= rank@.len(),
                items.wf(),
                list@.len() == items@.len(),
                forall|k: int| 0 <= k < list@.len() ==> (#[trigger] list@[k]).entry_spec() == items@[k],
                forall|k: int| 0 <= k < rank@.len() ==> (#[trigger] rank@[k]) < items@.len(),
                knapsack.wf(),
                knapsack@.capacity == capacity,
                ranked_fill(capacity, start, items@, rank@, T::key_limit(), 0) == ranked_fill(
                    capacity,
                    knapsack@.items,
                    items@,
                    rank@,
                    T::key_limit(),
                    i as int,
                ),
            decreases rank@.len() - i,
        {
            let item = list[rank[i]];
            let ghost entry = items@[rank@[i as int] as int];
            let ghost view = knapsack@;
            let room = knapsack.room();
            let ghost free = Seq::new(capacity.len(), |d: int| (capacity[d] - view.weights[d]) as u64);
            proof {
                knapsack.lemma_view_bounds();
                lemma_view_of(view, S as nat);
                assert(room@ =~= free);
                assert(item.entry_spec() == entry);
            }
            let mut count = T::type_to_key(item.quantity);
            let mut d: usize = 0;
            while d < S
                invariant
                    d <= S,
                    room@.len() == S,
                    item.key_spec() == entry.0,
                    count == most_units(entry.0.skip(1), room@, entry.1, d as int),
                decreases S - d,
            {
                let unit = T::type_to_key(item.weights[d]);
                proof {
                    assert(entry.0.skip(1)[d as int] == entry.0[d + 1]);
                    assert(item.key_spec()[d + 1] == unit);
                }
                if unit != 0 && room[d] / unit < count {
                    count = room[d] / unit;
                }
                d = d + 1;
            }
            proof {
                lemma_most_units(entry.0.skip(1), room@, entry.1, S as int);
                T::lemma_key_bounds(item.quantity);
            }
            let part = Item::<T, S> {
                value: item.value,
                weights: item.weights,
                quantity: T::key_to_type(count),
            };
            proof {
                assert(part.key_spec() =~= entry.0);
            }
            knapsack.add(part);
            i = i + 1;
        }
    }
}

} // verus!
