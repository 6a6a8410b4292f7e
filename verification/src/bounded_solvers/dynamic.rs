//! The exact strategy for a bounded problem with a single knapsack.
use vstd::prelude::*;
use crate::compatible_problem_type_trait::CompatibleProblemType;
use crate::dynamic_table::optimal_counts;
use crate::holdings::{find, held, lemma_find, lemma_held_merged};
use crate::item::{Item, ProblemItems};
use crate::knapsack::{entries_of, Knapsack, ProblemKnapsacks};
use crate::knapsack::fits_type;
use crate::packing::{
    entry_quantities, entry_values, entry_weights, free_room, lemma_packed_other, limits_hold,
    mergeable, optimally_packed, packed_into, room_axes, tabulate, within_limits, chosen_counts,
};
use crate::drawing::{amount_under, left_over, lemma_drawing_leaves_the_rest};
use crate::problem_type::{draw_gains, BoundedProblem, BoundedSolver};
use crate::selection::{optimal, packed_value, packed_weight, value_terms, weight_terms};
use crate::sums::{lemma_total_monotone, lemma_total_prefix, lemma_total_take_step, total};

verus! {

/// The exact strategy: dynamic programming over the units of the items and
/// the free room of the one knapsack.
#[derive(Clone, Copy, PartialEq, Debug)]
pub struct Dynamic;

/// Packs into the knapsack a choice of the items that no other choice
/// beats, and draws what was packed from the items: of all ways to take no
/// more units of an item than there are and to stay within the knapsack's
/// free room, one that is worth most goes in, and every item is left with
/// its quantity less the count chosen for it.
pub fn dynamic<T, const S: usize>(items: &mut ProblemItems<T, S>, knapsack: &mut Knapsack<T, S>) where
    T: CompatibleProblemType,

    requires
        old(items).wf(),
        old(knapsack).wf(),
        within_limits(old(items)@, entry_quantities(old(items)@), old(knapsack)@),
        mergeable(old(items)@, old(knapsack)@.items, T::key_limit()),
    ensures
        final(knapsack).wf(),
        final(items).wf(),
        optimally_packed(old(items)@, old(knapsack)@, final(knapsack)@),
        final(items)@ == left_over(
            old(items)@,
            chosen_counts(
                old(items)@,
                entry_quantities(old(items)@),
                free_room(old(knapsack)@),
            ),
        ),
{
    let ghost entries = items@;
    let before = knapsack.clone();
    pack_choice(items, knapsack);
    draw_gains(items, Some(&before), knapsack);
    proof {
        let counts = chosen_counts(entries, entry_quantities(entries), free_room(before@));
        assert forall|i: int| 0 <= i < entries.len() implies counts[i] <= (
        #[trigger] entries[i]).1 && amount_under(before@.items, entries[i].0) + counts[i]
            <= u64::MAX by {
            assert(counts[i] <= entry_quantities(entries)[i]);
            lemma_find(before@.items, entries[i].0);
        }
        lemma_drawing_leaves_the_rest(before@.items, entries, counts);
    }
}

/// Packs into the knapsack a choice of the items that no other choice
/// beats: of all ways to take no more units of an item than there are and
/// to stay within the knapsack's free room, one that is worth most. The
/// items themselves are left as they are.
pub fn pack_choice<T, const S: usize>(items: &ProblemItems<T, S>, knapsack: &mut Knapsack<T, S>) where
    T: CompatibleProblemType,

    requires
        items.wf(),
        old(knapsack).wf(),
        within_limits(items@, entry_quantities(items@), old(knapsack)@),
        mergeable(items@, old(knapsack)@.items, T::key_limit()),
    ensures
        final(knapsack).wf(),
        optimally_packed(items@, old(knapsack)@, final(knapsack)@),
{
    let ghost before = knapsack@;
    let ghost entries = items@;
    let ghost all_values = entry_values(entries);
    let ghost all_weights = entry_weights(entries, S as nat);
    let ghost all_quantities = entry_quantities(entries);
    let ghost free = free_room(before);
    let list = items.iter();
    proof {
        assert(entries_of(list@) =~= entries);
        knapsack.lemma_view_bounds();
    }
    let numbers = tabulate(&list);
    let room = knapsack.room();
    let axes = room_axes(&room, Ghost(before));
    let counts = optimal_counts(&numbers.values, &numbers.weights, &numbers.quantities, &axes);
    let n = list.len();
    proof {
        assert(free.len() == before.capacity.len());
        assert(counts@ =~= chosen_counts(entries, all_quantities, free));
    }
    let mut i: usize = 0;
    proof {
        assert(value_terms(counts@, all_values).take(0) =~= Seq::<int>::empty());
        assert forall|d: int| 0 <= d < S implies #[trigger] knapsack@.weights[d] == before.weights[d]
            + total(weight_terms(counts@, all_weights, d).take(0)) by {
            assert(weight_terms(counts@, all_weights, d).take(0) =~= Seq::<int>::empty());
        }
    }
    while i < n
        invariant
            i <= n,
            n == list@.len(),
            n == entries.len(),
            entries == items@,
            items.wf(),
            all_values == entry_values(entries),
            all_weights == entry_weights(entries, S as nat),
            all_quantities == entry_quantities(entries),
            free == free_room(before),
            before.capacity.len() == S,
            before.weights.len() == S,
            forall|d: int| 0 <= d < S ==> #[trigger] before.capacity[d] <= T::key_limit(),
            forall|d: int| 0 <= d < S ==> #[trigger] before.weights[d] <= before.capacity[d],
            T::key_limit() <= u32::MAX,
            crate::holdings::distinct_keys(before.items),
            forall|k: int| 0 <= k < n ==> (#[trigger] list@[k]).entry_spec() == entries[k],
            optimal(all_values, all_weights, all_quantities, free, counts@),
            before.value + packed_value(all_quantities, all_values) <= u64::MAX,
            mergeable(entries, before.items, T::key_limit()),
            knapsack.wf(),
            knapsack@.capacity == before.capacity,
            knapsack@.items == packed_into(before.items, entries, counts@, i as int),
            knapsack@.value == before.value + total(value_terms(counts@, all_values).take(i as int)),
            forall|d: int|
                0 <= d < S ==> #[trigger] knapsack@.weights[d] == before.weights[d] + total(
                    weight_terms(counts@, all_weights, d).take(i as int),
                ),
        decreases n - i,
    {
        let count = counts[i];
        let ghost key = entries[i as int].0;
        let ghost current = knapsack@;
        let ghost worth = value_terms(counts@, all_values);
        proof {
            assert(crate::item::key_in_range::<T>(entries[i as int].0, S as nat));
            assert(counts@[i as int] <= all_quantities[i as int]);
            assert(entries[i as int].1 <= T::key_limit());
        }
        let item = Item::<T, S> {
            value: list[i].value,
            weights: list[i].weights,
            quantity: T::key_to_type(count),
        };
        proof {
            assert(item.key_spec() =~= key);
            // the value stays within its type
            assert forall|k: int| 0 <= k < worth.len() implies worth[k] >= 0 && worth[k]
                <= value_terms(all_quantities, all_values)[k] by {
                assert(counts@[k] <= all_quantities[k]);
                assert(0 <= counts@[k] * all_values[k] <= all_quantities[k] * all_values[k])
                    by (nonlinear_arith)
                    requires
                        0 <= counts@[k] <= all_quantities[k],
                        0 <= all_values[k],
                ;
            }
            lemma_total_monotone(worth, value_terms(all_quantities, all_values));
            lemma_total_prefix(worth, i + 1);
            lemma_total_take_step(worth, i as int);
            assert(all_values[i as int] == key[0]);
            assert(counts@[i as int] * all_values[i as int] == key[0] * count) by (nonlinear_arith)
                requires
                    counts@[i as int] == count,
                    all_values[i as int] == key[0],
            ;
            assert(worth[i as int] == key[0] * count);
            // the weights stay within the capacity
            assert forall|d: int| 0 <= d < S implies current.weights[d] + #[trigger] key[d + 1]
                * count <= current.capacity[d] && weight_terms(counts@, all_weights, d)[i as int]
                == key[d + 1] * count by {
                let heavy = weight_terms(counts@, all_weights, d);
                assert forall|k: int| 0 <= k < heavy.len() implies heavy[k] >= 0 by {
                    assert(counts@[k] * all_weights[k][d] >= 0) by (nonlinear_arith)
                        requires
                            counts@[k] >= 0,
                            all_weights[k][d] >= 0,
                    ;
                }
                lemma_total_prefix(heavy, i + 1);
                lemma_total_take_step(heavy, i as int);
                assert(key[d + 1] <= T::key_limit());
                assert(all_weights[i as int][d] == key[d + 1]);
                assert(counts@[i as int] * all_weights[i as int][d] == key[d + 1] * count)
                    by (nonlinear_arith)
                    requires
                        counts@[i as int] == count,
                        all_weights[i as int][d] == key[d + 1],
                ;
                assert(packed_weight(counts@, all_weights, d) <= free[d]);
                assert(free[d] == before.capacity[d] - before.weights[d]);
                assert(current.weights[d] == before.weights[d] + total(heavy.take(i as int)));
            }
            // the merged quantity stays within its type
            assert forall|j: int| 0 <= j < i implies (#[trigger] entries[j]).0 != key by {
                assert(entries[j].0 != entries[i as int].0);
            }
            lemma_packed_other(before.items, entries, counts@, i as int, key);
            lemma_find(current.items, key);
            lemma_find(before.items, key);
            lemma_held_merged(current.items, key, count, 0);
            assert forall|d: int| 0 <= d < S implies held(
                crate::holdings::merged(current.items, key, count),
                d + 1,
            ) == #[trigger] held(current.items, d + 1) + key[d + 1] * count by {
                lemma_held_merged(current.items, key, count, d + 1);
            }
        }
        let added = knapsack.add(item);
        proof {
            assert(added);
            assert(current.value == held(current.items, 0));
            assert(knapsack@.value == held(knapsack@.items, 0));
            if count == 0 {
                assert(key[0] * count == 0) by (nonlinear_arith)
                    requires
                        count == 0,
                ;
            }
            assert(knapsack@.value == current.value + key[0] * count);
            assert forall|d: int| 0 <= d < S implies #[trigger] knapsack@.weights[d]
                == before.weights[d] + total(
                weight_terms(counts@, all_weights, d).take(i + 1),
            ) by {
                lemma_total_take_step(weight_terms(counts@, all_weights, d), i as int);
                assert(current.weights[d] == held(current.items, d + 1));
                assert(knapsack@.weights[d] == held(knapsack@.items, d + 1));
                assert(current.weights[d] + key[d + 1] * count <= current.capacity[d]);
                assert(weight_terms(counts@, all_weights, d)[i as int] == key[d + 1] * count);
                assert(current.weights[d] == before.weights[d] + total(
                    weight_terms(counts@, all_weights, d).take(i as int),
                ));
                if count > 0 {
                    assert(held(knapsack@.items, d + 1) == held(current.items, d + 1) + key[d + 1]
                        * count);
                } else {
                    assert(key[d + 1] * count == 0) by (nonlinear_arith)
                        requires
                            count == 0,
                    ;
                }
            }
        }
        i = i + 1;
    }
    proof {
        assert(value_terms(counts@, all_values).take(n as int) =~= value_terms(
            counts@,
            all_values,
        ));
    }
}

/// Whether `dynamic` can take these items and this knapsack: whether the
/// machine can hold the table and the numbers that come up.
pub fn can_solve<T, const S: usize>(items: &ProblemItems<T, S>, knapsack: &Knapsack<T, S>) -> (ok:
    bool) where T: CompatibleProblemType
    requires
        items.wf(),
        knapsack.wf(),
    ensures
        ok == (within_limits(items@, entry_quantities(items@), knapsack@) && mergeable(
            items@,
            knapsack@.items,
            T::key_limit(),
        )),
{
    let list = items.iter();
    proof {
        assert(entries_of(list@) =~= items@);
        knapsack.lemma_view_bounds();
    }
    let numbers = tabulate(&list);
    let room = knapsack.room();
    let axes = room_axes(&room, Ghost(knapsack@));
    if !limits_hold(&numbers.values, &numbers.quantities, &axes, knapsack.value()) {
        return false;
    }
    let mut i: usize = 0;
    while i < list.len()
        invariant
            i <= list@.len(),
            list@.len() == items@.len(),
            items.wf(),
            knapsack.wf(),
            T::key_limit() <= u32::MAX,
            forall|k: int| 0 <= k < list@.len() ==> (#[trigger] list@[k]).entry_spec() == items@[k],
            forall|k: int|
                0 <= k < i && find(knapsack@.items, (#[trigger] items@[k]).0) >= 0
                    ==> knapsack@.items[find(knapsack@.items, items@[k].0)].1 + items@[k].1
                    <= T::key_limit(),
        decreases list@.len() - i,
    {
        let item = list[i];
        proof {
            assert(crate::item::identity_key(item.value, item.weights) == items@[i as int].0);
            T::lemma_key_bounds(item.quantity);
        }
        match knapsack.get_item((item.value, item.weights)) {
            Some(held) => {
                proof {
                    T::lemma_key_bounds(held.quantity);
                }
                if !fits_type::<T>(T::type_to_key(held.quantity) + T::type_to_key(item.quantity)) {
                    return false;
                }
            },
            None => {},
        }
        i = i + 1;
    }
    true
}

/// Packs an optimal choice of the items into the knapsack and draws it from
/// the items where the machine can hold the table and the numbers that come
/// up, and changes nothing where it cannot.
pub fn try_dynamic<T, const S: usize>(items: &mut ProblemItems<T, S>, knapsack: &mut Knapsack<T, S>) -> (solved:
    bool) where T: CompatibleProblemType
    requires
        old(items).wf(),
        old(knapsack).wf(),
    ensures
        final(knapsack).wf(),
        final(items).wf(),
        solved == (within_limits(old(items)@, entry_quantities(old(items)@), old(knapsack)@)
            && mergeable(old(items)@, old(knapsack)@.items, T::key_limit())),
        solved ==> optimally_packed(old(items)@, old(knapsack)@, final(knapsack)@),
        solved ==> final(items)@ == left_over(
            old(items)@,
            chosen_counts(
                old(items)@,
                entry_quantities(old(items)@),
                free_room(old(knapsack)@),
            ),
        ),
        !solved ==> final(knapsack)@ == old(knapsack)@ && final(items)@ == old(items)@,
{
    if can_solve(items, knapsack) {
        dynamic(items, knapsack);
        true
    } else {
        false
    }
}

impl<const S: usize> BoundedSolver<u32, S> for Dynamic {
    type Output = ProblemKnapsacks<u32, S>;

    /// The problem has exactly one knapsack, and the machine can hold the
    /// table and the numbers that come up.
    open spec fn solvable(self, problem: BoundedProblem<u32, S>) -> bool {
        &&& problem.items.wf()
        &&& problem.knapsacks.wf()
        &&& problem.knapsacks.knapsacks@.len() == 1
        &&& within_limits(
            problem.items@,
            entry_quantities(problem.items@),
            problem.knapsacks.knapsacks@[0]@,
        )
        &&& mergeable(problem.items@, problem.knapsacks.knapsacks@[0]@.items, u32::key_limit())
    }

    /// The one knapsack took in a choice of the items that no other choice
    /// beats.
    open spec fn solved(self, problem: BoundedProblem<u32, S>, output: ProblemKnapsacks<u32, S>) -> bool {
        &&& output.wf()
        &&& output.knapsacks@.len() == 1
        &&& optimally_packed(
            problem.items@,
            problem.knapsacks.knapsacks@[0]@,
            output.knapsacks@[0]@,
        )
    }

    fn solve(self, problem: BoundedProblem<u32, S>) -> (output: ProblemKnapsacks<u32, S>) {
        let BoundedProblem { items, knapsacks } = problem;
        let mut knapsacks = knapsacks;
        let mut knapsack = knapsacks.knapsacks.pop().unwrap();
        pack_choice(&items, &mut knapsack);
        knapsacks.knapsacks.push(knapsack);
        knapsacks
    }
}

impl Dynamic {
    /// Whether the strategy can take the problem: whether it has exactly one
    /// knapsack and the machine can hold the table and the numbers that come
    /// up.
    pub fn can_solve<const S: usize>(problem: &BoundedProblem<u32, S>) -> (ok: bool)
        requires
            problem.items.wf(),
            problem.knapsacks.wf(),
        ensures
            ok == <Dynamic as BoundedSolver<u32, S>>::solvable(Dynamic, *problem),
    {
        if problem.knapsacks.len() != 1 {
            return false;
        }
        can_solve(&problem.items, problem.knapsacks.get(0))
    }
}

} // verus!
