//! The exact strategy for a binary problem with a single knapsack.
use vstd::prelude::*;
use crate::compatible_problem_type_trait::CompatibleProblemType;
use crate::dynamic_table::optimal_counts;
use crate::holdings::{held, lemma_held_pushed};
use crate::item::{BinaryProblemItems, Item};
use crate::knapsack::{entries_of, BinaryProblemKnapsacks, KnapsackBinary};
use crate::packing::{
    appended_back, chosen_counts, entry_values, entry_weights, free_room, limits_hold,
    optimally_listed, room_axes, single_units, tabulate, within_limits,
};
use crate::problem_type::{BinaryProblem, BinarySolver};
use crate::selection::{optimal, packed_value, packed_weight, value_terms, weight_terms};
use crate::sums::{lemma_total_monotone, lemma_total_prefix, lemma_total_take_step, total};

verus! {

/// The exact strategy: dynamic programming over the items and the free room
/// of the one knapsack.
#[derive(Clone, Copy, PartialEq, Debug)]
pub struct Dynamic;

/// Packs into the knapsack, one unit each, a choice of the items that no
/// other choice beats: of all ways to take items as a whole and to stay
/// within the knapsack's free room, one that is worth most. The chosen
/// items go in from the last of the list to the first. The list itself is
/// left as it is: solving a problem on the caller's own list is what draws
/// from it.
pub fn dynamic<T, const S: usize>(
    items: &BinaryProblemItems<T, S>,
    knapsack: &mut KnapsackBinary<T, S>,
) where T: CompatibleProblemType
    requires
        old(knapsack).wf(),
        within_limits(entries_of(items@), single_units(items@.len()), old(knapsack)@),
    ensures
        final(knapsack).wf(),
        optimally_listed(entries_of(items@), old(knapsack)@, final(knapsack)@),
{
    let ghost before = knapsack@;
    let ghost entries = entries_of(items@);
    let ghost all_values = entry_values(entries);
    let ghost all_weights = entry_weights(entries, S as nat);
    let ghost free = free_room(before);
    let list = items.iter();
    let n = list.len();
    proof {
        knapsack.lemma_view_bounds();
    }
    let numbers = tabulate(&list);
    let mut ones: Vec<u64> = Vec::new();
    let mut k: usize = 0;
    while k < n
        invariant
            k <= n,
            ones@.len() == k,
            forall|j: int| 0 <= j < k ==> ones@[j] == 1,
        decreases n - k,
    {
        ones.push(1);
        k = k + 1;
    }
    let ghost units = single_units(n as nat);
    proof {
        assert(ones@ =~= units);
    }
    let room = knapsack.room();
    let axes = room_axes(&room, Ghost(before));
    let counts = optimal_counts(&numbers.values, &numbers.weights, &ones, &axes);
    proof {
        assert(free.len() == before.capacity.len());
        assert(counts@ =~= chosen_counts(entries, units, free));
    }
    let ghost worth = value_terms(counts@, all_values);
    proof {
        assert(worth.take(n as int) =~= worth);
        assert forall|d: int| 0 <= d < S implies #[trigger] knapsack@.weights[d] == before.weights[d]
            + total(weight_terms(counts@, all_weights, d)) - total(
            weight_terms(counts@, all_weights, d).take(n as int),
        ) by {
            assert(weight_terms(counts@, all_weights, d).take(n as int) =~= weight_terms(
                counts@,
                all_weights,
                d,
            ));
        }
    }
    let mut done: usize = 0;
    while done < n
        invariant
            done <= n,
            n == list@.len(),
            n == entries.len(),
            list@ == items@,
            entries == entries_of(items@),
            all_values == entry_values(entries),
            all_weights == entry_weights(entries, S as nat),
            units == single_units(n as nat),
            worth == value_terms(counts@, all_values),
            free == free_room(before),
            before.capacity.len() == S,
            before.weights.len() == S,
            forall|d: int| 0 <= d < S ==> #[trigger] before.capacity[d] <= T::key_limit(),
            forall|d: int| 0 <= d < S ==> #[trigger] before.weights[d] <= before.capacity[d],
            T::key_limit() <= u32::MAX,
            optimal(all_values, all_weights, units, free, counts@),
            before.value + packed_value(units, all_values) <= u64::MAX,
            knapsack.wf(),
            knapsack@.capacity == before.capacity,
            knapsack@.items == appended_back(before.items, entries, counts@, done as int),
            knapsack@.value == before.value + total(worth) - total(worth.take(n - done)),
            forall|d: int|
                0 <= d < S ==> #[trigger] knapsack@.weights[d] == before.weights[d] + total(
                    weight_terms(counts@, all_weights, d),
                ) - total(weight_terms(counts@, all_weights, d).take(n - done)),
        decreases n - done,
    {
        let at = n - done - 1;
        let count = counts[at];
        let ghost key = entries[at as int].0;
        let ghost current = knapsack@;
        proof {
            assert(counts@[at as int] <= units[at as int]);
            assert forall|k: int| 0 <= k < worth.len() implies worth[k] >= 0 && worth[k]
                <= value_terms(units, all_values)[k] by {
                assert(counts@[k] <= units[k]);
                assert(0 <= counts@[k] * all_values[k] <= units[k] * all_values[k])
                    by (nonlinear_arith)
                    requires
                        0 <= counts@[k] <= units[k],
                        0 <= all_values[k],
                ;
            }
            lemma_total_monotone(worth, value_terms(units, all_values));
            lemma_total_prefix(worth, at as int);
            lemma_total_take_step(worth, at as int);
            assert(all_values[at as int] == key[0]);
            assert(counts@[at as int] * all_values[at as int] == key[0] * count)
                by (nonlinear_arith)
                requires
                    counts@[at as int] == count,
                    all_values[at as int] == key[0],
            ;
            assert forall|d: int| 0 <= d < S implies current.weights[d] + #[trigger] key[d + 1]
                * count <= current.capacity[d] && weight_terms(counts@, all_weights, d)[at as int]
                == key[d + 1] * count by {
                let heavy = weight_terms(counts@, all_weights, d);
                assert forall|k: int| 0 <= k < heavy.len() implies heavy[k] >= 0 by {
                    assert(counts@[k] * all_weights[k][d] >= 0) by (nonlinear_arith)
                        requires
                            counts@[k] >= 0,
                            all_weights[k][d] >= 0,
                    ;
                }
                lemma_total_prefix(heavy, at as int);
                lemma_total_take_step(heavy, at as int);
                T::lemma_key_bounds(items@[at as int].weights@[d]);
                assert(key[d + 1] == items@[at as int].weights@[d].key_spec());
                assert(all_weights[at as int][d] == key[d + 1]);
                assert(counts@[at as int] * all_weights[at as int][d] == key[d + 1] * count)
                    by (nonlinear_arith)
                    requires
                        counts@[at as int] == count,
                        all_weights[at as int][d] == key[d + 1],
                ;
                assert(packed_weight(counts@, all_weights, d) <= free[d]);
                assert(free[d] == before.capacity[d] - before.weights[d]);
            }
        }
        if count > 0 {
            let item = Item::<T, S> {
                value: list[at].value,
                weights: list[at].weights,
                quantity: T::identity(),
            };
            proof {
                assert(item.key_spec() =~= key);
                assert(count == 1);
                lemma_held_pushed(current.items, key, 1, 0);
                assert forall|d: int| 0 <= d < S implies held(
                    current.items.push((key, 1u64)),
                    d + 1,
                ) == #[trigger] held(current.items, d + 1) + key[d + 1] * 1 by {
                    lemma_held_pushed(current.items, key, 1, d + 1);
                }
            }
            let added = knapsack.add(item);
            proof {
                assert(added);
                assert(current.value == held(current.items, 0));
                assert(knapsack@.value == held(knapsack@.items, 0));
                assert forall|d: int| 0 <= d < S implies #[trigger] knapsack@.weights[d]
                    == before.weights[d] + total(weight_terms(counts@, all_weights, d)) - total(
                    weight_terms(counts@, all_weights, d).take(at as int),
                ) by {
                    assert(current.weights[d] == held(current.items, d + 1));
                    assert(knapsack@.weights[d] == held(knapsack@.items, d + 1));
                    assert(weight_terms(counts@, all_weights, d)[at as int] == key[d + 1] * count);
                    lemma_total_take_step(weight_terms(counts@, all_weights, d), at as int);
                }
            }
        } else {
            proof {
                assert(key[0] * count == 0) by (nonlinear_arith)
                    requires
                        count == 0,
                ;
                assert forall|d: int| 0 <= d < S implies #[trigger] knapsack@.weights[d]
                    == before.weights[d] + total(weight_terms(counts@, all_weights, d)) - total(
                    weight_terms(counts@, all_weights, d).take(at as int),
                ) by {
                    assert(weight_terms(counts@, all_weights, d)[at as int] == key[d + 1] * count);
                    assert(key[d + 1] * count == 0) by (nonlinear_arith)
                        requires
                            count == 0,
                    ;
                    lemma_total_take_step(weight_terms(counts@, all_weights, d), at as int);
                }
            }
        }
        done = done + 1;
    }
    proof {
        assert(worth.take(0) =~= Seq::<int>::empty());
    }
}

/// Whether `dynamic` can take these items and this knapsack: whether the
/// machine can hold the table and the numbers that come up.
pub fn can_solve<T, const S: usize>(
    items: &BinaryProblemItems<T, S>,
    knapsack: &KnapsackBinary<T, S>,
) -> (ok: bool) where T: CompatibleProblemType
    requires
        knapsack.wf(),
    ensures
        ok == within_limits(entries_of(items@), single_units(items@.len()), knapsack@),
{
    let list = items.iter();
    let n = list.len();
    proof {
        knapsack.lemma_view_bounds();
    }
    let numbers = tabulate(&list);
    let mut ones: Vec<u64> = Vec::new();
    let mut k: usize = 0;
    while k < n
        invariant
            k <= n,
            ones@.len() == k,
            forall|j: int| 0 <= j < k ==> ones@[j] == 1,
        decreases n - k,
    {
        ones.push(1);
        k = k + 1;
    }
    proof {
        assert(ones@ =~= single_units(n as nat));
    }
    let room = knapsack.room();
    let axes = room_axes(&room, Ghost(knapsack@));
    limits_hold(&numbers.values, &ones, &axes, knapsack.value())
}

/// Packs an optimal choice of the items into the knapsack where the machine
/// can hold the table and the numbers that come up, and changes nothing
/// where it cannot.
pub fn try_dynamic<T, const S: usize>(
    items: &BinaryProblemItems<T, S>,
    knapsack: &mut KnapsackBinary<T, S>,
) -> (solved: bool) where T: CompatibleProblemType
    requires
        old(knapsack).wf(),
    ensures
        final(knapsack).wf(),
        solved == within_limits(entries_of(items@), single_units(items@.len()), old(knapsack)@),
        solved ==> optimally_listed(entries_of(items@), old(knapsack)@, final(knapsack)@),
        !solved ==> final(knapsack)@ == old(knapsack)@,
{
    if can_solve(items, knapsack) {
        dynamic(items, knapsack);
        true
    } else {
        false
    }
}

impl Dynamic {
    /// Whether the strategy can take the problem: whether it has exactly one
    /// knapsack and the machine can hold the table and the numbers that come
    /// up.
    pub fn can_solve<const S: usize>(problem: &BinaryProblem<u32, S>) -> (ok: bool)
        requires
            problem.knapsacks.wf(),
        ensures
            ok == <Dynamic as BinarySolver<u32, S>>::solvable(Dynamic, *problem),
    {
        if problem.knapsacks.len() != 1 {
            return false;
        }
        can_solve(&problem.items, problem.knapsacks.get(0))
    }
}

impl<const S: usize> BinarySolver<u32, S> for Dynamic {
    type Output = BinaryProblemKnapsacks<u32, S>;

    /// The problem has exactly one knapsack, and the machine can hold the
    /// table and the numbers that come up.
    open spec fn solvable(self, problem: BinaryProblem<u32, S>) -> bool {
        &&& problem.knapsacks.wf()
        &&& problem.knapsacks.knapsacks@.len() == 1
        &&& within_limits(
            entries_of(problem.items@),
            single_units(problem.items@.len()),
            problem.knapsacks.knapsacks@[0]@,
        )
    }

    /// The one knapsack took in, one unit each, a choice of the items that
    /// no other choice beats.
    open spec fn solved(
        self,
        problem: BinaryProblem<u32, S>,
        output: BinaryProblemKnapsacks<u32, S>,
    ) -> bool {
        &&& output.wf()
        &&& output.knapsacks@.len() == 1
        &&& optimally_listed(
            entries_of(problem.items@),
            problem.knapsacks.knapsacks@[0]@,
            output.knapsacks@[0]@,
        )
    }

    fn solve(self, problem: BinaryProblem<u32, S>) -> (output: BinaryProblemKnapsacks<u32, S>) {
        let BinaryProblem { items, knapsacks } = problem;
        let mut knapsacks = knapsacks;
        let mut knapsack = knapsacks.knapsacks.pop().unwrap();
        dynamic(&items, &mut knapsack);
        knapsacks.knapsacks.push(knapsack);
        knapsacks
    }
}

} // verus!
