//! From a problem to the numbers the exact solver works on, and from the
//! solver's choice back to what a knapsack holds.
use vstd::prelude::*;
use crate::compatible_problem_type_trait::CompatibleProblemType;
use crate::dynamic_table::{
    cells_needed, lemma_cells_needed_positive, lemma_cells_needed_prefix, rows, table_fits,
    unit_count,
};
use crate::holdings::{
    distinct_keys, find, has_key, lemma_distinct_kept, lemma_find, merged,
};
use crate::item::Item;
use crate::knapsack::{entries_of, KnapsackView};
use crate::selection::{chosen, feasible, optimal, packed_value, value_terms};
use crate::sums::{lemma_total_nonnegative, lemma_total_prefix, lemma_total_take_step, total};

verus! {

/// The value of every entry.
pub open spec fn entry_values(entries: Seq<(Seq<u64>, u64)>) -> Seq<u64> {
    Seq::new(entries.len(), |i: int| entries[i].0[0])
}

/// The weight vector of every entry, in `dims` dimensions.
pub open spec fn entry_weights(entries: Seq<(Seq<u64>, u64)>, dims: nat) -> Seq<Seq<usize>> {
    Seq::new(entries.len(), |i: int| Seq::new(dims, |d: int| entries[i].0[d + 1] as usize))
}

/// The quantity of every entry.
pub open spec fn entry_quantities(entries: Seq<(Seq<u64>, u64)>) -> Seq<u64> {
    Seq::new(entries.len(), |i: int| entries[i].1)
}

/// One unit for each of `n` items.
pub open spec fn single_units(n: nat) -> Seq<u64> {
    Seq::new(n, |i: int| 1u64)
}

/// What a knapsack has free in every dimension.
pub open spec fn free_room(view: KnapsackView) -> Seq<usize> {
    Seq::new(view.capacity.len(), |d: int| (view.capacity[d] - view.weights[d]) as usize)
}

/// The machine can hold the solver's table for these items and this
/// knapsack, and the knapsack's value with all units packed.
pub open spec fn within_limits(
    entries: Seq<(Seq<u64>, u64)>,
    quantities: Seq<u64>,
    view: KnapsackView,
) -> bool {
    &&& table_fits(quantities, free_room(view))
    &&& view.value + packed_value(quantities, entry_values(entries)) <= u64::MAX
}

/// Where the knapsack already holds an item of the problem, its quantity
/// and the problem's together stay within what the quantity type can hold.
pub open spec fn mergeable(
    entries: Seq<(Seq<u64>, u64)>,
    packed: Seq<(Seq<u64>, u64)>,
    limit: u64,
) -> bool {
    forall|i: int|
        0 <= i < entries.len() && find(packed, (#[trigger] entries[i]).0) >= 0 ==> packed[find(
            packed,
            entries[i].0,
        )].1 + entries[i].1 <= limit
}

/// What a merging knapsack holds after the first `upto` items went in with
/// the chosen counts, in the items' order; an item with a count of zero
/// leaves no trace.
pub open spec fn packed_into(
    packed: Seq<(Seq<u64>, u64)>,
    entries: Seq<(Seq<u64>, u64)>,
    counts: Seq<u64>,
    upto: int,
) -> Seq<(Seq<u64>, u64)>
    decreases upto,
{
    if upto <= 0 {
        packed
    } else {
        let before = packed_into(packed, entries, counts, upto - 1);
        if counts[upto - 1] > 0 {
            merged(before, entries[upto - 1].0, counts[upto - 1])
        } else {
            before
        }
    }
}

/// What a listing knapsack holds after the last `done` items were looked at
/// from the last one backwards, each chosen one appended as one unit.
pub open spec fn appended_back(
    packed: Seq<(Seq<u64>, u64)>,
    entries: Seq<(Seq<u64>, u64)>,
    counts: Seq<u64>,
    done: int,
) -> Seq<(Seq<u64>, u64)>
    decreases done,
{
    if done <= 0 {
        packed
    } else {
        let before = appended_back(packed, entries, counts, done - 1);
        let at = entries.len() - done;
        if counts[at] > 0 {
            before.push((entries[at].0, 1u64))
        } else {
            before
        }
    }
}

/// The counts that the exact solver chooses for these items, with these
/// quantities, in this room.
pub open spec fn chosen_counts(
    entries: Seq<(Seq<u64>, u64)>,
    quantities: Seq<u64>,
    room: Seq<usize>,
) -> Seq<u64> {
    Seq::new(
        entries.len(),
        |i: int|
            chosen(entry_values(entries), entry_weights(entries, room.len()), quantities, room)[i] as u64,
    )
}

/// A merging knapsack went from `before` to `after` by taking in the exact
/// solver's choice of the items: a choice that no other choice beats.
pub open spec fn optimally_packed(
    entries: Seq<(Seq<u64>, u64)>,
    before: KnapsackView,
    after: KnapsackView,
) -> bool {
    let counts = chosen_counts(entries, entry_quantities(entries), free_room(before));
    &&& after.capacity == before.capacity
    &&& optimal(
        entry_values(entries),
        entry_weights(entries, before.capacity.len()),
        entry_quantities(entries),
        free_room(before),
        counts,
    )
    &&& after.items == packed_into(before.items, entries, counts, entries.len() as int)
    &&& after.value == before.value + packed_value(counts, entry_values(entries))
}

/// A listing knapsack went from `before` to `after` by taking in, one unit
/// each, the exact solver's choice of the items: a choice that no other
/// choice beats.
pub open spec fn optimally_listed(
    entries: Seq<(Seq<u64>, u64)>,
    before: KnapsackView,
    after: KnapsackView,
) -> bool {
    let counts = chosen_counts(entries, single_units(entries.len()), free_room(before));
    &&& after.capacity == before.capacity
    &&& optimal(
        entry_values(entries),
        entry_weights(entries, before.capacity.len()),
        single_units(entries.len()),
        free_room(before),
        counts,
    )
    &&& after.items == appended_back(before.items, entries, counts, entries.len() as int)
    &&& after.value == before.value + packed_value(counts, entry_values(entries))
}

/// The exact strategy leaves nothing on the table: whatever feasible choice
/// of the items one compares with, the knapsack's value after solving is at
/// least its value before plus the value of that choice.
pub proof fn lemma_no_choice_beats_packed(
    entries: Seq<(Seq<u64>, u64)>,
    before: KnapsackView,
    after: KnapsackView,
    other: Seq<u64>,
)
    requires
        optimally_packed(entries, before, after),
        feasible(
            entry_weights(entries, before.capacity.len()),
            entry_quantities(entries),
            free_room(before),
            other,
        ),
    ensures
        before.value + packed_value(other, entry_values(entries)) <= after.value,
{
}

/// The exact strategy for binary items leaves nothing on the table:
/// whatever feasible choice of whole items one compares with, the knapsack's
/// value after solving is at least its value before plus the value of that
/// choice.
pub proof fn lemma_no_choice_beats_listed(
    entries: Seq<(Seq<u64>, u64)>,
    before: KnapsackView,
    after: KnapsackView,
    other: Seq<u64>,
)
    requires
        optimally_listed(entries, before, after),
        feasible(
            entry_weights(entries, before.capacity.len()),
            single_units(entries.len()),
            free_room(before),
            other,
        ),
    ensures
        before.value + packed_value(other, entry_values(entries)) <= after.value,
{
}

/// Putting units in under one key leaves the entries of every other key as
/// they were.
pub proof fn lemma_merged_other(
    entries: Seq<(Seq<u64>, u64)>,
    key: Seq<u64>,
    amount: u64,
    other: Seq<u64>,
)
    requires
        distinct_keys(entries),
        other != key,
    ensures
        distinct_keys(merged(entries, key, amount)),
        has_key(merged(entries, key, amount), other) == has_key(entries, other),
        has_key(entries, other) ==> merged(entries, key, amount)[find(
            merged(entries, key, amount),
            other,
        )].1 == entries[find(entries, other)].1,
{
    let after = merged(entries, key, amount);
    lemma_distinct_kept(entries, key, amount, 0);
    lemma_find(entries, key);
    lemma_find(entries, other);
    lemma_find(after, other);
    if has_key(entries, other) {
        let at = find(entries, other);
        assert(after[at].0 == other);
    }
    if has_key(after, other) {
        let at = find(after, other);
        assert(after[at].0 == other);
        assert(at < entries.len());
        assert(entries[at].0 == other);
    }
}

/// Packing items leaves the entries of every key that is not among them as
/// they were.
pub proof fn lemma_packed_other(
    packed: Seq<(Seq<u64>, u64)>,
    entries: Seq<(Seq<u64>, u64)>,
    counts: Seq<u64>,
    upto: int,
    other: Seq<u64>,
)
    requires
        distinct_keys(packed),
        0 <= upto <= entries.len(),
        forall|j: int| 0 <= j < upto ==> (#[trigger] entries[j]).0 != other,
    ensures
        distinct_keys(packed_into(packed, entries, counts, upto)),
        has_key(packed_into(packed, entries, counts, upto), other) == has_key(packed, other),
        has_key(packed, other) ==> packed_into(packed, entries, counts, upto)[find(
            packed_into(packed, entries, counts, upto),
            other,
        )].1 == packed[find(packed, other)].1,
    decreases upto,
{
    if upto > 0 {
        lemma_packed_other(packed, entries, counts, upto - 1, other);
        let before = packed_into(packed, entries, counts, upto - 1);
        assert(entries[upto - 1].0 != other);
        lemma_merged_other(before, entries[upto - 1].0, counts[upto - 1], other);
    }
}

/// The numbers of a list of items, as the exact solver takes them.
pub struct Tabulated {
    pub values: Vec<u64>,
    pub weights: Vec<Vec<usize>>,
    pub quantities: Vec<u64>,
}

/// Reads the values, the weight vectors and the quantities off a list of
/// items.
pub fn tabulate<T, const S: usize>(items: &Vec<Item<T, S>>) -> (numbers: Tabulated) where
    T: CompatibleProblemType,

    ensures
        numbers.values@ == entry_values(entries_of(items@)),
        rows(&numbers.weights) == entry_weights(entries_of(items@), S as nat),
        numbers.quantities@ == entry_quantities(entries_of(items@)),
{
    let ghost entries = entries_of(items@);
    let mut values: Vec<u64> = Vec::new();
    let mut weights: Vec<Vec<usize>> = Vec::new();
    let mut quantities: Vec<u64> = Vec::new();
    let mut i: usize = 0;
    while i < items.len()
        invariant
            i <= items@.len(),
            entries == entries_of(items@),
            values@.len() == i,
            weights@.len() == i,
            quantities@.len() == i,
            forall|k: int| 0 <= k < i ==> #[trigger] values@[k] == entries[k].0[0],
            forall|k: int| 0 <= k < i ==> #[trigger] quantities@[k] == entries[k].1,
            forall|k: int|
                0 <= k < i ==> (#[trigger] weights@[k])@ == entry_weights(entries, S as nat)[k],
        decreases items@.len() - i,
    {
        let item = items[i];
        let mut row: Vec<usize> = Vec::new();
        let mut d: usize = 0;
        while d < S
            invariant
                d <= S,
                item == items@[i as int],
                row@.len() == d,
                forall|k: int| 0 <= k < d ==> #[trigger] row@[k] == item.weights@[k].key_spec() as usize,
            decreases S - d,
        {
            proof {
                T::lemma_key_bounds(item.weights@[d as int]);
            }
            row.push(T::type_to_key(item.weights[d]) as usize);
            d = d + 1;
        }
        proof {
            assert(row@ =~= entry_weights(entries, S as nat)[i as int]);
        }
        values.push(item.value);
        weights.push(row);
        quantities.push(T::type_to_key(item.quantity));
        i = i + 1;
    }
    proof {
        assert(values@ =~= entry_values(entries));
        assert(quantities@ =~= entry_quantities(entries));
        assert(rows(&weights) =~= entry_weights(entries, S as nat));
    }
    Tabulated { values: values, weights: weights, quantities: quantities }
}

/// The free room of a knapsack as table indices.
pub(crate) fn room_axes(room: &Vec<u64>, Ghost(view): Ghost<KnapsackView>) -> (axes: Vec<usize>)
    requires
        room@.len() == view.capacity.len(),
        forall|d: int|
            0 <= d < room@.len() ==> #[trigger] room@[d] == view.capacity[d] - view.weights[d],
        forall|d: int| 0 <= d < room@.len() ==> #[trigger] room@[d] <= u32::MAX,
    ensures
        axes@ == free_room(view),
{
    let mut axes: Vec<usize> = Vec::new();
    let mut d: usize = 0;
    while d < room.len()
        invariant
            d <= room@.len(),
            axes@.len() == d,
            forall|k: int| 0 <= k < room@.len() ==> #[trigger] room@[k] <= u32::MAX,
            forall|k: int| 0 <= k < d ==> #[trigger] axes@[k] == room@[k],
        decreases room@.len() - d,
    {
        assert(room@[d as int] <= u32::MAX);
        axes.push(room[d] as usize);
        d = d + 1;
    }
    proof {
        assert(axes@ =~= free_room(view));
    }
    axes
}

/// Whether the machine can hold the solver's table for these quantities and
/// this room, and the value `value` with all units packed on top of it.
pub fn limits_hold(values: &Vec<u64>, quantities: &Vec<u64>, room: &Vec<usize>, value: u64) -> (ok:
    bool)
    requires
        values@.len() == quantities@.len(),
    ensures
        ok == (table_fits(quantities@, room@) && value + packed_value(quantities@, values@)
            <= u64::MAX),
{
    let ghost amounts = Seq::new(quantities@.len(), |i: int| quantities@[i] as int);
    let ghost worth = value_terms(quantities@, values@);
    let most: u128 = (isize::MAX as u128) / 8;
    proof {
        lemma_total_nonnegative(amounts);
        assert forall|k: int| 0 <= k < worth.len() implies worth[k] >= 0 by {
            assert(quantities@[k] * values@[k] >= 0) by (nonlinear_arith)
                requires
                    quantities@[k] >= 0,
                    values@[k] >= 0,
            ;
        }
        lemma_total_nonnegative(worth);
        lemma_cells_needed_positive(unit_count(quantities@), room@);
        assert(amounts.take(0) =~= Seq::<int>::empty());
        assert(worth.take(0) =~= Seq::<int>::empty());
    }
    let mut units: u128 = 0;
    let mut gain: u128 = 0;
    let mut i: usize = 0;
    while i < quantities.len()
        invariant
            i <= quantities@.len(),
            values@.len() == quantities@.len(),
            amounts == Seq::new(quantities@.len(), |i: int| quantities@[i] as int),
            worth == value_terms(quantities@, values@),
            forall|k: int| 0 <= k < amounts.len() ==> amounts[k] >= 0,
            forall|k: int| 0 <= k < worth.len() ==> worth[k] >= 0,
            units == total(amounts.take(i as int)),
            gain == total(worth.take(i as int)),
            units <= most,
            gain <= u64::MAX,
            most == (isize::MAX as u128) / 8,
        decreases quantities@.len() - i,
    {
        proof {
            lemma_total_take_step(amounts, i as int);
            lemma_total_take_step(worth, i as int);
            lemma_total_prefix(amounts, i + 1);
            lemma_total_prefix(worth, i + 1);
            assert(quantities@[i as int] * values@[i as int] <= 0xffff_ffff_ffff_ffff
                * 0xffff_ffff_ffff_ffff) by (nonlinear_arith)
                requires
                    0 <= quantities@[i as int] <= 0xffff_ffff_ffff_ffff,
                    0 <= values@[i as int] <= 0xffff_ffff_ffff_ffff,
            ;
        }
        units = units + quantities[i] as u128;
        gain = gain + (quantities[i] as u128) * (values[i] as u128);
        if units > most || gain > u64::MAX as u128 {
            proof {
                assert(units <= unit_count(quantities@));
                assert(gain <= packed_value(quantities@, values@));
                lemma_total_nonnegative(amounts);
                lemma_cells_needed_positive(unit_count(quantities@), room@);
            }
            return false;
        }
        i = i + 1;
    }
    proof {
        assert(amounts.take(i as int) =~= amounts);
        assert(worth.take(i as int) =~= worth);
        assert(room@.take(0) =~= Seq::<usize>::empty());
    }
    if gain + value as u128 > u64::MAX as u128 {
        return false;
    }
    if units + 1 > most {
        return false;
    }
    let mut cells: u128 = units + 1;
    let mut d: usize = 0;
    while d < room.len()
        invariant
            d <= room@.len(),
            units == unit_count(quantities@),
            cells == cells_needed(units as int, room@.take(d as int)),
            1 <= cells <= most,
            most == (isize::MAX as u128) / 8,
        decreases room@.len() - d,
    {
        proof {
            lemma_cells_needed_prefix(units as int, room@, d as int);
            let next = room@.take(d + 1);
            assert(next.drop_last() =~= room@.take(d as int));
            assert(next.last() == room@[d as int]);
            assert((room@[d as int] + 1) * cells <= 0x1_0000_0000_0000_0000 * 0x1_0000_0000_0000_0000)
                by (nonlinear_arith)
                requires
                    0 <= room@[d as int] + 1 <= 0x1_0000_0000_0000_0000,
                    0 <= cells <= 0x1_0000_0000_0000_0000,
            ;
            assert((room@[d as int] + 1) * cells == cells * (room@[d as int] + 1))
                by (nonlinear_arith);
        }
        let width: u128 = room[d] as u128 + 1;
        let share: u128 = most / width;
        proof {
            vstd::arithmetic::div_mod::lemma_fundamental_div_mod(most as int, width as int);
            vstd::arithmetic::div_mod::lemma_mod_bound(most as int, width as int);
            assert(most == width * share + most % width);
        }
        if cells > share {
            proof {
                assert(cells * width >= (share + 1) * width) by (nonlinear_arith)
                    requires
                        cells >= share + 1,
                        width >= 1,
                ;
                assert((share + 1) * width == width * share + width) by (nonlinear_arith);
                assert(cells_needed(units as int, room@.take(d + 1)) > most);
            }
            return false;
        }
        proof {
            assert(cells * width <= share * width) by (nonlinear_arith)
                requires
                    0 <= cells <= share,
                    width >= 1,
            ;
            assert(share * width == width * share) by (nonlinear_arith);
            assert(cells * width >= 1) by (nonlinear_arith)
                requires
                    cells >= 1,
                    width >= 1,
            ;
        }
        cells = cells * width;
        d = d + 1;
    }
    proof {
        assert(room@.take(d as int) =~= room@);
    }
    true
}

} // verus!
