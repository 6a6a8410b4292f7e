//! What it means to select units of items under a room vector, and the
//! recurrence that gives the best value of a selection.
use vstd::prelude::*;
use crate::sums::{total, lemma_total_update, lemma_total_nonnegative, lemma_total_zero};

verus! {

/// Per item, the value that `counts` units of it contribute.
pub open spec fn value_terms(counts: Seq<u64>, values: Seq<u64>) -> Seq<int> {
    Seq::new(counts.len(), |i: int| counts[i] * values[i])
}

/// Per item, the weight that `counts` units of it contribute in dimension `d`.
pub open spec fn weight_terms(counts: Seq<u64>, weights: Seq<Seq<usize>>, d: int) -> Seq<int> {
    Seq::new(counts.len(), |i: int| counts[i] * weights[i][d])
}

/// The value of a selection: the sum over items of count times value.
pub open spec fn packed_value(counts: Seq<u64>, values: Seq<u64>) -> int {
    total(value_terms(counts, values))
}

/// The weight of a selection in dimension `d`.
pub open spec fn packed_weight(counts: Seq<u64>, weights: Seq<Seq<usize>>, d: int) -> int {
    total(weight_terms(counts, weights, d))
}

/// A selection is feasible when it takes no more units of an item than there
/// are and stays within the room in every dimension.
pub open spec fn feasible(
    weights: Seq<Seq<usize>>,
    quantities: Seq<u64>,
    room: Seq<usize>,
    counts: Seq<u64>,
) -> bool {
    &&& counts.len() == quantities.len()
    &&& forall|i: int| 0 <= i < counts.len() ==> counts[i] <= quantities[i]
    &&& forall|d: int| 0 <= d < room.len() ==> packed_weight(counts, weights, d) <= room[d]
}

/// A selection is optimal when it is feasible and no feasible selection is
/// worth more.
pub open spec fn optimal(
    values: Seq<u64>,
    weights: Seq<Seq<usize>>,
    quantities: Seq<u64>,
    room: Seq<usize>,
    counts: Seq<u64>,
) -> bool {
    &&& feasible(weights, quantities, room, counts)
    &&& forall|other: Seq<u64>| #[trigger]
        feasible(weights, quantities, room, other) ==> packed_value(other, values)
            <= packed_value(counts, values)
}

/// The inputs of a selection problem agree in their lengths.
pub open spec fn well_shaped(
    values: Seq<u64>,
    weights: Seq<Seq<usize>>,
    quantities: Seq<u64>,
    room: Seq<usize>,
) -> bool {
    &&& values.len() == quantities.len()
    &&& weights.len() == quantities.len()
    &&& forall|i: int| 0 <= i < weights.len() ==> (#[trigger] weights[i]).len() == room.len()
}

/// Whether one unit with the given weight fits the room.
pub open spec fn fits(weight: Seq<usize>, room: Seq<usize>) -> bool {
    forall|d: int| 0 <= d < room.len() ==> weight[d] <= room[d]
}

/// The room left after one unit with the given weight went in.
pub open spec fn reduce(room: Seq<usize>, weight: Seq<usize>) -> Seq<usize> {
    Seq::new(room.len(), |d: int| (room[d] - weight[d]) as usize)
}

/// The best value that the units listed in `units` (each by the index of its
/// item) can reach within `room`: the last unit is either left out or, where
/// it fits, put in.
pub open spec fn best(
    values: Seq<u64>,
    weights: Seq<Seq<usize>>,
    units: Seq<usize>,
    room: Seq<usize>,
) -> int
    decreases units.len(),
{
    if units.len() == 0 {
        0
    } else {
        let item = units.last() as int;
        let skip = best(values, weights, units.drop_last(), room);
        if fits(weights[item], room) {
            let take = best(values, weights, units.drop_last(), reduce(room, weights[item]))
                + values[item];
            if take > skip {
                take
            } else {
                skip
            }
        } else {
            skip
        }
    }
}

/// The units of the items, listed item by item: item 0 as often as its
/// quantity says, then item 1, and so on.
pub open spec fn expanded(quantities: Seq<u64>) -> Seq<usize>
    decreases quantities.len(),
{
    if quantities.len() == 0 {
        Seq::empty()
    } else {
        expanded(quantities.drop_last()) + Seq::new(
            quantities.last() as nat,
            |u: int| (quantities.len() - 1) as usize,
        )
    }
}

/// The choice among the best ones that walking back through the recurrence
/// makes, as a count per item: the last unit is taken exactly when the best
/// value with it is not the best value without it, and the walk goes on
/// with the units before it in the room that is left.
pub open spec fn walked_back(
    values: Seq<u64>,
    weights: Seq<Seq<usize>>,
    units: Seq<usize>,
    room: Seq<usize>,
    n: nat,
) -> Seq<int>
    decreases units.len(),
{
    if units.len() == 0 {
        Seq::new(n, |i: int| 0int)
    } else {
        let item = units.last() as int;
        let rest = units.drop_last();
        if best(values, weights, units, room) != best(values, weights, rest, room) && item < n {
            let before = walked_back(values, weights, rest, reduce(room, weights[item]), n);
            before.update(item, before[item] + 1)
        } else {
            walked_back(values, weights, rest, room, n)
        }
    }
}

/// The choice that the exact solver makes: of the best choices, the one
/// that walking back through the recurrence over the units of the items
/// gives.
pub open spec fn chosen(
    values: Seq<u64>,
    weights: Seq<Seq<usize>>,
    quantities: Seq<u64>,
    room: Seq<usize>,
) -> Seq<int> {
    walked_back(values, weights, expanded(quantities), room, quantities.len())
}

pub proof fn lemma_walked_back_len(
    values: Seq<u64>,
    weights: Seq<Seq<usize>>,
    units: Seq<usize>,
    room: Seq<usize>,
    n: nat,
)
    ensures
        walked_back(values, weights, units, room, n).len() == n,
    decreases units.len(),
{
    if units.len() > 0 {
        let item = units.last() as int;
        lemma_walked_back_len(values, weights, units.drop_last(), room, n);
        lemma_walked_back_len(values, weights, units.drop_last(), reduce(room, weights[item]), n);
    }
}

/// How many units of each of `n` items `units` lists.
pub open spec fn tally(units: Seq<usize>, n: nat) -> Seq<int>
    decreases units.len(),
{
    if units.len() == 0 {
        Seq::new(n, |i: int| 0int)
    } else {
        let before = tally(units.drop_last(), n);
        if units.last() < n {
            before.update(units.last() as int, before[units.last() as int] + 1)
        } else {
            before
        }
    }
}

/// The values of the listed units, one term per unit.
pub open spec fn unit_values(values: Seq<u64>, units: Seq<usize>) -> Seq<int> {
    Seq::new(units.len(), |u: int| values[units[u] as int] as int)
}

pub proof fn lemma_tally_len(units: Seq<usize>, n: nat)
    ensures
        tally(units, n).len() == n,
        forall|i: int| 0 <= i < n ==> #[trigger] tally(units, n)[i] >= 0,
    decreases units.len(),
{
    if units.len() > 0 {
        lemma_tally_len(units.drop_last(), n);
    }
}

/// The best value is never negative and never more than all units together
/// are worth.
pub proof fn lemma_best_range(
    values: Seq<u64>,
    weights: Seq<Seq<usize>>,
    units: Seq<usize>,
    room: Seq<usize>,
)
    ensures
        0 <= best(values, weights, units, room) <= total(unit_values(values, units)),
    decreases units.len(),
{
    if units.len() > 0 {
        let rest = units.drop_last();
        let item = units.last() as int;
        lemma_best_range(values, weights, rest, room);
        lemma_best_range(values, weights, rest, reduce(room, weights[item]));
        assert(unit_values(values, units).drop_last() =~= unit_values(values, rest));
    }
}

/// Taking one unit of item `at` out of a selection lowers its value by the
/// item's value and its weight by the item's weight.
pub proof fn lemma_one_unit_less(
    values: Seq<u64>,
    weights: Seq<Seq<usize>>,
    counts: Seq<u64>,
    at: int,
)
    requires
        0 <= at < counts.len(),
        counts[at] >= 1,
    ensures
        packed_value(counts.update(at, (counts[at] - 1) as u64), values) == packed_value(
            counts,
            values,
        ) - values[at],
        forall|d: int|
            #[trigger] packed_weight(counts.update(at, (counts[at] - 1) as u64), weights, d)
                == packed_weight(counts, weights, d) - weights[at][d],
{
    let less = counts.update(at, (counts[at] - 1) as u64);
    let terms = value_terms(counts, values);
    assert(value_terms(less, values) =~= terms.update(at, (counts[at] - 1) * values[at]));
    lemma_total_update(terms, at, (counts[at] - 1) * values[at]);
    assert((counts[at] - 1) * values[at] == counts[at] * values[at] - values[at])
        by (nonlinear_arith);
    assert forall|d: int|
        #[trigger] packed_weight(less, weights, d) == packed_weight(counts, weights, d)
            - weights[at][d] by {
        let terms = weight_terms(counts, weights, d);
        assert(weight_terms(less, weights, d) =~= terms.update(
            at,
            (counts[at] - 1) * weights[at][d],
        ));
        lemma_total_update(terms, at, (counts[at] - 1) * weights[at][d]);
        assert((counts[at] - 1) * weights[at][d] == counts[at] * weights[at][d] - weights[at][d])
            by (nonlinear_arith);
    }
}

/// The weight of a selection is never negative.
pub proof fn lemma_packed_weight_nonnegative(counts: Seq<u64>, weights: Seq<Seq<usize>>, d: int)
    ensures
        packed_weight(counts, weights, d) >= 0,
{
    let terms = weight_terms(counts, weights, d);
    assert forall|i: int| 0 <= i < terms.len() implies terms[i] >= 0 by {
        assert(counts[i] * weights[i][d] >= 0) by (nonlinear_arith)
            requires
                counts[i] >= 0,
                weights[i][d] >= 0,
        ;
    }
    lemma_total_nonnegative(terms);
}

/// No selection that draws on the listed units and stays within the room is
/// worth more than the recurrence says.
pub proof fn lemma_best_dominates(
    values: Seq<u64>,
    weights: Seq<Seq<usize>>,
    units: Seq<usize>,
    room: Seq<usize>,
    counts: Seq<u64>,
)
    requires
        values.len() == counts.len(),
        weights.len() == counts.len(),
        forall|i: int| 0 <= i < weights.len() ==> (#[trigger] weights[i]).len() == room.len(),
        forall|u: int| 0 <= u < units.len() ==> (#[trigger] units[u]) < counts.len(),
        forall|i: int| 0 <= i < counts.len() ==> counts[i] <= #[trigger] tally(units, counts.len())[i],
        forall|d: int| 0 <= d < room.len() ==> packed_weight(counts, weights, d) <= room[d],
    ensures
        packed_value(counts, values) <= best(values, weights, units, room),
    decreases units.len(),
{
    let n = counts.len();
    lemma_tally_len(units, n);
    if units.len() == 0 {
        assert forall|i: int| 0 <= i < n implies value_terms(counts, values)[i] == 0 by {
            assert(counts[i] <= tally(units, n)[i]);
        }
        lemma_total_zero(value_terms(counts, values));
    } else {
        let rest = units.drop_last();
        let at = units.last() as int;
        assert(units[units.len() - 1] < n);
        lemma_tally_len(rest, n);
        let before = tally(rest, n);
        let skip = best(values, weights, rest, room);
        if counts[at] <= before[at] {
            assert forall|i: int| 0 <= i < n implies counts[i] <= #[trigger] tally(rest, n)[i] by {
                assert(counts[i] <= tally(units, n)[i]);
            }
            lemma_best_dominates(values, weights, rest, room, counts);
        } else {
            assert(counts[at] <= tally(units, n)[at]);
            let less = counts.update(at, (counts[at] - 1) as u64);
            lemma_one_unit_less(values, weights, counts, at);
            let smaller = reduce(room, weights[at]);
            assert forall|d: int| 0 <= d < room.len() implies weights[at][d] <= room[d]
                && packed_weight(less, weights, d) <= smaller[d] by {
                lemma_packed_weight_nonnegative(less, weights, d);
                assert(packed_weight(less, weights, d) == packed_weight(counts, weights, d)
                    - weights[at][d]);
            }
            assert(fits(weights[at], room));
            assert forall|i: int| 0 <= i < n implies less[i] <= #[trigger] tally(rest, n)[i] by {
                assert(counts[i] <= tally(units, n)[i]);
            }
            assert(weights[at].len() == room.len());
            lemma_best_dominates(values, weights, rest, smaller, less);
        }
    }
}

} // verus!
