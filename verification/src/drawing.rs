//! What solving on the caller's own items leaves of them: of every item
//! exactly what the solver did not pack.
use vstd::prelude::*;
use crate::holdings::{
    distinct_keys, drawn, drawn_gains, find, gained, has_key, lemma_distinct_kept, lemma_find,
    lowered, merged,
};
use crate::knapsack::KnapsackView;
use crate::packing::{
    chosen_counts, entry_quantities, free_room, lemma_merged_other, mergeable, optimally_packed,
    packed_into,
};
use crate::problem_type::drawn_all;

verus! {

/// The quantity held under a key; none where no entry has the key.
pub open spec fn amount_under(entries: Seq<(Seq<u64>, u64)>, key: Seq<u64>) -> int {
    if has_key(entries, key) {
        entries[find(entries, key)].1 as int
    } else {
        0
    }
}

/// What the counts of the first `upto` items put in under a key.
pub open spec fn put_under(
    entries: Seq<(Seq<u64>, u64)>,
    counts: Seq<u64>,
    key: Seq<u64>,
    upto: int,
) -> int
    decreases upto,
{
    if upto <= 0 {
        0
    } else {
        put_under(entries, counts, key, upto - 1) + if entries[upto - 1].0 == key {
            counts[upto - 1] as int
        } else {
            0
        }
    }
}

/// What is left of every item after the chosen counts were taken.
pub open spec fn left_over(entries: Seq<(Seq<u64>, u64)>, counts: Seq<u64>) -> Seq<(Seq<u64>, u64)> {
    Seq::new(entries.len(), |i: int| (entries[i].0, (entries[i].1 - counts[i]) as u64))
}

/// Among distinct keys, the counts put in under the key of item `at` are
/// that item's count, once the item is among those counted.
pub proof fn lemma_put_under_own(
    entries: Seq<(Seq<u64>, u64)>,
    counts: Seq<u64>,
    at: int,
    upto: int,
)
    requires
        distinct_keys(entries),
        0 <= at < entries.len(),
        0 <= upto <= entries.len(),
    ensures
        put_under(entries, counts, entries[at].0, upto) == if at < upto {
            counts[at] as int
        } else {
            0
        },
    decreases upto,
{
    if upto > 0 {
        lemma_put_under_own(entries, counts, at, upto - 1);
        if upto - 1 != at {
            if upto - 1 < at {
                assert(entries[upto - 1].0 != entries[at].0);
            } else {
                assert(entries[at].0 != entries[upto - 1].0);
            }
        }
    }
}

/// Putting units in under a key adds them to what is held under it.
pub proof fn lemma_merged_same(entries: Seq<(Seq<u64>, u64)>, key: Seq<u64>, amount: u64)
    requires
        distinct_keys(entries),
        amount_under(entries, key) + amount <= u64::MAX,
    ensures
        has_key(merged(entries, key, amount), key),
        amount_under(merged(entries, key, amount), key) == amount_under(entries, key) + amount,
{
    let after = merged(entries, key, amount);
    lemma_find(entries, key);
    lemma_distinct_kept(entries, key, amount, 0);
    if find(entries, key) >= 0 {
        assert(after[find(entries, key)].0 == key);
    } else {
        assert(after[entries.len() as int].0 == key);
    }
    lemma_find(after, key);
}

/// After the first `upto` items went in with their counts, a key holds what
/// it held before and what the counts put in under it.
pub proof fn lemma_packed_amounts(
    packed: Seq<(Seq<u64>, u64)>,
    entries: Seq<(Seq<u64>, u64)>,
    counts: Seq<u64>,
    key: Seq<u64>,
    upto: int,
)
    requires
        distinct_keys(packed),
        distinct_keys(entries),
        0 <= upto <= entries.len(),
        forall|i: int|
            0 <= i < entries.len() ==> amount_under(packed, (#[trigger] entries[i]).0) + counts[i]
                <= u64::MAX,
    ensures
        distinct_keys(packed_into(packed, entries, counts, upto)),
        amount_under(packed_into(packed, entries, counts, upto), key) == amount_under(packed, key)
            + put_under(entries, counts, key, upto),
        has_key(packed_into(packed, entries, counts, upto), key) ==> has_key(packed, key)
            || put_under(entries, counts, key, upto) > 0,
    decreases upto,
{
    if upto > 0 {
        lemma_packed_amounts(packed, entries, counts, key, upto - 1);
        let before = packed_into(packed, entries, counts, upto - 1);
        let own = entries[upto - 1].0;
        let count = counts[upto - 1];
        if count > 0 {
            lemma_distinct_kept(before, own, count, 0);
            if own == key {
                lemma_put_under_own(entries, counts, upto - 1, upto - 1);
                lemma_merged_same(before, own, count);
            } else {
                lemma_merged_other(before, own, count, key);
            }
        }
    }
}

/// What an entry of the knapsack gained while the items went in is what the
/// counts put in under its key.
pub proof fn lemma_gained_is_put(
    packed: Seq<(Seq<u64>, u64)>,
    entries: Seq<(Seq<u64>, u64)>,
    counts: Seq<u64>,
    at: int,
)
    requires
        distinct_keys(packed),
        distinct_keys(entries),
        counts.len() == entries.len(),
        forall|i: int|
            0 <= i < entries.len() ==> amount_under(packed, (#[trigger] entries[i]).0) + counts[i]
                <= u64::MAX,
        0 <= at < packed_into(packed, entries, counts, entries.len() as int).len(),
    ensures
        gained(packed, packed_into(packed, entries, counts, entries.len() as int), at)
            == put_under(
            entries,
            counts,
            packed_into(packed, entries, counts, entries.len() as int)[at].0,
            entries.len() as int,
        ),
{
    let after = packed_into(packed, entries, counts, entries.len() as int);
    let key = after[at].0;
    lemma_packed_amounts(packed, entries, counts, key, entries.len() as int);
    lemma_find(after, key);
    lemma_find(packed, key);
    lemma_put_under_nonnegative(entries, counts, key, entries.len() as int);
}

/// Counts put in are never negative.
pub proof fn lemma_put_under_nonnegative(
    entries: Seq<(Seq<u64>, u64)>,
    counts: Seq<u64>,
    key: Seq<u64>,
    upto: int,
)
    ensures
        put_under(entries, counts, key, upto) >= 0,
    decreases upto,
{
    if upto > 0 {
        lemma_put_under_nonnegative(entries, counts, key, upto - 1);
    }
}

/// The stock after the gains of the first `upto` entries of the knapsack
/// were drawn: every item has its key, and its quantity less its count
/// where its key is among those entries.
pub open spec fn drawn_so_far(
    entries: Seq<(Seq<u64>, u64)>,
    counts: Seq<u64>,
    after: Seq<(Seq<u64>, u64)>,
    upto: int,
) -> Seq<(Seq<u64>, u64)> {
    Seq::new(
        entries.len(),
        |i: int|
            (
                entries[i].0,
                if has_key(after.take(upto), entries[i].0) {
                    (entries[i].1 - counts[i]) as u64
                } else {
                    entries[i].1
                },
            ),
    )
}

proof fn lemma_drawn_so_far(
    packed: Seq<(Seq<u64>, u64)>,
    entries: Seq<(Seq<u64>, u64)>,
    counts: Seq<u64>,
    upto: int,
)
    requires
        distinct_keys(packed),
        distinct_keys(entries),
        counts.len() == entries.len(),
        forall|i: int| 0 <= i < entries.len() ==> counts[i] <= (#[trigger] entries[i]).1,
        forall|i: int|
            0 <= i < entries.len() ==> amount_under(packed, (#[trigger] entries[i]).0) + counts[i]
                <= u64::MAX,
        0 <= upto <= packed_into(packed, entries, counts, entries.len() as int).len(),
    ensures
        drawn_gains(
            entries,
            packed,
            packed_into(packed, entries, counts, entries.len() as int),
            upto,
        ) == drawn_so_far(
            entries,
            counts,
            packed_into(packed, entries, counts, entries.len() as int),
            upto,
        ),
    decreases upto,
{
    let n = entries.len() as int;
    let after = packed_into(packed, entries, counts, n);
    if upto == 0 {
        assert forall|i: int| 0 <= i < n implies !has_key(after.take(0), entries[i].0) by {}
        assert(drawn_so_far(entries, counts, after, 0) =~= entries);
    } else {
        lemma_drawn_so_far(packed, entries, counts, upto - 1);
        let stock = drawn_so_far(entries, counts, after, upto - 1);
        let key = after[upto - 1].0;
        let gain = gained(packed, after, upto - 1);
        lemma_gained_is_put(packed, entries, counts, upto - 1);
        lemma_packed_amounts(packed, entries, counts, key, n);
        let next = drawn(stock, key, gain);
        let goal = drawn_so_far(entries, counts, after, upto);
        assert(distinct_keys(stock)) by {
            assert forall|i: int, j: int| 0 <= i < j < stock.len() implies (#[trigger] stock[i]).0
                != (#[trigger] stock[j]).0 by {
                assert(entries[i].0 != entries[j].0);
            }
        }
        lemma_find(stock, key);
        lemma_find(entries, key);
        // the key was not among the entries before this one
        assert(!has_key(after.take(upto - 1), key)) by {
            if has_key(after.take(upto - 1), key) {
                let earlier = find(after.take(upto - 1), key);
                lemma_find(after.take(upto - 1), key);
                assert(after[earlier].0 == key);
                assert(after[earlier].0 != after[upto - 1].0);
            }
        }
        assert forall|i: int| 0 <= i < n implies has_key(after.take(upto), entries[i].0) == (
        has_key(after.take(upto - 1), entries[i].0) || entries[i].0 == key) by {
            let own = entries[i].0;
            if has_key(after.take(upto - 1), own) {
                let earlier = find(after.take(upto - 1), own);
                lemma_find(after.take(upto - 1), own);
                assert(after.take(upto)[earlier].0 == own);
            }
            if own == key {
                assert(after.take(upto)[upto - 1].0 == own);
            }
            if has_key(after.take(upto), own) {
                let place = find(after.take(upto), own);
                lemma_find(after.take(upto), own);
                if place < upto - 1 {
                    assert(after.take(upto - 1)[place].0 == own);
                }
            }
        }
        if find(stock, key) >= 0 {
            let at = find(stock, key);
            assert(stock[at].0 == entries[at].0);
            lemma_put_under_own(entries, counts, at, n);
            assert(gain == counts[at]);
            assert(stock[at].1 == entries[at].1);
            assert(next == lowered(stock, at, gain));
            assert forall|i: int| 0 <= i < n implies next[i] == goal[i] by {
                if i != at {
                    if i < at {
                        assert(entries[i].0 != entries[at].0);
                    } else {
                        assert(entries[at].0 != entries[i].0);
                    }
                }
            }
            assert(next =~= goal);
        } else {
            assert forall|i: int| 0 <= i < n implies entries[i].0 != key by {
                assert(stock[i].0 == entries[i].0);
            }
            assert(next == stock);
            assert(next =~= goal);
        }
    }
}

/// Solving on the caller's own items leaves of every item exactly what was
/// not packed: where a merging knapsack took the items in with the chosen
/// counts, drawing what its entries gained from the items leaves each item
/// its quantity less its count.
pub proof fn lemma_drawing_leaves_the_rest(
    packed: Seq<(Seq<u64>, u64)>,
    entries: Seq<(Seq<u64>, u64)>,
    counts: Seq<u64>,
)
    requires
        distinct_keys(packed),
        distinct_keys(entries),
        counts.len() == entries.len(),
        forall|i: int| 0 <= i < entries.len() ==> counts[i] <= (#[trigger] entries[i]).1,
        forall|i: int|
            0 <= i < entries.len() ==> amount_under(packed, (#[trigger] entries[i]).0) + counts[i]
                <= u64::MAX,
    ensures
        drawn_gains(
            entries,
            packed,
            packed_into(packed, entries, counts, entries.len() as int),
            packed_into(packed, entries, counts, entries.len() as int).len() as int,
        ) == left_over(entries, counts),
{
    let n = entries.len() as int;
    let after = packed_into(packed, entries, counts, n);
    lemma_drawn_so_far(packed, entries, counts, after.len() as int);
    assert(after.take(after.len() as int) =~= after);
    assert forall|i: int| 0 <= i < n implies drawn_so_far(entries, counts, after, after.len() as int)[i]
        == left_over(entries, counts)[i] by {
        let own = entries[i].0;
        lemma_packed_amounts(packed, entries, counts, own, n);
        lemma_put_under_own(entries, counts, i, n);
        if counts[i] > 0 && !has_key(after, own) {
            assert(amount_under(after, own) == 0);
            assert(amount_under(packed, own) >= 0);
        }
    }
    assert(drawn_so_far(entries, counts, after, after.len() as int) =~= left_over(entries, counts));
}

/// Solving a problem with one knapsack on the caller's own items: where the
/// knapsack took the items in with the chosen counts, the caller's items
/// are left with their quantities less those counts.
pub proof fn lemma_solving_draws_the_choice(
    entries: Seq<(Seq<u64>, u64)>,
    before: KnapsackView,
    after: KnapsackView,
    counts: Seq<u64>,
    limit: u64,
)
    requires
        distinct_keys(before.items),
        distinct_keys(entries),
        mergeable(entries, before.items, limit),
        counts.len() == entries.len(),
        forall|i: int| 0 <= i < entries.len() ==> counts[i] <= (#[trigger] entries[i]).1,
        after.items == packed_into(before.items, entries, counts, entries.len() as int),
    ensures
        drawn_all(entries, seq![before], seq![after], 1) == left_over(entries, counts),
{
    assert forall|i: int| 0 <= i < entries.len() implies amount_under(
        before.items,
        (#[trigger] entries[i]).0,
    ) + counts[i] <= u64::MAX by {
        lemma_find(before.items, entries[i].0);
    }
    lemma_drawing_leaves_the_rest(before.items, entries, counts);
    assert(drawn_all(entries, seq![before], seq![after], 0) == entries);
}

/// The exact strategy on the caller's own items: after solving, every item
/// is left with its quantity less the count that the solver chose for it.
pub proof fn lemma_exact_solving_draws_the_choice(
    entries: Seq<(Seq<u64>, u64)>,
    before: KnapsackView,
    after: KnapsackView,
    limit: u64,
)
    requires
        distinct_keys(before.items),
        distinct_keys(entries),
        mergeable(entries, before.items, limit),
        optimally_packed(entries, before, after),
    ensures
        drawn_all(entries, seq![before], seq![after], 1) == left_over(
            entries,
            chosen_counts(entries, entry_quantities(entries), free_room(before)),
        ),
{
    let counts = chosen_counts(entries, entry_quantities(entries), free_room(before));
    assert forall|i: int| 0 <= i < entries.len() implies counts[i] <= (#[trigger] entries[i]).1 by {
        assert(counts[i] <= entry_quantities(entries)[i]);
    }
    lemma_solving_draws_the_choice(entries, before, after, counts, limit);
}

/// What the knapsack gained under a key: what its entry with that key
/// holds more than was held before, and nothing where it has no such entry.
pub open spec fn gain_under(
    was: Seq<(Seq<u64>, u64)>,
    after: Seq<(Seq<u64>, u64)>,
    key: Seq<u64>,
) -> int {
    if has_key(after, key) {
        gained(was, after, find(after, key)) as int
    } else {
        0
    }
}

/// What the first `upto` knapsacks gained under a key, all together.
pub open spec fn total_gain(
    before: Seq<KnapsackView>,
    after: Seq<KnapsackView>,
    key: Seq<u64>,
    upto: int,
) -> int
    decreases upto,
{
    if upto <= 0 {
        0
    } else {
        let was = if upto - 1 < before.len() {
            before[upto - 1].items
        } else {
            Seq::empty()
        };
        total_gain(before, after, key, upto - 1) + gain_under(was, after[upto - 1].items, key)
    }
}

/// The stock with every item's quantity less what was gained under its key
/// by the first `upto` entries of the knapsack.
pub open spec fn less_gains(
    stock: Seq<(Seq<u64>, u64)>,
    was: Seq<(Seq<u64>, u64)>,
    after: Seq<(Seq<u64>, u64)>,
    upto: int,
) -> Seq<(Seq<u64>, u64)> {
    Seq::new(
        stock.len(),
        |i: int|
            (
                stock[i].0,
                if has_key(after.take(upto), stock[i].0) {
                    (stock[i].1 - gain_under(was, after, stock[i].0)) as u64
                } else {
                    stock[i].1
                },
            ),
    )
}

/// The stock with every item's quantity less what the first `upto`
/// knapsacks gained under its key.
pub open spec fn less_total_gains(
    stock: Seq<(Seq<u64>, u64)>,
    before: Seq<KnapsackView>,
    after: Seq<KnapsackView>,
    upto: int,
) -> Seq<(Seq<u64>, u64)> {
    Seq::new(
        stock.len(),
        |i: int| (stock[i].0, (stock[i].1 - total_gain(before, after, stock[i].0, upto)) as u64),
    )
}

/// Gains are never negative.
pub proof fn lemma_gains_nonnegative(
    before: Seq<KnapsackView>,
    after: Seq<KnapsackView>,
    key: Seq<u64>,
    upto: int,
)
    ensures
        0 <= total_gain(before, after, key, upto),
        upto > 0 ==> total_gain(before, after, key, upto - 1) <= total_gain(
            before,
            after,
            key,
            upto,
        ),
    decreases upto,
{
    if upto > 0 {
        lemma_gains_nonnegative(before, after, key, upto - 1);
    }
}

proof fn lemma_less_gains(
    stock: Seq<(Seq<u64>, u64)>,
    was: Seq<(Seq<u64>, u64)>,
    after: Seq<(Seq<u64>, u64)>,
    upto: int,
)
    requires
        distinct_keys(stock),
        distinct_keys(after),
        forall|i: int|
            0 <= i < stock.len() ==> gain_under(was, after, (#[trigger] stock[i]).0) <= stock[i].1,
        0 <= upto <= after.len(),
    ensures
        drawn_gains(stock, was, after, upto) == less_gains(stock, was, after, upto),
    decreases upto,
{
    let n = stock.len() as int;
    if upto == 0 {
        assert forall|i: int| 0 <= i < n implies !has_key(after.take(0), stock[i].0) by {}
        assert(less_gains(stock, was, after, 0) =~= stock);
    } else {
        lemma_less_gains(stock, was, after, upto - 1);
        let so_far = less_gains(stock, was, after, upto - 1);
        let key = after[upto - 1].0;
        let gain = gained(was, after, upto - 1);
        let next = drawn(so_far, key, gain);
        let goal = less_gains(stock, was, after, upto);
        assert(distinct_keys(so_far)) by {
            assert forall|i: int, j: int| 0 <= i < j < so_far.len() implies (
            #[trigger] so_far[i]).0 != (#[trigger] so_far[j]).0 by {
                assert(stock[i].0 != stock[j].0);
            }
        }
        lemma_find(so_far, key);
        lemma_find(stock, key);
        lemma_find(after, key);
        assert(after[upto - 1].0 == key);
        assert(find(after, key) == upto - 1);
        assert(gain_under(was, after, key) == gain);
        assert(!has_key(after.take(upto - 1), key)) by {
            if has_key(after.take(upto - 1), key) {
                let earlier = find(after.take(upto - 1), key);
                lemma_find(after.take(upto - 1), key);
                assert(after[earlier].0 == key);
                assert(after[earlier].0 != after[upto - 1].0);
            }
        }
        assert forall|i: int| 0 <= i < n implies has_key(after.take(upto), stock[i].0) == (
        has_key(after.take(upto - 1), stock[i].0) || stock[i].0 == key) by {
            let own = stock[i].0;
            if has_key(after.take(upto - 1), own) {
                let earlier = find(after.take(upto - 1), own);
                lemma_find(after.take(upto - 1), own);
                assert(after.take(upto)[earlier].0 == own);
            }
            if own == key {
                assert(after.take(upto)[upto - 1].0 == own);
            }
            if has_key(after.take(upto), own) {
                let place = find(after.take(upto), own);
                lemma_find(after.take(upto), own);
                if place < upto - 1 {
                    assert(after.take(upto - 1)[place].0 == own);
                }
            }
        }
        if find(so_far, key) >= 0 {
            let at = find(so_far, key);
            assert(so_far[at].0 == stock[at].0);
            assert(so_far[at].1 == stock[at].1);
            assert(gain_under(was, after, stock[at].0) <= stock[at].1);
            assert(next == lowered(so_far, at, gain));
            assert forall|i: int| 0 <= i < n implies next[i] == goal[i] by {
                if i != at {
                    if i < at {
                        assert(stock[i].0 != stock[at].0);
                    } else {
                        assert(stock[at].0 != stock[i].0);
                    }
                }
            }
            assert(next =~= goal);
        } else {
            assert forall|i: int| 0 <= i < n implies stock[i].0 != key by {
                assert(so_far[i].0 == stock[i].0);
            }
            assert(next == so_far);
            assert(next =~= goal);
        }
    }
}

/// Solving on the caller's own items, whatever the strategy and however
/// many knapsacks: where no knapsack holds an identity twice and the items
/// have what the knapsacks gained, every item is left with its quantity
/// less what the knapsacks gained under its identity, all together; the
/// items keep their number, their order and their identities.
pub proof fn lemma_drawing_leaves_what_was_not_gained(
    stock: Seq<(Seq<u64>, u64)>,
    before: Seq<KnapsackView>,
    after: Seq<KnapsackView>,
    upto: int,
)
    requires
        distinct_keys(stock),
        0 <= upto <= after.len(),
        forall|k: int| 0 <= k < upto ==> distinct_keys((#[trigger] after[k]).items),
        forall|i: int|
            0 <= i < stock.len() ==> total_gain(before, after, (#[trigger] stock[i]).0, upto)
                <= stock[i].1,
    ensures
        drawn_all(stock, before, after, upto) == less_total_gains(stock, before, after, upto),
    decreases upto,
{
    let n = stock.len() as int;
    if upto == 0 {
        assert(less_total_gains(stock, before, after, 0) =~= stock);
    } else {
        assert forall|i: int| 0 <= i < n implies total_gain(
            before,
            after,
            (#[trigger] stock[i]).0,
            upto - 1,
        ) <= stock[i].1 by {
            lemma_gains_nonnegative(before, after, stock[i].0, upto);
        }
        lemma_drawing_leaves_what_was_not_gained(stock, before, after, upto - 1);
        let so_far = less_total_gains(stock, before, after, upto - 1);
        let was = if upto - 1 < before.len() {
            before[upto - 1].items
        } else {
            Seq::empty()
        };
        let now = after[upto - 1].items;
        assert(distinct_keys(so_far)) by {
            assert forall|i: int, j: int| 0 <= i < j < so_far.len() implies (
            #[trigger] so_far[i]).0 != (#[trigger] so_far[j]).0 by {
                assert(stock[i].0 != stock[j].0);
            }
        }
        assert forall|i: int| 0 <= i < n implies gain_under(was, now, (#[trigger] so_far[i]).0)
            <= so_far[i].1 by {
            lemma_gains_nonnegative(before, after, stock[i].0, upto - 1);
            assert(total_gain(before, after, stock[i].0, upto) <= stock[i].1);
        }
        lemma_less_gains(so_far, was, now, now.len() as int);
        assert(now.take(now.len() as int) =~= now);
        let goal = less_total_gains(stock, before, after, upto);
        let next = less_gains(so_far, was, now, now.len() as int);
        assert forall|i: int| 0 <= i < n implies next[i] == goal[i] by {
            lemma_gains_nonnegative(before, after, stock[i].0, upto - 1);
            assert(total_gain(before, after, stock[i].0, upto) <= stock[i].1);
            assert(so_far[i].0 == stock[i].0);
        }
        assert(next =~= goal);
    }
}

} // verus!
