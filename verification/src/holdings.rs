//! What a collection holds, as a sequence of entries: each an identity key
//! (the value, then the weight in every dimension) with the quantity held
//! under it. The value and the weights of a knapsack are column totals of
//! its entries.
use vstd::prelude::*;
use crate::sums::{
    lemma_total_covers, lemma_total_nonnegative, lemma_total_push, lemma_total_remove,
    lemma_total_update, total,
};

verus! {

/// Per entry, the quantity times the key's number in `column`.
pub open spec fn held_terms(entries: Seq<(Seq<u64>, u64)>, column: int) -> Seq<int> {
    Seq::new(entries.len(), |i: int| entries[i].0[column] * entries[i].1)
}

/// The total over the entries of quantity times the key's number in
/// `column`: column 0 gives the value held, column `d + 1` the weight held
/// in dimension `d`.
pub open spec fn held(entries: Seq<(Seq<u64>, u64)>, column: int) -> int {
    total(held_terms(entries, column))
}

/// No two entries have the same key.
pub open spec fn distinct_keys(entries: Seq<(Seq<u64>, u64)>) -> bool {
    forall|i: int, j: int|
        0 <= i < j < entries.len() ==> (#[trigger] entries[i]).0 != (#[trigger] entries[j]).0
}

/// Whether some entry has the key.
pub open spec fn has_key(entries: Seq<(Seq<u64>, u64)>, key: Seq<u64>) -> bool {
    exists|i: int| 0 <= i < entries.len() && (#[trigger] entries[i]).0 == key
}

/// The position of the entry with the key, or -1 where there is none.
pub open spec fn find(entries: Seq<(Seq<u64>, u64)>, key: Seq<u64>) -> int {
    if has_key(entries, key) {
        choose|i: int| 0 <= i < entries.len() && (#[trigger] entries[i]).0 == key
    } else {
        -1
    }
}

/// The entries after `amount` more went in under `key`: added to the entry
/// with that key, or appended as a new last entry.
pub open spec fn merged(entries: Seq<(Seq<u64>, u64)>, key: Seq<u64>, amount: u64) -> Seq<
    (Seq<u64>, u64),
> {
    let at = find(entries, key);
    if at >= 0 {
        entries.update(at, (key, (entries[at].1 + amount) as u64))
    } else {
        entries.push((key, amount))
    }
}

/// The entries after `amount` came out of the entry at `at`.
pub open spec fn lowered(entries: Seq<(Seq<u64>, u64)>, at: int, amount: u64) -> Seq<
    (Seq<u64>, u64),
> {
    entries.update(at, (entries[at].0, (entries[at].1 - amount) as u64))
}

/// `find` gives the one position of a key among distinct keys.
pub proof fn lemma_find(entries: Seq<(Seq<u64>, u64)>, key: Seq<u64>)
    ensures
        -1 <= find(entries, key) < entries.len(),
        find(entries, key) >= 0 ==> entries[find(entries, key)].0 == key,
        find(entries, key) < 0 ==> forall|i: int|
            0 <= i < entries.len() ==> (#[trigger] entries[i]).0 != key,
        distinct_keys(entries) ==> forall|i: int|
            0 <= i < entries.len() && (#[trigger] entries[i]).0 == key ==> find(entries, key) == i,
{
    if has_key(entries, key) {
        let at = find(entries, key);
        assert(0 <= at < entries.len() && entries[at].0 == key);
        if distinct_keys(entries) {
            assert forall|i: int|
                0 <= i < entries.len() && (#[trigger] entries[i]).0 == key implies at == i by {
                if i < at {
                    assert(entries[i].0 != entries[at].0);
                } else if at < i {
                    assert(entries[at].0 != entries[i].0);
                }
            }
        }
    }
}

/// A column total is never negative and covers each of its entries.
pub proof fn lemma_held_covers(entries: Seq<(Seq<u64>, u64)>, column: int, at: int)
    requires
        0 <= at < entries.len(),
    ensures
        0 <= entries[at].0[column] * entries[at].1 <= held(entries, column),
{
    let terms = held_terms(entries, column);
    assert forall|i: int| 0 <= i < terms.len() implies terms[i] >= 0 by {
        assert(entries[i].0[column] * entries[i].1 >= 0) by (nonlinear_arith)
            requires
                entries[i].0[column] >= 0,
                entries[i].1 >= 0,
        ;
    }
    lemma_total_covers(terms, at);
}

/// A column total is never negative.
pub proof fn lemma_held_nonnegative(entries: Seq<(Seq<u64>, u64)>, column: int)
    ensures
        0 <= held(entries, column),
{
    let terms = held_terms(entries, column);
    assert forall|i: int| 0 <= i < terms.len() implies terms[i] >= 0 by {
        assert(entries[i].0[column] * entries[i].1 >= 0) by (nonlinear_arith)
            requires
                entries[i].0[column] >= 0,
                entries[i].1 >= 0,
        ;
    }
    lemma_total_nonnegative(terms);
}

/// The column total of two lists of entries on end is the sum of their
/// column totals.
pub proof fn lemma_held_joined(
    first: Seq<(Seq<u64>, u64)>,
    second: Seq<(Seq<u64>, u64)>,
    column: int,
)
    ensures
        held(first + second, column) == held(first, column) + held(second, column),
    decreases second.len(),
{
    if second.len() == 0 {
        assert(first + second =~= first);
        assert(held_terms(second, column) =~= Seq::<int>::empty());
    } else {
        let rest = second.drop_last();
        let last = second.last();
        lemma_held_joined(first, rest, column);
        assert(first + second =~= (first + rest).push(last));
        assert(second =~= rest.push(last));
        lemma_held_pushed(first + rest, last.0, last.1, column);
        lemma_held_pushed(rest, last.0, last.1, column);
    }
}

/// Appending an entry adds its quantity times its key's number.
pub proof fn lemma_held_pushed(
    entries: Seq<(Seq<u64>, u64)>,
    key: Seq<u64>,
    amount: u64,
    column: int,
)
    ensures
        held(entries.push((key, amount)), column) == held(entries, column) + key[column] * amount,
{
    assert(held_terms(entries.push((key, amount)), column) =~= held_terms(entries, column).push(
        key[column] * amount,
    ));
    lemma_total_push(held_terms(entries, column), key[column] * amount);
}

/// Putting `amount` more in under `key` adds `amount` times the key's
/// number to the column total.
pub proof fn lemma_held_merged(
    entries: Seq<(Seq<u64>, u64)>,
    key: Seq<u64>,
    amount: u64,
    column: int,
)
    requires
        find(entries, key) >= 0 ==> entries[find(entries, key)].1 + amount <= u64::MAX,
    ensures
        held(merged(entries, key, amount), column) == held(entries, column) + key[column] * amount,
{
    lemma_find(entries, key);
    let at = find(entries, key);
    if at >= 0 {
        let sum = (entries[at].1 + amount) as u64;
        assert(held_terms(merged(entries, key, amount), column) =~= held_terms(
            entries,
            column,
        ).update(at, key[column] * sum));
        lemma_total_update(held_terms(entries, column), at, key[column] * sum);
        assert(key[column] * sum == key[column] * entries[at].1 + key[column] * amount)
            by (nonlinear_arith)
            requires
                sum == entries[at].1 + amount,
        ;
    } else {
        lemma_held_pushed(entries, key, amount, column);
    }
}

/// Taking `amount` out of an entry takes `amount` times its key's number
/// off the column total.
pub proof fn lemma_held_lowered(
    entries: Seq<(Seq<u64>, u64)>,
    at: int,
    amount: u64,
    column: int,
)
    requires
        0 <= at < entries.len(),
        amount <= entries[at].1,
    ensures
        held(lowered(entries, at, amount), column) == held(entries, column) - entries[at].0[column]
            * amount,
        0 <= entries[at].0[column] * amount <= held(entries, column),
{
    let key = entries[at].0;
    let rest = (entries[at].1 - amount) as u64;
    assert(held_terms(lowered(entries, at, amount), column) =~= held_terms(entries, column).update(
        at,
        key[column] * rest,
    ));
    lemma_total_update(held_terms(entries, column), at, key[column] * rest);
    assert(key[column] * rest == key[column] * entries[at].1 - key[column] * amount)
        by (nonlinear_arith)
        requires
            rest == entries[at].1 - amount,
    ;
    lemma_held_covers(entries, column, at);
    assert(0 <= key[column] * amount <= key[column] * entries[at].1) by (nonlinear_arith)
        requires
            0 <= amount <= entries[at].1,
            key[column] >= 0,
    ;
}

/// Removing an entry takes its quantity times its key's number off the
/// column total.
pub proof fn lemma_held_removed(entries: Seq<(Seq<u64>, u64)>, at: int, column: int)
    requires
        0 <= at < entries.len(),
    ensures
        held(entries.remove(at), column) == held(entries, column) - entries[at].0[column]
            * entries[at].1,
        0 <= entries[at].0[column] * entries[at].1 <= held(entries, column),
{
    assert(held_terms(entries.remove(at), column) =~= held_terms(entries, column).remove(at));
    lemma_total_remove(held_terms(entries, column), at);
    lemma_held_covers(entries, column, at);
}

/// Keys stay distinct when an entry's quantity changes, when an entry
/// leaves, and when a key that was not there is appended.
pub proof fn lemma_distinct_kept(entries: Seq<(Seq<u64>, u64)>, key: Seq<u64>, amount: u64, at: int)
    requires
        distinct_keys(entries),
    ensures
        distinct_keys(merged(entries, key, amount)),
        0 <= at < entries.len() ==> distinct_keys(lowered(entries, at, amount)),
        0 <= at < entries.len() ==> distinct_keys(entries.remove(at)),
{
    lemma_find(entries, key);
    let after = merged(entries, key, amount);
    assert forall|i: int, j: int| 0 <= i < j < after.len() implies (#[trigger] after[i]).0 != (
    #[trigger] after[j]).0 by {
        if find(entries, key) >= 0 {
            assert(after[i].0 == entries[i].0);
            assert(after[j].0 == entries[j].0);
        } else if j == entries.len() {
            assert(after[i].0 == entries[i].0);
        } else {
            assert(after[i] == entries[i]);
            assert(after[j] == entries[j]);
        }
    }
    if 0 <= at < entries.len() {
        let less = lowered(entries, at, amount);
        assert forall|i: int, j: int| 0 <= i < j < less.len() implies (#[trigger] less[i]).0 != (
        #[trigger] less[j]).0 by {
            assert(less[i].0 == entries[i].0);
            assert(less[j].0 == entries[j].0);
        }
        let gone = entries.remove(at);
        assert forall|i: int, j: int| 0 <= i < j < gone.len() implies (#[trigger] gone[i]).0 != (
        #[trigger] gone[j]).0 by {
            let from_i = if i < at { i } else { i + 1 };
            let from_j = if j < at { j } else { j + 1 };
            assert(gone[i] == entries[from_i]);
            assert(gone[j] == entries[from_j]);
        }
    }
}

/// The entries after `amount` was drawn from the entry under `key`; nothing
/// is drawn where there is no such entry or it holds less.
pub open spec fn drawn(entries: Seq<(Seq<u64>, u64)>, key: Seq<u64>, amount: u64) -> Seq<
    (Seq<u64>, u64),
> {
    let at = find(entries, key);
    if at >= 0 && amount <= entries[at].1 {
        lowered(entries, at, amount)
    } else {
        entries
    }
}

/// How much more the entry at `at` of `after` holds than `before` held
/// under the same key.
pub open spec fn gained(before: Seq<(Seq<u64>, u64)>, after: Seq<(Seq<u64>, u64)>, at: int) -> u64 {
    let was = find(before, after[at].0);
    if was < 0 {
        after[at].1
    } else if after[at].1 >= before[was].1 {
        (after[at].1 - before[was].1) as u64
    } else {
        0
    }
}

/// The stock after what the first `upto` entries of `after` gained over
/// `before` was drawn from it, entry by entry.
pub open spec fn drawn_gains(
    stock: Seq<(Seq<u64>, u64)>,
    before: Seq<(Seq<u64>, u64)>,
    after: Seq<(Seq<u64>, u64)>,
    upto: int,
) -> Seq<(Seq<u64>, u64)>
    decreases upto,
{
    if upto <= 0 {
        stock
    } else {
        drawn(
            drawn_gains(stock, before, after, upto - 1),
            after[upto - 1].0,
            gained(before, after, upto - 1),
        )
    }
}

/// The first position among the first `upto` entries whose entry has the
/// key and holds at least `amount`, or -1 where there is none.
pub open spec fn first_holder(
    entries: Seq<(Seq<u64>, u64)>,
    key: Seq<u64>,
    amount: u64,
    upto: int,
) -> int
    decreases upto,
{
    if upto <= 0 {
        -1
    } else {
        let earlier = first_holder(entries, key, amount, upto - 1);
        if earlier >= 0 {
            earlier
        } else if entries[upto - 1].0 == key && entries[upto - 1].1 >= amount {
            upto - 1
        } else {
            -1
        }
    }
}

/// The entries of a list after `amount` was drawn from the first entry that
/// has the key and holds that much; nothing is drawn where there is none.
pub open spec fn drawn_first(entries: Seq<(Seq<u64>, u64)>, key: Seq<u64>, amount: u64) -> Seq<
    (Seq<u64>, u64),
> {
    let at = first_holder(entries, key, amount, entries.len() as int);
    if at >= 0 {
        lowered(entries, at, amount)
    } else {
        entries
    }
}

/// The stock of a list after the entries of `after` from position `from` to
/// position `upto` were drawn from it, one by one.
pub open spec fn drawn_tail(
    stock: Seq<(Seq<u64>, u64)>,
    after: Seq<(Seq<u64>, u64)>,
    from: int,
    upto: int,
) -> Seq<(Seq<u64>, u64)>
    decreases upto - from,
{
    if upto <= from {
        stock
    } else {
        drawn_first(drawn_tail(stock, after, from, upto - 1), after[upto - 1].0, after[upto - 1].1)
    }
}

/// The entries that come of counting the first `upto` entries of a list by
/// key: every entry is one unit, whatever quantity it carries; the units of
/// equal keys are summed, in the order in which the keys first appear. A
/// unit that would take its key's quantity over `limit` is left out.
pub open spec fn gathered(entries: Seq<(Seq<u64>, u64)>, limit: u64, upto: int) -> Seq<
    (Seq<u64>, u64),
>
    decreases upto,
{
    if upto <= 0 {
        Seq::empty()
    } else {
        let before = gathered(entries, limit, upto - 1);
        let key = entries[upto - 1].0;
        let at = find(before, key);
        if at >= 0 && before[at].1 + 1 > limit {
            before
        } else {
            merged(before, key, 1)
        }
    }
}

/// The same entries without quantities: what an unlimited collection holds
/// of them.
pub open spec fn unlimited(entries: Seq<(Seq<u64>, u64)>) -> Seq<(Seq<u64>, u64)> {
    Seq::new(entries.len(), |i: int| (entries[i].0, 0u64))
}

} // verus!
