//! Totals of integer sequences, and how they move when a sequence grows,
//! changes in one place or loses an element.
use vstd::prelude::*;

verus! {

/// The sum of the elements of `terms`.
pub open spec fn total(terms: Seq<int>) -> int
    decreases terms.len(),
{
    if terms.len() == 0 {
        0
    } else {
        total(terms.drop_last()) + terms.last()
    }
}

/// Appending a term adds it to the total.
pub proof fn lemma_total_push(terms: Seq<int>, term: int)
    ensures
        total(terms.push(term)) == total(terms) + term,
{
    assert(terms.push(term).drop_last() =~= terms);
}

/// Replacing a term moves the total by the difference.
pub proof fn lemma_total_update(terms: Seq<int>, at: int, term: int)
    requires
        0 <= at < terms.len(),
    ensures
        total(terms.update(at, term)) == total(terms) - terms[at] + term,
    decreases terms.len(),
{
    if at == terms.len() - 1 {
        assert(terms.update(at, term).drop_last() =~= terms.drop_last());
    } else {
        lemma_total_update(terms.drop_last(), at, term);
        assert(terms.update(at, term).drop_last() =~= terms.drop_last().update(at, term));
    }
}

/// Removing a term takes it off the total.
pub proof fn lemma_total_remove(terms: Seq<int>, at: int)
    requires
        0 <= at < terms.len(),
    ensures
        total(terms.remove(at)) == total(terms) - terms[at],
    decreases terms.len(),
{
    if at == terms.len() - 1 {
        assert(terms.remove(at) =~= terms.drop_last());
    } else {
        lemma_total_remove(terms.drop_last(), at);
        assert(terms.remove(at).drop_last() =~= terms.drop_last().remove(at));
        assert(terms.remove(at).last() == terms.last());
    }
}

/// A total of non-negative terms is at least each of them.
pub proof fn lemma_total_covers(terms: Seq<int>, at: int)
    requires
        0 <= at < terms.len(),
        forall|i: int| 0 <= i < terms.len() ==> terms[i] >= 0,
    ensures
        0 <= terms[at] <= total(terms),
    decreases terms.len(),
{
    lemma_total_nonnegative(terms.drop_last());
    if at < terms.len() - 1 {
        lemma_total_covers(terms.drop_last(), at);
    }
}

/// A total of non-negative terms is non-negative.
pub proof fn lemma_total_nonnegative(terms: Seq<int>)
    requires
        forall|i: int| 0 <= i < terms.len() ==> terms[i] >= 0,
    ensures
        0 <= total(terms),
    decreases terms.len(),
{
    if terms.len() > 0 {
        lemma_total_nonnegative(terms.drop_last());
    }
}

/// A total of zeros is zero.
pub proof fn lemma_total_zero(terms: Seq<int>)
    requires
        forall|i: int| 0 <= i < terms.len() ==> terms[i] == 0,
    ensures
        total(terms) == 0,
    decreases terms.len(),
{
    if terms.len() > 0 {
        lemma_total_zero(terms.drop_last());
    }
}

/// Termwise smaller sequences have smaller totals.
pub proof fn lemma_total_monotone(low: Seq<int>, high: Seq<int>)
    requires
        low.len() == high.len(),
        forall|i: int| 0 <= i < low.len() ==> low[i] <= high[i],
    ensures
        total(low) <= total(high),
    decreases low.len(),
{
    if low.len() > 0 {
        lemma_total_monotone(low.drop_last(), high.drop_last());
    }
}

/// Taking one more term into a prefix adds that term to the prefix's total.
pub proof fn lemma_total_take_step(terms: Seq<int>, upto: int)
    requires
        0 <= upto < terms.len(),
    ensures
        total(terms.take(upto + 1)) == total(terms.take(upto)) + terms[upto],
{
    assert(terms.take(upto + 1).drop_last() =~= terms.take(upto));
}

/// A prefix of non-negative terms totals no more than all of them.
pub proof fn lemma_total_prefix(terms: Seq<int>, upto: int)
    requires
        0 <= upto <= terms.len(),
        forall|i: int| 0 <= i < terms.len() ==> terms[i] >= 0,
    ensures
        0 <= total(terms.take(upto)) <= total(terms),
    decreases terms.len() - upto,
{
    lemma_total_nonnegative(terms.take(upto));
    if upto == terms.len() {
        assert(terms.take(upto) =~= terms);
    } else {
        lemma_total_take_step(terms, upto);
        lemma_total_prefix(terms, upto + 1);
    }
}

} // verus!
