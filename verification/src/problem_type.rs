//! Problems: a collection of items together with the knapsacks they are to
//! be packed into, and the strategies that solve them.
use vstd::prelude::*;
use crate::compatible_problem_type_trait::{CompatibleProblemType, UnboundedCompatibility};
use crate::holdings::{
    distinct_keys, drawn_gains, drawn_tail, find, gained, gathered, held, lemma_find, merged,
    unlimited,
};
use crate::item::{BinaryProblemItems, Item, ProblemItems};
use crate::knapsack::{
    accepts, BinaryProblemKnapsacks, Knapsack, KnapsackBinary, KnapsackView, ProblemKnapsacks,
};
use crate::unbounded_struct::unbounded;

verus! {

/// A binary problem: every item is taken as a whole or left.
pub struct BinaryProblem<T, const S: usize> where T: CompatibleProblemType {
    pub items: BinaryProblemItems<T, S>,
    pub knapsacks: BinaryProblemKnapsacks<T, S>,
}

/// A strategy for binary problems.
pub trait BinarySolver<T, const S: usize>: Copy where T: CompatibleProblemType {
    type Output;

    /// What the strategy asks of a problem: nothing, unless it says so.
    open spec fn solvable(self, problem: BinaryProblem<T, S>) -> bool {
        true
    }

    /// What the strategy promises of its result: nothing, unless it says so.
    open spec fn solved(self, problem: BinaryProblem<T, S>, output: Self::Output) -> bool {
        true
    }

    /// Solves the problem.
    fn solve(self, problem: BinaryProblem<T, S>) -> (output: Self::Output)
        requires
            self.solvable(problem),
        ensures
            self.solved(problem, output),
    ;
}

impl<T, const S: usize> BinaryProblem<T, S> where T: CompatibleProblemType {
    /// Solves the problem with the given strategy. The caller's collections
    /// went into the problem by value, so nothing of the caller's changes.
    pub fn using<N>(self, solver: N) -> (output: <N as BinarySolver<T, S>>::Output) where
        N: BinarySolver<T, S>,

        requires
            solver.solvable(self),
        ensures
            solver.solved(self, output),
    {
        solver.solve(self)
    }
}

/// A bounded problem: every item has a quantity, finite or unlimited.
pub struct BoundedProblem<T, const S: usize, N = T> where
    T: CompatibleProblemType,
    N: UnboundedCompatibility,
 {
    pub items: ProblemItems<T, S, N>,
    pub knapsacks: ProblemKnapsacks<T, S>,
}

/// A strategy for bounded problems.
pub trait BoundedSolver<T, const S: usize>: Copy where T: CompatibleProblemType {
    type Output;

    /// What the strategy asks of a problem: nothing, unless it says so.
    open spec fn solvable(self, problem: BoundedProblem<T, S>) -> bool {
        true
    }

    /// What the strategy promises of its result: nothing, unless it says so.
    open spec fn solved(self, problem: BoundedProblem<T, S>, output: Self::Output) -> bool {
        true
    }

    /// Solves the problem.
    fn solve(self, problem: BoundedProblem<T, S>) -> (output: Self::Output)
        requires
            self.solvable(problem),
        ensures
            self.solved(problem, output),
    ;
}

impl<T, const S: usize> BoundedProblem<T, S> where T: CompatibleProblemType {
    /// Solves the problem with the given strategy. The caller's collections
    /// went into the problem by value, so nothing of the caller's changes.
    pub fn using<N>(self, solver: N) -> (output: <N as BoundedSolver<T, S>>::Output) where
        N: BoundedSolver<T, S>,

        requires
            solver.solvable(self),
        ensures
            solver.solved(self, output),
    {
        solver.solve(self)
    }
}

/// A bounded problem on the caller's own items: solving it draws what was
/// packed from the caller's collection.
pub struct BoundedProblemMut<'a, T, const S: usize, N = T> where
    T: CompatibleProblemType,
    N: UnboundedCompatibility,
 {
    pub items: &'a mut ProblemItems<T, S, N>,
    pub knapsacks: ProblemKnapsacks<T, S>,
}

/// The stock after what the first `upto` knapsacks of `after` gained over
/// the knapsacks of `before` at the same places was drawn from it.
pub open spec fn drawn_all(
    stock: Seq<(Seq<u64>, u64)>,
    before: Seq<KnapsackView>,
    after: Seq<KnapsackView>,
    upto: int,
) -> Seq<(Seq<u64>, u64)>
    decreases upto,
{
    if upto <= 0 {
        stock
    } else {
        let was = if upto - 1 < before.len() {
            before[upto - 1].items
        } else {
            Seq::empty()
        };
        drawn_gains(
            drawn_all(stock, before, after, upto - 1),
            was,
            after[upto - 1].items,
            after[upto - 1].items.len() as int,
        )
    }
}

/// Draws from `items` what `after` holds more than `before` did, entry by
/// entry. Nothing is asked of `after`: it is read as it is filed.
pub fn draw_gains<T, const S: usize>(
    items: &mut ProblemItems<T, S>,
    before: Option<&Knapsack<T, S>>,
    after: &Knapsack<T, S>,
) where T: CompatibleProblemType
    requires
        old(items).wf(),
        before matches Some(knapsack) ==> knapsack.wf(),
    ensures
        final(items).wf(),
        final(items)@ == drawn_gains(
            old(items)@,
            match before {
                Some(knapsack) => knapsack@.items,
                None => Seq::empty(),
            },
            after@.items,
            after@.items.len() as int,
        ),
{
    let ghost was = match before {
        Some(knapsack) => knapsack@.items,
        None => Seq::empty(),
    };
    let ghost stock = items@;
    let len = after.len();
    let mut i: usize = 0;
    while i < len
        invariant
            i <= len,
            len == after@.items.len(),
            before matches Some(knapsack) ==> knapsack.wf(),
            was == match before {
                Some(knapsack) => knapsack@.items,
                None => Seq::empty(),
            },
            items.wf(),
            items@ == drawn_gains(stock, was, after@.items, i as int),
        decreases len - i,
    {
        let filed = after.entry_at(i).unwrap();
        let now = filed.amount;
        proof {
            lemma_find(was, filed.key@);
        }
        let gain = match before {
            Some(knapsack) => {
                match knapsack.amount_of(&filed.key) {
                    Some(then) => {
                        if now >= then {
                            now - then
                        } else {
                            0
                        }
                    },
                    None => now,
                }
            },
            None => now,
        };
        proof {
            assert(gain == gained(was, after@.items, i as int));
        }
        items.draw(filed.key, gain);
        i = i + 1;
    }
}

impl<'a, T, const S: usize> BoundedProblemMut<'a, T, S> where T: CompatibleProblemType {
    /// Solves the problem with the given strategy on a copy of the items,
    /// then draws from the caller's items what the knapsacks gained.
    pub fn using<V>(self, solver: V) -> (output: ProblemKnapsacks<T, S>) where
        V: BoundedSolver<T, S, Output = ProblemKnapsacks<T, S>>,

        requires
            old(self.items).wf(),
            self.knapsacks.wf(),
            forall|problem: BoundedProblem<T, S>|
                problem.items@ == old(self.items)@ && problem.knapsacks == self.knapsacks
                    ==> #[trigger] solver.solvable(problem),
        ensures
            final(self.items).wf(),
            exists|problem: BoundedProblem<T, S>|
                problem.items@ == old(self.items)@ && problem.knapsacks == self.knapsacks
                    && #[trigger] solver.solved(problem, output),
            final(self.items)@ == drawn_all(
                old(self.items)@,
                self.knapsacks.views(),
                output.views(),
                output.knapsacks@.len() as int,
            ),
    {
        let before = self.knapsacks.clone();
        let ghost stock = self.items@;
        let problem = BoundedProblem::<T, S> { items: self.items.clone(), knapsacks: self.knapsacks };
        let output = solver.solve(problem);
        let items = self.items;
        let mut k: usize = 0;
        proof {
            assert(before.views() =~= self.knapsacks.views());
        }
        while k < output.len()
            invariant
                k <= output.knapsacks@.len(),
                self.knapsacks.wf(),
                before.views() == self.knapsacks.views(),
                before.knapsacks@.len() == self.knapsacks.knapsacks@.len(),
                forall|i: int|
                    0 <= i < before.knapsacks@.len() ==> (#[trigger] before.knapsacks@[i])@
                        == self.knapsacks.knapsacks@[i]@,
                items.wf(),
                items@ == drawn_all(stock, before.views(), output.views(), k as int),
            decreases output.knapsacks@.len() - k,
        {
            let after = output.get(k);
            if k < before.len() {
                let was = before.get(k);
                assert(self.knapsacks.knapsacks@[k as int].wf());
                draw_gains(items, Some(was), after);
            } else {
                draw_gains(items, None, after);
            }
            k = k + 1;
        }
        output
    }
}

/// A problem whose items have no limit on their quantities.
pub type UnboundedProblem<T, const S: usize> = BoundedProblem<T, S, unbounded>;

/// A strategy for unbounded problems.
pub trait UnboundedSolver<T, const S: usize>: Copy where T: CompatibleProblemType {
    type Output;

    /// What the strategy asks of a problem: nothing, unless it says so.
    open spec fn solvable(self, problem: UnboundedProblem<T, S>) -> bool {
        true
    }

    /// What the strategy promises of its result: nothing, unless it says so.
    open spec fn solved(self, problem: UnboundedProblem<T, S>, output: Self::Output) -> bool {
        true
    }

    /// Solves the problem.
    fn solve(self, problem: UnboundedProblem<T, S>) -> (output: Self::Output)
        requires
            self.solvable(problem),
        ensures
            self.solved(problem, output),
    ;
}

impl<T, const S: usize> BoundedProblem<T, S, unbounded> where T: CompatibleProblemType {
    /// Solves the problem with the given strategy.
    pub fn using<N>(self, solver: N) -> (output: <N as UnboundedSolver<T, S>>::Output) where
        N: UnboundedSolver<T, S>,

        requires
            solver.solvable(self),
        ensures
            solver.solved(self, output),
    {
        solver.solve(self)
    }
}

/// A binary problem on the caller's own items: solving it draws what was
/// packed from the caller's list.
pub struct BinaryProblemMut<'a, T, const S: usize> where T: CompatibleProblemType {
    pub items: &'a mut BinaryProblemItems<T, S>,
    pub knapsacks: BinaryProblemKnapsacks<T, S>,
}

/// The stock of a list after what the first `upto` knapsacks of `after`
/// hold behind what the knapsacks of `before` held at the same places was
/// drawn from it.
pub open spec fn drawn_lists(
    stock: Seq<(Seq<u64>, u64)>,
    before: Seq<KnapsackView>,
    after: Seq<KnapsackView>,
    upto: int,
) -> Seq<(Seq<u64>, u64)>
    decreases upto,
{
    if upto <= 0 {
        stock
    } else {
        let from = if upto - 1 < before.len() {
            before[upto - 1].items.len() as int
        } else {
            0
        };
        drawn_tail(
            drawn_lists(stock, before, after, upto - 1),
            after[upto - 1].items,
            from,
            after[upto - 1].items.len() as int,
        )
    }
}

impl<'a, T, const S: usize> BinaryProblemMut<'a, T, S> where T: CompatibleProblemType {
    /// Solves the problem with the given strategy on a copy of the items,
    /// then draws from the caller's items what the knapsacks took in.
    pub fn using<V>(self, solver: V) -> (output: BinaryProblemKnapsacks<T, S>) where
        V: BinarySolver<T, S, Output = BinaryProblemKnapsacks<T, S>>,

        requires
            forall|problem: BinaryProblem<T, S>|
                problem.items@ == old(self.items)@ && problem.knapsacks == self.knapsacks
                    ==> #[trigger] solver.solvable(problem),
        ensures
            exists|problem: BinaryProblem<T, S>|
                problem.items@ == old(self.items)@ && problem.knapsacks == self.knapsacks
                    && #[trigger] solver.solved(problem, output),
            final(self.items).entries() == drawn_lists(
                old(self.items).entries(),
                self.knapsacks.views(),
                output.views(),
                output.knapsacks@.len() as int,
            ),
    {
        let ghost before = self.knapsacks.views();
        let ghost stock = self.items.entries();
        let mut starts: Vec<usize> = Vec::new();
        let mut k: usize = 0;
        while k < self.knapsacks.len()
            invariant
                k <= self.knapsacks.knapsacks@.len(),
                starts@.len() == k,
                forall|i: int|
                    0 <= i < k ==> #[trigger] starts@[i] == self.knapsacks.knapsacks@[i]@.items.len(),
            decreases self.knapsacks.knapsacks@.len() - k,
        {
            starts.push(self.knapsacks.get(k).len());
            k = k + 1;
        }
        let problem = BinaryProblem::<T, S> { items: self.items.clone(), knapsacks: self.knapsacks };
        let output = solver.solve(problem);
        let items = self.items;
        let mut k: usize = 0;
        while k < output.len()
            invariant
                k <= output.knapsacks@.len(),
                before == self.knapsacks.views(),
                starts@.len() == before.len(),
                forall|i: int| 0 <= i < starts@.len() ==> #[trigger] starts@[i] == before[i].items.len(),
                items.entries() == drawn_lists(stock, before, output.views(), k as int),
            decreases output.knapsacks@.len() - k,
        {
            let after = output.get(k);
            let from = if k < starts.len() {
                starts[k]
            } else {
                0
            };
            let ghost start_stock = items.entries();
            let len = after.len();
            let mut i: usize = from;
            while i < len
                invariant
                    len == after@.items.len(),
                    from <= i,
                    i <= len || i == from,
                    items.entries() == drawn_tail(start_stock, after@.items, from as int, i as int),
                decreases len - i,
            {
                let packed = after.get_index(i).unwrap();
                items.deduct(&packed);
                i = i + 1;
            }
            proof {
                assert(items.entries() == drawn_tail(
                    start_stock,
                    after@.items,
                    from as int,
                    len as int,
                ));
            }
            k = k + 1;
        }
        output
    }
}

/// An unbounded problem on the caller's own items. The items have no
/// limits, so solving draws nothing from them.
pub type UnboundedProblemMut<'a, T, const S: usize> = BoundedProblemMut<'a, T, S, unbounded>;

impl<'a, T, const S: usize> BoundedProblemMut<'a, T, S, unbounded> where T: CompatibleProblemType {
    /// Solves the problem with the given strategy on a copy of the items.
    pub fn using<V>(self, solver: V) -> (output: ProblemKnapsacks<T, S>) where
        V: UnboundedSolver<T, S, Output = ProblemKnapsacks<T, S>>,

        requires
            forall|problem: UnboundedProblem<T, S>|
                problem.items@ == old(self.items)@ && problem.knapsacks == self.knapsacks
                    ==> #[trigger] solver.solvable(problem),
        ensures
            exists|problem: UnboundedProblem<T, S>|
                problem.items@ == old(self.items)@ && problem.knapsacks == self.knapsacks
                    && #[trigger] solver.solved(problem, output),
            final(self.items)@ == old(self.items)@,
    {
        let problem = UnboundedProblem::<T, S> {
            items: self.items.clone(),
            knapsacks: self.knapsacks,
        };
        solver.solve(problem)
    }
}

/// What a merging knapsack with the given capacity is in numbers when it
/// holds the given entries.
pub open spec fn view_of(capacity: Seq<u64>, items: Seq<(Seq<u64>, u64)>) -> KnapsackView {
    KnapsackView {
        value: held(items, 0) as u64,
        weights: Seq::new(capacity.len(), |d: int| held(items, d + 1) as u64),
        capacity: capacity,
        items: items,
    }
}

/// What a merging knapsack holds after the first `upto` entries of a list
/// were offered to it one by one: each goes in where the knapsack accepts
/// it, and is left out where it does not.
pub open spec fn repacked(
    capacity: Seq<u64>,
    entries: Seq<(Seq<u64>, u64)>,
    limit: u64,
    upto: int,
) -> Seq<(Seq<u64>, u64)>
    decreases upto,
{
    if upto <= 0 {
        Seq::empty()
    } else {
        let before = repacked(capacity, entries, limit, upto - 1);
        let key = entries[upto - 1].0;
        let amount = entries[upto - 1].1;
        if amount > 0 && accepts(view_of(capacity, before), key, amount, limit) {
            merged(before, key, amount)
        } else {
            before
        }
    }
}

/// `bounded` is `binary` re-expressed: every item of the list is one unit
/// of a bounded item, equal identities merged and their units summed; and
/// every knapsack is a merging one with the same capacity and the same
/// packed items.
pub open spec fn as_bounded<T: CompatibleProblemType, const S: usize>(
    binary: BinaryProblem<T, S>,
    bounded: BoundedProblem<T, S>,
) -> bool {
    &&& bounded.items.wf()
    &&& bounded.items@ == gathered(
        binary.items.entries(),
        T::key_limit(),
        binary.items@.len() as int,
    )
    &&& bounded.knapsacks.wf()
    &&& bounded.knapsacks.knapsacks@.len() == binary.knapsacks.knapsacks@.len()
    &&& forall|k: int|
        0 <= k < bounded.knapsacks.knapsacks@.len() ==> (#[trigger] bounded.knapsacks.knapsacks@[k])@
            == view_of(
            binary.knapsacks.knapsacks@[k]@.capacity,
            repacked(
                binary.knapsacks.knapsacks@[k]@.capacity,
                binary.knapsacks.knapsacks@[k]@.items,
                T::key_limit(),
                binary.knapsacks.knapsacks@[k]@.items.len() as int,
            ),
        )
}

/// A merging knapsack with the capacity and the packed items of a listing
/// one.
pub fn merge_knapsack<T, const S: usize>(listing: &KnapsackBinary<T, S>) -> (merging: Knapsack<T, S>) where
    T: CompatibleProblemType,

    ensures
        merging.wf(),
        merging@ == view_of(
            listing@.capacity,
            repacked(listing@.capacity, listing@.items, T::key_limit(), listing@.items.len() as int),
        ),
{
    let mut merging = Knapsack::<T, S>::new(*listing.capacity());
    let len = listing.len();
    let ghost capacity = listing@.capacity;
    let ghost entries = listing@.items;
    proof {
        merging.lemma_view_bounds();
        lemma_view_of(merging@, S as nat);
    }
    let mut i: usize = 0;
    while i < len
        invariant
            i <= len,
            len == entries.len(),
            entries == listing@.items,
            capacity == listing@.capacity,
            merging.wf(),
            merging@.capacity == capacity,
            merging@.items == repacked(capacity, entries, T::key_limit(), i as int),
        decreases len - i,
    {
        let item = listing.get_index(i).unwrap();
        proof {
            merging.lemma_view_bounds();
            lemma_view_of(merging@, S as nat);
        }
        merging.add(item);
        i = i + 1;
    }
    proof {
        merging.lemma_view_bounds();
        lemma_view_of(merging@, S as nat);
    }
    merging
}

/// A sound knapsack is in numbers what its capacity and its entries make
/// it.
pub proof fn lemma_view_of(view: KnapsackView, dims: nat)
    requires
        crate::knapsack::sound(view, dims),
    ensures
        view == view_of(view.capacity, view.items),
{
    assert(view.weights =~= view_of(view.capacity, view.items).weights);
}

/// Re-expresses a binary problem as a bounded one: every item of the list
/// becomes one unit of a bounded item, whatever quantity it carries; equal
/// identities are merged and their units summed; and every knapsack becomes
/// a merging one with the same capacity and the same packed items.
pub fn to_bounded<T, const S: usize>(binary: BinaryProblem<T, S>) -> (bounded: BoundedProblem<T, S>) where
    T: CompatibleProblemType,

    ensures
        as_bounded(binary, bounded),
{
    let ghost entries = binary.items.entries();
    let mut items = ProblemItems::<T, S>::new();
    let mut i: usize = 0;
    while i < binary.items.len()
        invariant
            i <= binary.items@.len(),
            entries == binary.items.entries(),
            items.wf(),
            items@ == gathered(entries, T::key_limit(), i as int),
        decreases binary.items@.len() - i,
    {
        let listed = binary.items.items[i];
        let unit = Item::<T, S> {
            value: listed.value,
            weights: listed.weights,
            quantity: T::identity(),
        };
        proof {
            assert(unit.key_spec() =~= listed.key_spec());
            lemma_find(items@, unit.key_spec());
            T::lemma_key_bounds(unit.quantity);
        }
        let fits = match items.get_item((unit.value, unit.weights)) {
            Some(held) => {
                proof {
                    T::lemma_key_bounds(held.quantity);
                }
                crate::knapsack::fits_type::<T>(T::type_to_key(held.quantity) + 1)
            },
            None => true,
        };
        if fits {
            items.add(unit);
        }
        i = i + 1;
    }
    let mut knapsacks = ProblemKnapsacks::<T, S>::new();
    let mut k: usize = 0;
    while k < binary.knapsacks.len()
        invariant
            k <= binary.knapsacks.knapsacks@.len(),
            knapsacks.wf(),
            knapsacks.knapsacks@.len() == k,
            forall|j: int|
                0 <= j < k ==> (#[trigger] knapsacks.knapsacks@[j])@ == view_of(
                    binary.knapsacks.knapsacks@[j]@.capacity,
                    repacked(
                        binary.knapsacks.knapsacks@[j]@.capacity,
                        binary.knapsacks.knapsacks@[j]@.items,
                        T::key_limit(),
                        binary.knapsacks.knapsacks@[j]@.items.len() as int,
                    ),
                ),
        decreases binary.knapsacks.knapsacks@.len() - k,
    {
        let merging = merge_knapsack(binary.knapsacks.get(k));
        knapsacks.add(merging);
        k = k + 1;
    }
    BoundedProblem { items: items, knapsacks: knapsacks }
}

impl<T, const S: usize, N> BinarySolver<T, S> for N where
    T: CompatibleProblemType,
    N: BoundedSolver<T, S>,
 {
    type Output = <N as BoundedSolver<T, S>>::Output;

    /// The strategy can solve the problem re-expressed as a bounded one.
    open spec fn solvable(self, problem: BinaryProblem<T, S>) -> bool {
        forall|bounded: BoundedProblem<T, S>| #[trigger]
            as_bounded(problem, bounded) ==> <N as BoundedSolver<T, S>>::solvable(self, bounded)
    }

    /// The result is the strategy's for the problem re-expressed as a
    /// bounded one.
    open spec fn solved(self, problem: BinaryProblem<T, S>, output: Self::Output) -> bool {
        exists|bounded: BoundedProblem<T, S>| #[trigger]
            as_bounded(problem, bounded) && <N as BoundedSolver<T, S>>::solved(
                self,
                bounded,
                output,
            )
    }

    fn solve(self, problem: BinaryProblem<T, S>) -> (output: Self::Output) {
        let bounded = to_bounded(problem);
        <N as BoundedSolver<T, S>>::solve(self, bounded)
    }
}

/// `open` is `bounded` re-expressed: the same items without limits on their
/// quantities, and the same knapsacks.
pub open spec fn as_unbounded<T: CompatibleProblemType, const S: usize>(
    bounded: BoundedProblem<T, S>,
    open: UnboundedProblem<T, S>,
) -> bool {
    &&& open.items.wf()
    &&& open.items@ == unlimited(bounded.items@)
    &&& open.knapsacks == bounded.knapsacks
}

/// Re-expresses a bounded problem as an unbounded one: every item loses the
/// limit on its quantity; the knapsacks stay as they are.
pub fn to_unbounded<T, const S: usize>(bounded: BoundedProblem<T, S>) -> (open: UnboundedProblem<T, S>) where
    T: CompatibleProblemType,

    requires
        bounded.items.wf(),
    ensures
        as_unbounded(bounded, open),
{
    let BoundedProblem { items, knapsacks } = bounded;
    let ghost entries = items@;
    let list = items.iter();
    let mut open_items = ProblemItems::<T, S, unbounded>::new();
    let mut i: usize = 0;
    while i < list.len()
        invariant
            i <= list@.len(),
            list@.len() == entries.len(),
            distinct_keys(entries),
            forall|k: int| 0 <= k < list@.len() ==> (#[trigger] list@[k]).entry_spec() == entries[k],
            open_items.wf(),
            open_items@ == unlimited(entries).take(i as int),
        decreases list@.len() - i,
    {
        let item = list[i];
        let free = Item::<T, S, unbounded> {
            value: item.value,
            weights: item.weights,
            quantity: unbounded,
        };
        proof {
            assert(free.key_spec() =~= item.key_spec());
            lemma_find(open_items@, free.key_spec());
            if find(open_items@, free.key_spec()) >= 0 {
                let at = find(open_items@, free.key_spec());
                assert(open_items@[at].0 == entries[at].0);
                assert(entries[at].0 != entries[i as int].0);
            }
            assert(unlimited(entries).take(i + 1) =~= unlimited(entries).take(i as int).push(
                (free.key_spec(), 0u64),
            ));
        }
        open_items.add(free);
        i = i + 1;
    }
    proof {
        assert(unlimited(entries).take(i as int) =~= unlimited(entries));
    }
    BoundedProblem { items: open_items, knapsacks: knapsacks }
}

impl<T, const S: usize, N> BoundedSolver<T, S> for N where
    T: CompatibleProblemType,
    N: UnboundedSolver<T, S>,
 {
    type Output = <N as UnboundedSolver<T, S>>::Output;

    /// The strategy can solve the problem re-expressed as an unbounded one.
    open spec fn solvable(self, problem: BoundedProblem<T, S>) -> bool {
        &&& problem.items.wf()
        &&& forall|open: UnboundedProblem<T, S>| #[trigger]
            as_unbounded(problem, open) ==> <N as UnboundedSolver<T, S>>::solvable(self, open)
    }

    /// The result is the strategy's for the problem re-expressed as an
    /// unbounded one.
    open spec fn solved(self, problem: BoundedProblem<T, S>, output: Self::Output) -> bool {
        exists|open: UnboundedProblem<T, S>| #[trigger]
            as_unbounded(problem, open) && <N as UnboundedSolver<T, S>>::solved(self, open, output)
    }

    fn solve(self, problem: BoundedProblem<T, S>) -> (output: Self::Output) {
        let open = to_unbounded(problem);
        <N as UnboundedSolver<T, S>>::solve(self, open)
    }
}

} // verus!
