//! Items: a value, a weight in every dimension, and a quantity.
use vstd::prelude::*;
use crate::compatible_problem_type_trait::{CompatibleProblemType, UnboundedCompatibility};
use crate::holdings::{
    distinct_keys, drawn, drawn_first, find, first_holder, lemma_distinct_kept, lemma_find, lowered,
    merged,
};
use crate::index_map::{
    map_clone, map_get_index, map_get_index_of, map_insert, map_len, map_new,
    map_shift_remove_index, AmountMap,
};
use crate::knapsack::{BinaryProblemKnapsacks, ProblemKnapsacks};
use crate::problem_type::{BinaryProblem, BinaryProblemMut, BoundedProblem, BoundedProblemMut};
use crate::unbounded_struct::unbounded;
use core::marker::PhantomData;

verus! {

/// An item: what one unit is worth, what one unit weighs in each of the `S`
/// dimensions, and how many units there are.
///
/// The value and the weights are the item's identity; the quantity is not.
#[derive(Debug, Clone, Copy, PartialEq)]
pub struct Item<T, const S: usize, N = T> where T: CompatibleProblemType, N: UnboundedCompatibility {
    pub value: u64,
    pub weights: [T; S],
    pub quantity: N,
}

/// An item that is taken or left as a whole.
pub type BinaryItem<T, const S: usize> = Item<T, S>;

/// An item without a limit on its quantity.
pub type UnboundedItem<T, const S: usize> = Item<T, S, unbounded>;

/// The identity key of a value and a weight vector: the value, then the key
/// of the weight in every dimension.
pub open spec fn identity_key<T: CompatibleProblemType, const S: usize>(
    value: u64,
    weights: [T; S],
) -> Seq<u64> {
    Seq::new((S + 1) as nat, |c: int| if c == 0 { value } else { weights@[c - 1].key_spec() })
}

/// Whether `key` can be the identity key of an item with weights of type `T`
/// in `dims` dimensions.
pub open spec fn key_in_range<T: CompatibleProblemType>(key: Seq<u64>, dims: nat) -> bool {
    &&& key.len() == dims + 1
    &&& forall|c: int| 1 <= c <= dims ==> #[trigger] key[c] <= T::key_limit()
}

impl<T, const S: usize, N> Item<T, S, N> where T: CompatibleProblemType, N: UnboundedCompatibility {
    /// The identity key of the item.
    pub open spec fn key_spec(self) -> Seq<u64> {
        identity_key(self.value, self.weights)
    }

    /// The item as an entry of a collection: its identity key and the amount
    /// of its quantity.
    pub open spec fn entry_spec(self) -> (Seq<u64>, u64) {
        (self.key_spec(), self.quantity.amount_spec())
    }

    /// An item with the given value, weights and quantity.
    pub fn new(value: u64, weights: [T; S], quantity: N) -> (item: Self)
        ensures
            item.value == value,
            item.weights == weights,
            item.quantity == quantity,
    {
        Self { value: value, weights: weights, quantity: quantity }
    }

    /// The identity of the item as a pair: the value, and the key of the
    /// weight in every dimension.
    pub fn to_key(&self) -> (key: (u64, [u64; S]))
        ensures
            key.0 == self.value,
            forall|d: int| 0 <= d < S ==> #[trigger] key.1@[d] == self.weights@[d].key_spec(),
    {
        let mut keys: [u64; S] = [0u64;S];
        let mut d: usize = 0;
        while d < S
            invariant
                d <= S,
                forall|k: int| 0 <= k < d ==> #[trigger] keys@[k] == self.weights@[k].key_spec(),
            decreases S - d,
        {
            keys[d] = T::type_to_key(self.weights[d]);
            d = d + 1;
        }
        (self.value, keys)
    }
}

/// Two items with the same identity key and the same amount are the same
/// item.
pub proof fn lemma_entry_injective<T, const S: usize, N>(a: Item<T, S, N>, b: Item<T, S, N>) where
    T: CompatibleProblemType,
    N: UnboundedCompatibility,

    requires
        a.entry_spec() == b.entry_spec(),
    ensures
        a == b,
{
    N::lemma_amount_injective(a.quantity, b.quantity);
    assert(a.key_spec()[0] == b.key_spec()[0]);
    assert forall|d: int| 0 <= d < S implies a.weights@[d] == b.weights@[d] by {
        assert(a.key_spec()[d + 1] == b.key_spec()[d + 1]);
        T::lemma_key_injective(a.weights@[d], b.weights@[d]);
    }
    assert(a.weights =~= b.weights);
}

/// Converting an item to another scalar type and back gives the item back:
/// each conversion keeps the value, the weights and the quantity as numbers,
/// and the numbers are all there is to an item.
pub proof fn lemma_round_trip<T, M, const S: usize>(
    item: Item<T, S>,
    converted: Item<M, S>,
    back: Item<T, S>,
) where T: CompatibleProblemType, M: CompatibleProblemType
    requires
        converted.entry_spec() == item.entry_spec(),
        back.entry_spec() == converted.entry_spec(),
    ensures
        back == item,
{
    lemma_entry_injective(back, item);
}

/// The identity key of a value and a weight vector, as the vector that a
/// collection files the item under.
pub fn key_of<T: CompatibleProblemType, const S: usize>(value: u64, weights: &[T; S]) -> (key: Vec<
    u64,
>)
    ensures
        key@ == identity_key(value, *weights),
        key_in_range::<T>(key@, S as nat),
{
    let mut key: Vec<u64> = Vec::new();
    key.push(value);
    let mut d: usize = 0;
    while d < S
        invariant
            d <= S,
            key@.len() == d + 1,
            key@[0] == value,
            forall|k: int| 0 <= k < d ==> #[trigger] key@[k + 1] == weights@[k].key_spec(),
        decreases S - d,
    {
        key.push(T::type_to_key(weights[d]));
        d = d + 1;
    }
    proof {
        assert forall|c: int| 0 <= c < key@.len() implies key@[c] == identity_key(
            value,
            *weights,
        )[c] by {
            if c > 0 {
                assert(key@[(c - 1) + 1] == weights@[c - 1].key_spec());
            }
        }
        assert(key@ =~= identity_key(value, *weights));
        assert forall|c: int| 1 <= c <= S implies #[trigger] key@[c] <= T::key_limit() by {
            T::lemma_key_bounds(weights@[c - 1]);
        }
    }
    key
}

/// The item that a collection holds as the entry `(key, amount)`.
pub fn item_of<T, const S: usize, N>(key: &Vec<u64>, amount: u64) -> (item: Item<T, S, N>) where
    T: CompatibleProblemType,
    N: UnboundedCompatibility,

    requires
        key_in_range::<T>(key@, S as nat),
    ensures
        item.key_spec() == key@,
        amount <= N::amount_limit() ==> item.quantity.amount_spec() == amount,
{
    let mut weights: [T; S] = [T::key_to_type(0);S];
    let mut d: usize = 0;
    while d < S
        invariant
            d <= S,
            key_in_range::<T>(key@, S as nat),
            forall|k: int| 0 <= k < d ==> #[trigger] weights@[k].key_spec() == key@[k + 1],
        decreases S - d,
    {
        assert(key@[d + 1] <= T::key_limit());
        weights[d] = T::key_to_type(key[d + 1]);
        d = d + 1;
    }
    let item = Item { value: key[0], weights: weights, quantity: N::from_amount(amount) };
    proof {
        assert forall|c: int| 0 <= c < key@.len() implies key@[c] == item.key_spec()[c] by {
            if c > 0 {
                assert(weights@[c - 1].key_spec() == key@[(c - 1) + 1]);
            }
        }
        assert(item.key_spec() =~= key@);
    }
    item
}

impl<T, const S: usize> Item<T, S> where T: CompatibleProblemType {
    /// The same item with its weights and its quantity in another scalar
    /// type that can hold them.
    pub fn to_generic<M>(self) -> (item: Item<M, S>) where M: CompatibleProblemType
        requires
            forall|d: int| 0 <= d < S ==> #[trigger] self.weights@[d].key_spec() <= M::key_limit(),
            self.quantity.key_spec() <= M::key_limit(),
        ensures
            item.entry_spec() == self.entry_spec(),
    {
        let mut weights: [M; S] = [M::key_to_type(0);S];
        let mut d: usize = 0;
        while d < S
            invariant
                d <= S,
                forall|k: int|
                    0 <= k < S ==> #[trigger] self.weights@[k].key_spec() <= M::key_limit(),
                forall|k: int|
                    0 <= k < d ==> #[trigger] weights@[k].key_spec() == self.weights@[k].key_spec(),
            decreases S - d,
        {
            weights[d] = M::key_to_type(T::type_to_key(self.weights[d]));
            d = d + 1;
        }
        let item = Item {
            value: self.value,
            weights: weights,
            quantity: M::key_to_type(T::type_to_key(self.quantity)),
        };
        proof {
            assert(item.key_spec() =~= self.key_spec());
        }
        item
    }
}

impl<T, const S: usize> Item<T, S, unbounded> where T: CompatibleProblemType {
    /// The same unlimited item with its weights in another scalar type that
    /// can hold them.
    pub fn to_generic<M>(&self) -> (item: Item<M, S, unbounded>) where M: CompatibleProblemType
        requires
            forall|d: int| 0 <= d < S ==> #[trigger] self.weights@[d].key_spec() <= M::key_limit(),
        ensures
            item.entry_spec() == self.entry_spec(),
    {
        let mut weights: [M; S] = [M::key_to_type(0);S];
        let mut d: usize = 0;
        while d < S
            invariant
                d <= S,
                forall|k: int|
                    0 <= k < S ==> #[trigger] self.weights@[k].key_spec() <= M::key_limit(),
                forall|k: int|
                    0 <= k < d ==> #[trigger] weights@[k].key_spec() == self.weights@[k].key_spec(),
            decreases S - d,
        {
            weights[d] = M::key_to_type(T::type_to_key(self.weights[d]));
            d = d + 1;
        }
        let item = Item { value: self.value, weights: weights, quantity: unbounded };
        proof {
            assert(item.key_spec() =~= self.key_spec());
        }
        item
    }
}

/// Once a holder is found among the first entries, looking further finds
/// the same one.
pub proof fn lemma_first_holder_stays(
    entries: Seq<(Seq<u64>, u64)>,
    key: Seq<u64>,
    amount: u64,
    found: int,
    upto: int,
)
    requires
        0 <= found <= upto,
        first_holder(entries, key, amount, found) >= 0,
    ensures
        first_holder(entries, key, amount, upto) == first_holder(entries, key, amount, found),
    decreases upto - found,
{
    if found < upto {
        lemma_first_holder_stays(entries, key, amount, found, upto - 1);
    }
}

/// Whether two identity keys are the same.
pub fn same_key(a: &Vec<u64>, b: &Vec<u64>) -> (same: bool)
    ensures
        same == (a@ == b@),
{
    if a.len() != b.len() {
        return false;
    }
    let mut i: usize = 0;
    while i < a.len()
        invariant
            i <= a@.len(),
            a@.len() == b@.len(),
            forall|k: int| 0 <= k < i ==> a@[k] == b@[k],
        decreases a@.len() - i,
    {
        if a[i] != b[i] {
            return false;
        }
        i = i + 1;
    }
    proof {
        assert(a@ =~= b@);
    }
    true
}

/// Every entry can be an item with weights of type `T` in `dims` dimensions
/// and a quantity of type `N`.
pub open spec fn entries_in_range<T: CompatibleProblemType, N: UnboundedCompatibility>(
    entries: Seq<(Seq<u64>, u64)>,
    dims: nat,
) -> bool {
    forall|i: int|
        0 <= i < entries.len() ==> key_in_range::<T>((#[trigger] entries[i]).0, dims)
            && entries[i].1 <= N::amount_limit()
}

/// The items of a problem, each identity once, in the order in which the
/// identities first came in.
pub struct ProblemItems<T, const S: usize, N = T> where
    T: CompatibleProblemType,
    N: UnboundedCompatibility,
 {
    items: AmountMap,
    kinds: PhantomData<(T, N)>,
}

/// The items of a problem without limits on their quantities.
pub type UnboundedProblemItems<T, const S: usize> = ProblemItems<T, S, unbounded>;

impl<T, const S: usize, N> View for ProblemItems<T, S, N> where
    T: CompatibleProblemType,
    N: UnboundedCompatibility,
 {
    type V = Seq<(Seq<u64>, u64)>;

    /// The entries in order: identity key and amount.
    closed spec fn view(&self) -> Seq<(Seq<u64>, u64)> {
        self.items@
    }
}

impl<T, const S: usize, N> Clone for ProblemItems<T, S, N> where
    T: CompatibleProblemType,
    N: UnboundedCompatibility,
 {
    fn clone(&self) -> (copy: Self)
        ensures
            copy@ == self@,
    {
        ProblemItems { items: map_clone(&self.items), kinds: PhantomData }
    }
}

impl<T, const S: usize, N> ProblemItems<T, S, N> where
    T: CompatibleProblemType,
    N: UnboundedCompatibility,
 {
    /// The collection's invariant: the entries are items of this type, and
    /// no identity occurs twice.
    pub open spec fn wf(&self) -> bool {
        &&& entries_in_range::<T, N>(self@, S as nat)
        &&& distinct_keys(self@)
    }

    /// An empty collection.
    pub fn new() -> (items: Self)
        ensures
            items.wf(),
            items@ == Seq::<(Seq<u64>, u64)>::empty(),
    {
        ProblemItems { items: map_new(), kinds: PhantomData }
    }

    /// The number of distinct items.
    pub fn len(&self) -> (len: usize)
        ensures
            len == self@.len(),
    {
        map_len(&self.items)
    }

    /// The position of the item with the given value and weights.
    pub fn get_index_of(&self, key: (u64, [T; S])) -> (found: Option<usize>)
        requires
            self.wf(),
        ensures
            found is Some <==> find(self@, identity_key(key.0, key.1)) >= 0,
            found matches Some(index) ==> index == find(self@, identity_key(key.0, key.1)),
    {
        let key = key_of(key.0, &key.1);
        proof {
            lemma_find(self@, key@);
        }
        map_get_index_of(&self.items, &key)
    }

    /// The item at a position, where there is one.
    pub fn get_index(&self, index: usize) -> (found: Option<Item<T, S, N>>)
        requires
            self.wf(),
        ensures
            found is Some <==> index < self@.len(),
            found matches Some(item) ==> item.entry_spec() == self@[index as int],
    {
        match map_get_index(&self.items, index) {
            Some(entry) => {
                assert(key_in_range::<T>(self@[index as int].0, S as nat));
                let item = item_of::<T, S, N>(&entry.key, entry.amount);
                Some(item)
            },
            None => None,
        }
    }

    /// The item with the given value and weights, where the collection has
    /// it.
    pub fn get_item(&self, key: (u64, [T; S])) -> (found: Option<Item<T, S, N>>)
        requires
            self.wf(),
        ensures
            found is Some <==> find(self@, identity_key(key.0, key.1)) >= 0,
            found matches Some(item) ==> item.entry_spec() == self@[find(
                self@,
                identity_key(key.0, key.1),
            )],
    {
        match self.get_index_of(key) {
            Some(index) => {
                proof {
                    lemma_find(self@, identity_key(key.0, key.1));
                }
                self.get_index(index)
            },
            None => None,
        }
    }

    /// Adds an item: its quantity goes to the item of the same identity, or
    /// the item becomes the last of the collection. An item with a finite
    /// quantity of zero changes nothing.
    pub fn add(&mut self, item: Item<T, S, N>)
        requires
            old(self).wf(),
            find(old(self)@, item.key_spec()) >= 0 ==> old(self)@[find(
                old(self)@,
                item.key_spec(),
            )].1 + item.quantity.amount_spec() <= N::amount_limit(),
        ensures
            final(self).wf(),
            final(self)@ == if !N::is_unbounded_spec() && item.quantity.amount_spec() == 0 {
                old(self)@
            } else {
                merged(old(self)@, item.key_spec(), item.quantity.amount_spec())
            },
    {
        let key = key_of(item.value, &item.weights);
        let amount = N::to_amount(item.quantity);
        if !N::is_unbounded() && amount == 0 {
            return ;
        }
        proof {
            lemma_find(self@, key@);
            lemma_distinct_kept(self@, key@, amount, 0);
            N::lemma_amount_bounds(item.quantity);
        }
        match map_get_index_of(&self.items, &key) {
            Some(index) => {
                let held = map_get_index(&self.items, index).unwrap();
                map_insert(&mut self.items, key, held.amount + amount);
            },
            None => {
                map_insert(&mut self.items, key, amount);
            },
        }
    }

    /// Draws `amount` from the item filed under the identity key, where the
    /// collection has one that holds at least as much; an unlimited
    /// collection gives without changing.
    pub fn draw(&mut self, key: Vec<u64>, amount: u64) -> (drew: bool)
        requires
            old(self).wf(),
        ensures
            final(self).wf(),
            drew == (find(old(self)@, key@) >= 0 && (N::is_unbounded_spec() || old(self)@[find(
                old(self)@,
                key@,
            )].1 >= amount)),
            final(self)@ == if N::is_unbounded_spec() {
                old(self)@
            } else {
                drawn(old(self)@, key@, amount)
            },
    {
        proof {
            lemma_find(self@, key@);
            lemma_distinct_kept(self@, key@, amount, find(self@, key@));
        }
        match map_get_index_of(&self.items, &key) {
            Some(index) => {
                if N::is_unbounded() {
                    return true;
                }
                let held = map_get_index(&self.items, index).unwrap();
                if held.amount < amount {
                    return false;
                }
                map_insert(&mut self.items, key, held.amount - amount);
                proof {
                    assert(self@ == lowered(old(self)@, index as int, amount));
                    assert forall|i: int| 0 <= i < self@.len() implies key_in_range::<T>(
                        (#[trigger] self@[i]).0,
                        S as nat,
                    ) && self@[i].1 <= N::amount_limit() by {
                        assert(key_in_range::<T>(old(self)@[i].0, S as nat));
                        assert(old(self)@[i].1 <= N::amount_limit());
                    }
                }
                true
            },
            None => false,
        }
    }

    /// Draws the quantity of `item` from the item of the same identity, where
    /// the collection has one that holds at least as much; an unlimited
    /// collection gives without changing.
    pub fn deduct(&mut self, item: &Item<T, S>) -> (drew: bool)
        requires
            old(self).wf(),
        ensures
            final(self).wf(),
            drew == (find(old(self)@, item.key_spec()) >= 0 && (N::is_unbounded_spec() || old(
                self,
            )@[find(old(self)@, item.key_spec())].1 >= item.quantity.key_spec())),
            final(self)@ == if N::is_unbounded_spec() {
                old(self)@
            } else {
                drawn(old(self)@, item.key_spec(), item.quantity.key_spec())
            },
    {
        let key = key_of(item.value, &item.weights);
        let amount = T::type_to_key(item.quantity);
        self.draw(key, amount)
    }

    /// Takes the item at a position out of the collection; the items behind
    /// it move up.
    pub fn remove_index(&mut self, index: usize) -> (removed: Option<Item<T, S, N>>)
        requires
            old(self).wf(),
        ensures
            final(self).wf(),
            removed is Some <==> index < old(self)@.len(),
            removed matches Some(item) ==> item.entry_spec() == old(self)@[index as int]
                && final(self)@ == old(self)@.remove(index as int),
            removed is None ==> final(self)@ == old(self)@,
    {
        proof {
            lemma_distinct_kept(self@, Seq::empty(), 0, index as int);
        }
        match map_shift_remove_index(&mut self.items, index) {
            Some(entry) => {
                assert(key_in_range::<T>(old(self)@[index as int].0, S as nat));
                let item = item_of::<T, S, N>(&entry.key, entry.amount);
                Some(item)
            },
            None => None,
        }
    }

    /// Takes the item with the given value and weights out of the
    /// collection.
    pub fn remove_item(&mut self, key: (u64, [T; S])) -> (removed: Option<Item<T, S, N>>)
        requires
            old(self).wf(),
        ensures
            final(self).wf(),
            removed is Some <==> find(old(self)@, identity_key(key.0, key.1)) >= 0,
            removed matches Some(item) ==> item.entry_spec() == old(self)@[find(
                old(self)@,
                identity_key(key.0, key.1),
            )] && final(self)@ == old(self)@.remove(find(old(self)@, identity_key(key.0, key.1))),
            removed is None ==> final(self)@ == old(self)@,
    {
        match self.get_index_of(key) {
            Some(index) => {
                proof {
                    lemma_find(self@, identity_key(key.0, key.1));
                }
                self.remove_index(index)
            },
            None => None,
        }
    }

    /// The items in order.
    pub fn iter(&self) -> (items: Vec<Item<T, S, N>>)
        requires
            self.wf(),
        ensures
            items@.len() == self@.len(),
            forall|i: int| 0 <= i < items@.len() ==> (#[trigger] items@[i]).entry_spec() == self@[i],
    {
        let mut items: Vec<Item<T, S, N>> = Vec::new();
        let len = self.len();
        let mut i: usize = 0;
        while i < len
            invariant
                self.wf(),
                len == self@.len(),
                i <= len,
                items@.len() == i,
                forall|k: int| 0 <= k < i ==> (#[trigger] items@[k]).entry_spec() == self@[k],
            decreases len - i,
        {
            let item = self.get_index(i).unwrap();
            items.push(item);
            i = i + 1;
        }
        items
    }

    /// The problem of packing these items into the given knapsacks.
    pub fn insert_into(self, knapsacks: ProblemKnapsacks<T, S>) -> (problem: BoundedProblem<T, S, N>)
        ensures
            problem.items == self,
            problem.knapsacks == knapsacks,
    {
        BoundedProblem { items: self, knapsacks: knapsacks }
    }

    /// The problem of packing these items into the given knapsacks, on the
    /// caller's own collection: solving it draws what was packed from here.
    pub fn insert_mut_into<'a>(&'a mut self, knapsacks: ProblemKnapsacks<T, S>) -> (problem:
        BoundedProblemMut<'a, T, S, N>)
        ensures
            *problem.items == *old(self),
            *final(self) == *final(problem.items),
            problem.knapsacks == knapsacks,
    {
        BoundedProblemMut { items: self, knapsacks: knapsacks }
    }

    /// The items in order, with the collection given up.
    pub fn into_iter(self) -> (items: Vec<Item<T, S, N>>)
        requires
            self.wf(),
        ensures
            items@.len() == self@.len(),
            forall|i: int| 0 <= i < items@.len() ==> (#[trigger] items@[i]).entry_spec() == self@[i],
    {
        self.iter()
    }
}

impl<T, const S: usize> ProblemItems<T, S> where T: CompatibleProblemType {
    /// The same collection with weights and quantities in another scalar
    /// type that can hold them.
    pub fn to_generic<M>(self) -> (items: ProblemItems<M, S>) where M: CompatibleProblemType
        requires
            self.wf(),
            entries_in_range::<M, M>(self@, S as nat),
        ensures
            items.wf(),
            items@ == self@,
    {
        ProblemItems { items: self.items, kinds: PhantomData }
    }
}

impl<T, const S: usize> ProblemItems<T, S, unbounded> where T: CompatibleProblemType {
    /// The same unlimited collection with weights in another scalar type
    /// that can hold them.
    pub fn to_generic<M>(self) -> (items: ProblemItems<M, S, unbounded>) where
        M: CompatibleProblemType,

        requires
            self.wf(),
            entries_in_range::<M, unbounded>(self@, S as nat),
        ensures
            items.wf(),
            items@ == self@,
    {
        ProblemItems { items: self.items, kinds: PhantomData }
    }
}

/// The items of a binary problem: a plain list, one entry per unit, nothing
/// merged.
pub struct BinaryProblemItems<T, const S: usize> where T: CompatibleProblemType {
    pub items: Vec<Item<T, S>>,
}

impl<T, const S: usize> View for BinaryProblemItems<T, S> where T: CompatibleProblemType {
    type V = Seq<Item<T, S>>;

    /// The items in order.
    open spec fn view(&self) -> Seq<Item<T, S>> {
        self.items@
    }
}

impl<T, const S: usize> Clone for BinaryProblemItems<T, S> where T: CompatibleProblemType {
    fn clone(&self) -> (copy: Self)
        ensures
            copy@ == self@,
    {
        BinaryProblemItems { items: self.iter() }
    }
}

impl<T, const S: usize> BinaryProblemItems<T, S> where T: CompatibleProblemType {
    /// An empty list.
    pub fn new() -> (items: Self)
        ensures
            items@ == Seq::<Item<T, S>>::empty(),
    {
        BinaryProblemItems { items: Vec::new() }
    }

    /// Appends an item.
    pub fn add(&mut self, item: Item<T, S>)
        ensures
            final(self)@ == old(self)@.push(item),
    {
        self.items.push(item);
    }

    /// Takes the item at a position out of the list; the items behind it
    /// move up.
    pub fn remove_at_index(&mut self, index: usize) -> (removed: Option<Item<T, S>>)
        ensures
            removed is Some <==> index < old(self)@.len(),
            removed matches Some(item) ==> item == old(self)@[index as int] && final(self)@ == old(
                self,
            )@.remove(index as int),
            removed is None ==> final(self)@ == old(self)@,
    {
        if index >= self.items.len() {
            return None;
        }
        Some(self.items.remove(index))
    }

    /// The number of items.
    pub fn len(&self) -> (len: usize)
        ensures
            len == self@.len(),
    {
        self.items.len()
    }

    /// The items in order.
    pub fn iter(&self) -> (items: Vec<Item<T, S>>)
        ensures
            items@ == self@,
    {
        let mut items: Vec<Item<T, S>> = Vec::new();
        let mut i: usize = 0;
        while i < self.items.len()
            invariant
                i <= self.items@.len(),
                items@ == self.items@.take(i as int),
            decreases self.items@.len() - i,
        {
            items.push(self.items[i]);
            proof {
                assert(self.items@.take(i + 1) =~= self.items@.take(i as int).push(
                    self.items@[i as int],
                ));
            }
            i = i + 1;
        }
        proof {
            assert(self.items@.take(i as int) =~= self.items@);
        }
        items
    }

    /// The entries that the list amounts to.
    pub open spec fn entries(&self) -> Seq<(Seq<u64>, u64)> {
        Seq::new(self@.len(), |i: int| self@[i].entry_spec())
    }

    /// Draws the quantity of `item` from the first item of the same identity
    /// that holds at least as much.
    pub fn deduct(&mut self, item: &Item<T, S>) -> (drew: bool)
        ensures
            drew == (first_holder(
                old(self).entries(),
                item.key_spec(),
                item.quantity.key_spec(),
                old(self)@.len() as int,
            ) >= 0),
            final(self).entries() == drawn_first(
                old(self).entries(),
                item.key_spec(),
                item.quantity.key_spec(),
            ),
    {
        let ghost entries = self.entries();
        let key = key_of(item.value, &item.weights);
        let amount = T::type_to_key(item.quantity);
        let mut i: usize = 0;
        while i < self.items.len()
            invariant
                i <= self.items@.len(),
                self.items == old(self).items,
                entries == self.entries(),
                key@ == item.key_spec(),
                amount == item.quantity.key_spec(),
                first_holder(entries, key@, amount, i as int) < 0,
            decreases self.items@.len() - i,
        {
            let held = self.items[i];
            let held_key = key_of(held.value, &held.weights);
            let stock = T::type_to_key(held.quantity);
            let same = same_key(&held_key, &key);
            if same && stock >= amount {
                proof {
                    T::lemma_key_bounds(held.quantity);
                    lemma_first_holder_stays(entries, key@, amount, i + 1, entries.len() as int);
                }
                let left = Item::<T, S> {
                    value: held.value,
                    weights: held.weights,
                    quantity: T::key_to_type(stock - amount),
                };
                self.items.set(i, left);
                proof {
                    assert(left.key_spec() =~= held.key_spec());
                    assert(self.entries() =~= lowered(entries, i as int, amount));
                }
                return true;
            }
            i = i + 1;
        }
        false
    }

    /// The problem of packing these items into the given knapsacks.
    pub fn insert_into(self, knapsacks: BinaryProblemKnapsacks<T, S>) -> (problem: BinaryProblem<T, S>)
        ensures
            problem.items == self,
            problem.knapsacks == knapsacks,
    {
        BinaryProblem { items: self, knapsacks: knapsacks }
    }

    /// The problem of packing these items into the given knapsacks, on the
    /// caller's own list: solving it draws what was packed from here.
    pub fn insert_mut_into<'a>(&'a mut self, knapsacks: BinaryProblemKnapsacks<T, S>) -> (problem:
        BinaryProblemMut<'a, T, S>)
        ensures
            *problem.items == *old(self),
            *final(self) == *final(problem.items),
            problem.knapsacks == knapsacks,
    {
        BinaryProblemMut { items: self, knapsacks: knapsacks }
    }

    /// The items in order, with the list given up.
    pub fn into_iter(self) -> (items: Vec<Item<T, S>>)
        ensures
            items@ == self@,
    {
        self.items
    }

    /// The same list with weights and quantities in another scalar type
    /// that can hold them.
    pub fn to_generic<M>(self) -> (items: BinaryProblemItems<M, S>) where M: CompatibleProblemType
        requires
            forall|i: int|
                0 <= i < self@.len() ==> key_in_range::<M>((#[trigger] self@[i]).key_spec(), S as nat)
                    && self@[i].quantity.key_spec() <= M::key_limit(),
        ensures
            items@.len() == self@.len(),
            forall|i: int|
                0 <= i < self@.len() ==> (#[trigger] items@[i]).entry_spec() == self@[i].entry_spec(),
    {
        let mut items: Vec<Item<M, S>> = Vec::new();
        let mut i: usize = 0;
        while i < self.items.len()
            invariant
                i <= self.items@.len(),
                items@.len() == i,
                forall|k: int|
                    0 <= k < self@.len() ==> key_in_range::<M>(
                        (#[trigger] self@[k]).key_spec(),
                        S as nat,
                    ) && self@[k].quantity.key_spec() <= M::key_limit(),
                forall|k: int|
                    0 <= k < i ==> (#[trigger] items@[k]).entry_spec() == self@[k].entry_spec(),
            decreases self.items@.len() - i,
        {
            let item = self.items[i];
            proof {
                assert(key_in_range::<M>(self@[i as int].key_spec(), S as nat));
                assert forall|d: int| 0 <= d < S implies #[trigger] item.weights@[d].key_spec()
                    <= M::key_limit() by {
                    assert(item.key_spec()[d + 1] <= M::key_limit());
                }
            }
            items.push(item.to_generic::<M>());
            i = i + 1;
        }
        BinaryProblemItems { items: items }
    }
}

} // verus!
