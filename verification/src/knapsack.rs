//! Knapsacks: a capacity in every dimension, the items packed so far, and
//! the running value and weights that the packed items add up to.
use vstd::prelude::*;
use crate::compatible_problem_type_trait::{CompatibleProblemType, UnboundedCompatibility};
use crate::holdings::{
    distinct_keys, find, held, held_terms, lemma_distinct_kept, lemma_find, lemma_held_lowered,
    lemma_held_merged, lemma_held_pushed, lemma_held_removed, lowered, merged,
};
use crate::index_map::{
    map_clear, map_clone, map_get_index, map_get_index_of, map_insert, map_len, map_new,
    map_shift_remove_index, AmountMap, MapEntry,
};
use crate::item::{entries_in_range, identity_key, item_of, key_in_range, key_of, Item};
use crate::sums::total;

pub mod impl_itemtype;
pub mod impl_unbound;

pub use impl_itemtype::ItemData;
pub use impl_itemtype::ItemDataKey;
pub use impl_unbound::unbound;
pub use impl_unbound::Quantity;

verus! {

/// What a knapsack is, in numbers: the running value, the running weight
/// and the capacity in every dimension, and the packed entries in order.
pub struct KnapsackView {
    pub value: u64,
    pub weights: Seq<u64>,
    pub capacity: Seq<u64>,
    pub items: Seq<(Seq<u64>, u64)>,
}

/// The running numbers are what the packed entries add up to, and no
/// running weight is over its capacity.
pub open spec fn sound(view: KnapsackView, dims: nat) -> bool {
    &&& view.weights.len() == dims
    &&& view.capacity.len() == dims
    &&& view.value == held(view.items, 0)
    &&& forall|d: int|
        0 <= d < dims ==> #[trigger] view.weights[d] == held(view.items, d + 1) && view.weights[d]
            <= view.capacity[d]
}

/// Whether `amount` more units under `key` fit: the capacity holds them in
/// every dimension, and the running value stays within what its type can
/// hold.
pub open spec fn fits_in(
    value: u64,
    weights: Seq<u64>,
    capacity: Seq<u64>,
    key: Seq<u64>,
    amount: u64,
) -> bool {
    &&& forall|d: int|
        0 <= d < weights.len() ==> weights[d] + #[trigger] key[d + 1] * amount <= capacity[d]
    &&& value + key[0] * amount <= u64::MAX
}

/// Whether `amount` more units under `key` can go into a knapsack that
/// merges: they fit, and the packed quantity of that identity stays within
/// what its type can hold.
pub open spec fn accepts(view: KnapsackView, key: Seq<u64>, amount: u64, limit: u64) -> bool {
    &&& fits_in(view.value, view.weights, view.capacity, key, amount)
    &&& find(view.items, key) >= 0 ==> view.items[find(view.items, key)].1 + amount <= limit
}

/// The keys of the scalars of an array.
pub open spec fn keys_of<T: CompatibleProblemType, const S: usize>(scalars: [T; S]) -> Seq<u64> {
    Seq::new(S as nat, |d: int| scalars@[d].key_spec())
}

/// Whether `key` is within what a scalar of type `T` can hold.
pub fn fits_type<T: CompatibleProblemType>(key: u64) -> (within: bool)
    ensures
        within == (key <= T::key_limit()),
{
    let back = T::key_to_type(key);
    proof {
        T::lemma_key_bounds(back);
    }
    T::type_to_key(back) == key
}

/// Whether the running value and weights leave room for `amount` units
/// under `key`.
fn gauges_allow<T: CompatibleProblemType, const S: usize>(
    value: u64,
    weights: &[T; S],
    capacity: &[T; S],
    key: &Vec<u64>,
    amount: u64,
) -> (ok: bool)
    requires
        key_in_range::<T>(key@, S as nat),
        amount <= T::key_limit(),
    ensures
        ok == fits_in(value, keys_of(*weights), keys_of(*capacity), key@, amount),
{
    let mut ok = true;
    let mut d: usize = 0;
    proof {
        T::lemma_key_bounds(arbitrary());
    }
    while d < S
        invariant
            key_in_range::<T>(key@, S as nat),
            amount <= T::key_limit(),
            T::key_limit() <= u32::MAX,
            d <= S,
            ok <==> (forall|k: int|
                0 <= k < d ==> keys_of(*weights)[k] + #[trigger] key@[k + 1] * amount <= keys_of(
                    *capacity,
                )[k]),
        decreases S - d,
    {
        let unit = key[d + 1];
        proof {
            assert(key@[d + 1] <= T::key_limit());
            T::lemma_key_bounds(weights@[d as int]);
            assert(unit * amount <= 0xffff_ffff * 0xffff_ffff) by (nonlinear_arith)
                requires
                    unit <= 0xffff_ffff,
                    amount <= 0xffff_ffff,
            ;
        }
        if unit * amount + T::type_to_key(weights[d]) > T::type_to_key(capacity[d]) {
            ok = false;
        }
        d = d + 1;
    }
    proof {
        assert(key@[0] * amount <= 0xffff_ffff_ffff_ffff * 0xffff_ffff) by (nonlinear_arith)
            requires
                key@[0] <= 0xffff_ffff_ffff_ffff,
                amount <= 0xffff_ffff,
        ;
    }
    let worth: u128 = (key[0] as u128) * (amount as u128) + (value as u128);
    if worth > u64::MAX as u128 {
        ok = false;
    }
    ok
}

/// Adds `amount` units under `key` to the running value and weights.
fn raise_gauges<T: CompatibleProblemType, const S: usize>(
    value: &mut u64,
    weights: &mut [T; S],
    capacity: &[T; S],
    key: &Vec<u64>,
    amount: u64,
)
    requires
        key_in_range::<T>(key@, S as nat),
        amount <= T::key_limit(),
        fits_in(*old(value), keys_of(*old(weights)), keys_of(*capacity), key@, amount),
    ensures
        *final(value) == *old(value) + key@[0] * amount,
        forall|d: int|
            0 <= d < S ==> #[trigger] keys_of(*final(weights))[d] == keys_of(*old(weights))[d] + key@[d
                + 1] * amount,
{
    let ghost before = keys_of(*weights);
    proof {
        assert(key@[0] * amount >= 0) by (nonlinear_arith)
            requires
                key@[0] >= 0,
                amount >= 0,
        ;
    }
    *value = ((key[0] as u128) * (amount as u128) + (*value as u128)) as u64;
    let mut d: usize = 0;
    while d < S
        invariant
            d <= S,
            key_in_range::<T>(key@, S as nat),
            forall|k: int|
                0 <= k < S ==> before[k] + #[trigger] key@[k + 1] * amount <= keys_of(*capacity)[k],
            forall|k: int|
                0 <= k < d ==> #[trigger] weights@[k].key_spec() == before[k] + key@[k + 1] * amount,
            forall|k: int| d <= k < S ==> #[trigger] weights@[k].key_spec() == before[k],
        decreases S - d,
    {
        proof {
            assert(before[d as int] + key@[d + 1] * amount <= keys_of(*capacity)[d as int]);
            T::lemma_key_bounds(capacity@[d as int]);
            assert(key@[d + 1] * amount >= 0) by (nonlinear_arith)
                requires
                    key@[d + 1] >= 0,
                    amount >= 0,
            ;
        }
        let ghost weights_before = weights@;
        let grown = key[d + 1] * amount + T::type_to_key(weights[d]);
        weights[d] = T::key_to_type(grown);
        proof {
            assert(weights@ == weights_before.update(d as int, weights@[d as int]));
            assert(weights@[d as int].key_spec() == grown);
        }
        d = d + 1;
    }
}

/// Takes `amount` units under `key` off the running value and weights.
fn lower_gauges<T: CompatibleProblemType, const S: usize>(
    value: &mut u64,
    weights: &mut [T; S],
    key: &Vec<u64>,
    amount: u64,
)
    requires
        key_in_range::<T>(key@, S as nat),
        0 <= key@[0] * amount <= *old(value),
        forall|d: int| 0 <= d < S ==> #[trigger] key@[d + 1] * amount <= keys_of(*old(weights))[d],
    ensures
        *final(value) == *old(value) - key@[0] * amount,
        forall|d: int|
            0 <= d < S ==> #[trigger] keys_of(*final(weights))[d] == keys_of(*old(weights))[d] - key@[d
                + 1] * amount,
{
    let ghost before = keys_of(*weights);
    *value = *value - ((key[0] as u128) * (amount as u128)) as u64;
    let mut d: usize = 0;
    while d < S
        invariant
            d <= S,
            key_in_range::<T>(key@, S as nat),
            forall|k: int| 0 <= k < S ==> #[trigger] key@[k + 1] * amount <= before[k],
            forall|k: int|
                0 <= k < d ==> #[trigger] weights@[k].key_spec() == before[k] - key@[k + 1] * amount,
            forall|k: int| d <= k < S ==> #[trigger] weights@[k].key_spec() == before[k],
        decreases S - d,
    {
        proof {
            assert(key@[d + 1] * amount <= before[d as int]);
            T::lemma_key_bounds(weights@[d as int]);
            assert(key@[d + 1] * amount >= 0) by (nonlinear_arith)
                requires
                    key@[d + 1] >= 0,
                    amount >= 0,
            ;
        }
        let ghost weights_before = weights@;
        let less = T::type_to_key(weights[d]) - key[d + 1] * amount;
        weights[d] = T::key_to_type(less);
        proof {
            assert(weights@ == weights_before.update(d as int, weights@[d as int]));
            assert(weights@[d as int].key_spec() == less);
        }
        d = d + 1;
    }
}

/// What every operation on a knapsack keeps: in every dimension the running
/// weight is within the capacity, and the running value is the sum over the
/// packed items of value times quantity.
pub proof fn lemma_sound_means(view: KnapsackView, dims: nat)
    requires
        sound(view, dims),
    ensures
        forall|d: int| 0 <= d < dims ==> #[trigger] view.weights[d] <= view.capacity[d],
        view.value == total(Seq::new(view.items.len(), |i: int| view.items[i].0[0] * view.items[i].1)),
{
    assert(held_terms(view.items, 0) =~= Seq::new(
        view.items.len(),
        |i: int| view.items[i].0[0] * view.items[i].1,
    ));
}

/// A knapsack for bounded items: packed items of one identity are merged
/// into one entry.
pub struct Knapsack<T, const S: usize> where T: CompatibleProblemType {
    value: u64,
    items: AmountMap,
    weights: [T; S],
    capacity: [T; S],
}

impl<T, const S: usize> View for Knapsack<T, S> where T: CompatibleProblemType {
    type V = KnapsackView;

    closed spec fn view(&self) -> KnapsackView {
        KnapsackView {
            value: self.value,
            weights: keys_of(self.weights),
            capacity: keys_of(self.capacity),
            items: self.items@,
        }
    }
}

impl<T, const S: usize> Clone for Knapsack<T, S> where T: CompatibleProblemType {
    fn clone(&self) -> (copy: Self)
        ensures
            copy@ == self@,
    {
        Knapsack {
            value: self.value,
            items: map_clone(&self.items),
            weights: self.weights,
            capacity: self.capacity,
        }
    }
}

impl<T, const S: usize> Knapsack<T, S> where T: CompatibleProblemType {
    /// The knapsack's invariant: the entries are items of this type, each
    /// identity once; the running value and weights are what the entries add
    /// up to; and no running weight is over its capacity.
    pub open spec fn wf(&self) -> bool {
        &&& entries_in_range::<T, T>(self@.items, S as nat)
        &&& distinct_keys(self@.items)
        &&& sound(self@, S as nat)
    }

    /// Capacities and running weights are scalars of the knapsack's type,
    /// one per dimension.
    pub proof fn lemma_view_bounds(&self)
        ensures
            self@.capacity.len() == S,
            self@.weights.len() == S,
            forall|d: int| 0 <= d < S ==> #[trigger] self@.capacity[d] <= T::key_limit(),
            forall|d: int| 0 <= d < S ==> #[trigger] self@.weights[d] <= T::key_limit(),
            T::key_limit() <= u32::MAX,
    {
        T::lemma_key_bounds(arbitrary());
        assert forall|d: int| 0 <= d < S implies #[trigger] self@.capacity[d] <= T::key_limit() by {
            T::lemma_key_bounds(self.capacity@[d]);
        }
        assert forall|d: int| 0 <= d < S implies #[trigger] self@.weights[d] <= T::key_limit() by {
            T::lemma_key_bounds(self.weights@[d]);
        }
    }

    /// An empty knapsack with the given capacity.
    pub fn new(capacity: [T; S]) -> (knapsack: Self)
        ensures
            knapsack.wf(),
            knapsack@.capacity == keys_of(capacity),
            knapsack@.items == Seq::<(Seq<u64>, u64)>::empty(),
    {
        let knapsack = Knapsack {
            value: 0,
            items: map_new(),
            weights: [T::key_to_type(0);S],
            capacity: capacity,
        };
        proof {
            assert forall|d: int| 0 <= d < S implies #[trigger] knapsack@.weights[d] == held(
                knapsack@.items,
                d + 1,
            ) && knapsack@.weights[d] <= knapsack@.capacity[d] by {
                assert(knapsack.weights@[d].key_spec() == 0);
            }
        }
        knapsack
    }

    /// The running value.
    pub fn value(&self) -> (value: u64)
        ensures
            value == self@.value,
    {
        self.value
    }

    /// The capacity in every dimension.
    pub fn capacity(&self) -> (capacity: &[T; S])
        ensures
            keys_of(*capacity) == self@.capacity,
    {
        &self.capacity
    }

    /// The running weight in every dimension.
    pub fn weights(&self) -> (weights: &[T; S])
        ensures
            keys_of(*weights) == self@.weights,
    {
        &self.weights
    }

    /// What is still free in every dimension.
    pub fn room(&self) -> (room: Vec<u64>)
        requires
            self.wf(),
        ensures
            room@.len() == S,
            forall|d: int|
                0 <= d < S ==> #[trigger] room@[d] == self@.capacity[d] - self@.weights[d],
    {
        let mut room: Vec<u64> = Vec::new();
        let mut d: usize = 0;
        while d < S
            invariant
                self.wf(),
                d <= S,
                room@.len() == d,
                forall|k: int|
                    0 <= k < d ==> #[trigger] room@[k] == self@.capacity[k] - self@.weights[k],
            decreases S - d,
        {
            assert(self@.weights[d as int] <= self@.capacity[d as int]);
            room.push(T::type_to_key(self.capacity[d]) - T::type_to_key(self.weights[d]));
            d = d + 1;
        }
        room
    }

    /// The number of packed entries.
    pub fn len(&self) -> (len: usize)
        ensures
            len == self@.items.len(),
    {
        map_len(&self.items)
    }

    /// The position of the packed item with the given value and weights.
    pub fn get_index_of(&self, key: (u64, [T; S])) -> (found: Option<usize>)
        requires
            self.wf(),
        ensures
            found is Some <==> find(self@.items, identity_key(key.0, key.1)) >= 0,
            found matches Some(index) ==> index == find(self@.items, identity_key(key.0, key.1)),
    {
        let key = key_of(key.0, &key.1);
        proof {
            lemma_find(self@.items, key@);
        }
        map_get_index_of(&self.items, &key)
    }

    /// The packed entry at a position as it is filed: its identity key and
    /// its quantity.
    pub fn entry_at(&self, index: usize) -> (entry: Option<MapEntry>)
        ensures
            entry is Some <==> index < self@.items.len(),
            entry matches Some(filed) ==> filed.key@ == self@.items[index as int].0 && filed.amount
                == self@.items[index as int].1,
    {
        map_get_index(&self.items, index)
    }

    /// The quantity packed under an identity key, where the knapsack has
    /// it.
    pub fn amount_of(&self, key: &Vec<u64>) -> (amount: Option<u64>)
        requires
            self.wf(),
        ensures
            amount is Some <==> find(self@.items, key@) >= 0,
            amount matches Some(packed) ==> packed == self@.items[find(self@.items, key@)].1,
    {
        proof {
            lemma_find(self@.items, key@);
        }
        match map_get_index_of(&self.items, key) {
            Some(index) => {
                let filed = map_get_index(&self.items, index).unwrap();
                Some(filed.amount)
            },
            None => None,
        }
    }

    /// The packed item at a position, where there is one.
    pub fn get_index(&self, index: usize) -> (found: Option<Item<T, S>>)
        requires
            self.wf(),
        ensures
            found is Some <==> index < self@.items.len(),
            found matches Some(item) ==> item.entry_spec() == self@.items[index as int],
    {
        match map_get_index(&self.items, index) {
            Some(entry) => {
                assert(key_in_range::<T>(self@.items[index as int].0, S as nat));
                Some(item_of::<T, S, T>(&entry.key, entry.amount))
            },
            None => None,
        }
    }

    /// The packed item with the given value and weights, where the knapsack
    /// has it.
    pub fn get_item(&self, key: (u64, [T; S])) -> (found: Option<Item<T, S>>)
        requires
            self.wf(),
        ensures
            found is Some <==> find(self@.items, identity_key(key.0, key.1)) >= 0,
            found matches Some(item) ==> item.entry_spec() == self@.items[find(
                self@.items,
                identity_key(key.0, key.1),
            )],
    {
        match self.get_index_of(key) {
            Some(index) => {
                proof {
                    lemma_find(self@.items, identity_key(key.0, key.1));
                }
                self.get_index(index)
            },
            None => None,
        }
    }

    /// Whether `amount` more units under `key` can go in.
    fn has_room(&self, key: &Vec<u64>, amount: u64) -> (ok: bool)
        requires
            self.wf(),
            key_in_range::<T>(key@, S as nat),
            amount <= T::key_limit(),
        ensures
            ok == accepts(self@, key@, amount, T::key_limit()),
    {
        proof {
            lemma_find(self@.items, key@);
        }
        if !gauges_allow(self.value, &self.weights, &self.capacity, key, amount) {
            return false;
        }
        match map_get_index_of(&self.items, key) {
            Some(index) => {
                let packed = map_get_index(&self.items, index).unwrap();
                proof {
                    assert(self@.items[index as int].1 <= T::key_limit());
                    T::lemma_key_bounds(arbitrary());
                }
                fits_type::<T>(packed.amount + amount)
            },
            None => true,
        }
    }

    /// Puts `amount` units under `key` in.
    fn put(&mut self, key: Vec<u64>, amount: u64)
        requires
            old(self).wf(),
            key_in_range::<T>(key@, S as nat),
            amount <= T::key_limit(),
            accepts(old(self)@, key@, amount, T::key_limit()),
        ensures
            final(self).wf(),
            final(self)@.capacity == old(self)@.capacity,
            final(self)@.items == merged(old(self)@.items, key@, amount),
    {
        let ghost before = self@;
        proof {
            lemma_find(before.items, key@);
            lemma_distinct_kept(before.items, key@, amount, 0);
            lemma_held_merged(before.items, key@, amount, 0);
        }
        raise_gauges(&mut self.value, &mut self.weights, &self.capacity, &key, amount);
        match map_get_index_of(&self.items, &key) {
            Some(index) => {
                let packed = map_get_index(&self.items, index).unwrap();
                map_insert(&mut self.items, key, packed.amount + amount);
            },
            None => {
                map_insert(&mut self.items, key, amount);
            },
        }
        proof {
            assert(self@.items == merged(before.items, key@, amount));
            assert(self@.capacity =~= before.capacity);
            assert forall|d: int| 0 <= d < S implies #[trigger] self@.weights[d] == held(
                self@.items,
                d + 1,
            ) && self@.weights[d] <= self@.capacity[d] by {
                lemma_held_merged(before.items, key@, amount, d + 1);
                assert(before.weights[d] == held(before.items, d + 1));
                assert(before.weights[d] + key@[d + 1] * amount <= before.capacity[d]);
            }
        }
    }

    /// Takes `amount` units out of the entry at `index`.
    fn withdraw(&mut self, index: usize, amount: u64)
        requires
            old(self).wf(),
            index < old(self)@.items.len(),
            amount <= old(self)@.items[index as int].1,
        ensures
            final(self).wf(),
            final(self)@.capacity == old(self)@.capacity,
            final(self)@.items == lowered(old(self)@.items, index as int, amount),
    {
        let ghost before = self@;
        let packed = map_get_index(&self.items, index).unwrap();
        let key = packed.key;
        proof {
            assert(key_in_range::<T>(before.items[index as int].0, S as nat));
            assert(before.items[index as int].1 <= T::key_limit());
            lemma_distinct_kept(before.items, key@, amount, index as int);
            lemma_held_lowered(before.items, index as int, amount, 0);
            assert forall|d: int| 0 <= d < S implies #[trigger] key@[d + 1] * amount <= keys_of(
                self.weights,
            )[d] by {
                lemma_held_lowered(before.items, index as int, amount, d + 1);
                assert(before.weights[d] == held(before.items, d + 1));
            }
        }
        lower_gauges(&mut self.value, &mut self.weights, &key, amount);
        map_insert(&mut self.items, key, packed.amount - amount);
        proof {
            assert(self@.items == lowered(before.items, index as int, amount));
            assert(self@.capacity =~= before.capacity);
            assert forall|d: int| 0 <= d < S implies #[trigger] self@.weights[d] == held(
                self@.items,
                d + 1,
            ) && self@.weights[d] <= self@.capacity[d] by {
                lemma_held_lowered(before.items, index as int, amount, d + 1);
                assert(before.weights[d] == held(before.items, d + 1));
                assert(before.weights[d] <= before.capacity[d]);
                assert(key@[d + 1] * amount <= keys_of(old(self).weights)[d]);
            }
            assert forall|i: int| 0 <= i < self@.items.len() implies key_in_range::<T>(
                (#[trigger] self@.items[i]).0,
                S as nat,
            ) && self@.items[i].1 <= T::key_limit() by {
                assert(key_in_range::<T>(before.items[i].0, S as nat));
                assert(before.items[i].1 <= T::key_limit());
            }
        }
    }

    /// Packs an item: all of its quantity, or nothing where that does not
    /// fit. An item with a quantity of zero fits and changes nothing.
    pub fn add(&mut self, item: Item<T, S>) -> (added: bool)
        requires
            old(self).wf(),
        ensures
            final(self).wf(),
            added == accepts(
                old(self)@,
                item.key_spec(),
                item.quantity.key_spec(),
                T::key_limit(),
            ),
            final(self)@.capacity == old(self)@.capacity,
            final(self)@.items == if added && item.quantity.key_spec() > 0 {
                merged(old(self)@.items, item.key_spec(), item.quantity.key_spec())
            } else {
                old(self)@.items
            },
            !added || item.quantity.key_spec() == 0 ==> final(self)@ == old(self)@,
    {
        let key = key_of(item.value, &item.weights);
        let amount = T::type_to_key(item.quantity);
        proof {
            T::lemma_key_bounds(item.quantity);
        }
        if !self.has_room(&key, amount) {
            return false;
        }
        if amount > 0 {
            self.put(key, amount);
        }
        true
    }

    /// Packs `quantity` units of an item that stays with the caller, and
    /// takes them off the item's own quantity; or does nothing where the
    /// item has fewer units or the units do not fit.
    pub fn add_mut<R>(&mut self, item: &mut Item<T, S, R>, quantity: T) -> (added: bool) where
        R: UnboundedCompatibility,

        requires
            old(self).wf(),
        ensures
            final(self).wf(),
            added == ((R::is_unbounded_spec() || old(item).quantity.amount_spec()
                >= quantity.key_spec()) && accepts(
                old(self)@,
                old(item).key_spec(),
                quantity.key_spec(),
                T::key_limit(),
            )),
            final(self)@.capacity == old(self)@.capacity,
            final(self)@.items == if added && quantity.key_spec() > 0 {
                merged(old(self)@.items, old(item).key_spec(), quantity.key_spec())
            } else {
                old(self)@.items
            },
            !added ==> final(self)@ == old(self)@ && *final(item) == *old(item),
            final(item).value == old(item).value,
            final(item).weights == old(item).weights,
            added && !R::is_unbounded_spec() ==> final(item).quantity.amount_spec() == old(
                item,
            ).quantity.amount_spec() - quantity.key_spec(),
            R::is_unbounded_spec() ==> final(item).quantity == old(item).quantity,
    {
        let key = key_of(item.value, &item.weights);
        let amount = T::type_to_key(quantity);
        let stock = R::to_amount(item.quantity);
        proof {
            T::lemma_key_bounds(quantity);
            R::lemma_amount_bounds(item.quantity);
        }
        if !R::is_unbounded() && stock < amount {
            return false;
        }
        if !self.has_room(&key, amount) {
            return false;
        }
        if amount > 0 {
            self.put(key, amount);
        }
        if !R::is_unbounded() {
            item.quantity = R::from_amount(stock - amount);
        }
        true
    }

    /// Takes the quantity of `item` out of the packed item of the same
    /// identity, where that holds at least as much.
    pub fn take(&mut self, item: Item<T, S>) -> (taken: Option<Item<T, S>>)
        requires
            old(self).wf(),
        ensures
            final(self).wf(),
            final(self)@.capacity == old(self)@.capacity,
            taken is Some <==> find(old(self)@.items, item.key_spec()) >= 0 && old(self)@.items[find(
                old(self)@.items,
                item.key_spec(),
            )].1 >= item.quantity.key_spec(),
            taken matches Some(out) ==> out == item && final(self)@.items == lowered(
                old(self)@.items,
                find(old(self)@.items, item.key_spec()),
                item.quantity.key_spec(),
            ),
            taken is None ==> final(self)@ == old(self)@,
    {
        let key = key_of(item.value, &item.weights);
        let amount = T::type_to_key(item.quantity);
        proof {
            lemma_find(self@.items, key@);
        }
        match map_get_index_of(&self.items, &key) {
            Some(index) => {
                let packed = map_get_index(&self.items, index).unwrap();
                if packed.amount < amount {
                    return None;
                }
                self.withdraw(index, amount);
                Some(item)
            },
            None => None,
        }
    }

    /// Takes `quantity` units out of the packed item at a position, where
    /// that holds at least as many, and hands back the item as it is packed
    /// afterwards.
    pub fn take_at_index(&mut self, index: usize, quantity: T) -> (taken: Option<Item<T, S>>)
        requires
            old(self).wf(),
        ensures
            final(self).wf(),
            final(self)@.capacity == old(self)@.capacity,
            taken is Some <==> index < old(self)@.items.len() && old(self)@.items[index as int].1
                >= quantity.key_spec(),
            taken matches Some(left) ==> final(self)@.items == lowered(
                old(self)@.items,
                index as int,
                quantity.key_spec(),
            ) && left.entry_spec() == final(self)@.items[index as int],
            taken is None ==> final(self)@ == old(self)@,
    {
        let amount = T::type_to_key(quantity);
        match map_get_index(&self.items, index) {
            Some(packed) => {
                if packed.amount < amount {
                    return None;
                }
                self.withdraw(index, amount);
                self.get_index(index)
            },
            None => None,
        }
    }

    /// Takes the packed item at a position out of the knapsack, with all of
    /// its quantity.
    pub fn remove_at_index(&mut self, index: usize) -> (removed: Option<Item<T, S>>)
        requires
            old(self).wf(),
        ensures
            final(self).wf(),
            final(self)@.capacity == old(self)@.capacity,
            removed is Some <==> index < old(self)@.items.len(),
            removed matches Some(item) ==> item.entry_spec() == old(self)@.items[index as int]
                && final(self)@.items == old(self)@.items.remove(index as int),
            removed is None ==> final(self)@ == old(self)@,
    {
        let ghost before = self@;
        match map_get_index(&self.items, index) {
            Some(packed) => {
                self.withdraw(index, packed.amount);
                let ghost emptied = self@.items;
                proof {
                    lemma_distinct_kept(emptied, Seq::empty(), 0, index as int);
                    assert(emptied[index as int].1 == 0);
                    assert(emptied.remove(index as int) =~= before.items.remove(index as int));
                    assert(key_in_range::<T>(before.items[index as int].0, S as nat));
                }
                let gone = map_shift_remove_index(&mut self.items, index).unwrap();
                proof {
                    assert forall|c: int| held(self@.items, c) == held(emptied, c) by {
                        lemma_held_removed(emptied, index as int, c);
                    }
                    assert forall|d: int| 0 <= d < S implies #[trigger] self@.weights[d] == held(
                        self@.items,
                        d + 1,
                    ) && self@.weights[d] <= self@.capacity[d] by {
                        assert(self@.weights[d] == held(emptied, d + 1));
                    }
                    assert forall|i: int| 0 <= i < self@.items.len() implies key_in_range::<T>(
                        (#[trigger] self@.items[i]).0,
                        S as nat,
                    ) && self@.items[i].1 <= T::key_limit() by {
                        let from = if i < index { i } else { i + 1 };
                        assert(self@.items[i] == emptied[from]);
                        assert(key_in_range::<T>(emptied[from].0, S as nat));
                    }
                }
                Some(item_of::<T, S, T>(&gone.key, packed.amount))
            },
            None => None,
        }
    }

    /// Takes the packed item with the given value and weights out of the
    /// knapsack, with all of its quantity.
    pub fn remove_item(&mut self, key: (u64, [T; S])) -> (removed: Option<Item<T, S>>)
        requires
            old(self).wf(),
        ensures
            final(self).wf(),
            final(self)@.capacity == old(self)@.capacity,
            removed is Some <==> find(old(self)@.items, identity_key(key.0, key.1)) >= 0,
            removed matches Some(item) ==> item.entry_spec() == old(self)@.items[find(
                old(self)@.items,
                identity_key(key.0, key.1),
            )] && final(self)@.items == old(self)@.items.remove(
                find(old(self)@.items, identity_key(key.0, key.1)),
            ),
            removed is None ==> final(self)@ == old(self)@,
    {
        match self.get_index_of(key) {
            Some(index) => {
                proof {
                    lemma_find(self@.items, identity_key(key.0, key.1));
                }
                self.remove_at_index(index)
            },
            None => None,
        }
    }

    /// Empties the knapsack: no items, no value, no weight.
    pub fn clear(&mut self)
        ensures
            final(self).wf(),
            final(self)@.capacity == old(self)@.capacity,
            final(self)@.items == Seq::<(Seq<u64>, u64)>::empty(),
    {
        map_clear(&mut self.items);
        self.value = 0;
        let mut d: usize = 0;
        while d < S
            invariant
                d <= S,
                self.capacity == old(self).capacity,
                self.value == 0,
                self.items@ == Seq::<(Seq<u64>, u64)>::empty(),
                forall|k: int| 0 <= k < d ==> #[trigger] self.weights@[k].key_spec() == 0,
            decreases S - d,
        {
            self.weights[d] = T::key_to_type(0);
            d = d + 1;
        }
        proof {
            assert(self@.capacity =~= old(self)@.capacity);
        }
    }

    /// The packed items in order.
    pub fn iter(&self) -> (items: Vec<Item<T, S>>)
        requires
            self.wf(),
        ensures
            items@.len() == self@.items.len(),
            forall|i: int|
                0 <= i < items@.len() ==> (#[trigger] items@[i]).entry_spec() == self@.items[i],
    {
        let mut items: Vec<Item<T, S>> = Vec::new();
        let len = self.len();
        let mut i: usize = 0;
        while i < len
            invariant
                self.wf(),
                len == self@.items.len(),
                i <= len,
                items@.len() == i,
                forall|k: int| 0 <= k < i ==> (#[trigger] items@[k]).entry_spec() == self@.items[k],
            decreases len - i,
        {
            let item = self.get_index(i).unwrap();
            items.push(item);
            i = i + 1;
        }
        items
    }

    /// The packed items in order, with the knapsack given up.
    pub fn into_iter(self) -> (items: Vec<Item<T, S>>)
        requires
            self.wf(),
        ensures
            items@.len() == self@.items.len(),
            forall|i: int|
                0 <= i < items@.len() ==> (#[trigger] items@[i]).entry_spec() == self@.items[i],
    {
        self.iter()
    }
}

/// The entries that a list of items amounts to.
pub open spec fn entries_of<T: CompatibleProblemType, const S: usize>(items: Seq<Item<T, S>>) -> Seq<
    (Seq<u64>, u64),
> {
    Seq::new(items.len(), |i: int| items[i].entry_spec())
}

/// A knapsack for binary items: every packed item is an entry of its own,
/// in the order of packing.
#[derive(Debug, PartialEq)]
pub struct KnapsackBinary<T, const S: usize> where T: CompatibleProblemType {
    value: u64,
    items: Vec<Item<T, S>>,
    weights: [T; S],
    capacity: [T; S],
}

/// A knapsack for binary items.
pub type BinaryKnapsack<T, const S: usize> = KnapsackBinary<T, S>;

impl<T, const S: usize> View for KnapsackBinary<T, S> where T: CompatibleProblemType {
    type V = KnapsackView;

    closed spec fn view(&self) -> KnapsackView {
        KnapsackView {
            value: self.value,
            weights: keys_of(self.weights),
            capacity: keys_of(self.capacity),
            items: entries_of(self.items@),
        }
    }
}

impl<T, const S: usize> Clone for KnapsackBinary<T, S> where T: CompatibleProblemType {
    fn clone(&self) -> (copy: Self)
        ensures
            copy@ == self@,
    {
        let items = self.copy_items();
        KnapsackBinary {
            value: self.value,
            items: items,
            weights: self.weights,
            capacity: self.capacity,
        }
    }
}

impl<T, const S: usize> KnapsackBinary<T, S> where T: CompatibleProblemType {
    /// The knapsack's invariant: the running value and weights are what the
    /// entries add up to, and no running weight is over its capacity.
    pub open spec fn wf(&self) -> bool {
        sound(self@, S as nat)
    }

    /// Capacities and running weights are scalars of the knapsack's type,
    /// one per dimension.
    pub proof fn lemma_view_bounds(&self)
        ensures
            self@.capacity.len() == S,
            self@.weights.len() == S,
            forall|d: int| 0 <= d < S ==> #[trigger] self@.capacity[d] <= T::key_limit(),
            forall|d: int| 0 <= d < S ==> #[trigger] self@.weights[d] <= T::key_limit(),
            T::key_limit() <= u32::MAX,
    {
        T::lemma_key_bounds(arbitrary());
        assert forall|d: int| 0 <= d < S implies #[trigger] self@.capacity[d] <= T::key_limit() by {
            T::lemma_key_bounds(self.capacity@[d]);
        }
        assert forall|d: int| 0 <= d < S implies #[trigger] self@.weights[d] <= T::key_limit() by {
            T::lemma_key_bounds(self.weights@[d]);
        }
    }

    /// An empty knapsack with the given capacity.
    pub fn new(capacity: [T; S]) -> (knapsack: Self)
        ensures
            knapsack.wf(),
            knapsack@.capacity == keys_of(capacity),
            knapsack@.items == Seq::<(Seq<u64>, u64)>::empty(),
    {
        let knapsack = KnapsackBinary {
            value: 0,
            items: Vec::new(),
            weights: [T::key_to_type(0);S],
            capacity: capacity,
        };
        proof {
            assert(knapsack@.items =~= Seq::<(Seq<u64>, u64)>::empty());
            assert forall|d: int| 0 <= d < S implies #[trigger] knapsack@.weights[d] == held(
                knapsack@.items,
                d + 1,
            ) && knapsack@.weights[d] <= knapsack@.capacity[d] by {
                assert(knapsack.weights@[d].key_spec() == 0);
            }
        }
        knapsack
    }

    /// The running value.
    pub fn value(&self) -> (value: u64)
        ensures
            value == self@.value,
    {
        self.value
    }

    /// The capacity in every dimension.
    pub fn capacity(&self) -> (capacity: &[T; S])
        ensures
            keys_of(*capacity) == self@.capacity,
    {
        &self.capacity
    }

    /// The running weight in every dimension.
    pub fn weights(&self) -> (weights: &[T; S])
        ensures
            keys_of(*weights) == self@.weights,
    {
        &self.weights
    }

    /// What is still free in every dimension.
    pub fn room(&self) -> (room: Vec<u64>)
        requires
            self.wf(),
        ensures
            room@.len() == S,
            forall|d: int|
                0 <= d < S ==> #[trigger] room@[d] == self@.capacity[d] - self@.weights[d],
    {
        let mut room: Vec<u64> = Vec::new();
        let mut d: usize = 0;
        while d < S
            invariant
                self.wf(),
                d <= S,
                room@.len() == d,
                forall|k: int|
                    0 <= k < d ==> #[trigger] room@[k] == self@.capacity[k] - self@.weights[k],
            decreases S - d,
        {
            assert(self@.weights[d as int] <= self@.capacity[d as int]);
            room.push(T::type_to_key(self.capacity[d]) - T::type_to_key(self.weights[d]));
            d = d + 1;
        }
        room
    }

    /// The number of packed entries.
    pub fn len(&self) -> (len: usize)
        ensures
            len == self@.items.len(),
    {
        self.items.len()
    }

    /// The packed item at a position, where there is one.
    pub fn get_index(&self, index: usize) -> (found: Option<Item<T, S>>)
        ensures
            found is Some <==> index < self@.items.len(),
            found matches Some(item) ==> item.entry_spec() == self@.items[index as int],
    {
        if index < self.items.len() {
            Some(self.items[index])
        } else {
            None
        }
    }

    /// Puts `amount` units of an item in as a new last entry.
    fn put(&mut self, item: Item<T, S>, key: &Vec<u64>)
        requires
            old(self).wf(),
            key@ == item.key_spec(),
            key_in_range::<T>(key@, S as nat),
            fits_in(
                old(self)@.value,
                old(self)@.weights,
                old(self)@.capacity,
                key@,
                item.quantity.key_spec(),
            ),
        ensures
            final(self).wf(),
            final(self)@.capacity == old(self)@.capacity,
            final(self)@.items == old(self)@.items.push(item.entry_spec()),
    {
        let ghost before = self@;
        let amount = T::type_to_key(item.quantity);
        proof {
            T::lemma_key_bounds(item.quantity);
            lemma_held_pushed(before.items, key@, amount, 0);
        }
        raise_gauges(&mut self.value, &mut self.weights, &self.capacity, key, amount);
        self.items.push(item);
        proof {
            assert(self@.items =~= before.items.push(item.entry_spec()));
            assert(self@.capacity =~= before.capacity);
            assert forall|d: int| 0 <= d < S implies #[trigger] self@.weights[d] == held(
                self@.items,
                d + 1,
            ) && self@.weights[d] <= self@.capacity[d] by {
                lemma_held_pushed(before.items, key@, amount, d + 1);
                assert(before.weights[d] == held(before.items, d + 1));
                assert(before.weights[d] + key@[d + 1] * amount <= before.capacity[d]);
            }
        }
    }

    /// Packs an item as an entry of its own: all of its quantity, or nothing
    /// where that does not fit. An item with a quantity of zero fits and
    /// changes nothing.
    pub fn add(&mut self, item: Item<T, S>) -> (added: bool)
        requires
            old(self).wf(),
        ensures
            final(self).wf(),
            added == fits_in(
                old(self)@.value,
                old(self)@.weights,
                old(self)@.capacity,
                item.key_spec(),
                item.quantity.key_spec(),
            ),
            final(self)@.capacity == old(self)@.capacity,
            final(self)@.items == if added && item.quantity.key_spec() > 0 {
                old(self)@.items.push(item.entry_spec())
            } else {
                old(self)@.items
            },
            !added || item.quantity.key_spec() == 0 ==> final(self)@ == old(self)@,
    {
        let key = key_of(item.value, &item.weights);
        let amount = T::type_to_key(item.quantity);
        proof {
            T::lemma_key_bounds(item.quantity);
        }
        if !gauges_allow(self.value, &self.weights, &self.capacity, &key, amount) {
            return false;
        }
        if amount > 0 {
            self.put(item, &key);
        }
        true
    }

    /// Packs `quantity` units of an item that stays with the caller as an
    /// entry of their own, and takes them off the item's own quantity; or
    /// does nothing where the item has fewer units or the units do not fit.
    pub fn add_mut<R>(&mut self, item: &mut Item<T, S, R>, quantity: T) -> (added: bool) where
        R: UnboundedCompatibility,

        requires
            old(self).wf(),
        ensures
            final(self).wf(),
            added == ((R::is_unbounded_spec() || old(item).quantity.amount_spec()
                >= quantity.key_spec()) && fits_in(
                old(self)@.value,
                old(self)@.weights,
                old(self)@.capacity,
                old(item).key_spec(),
                quantity.key_spec(),
            )),
            final(self)@.capacity == old(self)@.capacity,
            final(self)@.items == if added && quantity.key_spec() > 0 {
                old(self)@.items.push((old(item).key_spec(), quantity.key_spec()))
            } else {
                old(self)@.items
            },
            !added ==> final(self)@ == old(self)@ && *final(item) == *old(item),
            final(item).value == old(item).value,
            final(item).weights == old(item).weights,
            added && !R::is_unbounded_spec() ==> final(item).quantity.amount_spec() == old(
                item,
            ).quantity.amount_spec() - quantity.key_spec(),
            R::is_unbounded_spec() ==> final(item).quantity == old(item).quantity,
    {
        let key = key_of(item.value, &item.weights);
        let amount = T::type_to_key(quantity);
        let stock = R::to_amount(item.quantity);
        proof {
            T::lemma_key_bounds(quantity);
            R::lemma_amount_bounds(item.quantity);
        }
        if !R::is_unbounded() && stock < amount {
            return false;
        }
        if !gauges_allow(self.value, &self.weights, &self.capacity, &key, amount) {
            return false;
        }
        if amount > 0 {
            let packed = Item::<T, S> { value: item.value, weights: item.weights, quantity: quantity };
            proof {
                assert(packed.key_spec() =~= key@);
            }
            self.put(packed, &key);
        }
        if !R::is_unbounded() {
            item.quantity = R::from_amount(stock - amount);
        }
        true
    }

    /// Takes `quantity` units out of the packed item at a position, where
    /// that holds at least as many, and hands back the item as it is packed
    /// afterwards.
    pub fn take_at_index(&mut self, index: usize, quantity: T) -> (taken: Option<Item<T, S>>)
        requires
            old(self).wf(),
        ensures
            final(self).wf(),
            final(self)@.capacity == old(self)@.capacity,
            taken is Some <==> index < old(self)@.items.len() && old(self)@.items[index as int].1
                >= quantity.key_spec(),
            taken matches Some(left) ==> final(self)@.items == lowered(
                old(self)@.items,
                index as int,
                quantity.key_spec(),
            ) && left.entry_spec() == final(self)@.items[index as int],
            taken is None ==> final(self)@ == old(self)@,
    {
        let ghost before = self@;
        let amount = T::type_to_key(quantity);
        if index >= self.items.len() {
            return None;
        }
        let packed = self.items[index];
        let stock = T::type_to_key(packed.quantity);
        if stock < amount {
            return None;
        }
        let key = key_of(packed.value, &packed.weights);
        proof {
            assert(before.items[index as int] == packed.entry_spec());
            T::lemma_key_bounds(packed.quantity);
            lemma_held_lowered(before.items, index as int, amount, 0);
            assert forall|d: int| 0 <= d < S implies #[trigger] key@[d + 1] * amount <= keys_of(
                self.weights,
            )[d] by {
                lemma_held_lowered(before.items, index as int, amount, d + 1);
                assert(before.weights[d] == held(before.items, d + 1));
            }
        }
        lower_gauges(&mut self.value, &mut self.weights, &key, amount);
        let left = Item::<T, S> {
            value: packed.value,
            weights: packed.weights,
            quantity: T::key_to_type(stock - amount),
        };
        self.items.set(index, left);
        proof {
            assert(left.key_spec() =~= key@);
            assert(self@.items =~= lowered(before.items, index as int, amount));
            assert(self@.capacity =~= before.capacity);
            assert forall|d: int| 0 <= d < S implies #[trigger] self@.weights[d] == held(
                self@.items,
                d + 1,
            ) && self@.weights[d] <= self@.capacity[d] by {
                lemma_held_lowered(before.items, index as int, amount, d + 1);
                assert(before.weights[d] == held(before.items, d + 1));
                assert(before.weights[d] <= before.capacity[d]);
                assert(key@[d + 1] * amount <= keys_of(old(self).weights)[d]);
            }
        }
        Some(left)
    }

    /// Takes the packed item at a position out of the knapsack, with all of
    /// its quantity.
    pub fn remove_at_index(&mut self, index: usize) -> (removed: Option<Item<T, S>>)
        requires
            old(self).wf(),
        ensures
            final(self).wf(),
            final(self)@.capacity == old(self)@.capacity,
            removed is Some <==> index < old(self)@.items.len(),
            removed matches Some(item) ==> item.entry_spec() == old(self)@.items[index as int]
                && final(self)@.items == old(self)@.items.remove(index as int),
            removed is None ==> final(self)@ == old(self)@,
    {
        let ghost before = self@;
        if index >= self.items.len() {
            return None;
        }
        let packed = self.items[index];
        let amount = T::type_to_key(packed.quantity);
        let key = key_of(packed.value, &packed.weights);
        proof {
            assert(before.items[index as int] == packed.entry_spec());
            lemma_held_removed(before.items, index as int, 0);
            assert forall|d: int| 0 <= d < S implies #[trigger] key@[d + 1] * amount <= keys_of(
                self.weights,
            )[d] by {
                lemma_held_removed(before.items, index as int, d + 1);
                assert(before.weights[d] == held(before.items, d + 1));
            }
        }
        lower_gauges(&mut self.value, &mut self.weights, &key, amount);
        let gone = self.items.remove(index);
        proof {
            assert(self@.items =~= before.items.remove(index as int));
            assert(self@.capacity =~= before.capacity);
            assert forall|d: int| 0 <= d < S implies #[trigger] self@.weights[d] == held(
                self@.items,
                d + 1,
            ) && self@.weights[d] <= self@.capacity[d] by {
                lemma_held_removed(before.items, index as int, d + 1);
                assert(before.weights[d] == held(before.items, d + 1));
                assert(before.weights[d] <= before.capacity[d]);
                assert(key@[d + 1] * amount <= keys_of(old(self).weights)[d]);
            }
        }
        Some(gone)
    }

    /// Empties the knapsack: no items, no value, no weight.
    pub fn clear(&mut self)
        ensures
            final(self).wf(),
            final(self)@.capacity == old(self)@.capacity,
            final(self)@.items == Seq::<(Seq<u64>, u64)>::empty(),
    {
        self.items.clear();
        self.value = 0;
        let mut d: usize = 0;
        while d < S
            invariant
                d <= S,
                self.capacity == old(self).capacity,
                self.value == 0,
                self.items@ == Seq::<Item<T, S>>::empty(),
                forall|k: int| 0 <= k < d ==> #[trigger] self.weights@[k].key_spec() == 0,
            decreases S - d,
        {
            self.weights[d] = T::key_to_type(0);
            d = d + 1;
        }
        proof {
            assert(self@.capacity =~= old(self)@.capacity);
            assert(self@.items =~= Seq::<(Seq<u64>, u64)>::empty());
        }
    }

    /// A copy of the packed items.
    fn copy_items(&self) -> (items: Vec<Item<T, S>>)
        ensures
            items@ == self.items@,
    {
        let mut items: Vec<Item<T, S>> = Vec::new();
        let mut i: usize = 0;
        while i < self.items.len()
            invariant
                i <= self.items@.len(),
                items@ == self.items@.take(i as int),
            decreases self.items@.len() - i,
        {
            items.push(self.items[i]);
            proof {
                assert(self.items@.take(i + 1) =~= self.items@.take(i as int).push(
                    self.items@[i as int],
                ));
            }
            i = i + 1;
        }
        proof {
            assert(self.items@.take(i as int) =~= self.items@);
        }
        items
    }

    /// The packed items in order.
    pub fn iter(&self) -> (items: Vec<Item<T, S>>)
        ensures
            items@.len() == self@.items.len(),
            forall|i: int|
                0 <= i < items@.len() ==> (#[trigger] items@[i]).entry_spec() == self@.items[i],
    {
        self.copy_items()
    }

    /// The packed items in order, with the knapsack given up.
    pub fn into_iter(self) -> (items: Vec<Item<T, S>>)
        ensures
            items@.len() == self@.items.len(),
            forall|i: int|
                0 <= i < items@.len() ==> (#[trigger] items@[i]).entry_spec() == self@.items[i],
    {
        self.items
    }
}

/// The knapsacks of a bounded problem, in their order of priority.
pub struct ProblemKnapsacks<T, const S: usize> where T: CompatibleProblemType {
    pub knapsacks: Vec<Knapsack<T, S>>,
}

impl<T, const S: usize> Default for ProblemKnapsacks<T, S> where T: CompatibleProblemType {
    fn default() -> (knapsacks: Self)
        ensures
            knapsacks.knapsacks@.len() == 0,
    {
        ProblemKnapsacks { knapsacks: Vec::new() }
    }
}

/// The total of the running values of the first `upto` knapsacks.
pub open spec fn value_before(values: Seq<u64>, upto: int) -> int
    decreases upto,
{
    if upto <= 0 {
        0
    } else {
        value_before(values, upto - 1) + values[upto - 1]
    }
}

impl<T, const S: usize> ProblemKnapsacks<T, S> where T: CompatibleProblemType {
    /// The running values of the knapsacks, in order.
    pub open spec fn values(&self) -> Seq<u64> {
        Seq::new(self.knapsacks@.len(), |i: int| self.knapsacks@[i]@.value)
    }

    /// The knapsacks in numbers, in order.
    pub open spec fn views(&self) -> Seq<KnapsackView> {
        Seq::new(self.knapsacks@.len(), |i: int| self.knapsacks@[i]@)
    }

    /// Every knapsack keeps its invariant.
    pub open spec fn wf(&self) -> bool {
        forall|i: int| 0 <= i < self.knapsacks@.len() ==> (#[trigger] self.knapsacks@[i]).wf()
    }

    /// No knapsacks.
    pub fn new() -> (knapsacks: Self)
        ensures
            knapsacks.knapsacks@.len() == 0,
            knapsacks.wf(),
    {
        ProblemKnapsacks { knapsacks: Vec::new() }
    }

    /// The total value packed: the sum of the running values of the
    /// knapsacks.
    pub fn value(&self) -> (value: u128)
        ensures
            value == value_before(self.values(), self.knapsacks@.len() as int),
    {
        let mut value: u128 = 0;
        let mut i: usize = 0;
        while i < self.knapsacks.len()
            invariant
                i <= self.knapsacks@.len(),
                value == value_before(self.values(), i as int),
                value <= i * 0xffff_ffff_ffff_ffff,
            decreases self.knapsacks@.len() - i,
        {
            value = value + self.knapsacks[i].value() as u128;
            i = i + 1;
        }
        value
    }

    /// Appends a knapsack.
    pub fn add(&mut self, knapsack: Knapsack<T, S>)
        ensures
            final(self).knapsacks@ == old(self).knapsacks@.push(knapsack),
    {
        self.knapsacks.push(knapsack);
    }

    /// The number of knapsacks.
    pub fn len(&self) -> (len: usize)
        ensures
            len == self.knapsacks@.len(),
    {
        self.knapsacks.len()
    }

    /// The knapsack at a position.
    pub fn get(&self, index: usize) -> (knapsack: &Knapsack<T, S>)
        requires
            index < self.knapsacks@.len(),
        ensures
            *knapsack == self.knapsacks@[index as int],
    {
        &self.knapsacks[index]
    }

    /// The knapsack at a position, to be changed in place.
    pub fn get_mut(&mut self, index: usize) -> (knapsack: &mut Knapsack<T, S>)
        requires
            index < old(self).knapsacks@.len(),
        ensures
            *knapsack == old(self).knapsacks@[index as int],
            final(self).knapsacks@ == old(self).knapsacks@.update(index as int, *final(knapsack)),
    {
        &mut self.knapsacks[index]
    }

    /// The knapsacks in order.
    pub fn iter(&self) -> (knapsacks: &Vec<Knapsack<T, S>>)
        ensures
            knapsacks@ == self.knapsacks@,
    {
        &self.knapsacks
    }

    /// The knapsacks in order, with the collection given up.
    pub fn into_iter(self) -> (knapsacks: Vec<Knapsack<T, S>>)
        ensures
            knapsacks@ == self.knapsacks@,
    {
        self.knapsacks
    }
}

impl<T, const S: usize> Clone for ProblemKnapsacks<T, S> where T: CompatibleProblemType {
    fn clone(&self) -> (copy: Self)
        ensures
            copy.knapsacks@.len() == self.knapsacks@.len(),
            forall|i: int|
                0 <= i < self.knapsacks@.len() ==> (#[trigger] copy.knapsacks@[i])@
                    == self.knapsacks@[i]@,
    {
        let mut knapsacks: Vec<Knapsack<T, S>> = Vec::new();
        let mut i: usize = 0;
        while i < self.knapsacks.len()
            invariant
                i <= self.knapsacks@.len(),
                knapsacks@.len() == i,
                forall|k: int| 0 <= k < i ==> (#[trigger] knapsacks@[k])@ == self.knapsacks@[k]@,
            decreases self.knapsacks@.len() - i,
        {
            knapsacks.push(self.knapsacks[i].clone());
            i = i + 1;
        }
        ProblemKnapsacks { knapsacks: knapsacks }
    }
}

/// The knapsacks of a binary problem, in their order of priority.
pub struct ProblemKnapsacksBinary<T, const S: usize> where T: CompatibleProblemType {
    pub knapsacks: Vec<KnapsackBinary<T, S>>,
}

impl<T, const S: usize> Default for ProblemKnapsacksBinary<T, S> where T: CompatibleProblemType {
    fn default() -> (knapsacks: Self)
        ensures
            knapsacks.knapsacks@.len() == 0,
    {
        ProblemKnapsacksBinary { knapsacks: Vec::new() }
    }
}

/// The knapsacks of a binary problem.
pub type BinaryProblemKnapsacks<T, const S: usize> = ProblemKnapsacksBinary<T, S>;

impl<T, const S: usize> ProblemKnapsacksBinary<T, S> where T: CompatibleProblemType {
    /// The running values of the knapsacks, in order.
    pub open spec fn values(&self) -> Seq<u64> {
        Seq::new(self.knapsacks@.len(), |i: int| self.knapsacks@[i]@.value)
    }

    /// The knapsacks in numbers, in order.
    pub open spec fn views(&self) -> Seq<KnapsackView> {
        Seq::new(self.knapsacks@.len(), |i: int| self.knapsacks@[i]@)
    }

    /// Every knapsack keeps its invariant.
    pub open spec fn wf(&self) -> bool {
        forall|i: int| 0 <= i < self.knapsacks@.len() ==> (#[trigger] self.knapsacks@[i]).wf()
    }

    /// No knapsacks.
    pub fn new() -> (knapsacks: Self)
        ensures
            knapsacks.knapsacks@.len() == 0,
            knapsacks.wf(),
    {
        ProblemKnapsacksBinary { knapsacks: Vec::new() }
    }

    /// The total value packed: the sum of the running values of the
    /// knapsacks.
    pub fn value(&self) -> (value: u128)
        ensures
            value == value_before(self.values(), self.knapsacks@.len() as int),
    {
        let mut value: u128 = 0;
        let mut i: usize = 0;
        while i < self.knapsacks.len()
            invariant
                i <= self.knapsacks@.len(),
                value == value_before(self.values(), i as int),
                value <= i * 0xffff_ffff_ffff_ffff,
            decreases self.knapsacks@.len() - i,
        {
            value = value + self.knapsacks[i].value() as u128;
            i = i + 1;
        }
        value
    }

    /// Appends a knapsack.
    pub fn add(&mut self, knapsack: KnapsackBinary<T, S>)
        ensures
            final(self).knapsacks@ == old(self).knapsacks@.push(knapsack),
    {
        self.knapsacks.push(knapsack);
    }

    /// The number of knapsacks.
    pub fn len(&self) -> (len: usize)
        ensures
            len == self.knapsacks@.len(),
    {
        self.knapsacks.len()
    }

    /// The knapsack at a position.
    pub fn get(&self, index: usize) -> (knapsack: &KnapsackBinary<T, S>)
        requires
            index < self.knapsacks@.len(),
        ensures
            *knapsack == self.knapsacks@[index as int],
    {
        &self.knapsacks[index]
    }

    /// The knapsack at a position, to be changed in place.
    pub fn get_mut(&mut self, index: usize) -> (knapsack: &mut KnapsackBinary<T, S>)
        requires
            index < old(self).knapsacks@.len(),
        ensures
            *knapsack == old(self).knapsacks@[index as int],
            final(self).knapsacks@ == old(self).knapsacks@.update(index as int, *final(knapsack)),
    {
        &mut self.knapsacks[index]
    }

    /// The knapsacks in order.
    pub fn iter(&self) -> (knapsacks: &Vec<KnapsackBinary<T, S>>)
        ensures
            knapsacks@ == self.knapsacks@,
    {
        &self.knapsacks
    }

    /// The knapsacks in order, with the collection given up.
    pub fn into_iter(self) -> (knapsacks: Vec<KnapsackBinary<T, S>>)
        ensures
            knapsacks@ == self.knapsacks@,
    {
        self.knapsacks
    }
}

impl<T, const S: usize> Clone for ProblemKnapsacksBinary<T, S> where T: CompatibleProblemType {
    fn clone(&self) -> (copy: Self)
        ensures
            copy.knapsacks@.len() == self.knapsacks@.len(),
            forall|i: int|
                0 <= i < self.knapsacks@.len() ==> (#[trigger] copy.knapsacks@[i])@
                    == self.knapsacks@[i]@,
    {
        let mut knapsacks: Vec<KnapsackBinary<T, S>> = Vec::new();
        let mut i: usize = 0;
        while i < self.knapsacks.len()
            invariant
                i <= self.knapsacks@.len(),
                knapsacks@.len() == i,
                forall|k: int| 0 <= k < i ==> (#[trigger] knapsacks@[k])@ == self.knapsacks@[k]@,
            decreases self.knapsacks@.len() - i,
        {
            knapsacks.push(self.knapsacks[i].clone());
            i = i + 1;
        }
        ProblemKnapsacksBinary { knapsacks: knapsacks }
    }
}

} // verus!
