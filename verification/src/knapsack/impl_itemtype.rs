//! The identity of an item on its own: what one unit is worth and weighs,
//! and the key that stands for both.
use vstd::prelude::*;
use crate::compatible_problem_type_trait::CompatibleProblemType;

verus! {

/// What one unit of an item is worth and what it weighs in each dimension.
#[derive(Debug, Clone, Copy)]
pub struct ItemData<T, const S: usize> where T: CompatibleProblemType {
    pub value: u64,
    pub weights: [T; S],
}

/// The key of an item's identity: the value, and the key of the weight in
/// each dimension.
#[derive(PartialEq, Eq, Hash, Debug)]
pub struct ItemDataKey<const S: usize> {
    pub value_key: u64,
    pub weight_key: [u64; S],
}

impl<T, const S: usize> ItemData<T, S> where T: CompatibleProblemType {
    /// The key of this identity.
    pub fn to_key(&self) -> (key: ItemDataKey<S>)
        ensures
            key.value_key == self.value,
            forall|d: int| 0 <= d < S ==> #[trigger] key.weight_key@[d] == self.weights@[d].key_spec(),
    {
        let mut keys: [u64; S] = [0u64;S];
        let mut d: usize = 0;
        while d < S
            invariant
                d <= S,
                forall|k: int| 0 <= k < d ==> #[trigger] keys@[k] == self.weights@[k].key_spec(),
            decreases S - d,
        {
            keys[d] = T::type_to_key(self.weights[d]);
            d = d + 1;
        }
        ItemDataKey { value_key: self.value, weight_key: keys }
    }
}

} // verus!
