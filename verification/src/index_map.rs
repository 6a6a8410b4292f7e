//! The insertion-ordered map that holds items by identity: an
//! `indexmap::IndexMap` from an identity key to a quantity, seen here as the
//! sequence of its entries in order.
use vstd::prelude::*;
use indexmap::IndexMap;

verus! {

/// An `indexmap::IndexMap` from identity keys to quantities.
///
/// The verifier does not look inside: all it knows of a map is what the
/// functions below claim of `map_entries`, each for one method of
/// `IndexMap`. The claims are taken from the documentation of those methods
/// and are not proved.
#[verifier::external_body]
pub struct AmountMap {
    map: IndexMap<Vec<u64>, u64>,
}

/// An entry copied out of a map.
pub struct MapEntry {
    pub key: Vec<u64>,
    pub amount: u64,
}

/// The entries of a map, in its order: for every key-value pair that the
/// `IndexMap` holds, the key as a sequence and the value, first inserted
/// first.
pub uninterp spec fn map_entries(map: AmountMap) -> Seq<(Seq<u64>, u64)>;

/// `IndexMap::new`.
///
/// Claims that the new map has no entries.
#[verifier::external_body]
pub(crate) fn map_new() -> (map: AmountMap)
    ensures
        map_entries(map) == Seq::<(Seq<u64>, u64)>::empty(),
{
    AmountMap { map: IndexMap::new() }
}

/// `IndexMap::len`.
///
/// Claims that the number of entries comes back.
#[verifier::external_body]
pub(crate) fn map_len(map: &AmountMap) -> (len: usize)
    ensures
        len == map_entries(*map).len(),
{
    map.map.len()
}

/// `IndexMap::get_index_of`.
///
/// Claims that the position of the entry with an equal key comes back, and
/// `None` exactly when no entry has an equal key.
#[verifier::external_body]
pub(crate) fn map_get_index_of(map: &AmountMap, key: &Vec<u64>) -> (found: Option<usize>)
    ensures
        found matches Some(index) ==> index < map_entries(*map).len()
            && map_entries(*map)[index as int].0 == key@,
        found is None ==> forall|i: int|
            0 <= i < map_entries(*map).len() ==> (#[trigger] map_entries(*map)[i]).0 != key@,
{
    map.map.get_index_of(key)
}

/// `IndexMap::get_index`, with the entry copied out.
///
/// Claims that the entry at a valid position comes back, and `None` for any
/// other position.
#[verifier::external_body]
pub(crate) fn map_get_index(map: &AmountMap, index: usize) -> (entry: Option<MapEntry>)
    ensures
        entry is Some <==> index < map_entries(*map).len(),
        entry matches Some(e) ==> e.key@ == map_entries(*map)[index as int].0
            && e.amount == map_entries(*map)[index as int].1,
{
    map.map.get_index(index).map(|(key, value)| MapEntry { key: key.clone(), amount: *value })
}

/// `IndexMap::insert`.
///
/// Claims that an entry with an equal key keeps its key and place, takes the
/// new value and hands back the old one; and that otherwise the pair is
/// appended last and `None` comes back.
#[verifier::external_body]
pub(crate) fn map_insert(map: &mut AmountMap, key: Vec<u64>, value: u64) -> (previous: Option<u64>)
    ensures
        forall|i: int|
            0 <= i < map_entries(*old(map)).len() && (#[trigger] map_entries(*old(map))[i]).0 == key@
                ==> previous == Some(map_entries(*old(map))[i].1)
                && map_entries(*final(map)) == map_entries(*old(map)).update(i, (key@, value)),
        (forall|i: int|
            0 <= i < map_entries(*old(map)).len() ==> (#[trigger] map_entries(*old(map))[i]).0 != key@)
            ==> previous is None
            && map_entries(*final(map)) == map_entries(*old(map)).push((key@, value)),
{
    map.map.insert(key, value)
}

/// `IndexMap::shift_remove_index`.
///
/// Claims that the entry at a valid position is taken out and handed back,
/// with the entries behind it moving up in order; and that for any other
/// position nothing changes and `None` comes back.
#[verifier::external_body]
pub(crate) fn map_shift_remove_index(map: &mut AmountMap, index: usize) -> (removed: Option<MapEntry>)
    ensures
        removed is Some <==> index < map_entries(*old(map)).len(),
        removed matches Some(e) ==> e.key@ == map_entries(*old(map))[index as int].0
            && e.amount == map_entries(*old(map))[index as int].1
            && map_entries(*final(map)) == map_entries(*old(map)).remove(index as int),
        removed is None ==> map_entries(*final(map)) == map_entries(*old(map)),
{
    map.map.shift_remove_index(index).map(|(key, value)| MapEntry { key: key, amount: value })
}

/// `IndexMap::clear`.
///
/// Claims that no entry is left.
#[verifier::external_body]
pub(crate) fn map_clear(map: &mut AmountMap)
    ensures
        map_entries(*final(map)) == Seq::<(Seq<u64>, u64)>::empty(),
{
    map.map.clear()
}

/// `Clone::clone` of an `IndexMap`.
///
/// Claims that the copy has the same entries in the same order.
#[verifier::external_body]
pub(crate) fn map_clone(map: &AmountMap) -> (copy: AmountMap)
    ensures
        map_entries(copy) == map_entries(*map),
{
    AmountMap { map: map.map.clone() }
}

/// Entries are all there is to a map: two maps with the same entries in the
/// same order are equal.
impl View for AmountMap {
    type V = Seq<(Seq<u64>, u64)>;

    open spec fn view(&self) -> Seq<(Seq<u64>, u64)> {
        map_entries(*self)
    }
}

} // verus!
