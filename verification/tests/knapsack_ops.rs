use kpsolver::knapsack::KnapsackBinary;
use kpsolver::{unbounded, Item, Knapsack, ProblemKnapsacks, UnboundedItem};

fn held_value<const S: usize>(knapsack: &Knapsack<u32, S>) -> u64 {
    knapsack
        .iter()
        .iter()
        .map(|item| item.value * item.quantity as u64)
        .sum()
}

fn held_weight<const S: usize>(knapsack: &Knapsack<u32, S>, d: usize) -> u64 {
    knapsack
        .iter()
        .iter()
        .map(|item| item.weights[d] as u64 * item.quantity as u64)
        .sum()
}

fn assert_sound<const S: usize>(knapsack: &Knapsack<u32, S>) {
    assert_eq!(knapsack.value(), held_value(knapsack));
    for d in 0..S {
        assert_eq!(knapsack.weights()[d] as u64, held_weight(knapsack, d));
        assert!(knapsack.weights()[d] <= knapsack.capacity()[d]);
    }
}

#[test]
fn sequence_of_operations_keeps_the_books() {
    let mut knapsack = Knapsack::<u32, 2>::new([20, 30]);
    let a = Item::<u32, 2>::new(7, [2, 3], 4);
    let b = Item::<u32, 2>::new(5, [1, 9], 2);
    assert!(knapsack.add(a));
    assert_sound(&knapsack);
    assert_eq!(knapsack.value(), 28);
    assert_eq!(knapsack.weights(), &[8, 12]);
    assert!(knapsack.add(b));
    assert_sound(&knapsack);
    assert_eq!(knapsack.value(), 38);
    assert_eq!(knapsack.weights(), &[10, 30]);
    assert!(!knapsack.add(Item::<u32, 2>::new(1, [0, 1], 1)));
    assert_sound(&knapsack);
    assert_eq!(knapsack.take(Item::<u32, 2>::new(7, [2, 3], 3)), Some(Item::new(7, [2, 3], 3)));
    assert_sound(&knapsack);
    assert_eq!(knapsack.value(), 17);
    assert_eq!(knapsack.weights(), &[4, 21]);
    assert_eq!(knapsack.take(Item::<u32, 2>::new(7, [2, 3], 2)), None);
    assert_sound(&knapsack);
    assert_eq!(knapsack.value(), 17);
    assert!(knapsack.add(Item::<u32, 2>::new(7, [2, 3], 3)));
    assert_sound(&knapsack);
    assert_eq!(knapsack.len(), 2);
    assert_eq!(knapsack.get_item((7, [2, 3])).unwrap().quantity, 4);
}

#[test]
fn adding_nothing_changes_nothing() {
    let mut knapsack = Knapsack::<u32, 1>::new([5]);
    assert!(knapsack.add(Item::<u32, 1>::new(3, [2], 1)));
    assert!(knapsack.add(Item::<u32, 1>::new(9, [4], 0)));
    assert_eq!(knapsack.len(), 1);
    assert_eq!(knapsack.value(), 3);
    assert_eq!(knapsack.weights(), &[2]);
    assert_eq!(knapsack.get_item((9, [4])), None);

    let mut listing = KnapsackBinary::<u32, 1>::new([5]);
    assert!(listing.add(Item::<u32, 1>::new(9, [4], 0)));
    assert_eq!(listing.len(), 0);
    assert_eq!(listing.value(), 0);
    assert_eq!(listing.weights(), &[0]);
}

#[test]
fn add_rejects_in_any_dimension() {
    let mut knapsack = Knapsack::<u32, 3>::new([10, 10, 10]);
    assert!(!knapsack.add(Item::<u32, 3>::new(1, [1, 1, 6], 2)));
    assert!(!knapsack.add(Item::<u32, 3>::new(1, [11, 0, 0], 1)));
    assert_eq!(knapsack.len(), 0);
    assert!(knapsack.add(Item::<u32, 3>::new(1, [5, 5, 5], 2)));
    assert_eq!(knapsack.weights(), &[10, 10, 10]);
    assert_eq!(knapsack.room(), vec![0, 0, 0]);
}

#[test]
fn add_rejects_what_the_numbers_cannot_hold() {
    let mut knapsack = Knapsack::<u8, 1>::new([255]);
    assert!(knapsack.add(Item::<u8, 1>::new(u64::MAX, [0], 1)));
    assert!(!knapsack.add(Item::<u8, 1>::new(1, [0], 1)));
    assert_eq!(knapsack.value(), u64::MAX);
    let mut knapsack = Knapsack::<u8, 1>::new([255]);
    assert!(knapsack.add(Item::<u8, 1>::new(1, [0], 200)));
    assert!(!knapsack.add(Item::<u8, 1>::new(1, [0], 56)));
    assert!(knapsack.add(Item::<u8, 1>::new(1, [0], 55)));
    assert_eq!(knapsack.get_item((1, [0])).unwrap().quantity, 255);
}

#[test]
fn add_mut_takes_from_the_item() {
    let mut item = Item::<u32, 1>::new(4, [3], 5);
    let mut knapsack = Knapsack::<u32, 1>::new([10]);
    assert!(knapsack.add_mut(&mut item, 2));
    assert_eq!(item.quantity, 3);
    assert_eq!(knapsack.value(), 8);
    assert_eq!(knapsack.weights(), &[6]);
    assert!(!knapsack.add_mut(&mut item, 2));
    assert_eq!(item.quantity, 3);
    assert!(!knapsack.add_mut(&mut item, 4));
    assert!(knapsack.add_mut(&mut item, 1));
    assert_eq!(item.quantity, 2);
    assert_eq!(knapsack.get_item((4, [3])).unwrap().quantity, 3);
}

#[test]
fn add_mut_leaves_the_unlimited_item_unlimited() {
    let mut item = UnboundedItem::<u32, 1>::new(2, [1], unbounded);
    let mut knapsack = Knapsack::<u32, 1>::new([3]);
    assert!(knapsack.add_mut(&mut item, 3));
    assert!(!knapsack.add_mut(&mut item, 1));
    assert_eq!(item.quantity, unbounded);
    assert_eq!(knapsack.value(), 6);
}

#[test]
fn take_at_index_hands_back_what_is_left() {
    let mut knapsack = Knapsack::<u32, 1>::new([10]);
    knapsack.add(Item::<u32, 1>::new(4, [1], 5));
    knapsack.add(Item::<u32, 1>::new(6, [2], 2));
    assert_eq!(knapsack.take_at_index(0, 2), Some(Item::new(4, [1], 3)));
    assert_eq!(knapsack.value(), 24);
    assert_eq!(knapsack.weights(), &[7]);
    assert_eq!(knapsack.take_at_index(1, 3), None);
    assert_eq!(knapsack.take_at_index(2, 1), None);
    assert_eq!(knapsack.take_at_index(1, 2), Some(Item::new(6, [2], 0)));
    assert_eq!(knapsack.len(), 2);
    assert_sound(&knapsack);
}

#[test]
fn remove_takes_value_and_weight_along() {
    let mut knapsack = Knapsack::<u32, 1>::new([10]);
    knapsack.add(Item::<u32, 1>::new(4, [1], 5));
    knapsack.add(Item::<u32, 1>::new(6, [2], 2));
    assert_eq!(knapsack.get_index_of((6, [2])), Some(1));
    assert_eq!(knapsack.remove_item((4, [1])), Some(Item::new(4, [1], 5)));
    assert_eq!(knapsack.get_index_of((6, [2])), Some(0));
    assert_eq!(knapsack.value(), 12);
    assert_eq!(knapsack.weights(), &[4]);
    assert_eq!(knapsack.remove_item((4, [1])), None);
    assert_eq!(knapsack.remove_at_index(1), None);
    assert_eq!(knapsack.remove_at_index(0), Some(Item::new(6, [2], 2)));
    assert_eq!(knapsack.len(), 0);
    assert_eq!(knapsack.value(), 0);
    assert_eq!(knapsack.weights(), &[0]);
}

#[test]
fn clear_empties_the_knapsack() {
    let mut knapsack = Knapsack::<u32, 2>::new([4, 4]);
    knapsack.add(Item::<u32, 2>::new(3, [1, 2], 2));
    knapsack.clear();
    assert_eq!(knapsack.len(), 0);
    assert_eq!(knapsack.value(), 0);
    assert_eq!(knapsack.weights(), &[0, 0]);
    assert_eq!(knapsack.capacity(), &[4, 4]);
    assert!(knapsack.add(Item::<u32, 2>::new(3, [1, 2], 2)));
}

#[test]
fn clone_is_a_knapsack_of_its_own() {
    let mut knapsack = Knapsack::<u32, 1>::new([4]);
    knapsack.add(Item::<u32, 1>::new(3, [1], 2));
    let copy = knapsack.clone();
    knapsack.add(Item::<u32, 1>::new(3, [1], 1));
    assert_eq!(copy.value(), 6);
    assert_eq!(knapsack.value(), 9);
    assert_eq!(copy.iter(), vec![Item::new(3, [1], 2)]);
}

#[test]
fn listing_knapsack_keeps_every_entry() {
    let mut knapsack = KnapsackBinary::<u32, 1>::new([10]);
    assert!(knapsack.add(Item::<u32, 1>::new(4, [3], 1)));
    assert!(knapsack.add(Item::<u32, 1>::new(4, [3], 2)));
    assert!(!knapsack.add(Item::<u32, 1>::new(4, [3], 1)));
    assert_eq!(knapsack.len(), 2);
    assert_eq!(knapsack.value(), 12);
    assert_eq!(knapsack.weights(), &[9]);
    assert_eq!(knapsack.iter(), vec![Item::new(4, [3], 1), Item::new(4, [3], 2)]);
    assert_eq!(knapsack.take_at_index(1, 1), Some(Item::new(4, [3], 1)));
    assert_eq!(knapsack.take_at_index(1, 2), None);
    assert_eq!(knapsack.value(), 8);
    assert_eq!(knapsack.remove_at_index(0), Some(Item::new(4, [3], 1)));
    assert_eq!(knapsack.remove_at_index(3), None);
    assert_eq!(knapsack.value(), 4);
    assert_eq!(knapsack.weights(), &[3]);
    let mut item = Item::<u32, 1>::new(1, [7], 3);
    assert!(knapsack.add_mut(&mut item, 1));
    assert!(!knapsack.add_mut(&mut item, 1));
    assert_eq!(item.quantity, 2);
    assert_eq!(knapsack.get_index(1), Some(Item::new(1, [7], 1)));
    knapsack.clear();
    assert_eq!(knapsack.len(), 0);
    assert_eq!(knapsack.value(), 0);
}

#[test]
fn a_collection_sums_its_knapsacks() {
    let mut knapsacks = ProblemKnapsacks::<u32, 1>::new();
    assert_eq!(knapsacks.value(), 0);
    knapsacks.add(Knapsack::new([3]));
    knapsacks.add(Knapsack::new([4]));
    assert!(knapsacks.get_mut(1).add(Item::new(u64::MAX, [4], 1)));
    assert!(knapsacks.get_mut(0).add(Item::new(2, [1], 3)));
    assert_eq!(knapsacks.len(), 2);
    assert_eq!(knapsacks.value(), u64::MAX as u128 + 6);
    assert_eq!(knapsacks.get(0).value(), 6);
    let copy = knapsacks.clone();
    knapsacks.get_mut(0).clear();
    assert_eq!(copy.value(), u64::MAX as u128 + 6);
    assert_eq!(knapsacks.value(), u64::MAX as u128);
    assert_eq!(knapsacks.iter().len(), 2);
    assert_eq!(knapsacks.into_iter()[1].weights(), &[4]);
}
