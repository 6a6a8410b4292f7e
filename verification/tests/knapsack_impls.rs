use kpsolver::{unbounded, Item, Knapsack, UnboundedItem};

#[test]
fn add_usize_1() {
    let item1 = Item::<u32, 2>::new(1, [1, 1], 1);
    let item2 = Item::<u32, 2>::new(1, [1, 1], 1);
    let item3 = Item::<u32, 2>::new(2, [1, 1], 1);
    let mut knapsack = Knapsack::<u32, 2>::new([1, 1]);
    assert!(knapsack.add(item1));
    assert!(!knapsack.add(item2));
    assert!(!knapsack.add(item3));
    assert_eq!(knapsack.get_item((1, [1, 1])).unwrap().quantity, 1);
    assert_eq!(knapsack.get_item((2, [1, 1])), None);
    assert_eq!(knapsack.value(), 1);
    assert_eq!(knapsack.weights(), &[1, 1]);
}

#[test]
fn add_usize_2() {
    let item1 = Item::<u32, 2>::new(1, [1, 1], 1);
    let item2 = Item::<u32, 2>::new(1, [1, 1], 2);
    let mut knapsack = Knapsack::<u32, 2>::new([3, 3]);
    knapsack.add(item1);
    knapsack.add(item2);
    assert_eq!(knapsack.get_item((1, [1, 1])).unwrap().quantity, 3);
    assert_eq!(knapsack.value(), 3);
    assert_eq!(knapsack.weights(), &[3, 3]);
}

#[test]
fn add_mut() {
    let mut item = Item::<u32, 1>::new(1, [1], 2);
    let mut knapsack = Knapsack::<u32, 1>::new([1]);
    knapsack.add_mut(&mut item, 1);
    assert_eq!(item.quantity, 1);
}

#[test]
fn add_mut_unbounded() {
    let mut item = UnboundedItem::<u32, 1>::new(1, [1], unbounded);
    let mut knapsack = Knapsack::<u32, 1>::new([1]);
    knapsack.add_mut(&mut item, 1);
    assert_eq!(item.quantity, unbounded);
}

#[test]
fn take_usize_some() {
    let item = Item::<u32, 2>::new(1, [1, 1], 1);
    let item_test = item.clone();
    let mut knapsack = Knapsack::<u32, 2>::new([1, 1]);
    knapsack.add(item);
    assert_eq!(knapsack.take(item_test.clone()), Some(item_test));
}

#[test]
fn take_usize_none_1() {
    let mut knapsack = Knapsack::<u32, 2>::new([1, 1]);
    assert_eq!(knapsack.take(Item::<u32, 2>::new(1, [1, 1], 1)), None);
}

#[test]
fn take_item_usize_none_2() {
    let mut knapsack = Knapsack::<u32, 2>::new([1, 1]);
    knapsack.add(Item::<u32, 2>::new(1, [1, 1], 1));
    assert_eq!(knapsack.take(Item::<u32, 2>::new(1, [1, 1], 2)), None);
}
