use kpsolver::item::{item_of, key_of};
use kpsolver::knapsack::ItemData;
use kpsolver::knapsack::ItemDataKey;
use kpsolver::{unbounded, BinaryProblemItems, Item, ProblemItems, UnboundedItem};

#[test]
fn items_of_one_identity_are_merged() {
    let mut items = ProblemItems::<u32, 2>::new();
    items.add(Item::new(5, [1, 2], 3));
    items.add(Item::new(6, [1, 2], 1));
    items.add(Item::new(5, [1, 2], 4));
    assert_eq!(items.len(), 2);
    assert_eq!(items.get_item((5, [1, 2])), Some(Item::new(5, [1, 2], 7)));
    assert_eq!(items.get_index(1), Some(Item::new(6, [1, 2], 1)));
    assert_eq!(items.get_index(2), None);
    assert_eq!(items.get_index_of((6, [1, 2])), Some(1));
    assert_eq!(items.get_index_of((6, [2, 1])), None);
    assert_eq!(items.iter(), vec![Item::new(5, [1, 2], 7), Item::new(6, [1, 2], 1)]);
}

#[test]
fn an_item_without_units_is_not_added() {
    let mut items = ProblemItems::<u32, 1>::new();
    items.add(Item::new(5, [1], 0));
    assert_eq!(items.len(), 0);
    items.add(Item::new(5, [1], 2));
    items.add(Item::new(5, [1], 0));
    assert_eq!(items.len(), 1);
    assert_eq!(items.get_item((5, [1])).unwrap().quantity, 2);
}

#[test]
fn removal_keeps_the_order_of_the_rest() {
    let mut items = ProblemItems::<u32, 1>::new();
    items.add(Item::new(1, [1], 1));
    items.add(Item::new(2, [2], 2));
    items.add(Item::new(3, [3], 3));
    assert_eq!(items.remove_index(0), Some(Item::new(1, [1], 1)));
    assert_eq!(items.remove_index(5), None);
    assert_eq!(items.iter(), vec![Item::new(2, [2], 2), Item::new(3, [3], 3)]);
    assert_eq!(items.remove_item((3, [3])), Some(Item::new(3, [3], 3)));
    assert_eq!(items.remove_item((3, [3])), None);
    assert_eq!(items.into_iter(), vec![Item::new(2, [2], 2)]);
}

#[test]
fn deduct_draws_only_what_is_there() {
    let mut items = ProblemItems::<u32, 1>::new();
    items.add(Item::new(1, [1], 3));
    assert!(!items.deduct(&Item::new(1, [1], 4)));
    assert!(!items.deduct(&Item::new(2, [1], 1)));
    assert!(items.deduct(&Item::new(1, [1], 2)));
    assert_eq!(items.get_index(0), Some(Item::new(1, [1], 1)));
    assert!(items.deduct(&Item::new(1, [1], 1)));
    assert_eq!(items.get_index(0), Some(Item::new(1, [1], 0)));
}

#[test]
fn unlimited_items_keep_no_count() {
    let mut items = ProblemItems::<u32, 1, unbounded>::new();
    items.add(UnboundedItem::<u32, 1>::new(3, [2], unbounded));
    items.add(UnboundedItem::<u32, 1>::new(3, [2], unbounded));
    items.add(UnboundedItem::<u32, 1>::new(4, [2], unbounded));
    assert_eq!(items.len(), 2);
    assert_eq!(items.get_index(0).unwrap().quantity, unbounded);
    assert!(items.deduct(&Item::new(3, [2], 100)));
    assert_eq!(items.len(), 2);
    let wide = items.to_generic::<u16>();
    assert_eq!(wide.get_item((4, [2_u16])).unwrap().value, 4);
}

#[test]
fn clone_is_a_collection_of_its_own() {
    let mut items = ProblemItems::<u32, 1>::new();
    items.add(Item::new(1, [1], 3));
    let copy = items.clone();
    items.add(Item::new(1, [1], 3));
    assert_eq!(copy.get_index(0).unwrap().quantity, 3);
    assert_eq!(items.get_index(0).unwrap().quantity, 6);
}

#[test]
fn conversion_there_and_back_gives_the_item_back() {
    let item = Item::<u8, 3>::new(77, [0, 255, 9], 200);
    let wide = item.to_generic::<u32>();
    assert_eq!(wide, Item::<u32, 3>::new(77, [0, 255, 9], 200));
    assert_eq!(wide.to_generic::<u8>(), item);
    let free = UnboundedItem::<u8, 1>::new(5, [250], unbounded);
    assert_eq!(free.to_generic::<u16>().to_generic::<u8>(), free);

    let mut items = ProblemItems::<u16, 1>::new();
    items.add(Item::new(1, [300], 2));
    items.add(Item::new(2, [7], 65535));
    let back = items.clone().to_generic::<u32>().to_generic::<u16>();
    assert_eq!(back.iter(), items.iter());

    let mut list = BinaryProblemItems::<u8, 1>::new();
    list.add(Item::new(1, [3], 1));
    list.add(Item::new(1, [3], 1));
    let back = list.clone().to_generic::<u32>().to_generic::<u8>();
    assert_eq!(back.iter(), list.iter());
}

#[test]
fn a_list_keeps_equal_items_apart() {
    let mut list = BinaryProblemItems::<u32, 1>::new();
    list.add(Item::new(1, [3], 1));
    list.add(Item::new(1, [3], 1));
    list.add(Item::new(2, [3], 1));
    assert_eq!(list.len(), 3);
    assert!(list.deduct(&Item::new(1, [3], 1)));
    assert_eq!(list.iter(), vec![Item::new(1, [3], 0), Item::new(1, [3], 1), Item::new(2, [3], 1)]);
    assert!(list.deduct(&Item::new(1, [3], 1)));
    assert!(!list.deduct(&Item::new(1, [3], 1)));
    assert_eq!(list.remove_at_index(1), Some(Item::new(1, [3], 0)));
    assert_eq!(list.remove_at_index(2), None);
    assert_eq!(list.into_iter(), vec![Item::new(1, [3], 0), Item::new(2, [3], 1)]);
}

#[test]
fn keys_name_value_and_weights() {
    let item = Item::<u16, 2>::new(9, [4, 500], 1);
    assert_eq!(item.to_key(), (9, [4, 500]));
    assert_eq!(key_of(9, &[4_u16, 500]), vec![9, 4, 500]);
    assert_eq!(item_of::<u16, 2, u16>(&vec![9, 4, 500], 6), Item::new(9, [4, 500], 6));
    let data = ItemData::<u32, 1> { value: 10, weights: [10; 1] };
    assert_eq!(data.to_key(), ItemDataKey::<1> { value_key: 10, weight_key: [10; 1] });
}
