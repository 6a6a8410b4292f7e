use kpsolver::binary_solvers;
use kpsolver::bounded_solvers;
use kpsolver::knapsack::KnapsackBinary;
use kpsolver::{BinaryProblemItems, Item, Knapsack, ProblemItems};

fn two_items() -> ProblemItems<u32, 1> {
    let mut items = ProblemItems::<u32, 1>::new();
    items.add(Item::new(10, [3], 5));
    items.add(Item::new(4, [2], 10));
    items
}

#[test]
fn filling_takes_as_many_units_as_fit() {
    let mut knapsack = Knapsack::<u32, 1>::new([10]);
    bounded_solvers::TheoreticalGreedy::fill_in_rank(&two_items(), &mut knapsack, &vec![0, 1]);
    assert_eq!(knapsack.iter(), vec![Item::new(10, [3], 3)]);
    assert_eq!(knapsack.value(), 30);
    assert_eq!(knapsack.weights(), &[9]);

    let mut knapsack = Knapsack::<u32, 1>::new([10]);
    bounded_solvers::TheoreticalGreedy::fill_in_rank(&two_items(), &mut knapsack, &vec![1, 0]);
    assert_eq!(knapsack.iter(), vec![Item::new(4, [2], 5)]);
    assert_eq!(knapsack.value(), 20);
    assert_eq!(knapsack.weights(), &[10]);

    let mut knapsack = Knapsack::<u32, 1>::new([27]);
    bounded_solvers::TheoreticalGreedy::fill_in_rank(&two_items(), &mut knapsack, &vec![0, 1]);
    assert_eq!(knapsack.iter(), vec![Item::new(10, [3], 5), Item::new(4, [2], 6)]);
    assert_eq!(knapsack.value(), 74);
}

#[test]
fn filling_counts_in_every_dimension() {
    let mut items = ProblemItems::<u32, 3>::new();
    items.add(Item::new(1, [2, 0, 5], 9));
    let mut knapsack = Knapsack::<u32, 3>::new([13, 0, 21]);
    bounded_solvers::TheoreticalGreedy::fill_in_rank(&items, &mut knapsack, &vec![0]);
    assert_eq!(knapsack.iter(), vec![Item::new(1, [2, 0, 5], 4)]);
    assert_eq!(knapsack.weights(), &[8, 0, 20]);

    let mut free = ProblemItems::<u32, 1>::new();
    free.add(Item::new(2, [0], 7));
    let mut knapsack = Knapsack::<u32, 1>::new([0]);
    bounded_solvers::TheoreticalGreedy::fill_in_rank(&free, &mut knapsack, &vec![0]);
    assert_eq!(knapsack.iter(), vec![Item::new(2, [0], 7)]);
    assert_eq!(knapsack.value(), 14);
}

#[test]
fn binary_filling_stops_at_the_first_item_that_does_not_fit() {
    let mut items = BinaryProblemItems::<u32, 1>::new();
    items.add(Item::new(1, [4], 1));
    items.add(Item::new(1, [5], 1));
    items.add(Item::new(1, [3], 1));
    let mut knapsack = KnapsackBinary::<u32, 1>::new([8]);
    binary_solvers::TheoreticalGreedy::fill_in_rank(&items, &mut knapsack, &vec![0, 1, 2]);
    assert_eq!(knapsack.iter(), vec![Item::new(1, [4], 1)]);
    let mut knapsack = KnapsackBinary::<u32, 1>::new([8]);
    binary_solvers::TheoreticalGreedy::fill_in_rank(&items, &mut knapsack, &vec![2, 1, 0]);
    assert_eq!(knapsack.iter(), vec![Item::new(1, [3], 1), Item::new(1, [5], 1)]);
    assert_eq!(knapsack.value(), 2);
    assert_eq!(knapsack.weights(), &[8]);
}
