use kpsolver::bounded_solvers;
use kpsolver::{Item, Knapsack, ProblemItems, ProblemKnapsacks};

fn items_1d(rows: &[(u64, u32, u32)]) -> ProblemItems<u32, 1> {
    let mut items = ProblemItems::<u32, 1>::new();
    for (value, weight, quantity) in rows {
        items.add(Item::<u32, 1>::new(*value, [*weight], *quantity));
    }
    items
}

fn items_2d(rows: &[(u64, [u32; 2], u32)]) -> ProblemItems<u32, 2> {
    let mut items = ProblemItems::<u32, 2>::new();
    for (value, weights, quantity) in rows {
        items.add(Item::<u32, 2>::new(*value, *weights, *quantity));
    }
    items
}

fn one_knapsack<const S: usize>(capacity: [u32; S]) -> ProblemKnapsacks<u32, S> {
    let mut knapsacks = ProblemKnapsacks::<u32, S>::new();
    knapsacks.add(Knapsack::<u32, S>::new(capacity));
    knapsacks
}

#[test]
fn dynamic_random_sample_1() {
    let mut items = items_1d(&[(1, 1, 2)]);
    let knapsack = one_knapsack([1]);

    let solution = items.clone().insert_into(knapsack).using(bounded_solvers::Dynamic);
    assert_eq!(solution.value(), 1);
    assert_eq!(solution.get(0).weights(), &[1_u32]);
    let knapsack_mut = one_knapsack([1]);

    let solution_mut = items.insert_mut_into(knapsack_mut).using(bounded_solvers::Dynamic);
    assert_eq!(solution_mut.value(), 1);
    assert_eq!(items.get_index(0).unwrap().quantity, 1);
    assert_eq!(solution_mut.get(0).weights(), &[1_u32]);
}

#[test]
fn dynamic_random_sample_2() {
    let items = items_1d(&[
        (55, 95, 1),
        (10, 4, 1),
        (47, 60, 1),
        (5, 32, 1),
        (4, 23, 1),
        (50, 72, 1),
        (8, 80, 1),
        (61, 62, 1),
        (85, 65, 1),
        (87, 46, 1),
    ]);
    let knapsack = one_knapsack([295]);

    let solution = items.insert_into(knapsack).using(bounded_solvers::Dynamic);
    assert_eq!(solution.value(), 302);
}

#[test]
fn dynamic_random_sample_3() {
    let items = items_1d(&[(2, 1, 1), (3, 2, 1), (1, 1, 1)]);
    let knapsack = one_knapsack([2]);

    let solution = items.insert_into(knapsack).using(bounded_solvers::Dynamic);
    assert_eq!(solution.value(), 3);
}

#[test]
fn dynamic_random_sample_multi_constraint_1() {
    let mut items = items_2d(&[(1, [1, 1], 2)]);
    let knapsack = one_knapsack([1, 1]);

    let solution = items.clone().insert_into(knapsack).using(bounded_solvers::Dynamic);
    assert_eq!(solution.value(), 1);
    assert_eq!(solution.get(0).weights(), &[1_u32, 1_u32]);
    let knapsack_mut = one_knapsack([1, 1]);

    let solution_mut = items.insert_mut_into(knapsack_mut).using(bounded_solvers::Dynamic);
    assert_eq!(solution_mut.value(), 1);
    assert_eq!(items.get_index(0).unwrap().quantity, 1);
    assert_eq!(solution_mut.get(0).weights(), &[1_u32, 1_u32]);
}

#[test]
fn dynamic_random_sample_multi_constraint_2() {
    let items = items_2d(&[
        (55, [95, 34], 1),
        (10, [4, 64], 1),
        (47, [60, 13], 1),
        (5, [32, 35], 1),
        (4, [23, 9], 1),
        (50, [72, 87], 1),
        (8, [80, 35], 1),
        (61, [62, 12], 1),
        (85, [65, 54], 1),
        (87, [46, 92], 1),
    ]);
    let knapsack = one_knapsack([269, 175]);

    let solution = items.insert_into(knapsack).using(bounded_solvers::Dynamic);
    assert_eq!(solution.value(), 280);
}

#[test]
fn dynamic_random_sample_multi_constraint_3() {
    let items = items_2d(&[(2, [2, 2], 70), (5, [5, 2], 70), (10, [10, 2], 70)]);
    let knapsack = one_knapsack([100, 70]);

    let solution = items.insert_into(knapsack).using(bounded_solvers::Dynamic);
    assert_eq!(solution.value(), 100);
}

#[test]
fn dynamic_insert_into_knapsack() {
    let mut items = items_1d(&[(1, 1, 2)]);
    let mut knapsack = Knapsack::<u32, 1>::new([2]);
    bounded_solvers::dynamic::dynamic(&mut items, &mut knapsack);
    assert_eq!(items.get_index(0).unwrap().quantity, 0);
    assert_eq!(knapsack.get_item((1, [1])), Some(Item::<u32, 1>::new(1, [1], 2)));
    assert_eq!(knapsack.value(), 2);
    assert_eq!(knapsack.weights(), &[2_u32]);
}

#[test]
fn dynamic_test_1() {
    let mut items = items_1d(&[(1, 1, 2)]);
    let mut knapsack = Knapsack::<u32, 1>::new([1]);
    bounded_solvers::dynamic::dynamic(&mut items, &mut knapsack);
    assert_eq!(items.get_index(0).unwrap().quantity, 1);
    assert_eq!(knapsack.value(), 1);
    assert_eq!(knapsack.weights(), &[1_u32]);
}

#[test]
fn dynamic_test_3() {
    let mut items = items_1d(&[
        (55, 95, 1),
        (10, 4, 1),
        (47, 60, 1),
        (5, 32, 1),
        (4, 23, 1),
        (50, 72, 1),
        (8, 80, 1),
        (61, 62, 1),
        (85, 65, 1),
        (87, 46, 1),
    ]);
    let mut knapsack = Knapsack::<u32, 1>::new([269]);
    bounded_solvers::dynamic::dynamic(&mut items, &mut knapsack);
    assert_eq!(knapsack.value(), 295);
}
