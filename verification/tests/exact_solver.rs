use kpsolver::binary_solvers;
use kpsolver::bounded_solvers;
use kpsolver::dynamic_table::optimal_counts;
use kpsolver::knapsack::KnapsackBinary;
use kpsolver::packing::limits_hold;
use kpsolver::problem_type::{to_bounded, to_unbounded};
use kpsolver::{
    unbounded, BinaryProblemItems, BinaryProblemKnapsacks, Item, Knapsack, ProblemItems,
    ProblemKnapsacks,
};

fn brute_force(values: &[u64], weights: &[Vec<usize>], quantities: &[u64], room: &[usize]) -> u64 {
    fn go(
        at: usize,
        values: &[u64],
        weights: &[Vec<usize>],
        quantities: &[u64],
        room: &mut Vec<usize>,
    ) -> u64 {
        if at == values.len() {
            return 0;
        }
        let mut best = 0;
        let mut taken = 0;
        loop {
            let rest = go(at + 1, values, weights, quantities, room);
            best = best.max(taken * values[at] + rest);
            let fits = (0..room.len()).all(|d| weights[at][d] <= room[d]);
            if taken == quantities[at] || !fits {
                break;
            }
            for d in 0..room.len() {
                room[d] -= weights[at][d];
            }
            taken += 1;
        }
        for d in 0..room.len() {
            room[d] += taken as usize * weights[at][d];
        }
        best
    }
    go(0, values, weights, quantities, &mut room.to_vec())
}

#[test]
fn the_table_agrees_with_trying_everything() {
    let values = vec![6, 10, 12, 7, 0];
    let weights = vec![vec![1, 3], vec![2, 2], vec![3, 1], vec![2, 0], vec![0, 0]];
    let quantities = vec![2, 1, 3, 2, 4];
    for a in 0..7 {
        for b in 0..6 {
            let room = vec![a, b];
            let counts = optimal_counts(&values, &weights, &quantities, &room);
            assert_eq!(counts.len(), 5);
            let mut value = 0;
            for d in 0..2 {
                let used: usize =
                    (0..5).map(|i| counts[i] as usize * weights[i][d]).sum();
                assert!(used <= room[d]);
            }
            for i in 0..5 {
                assert!(counts[i] <= quantities[i]);
                value += counts[i] * values[i];
            }
            assert_eq!(value, brute_force(&values, &weights, &quantities, &room));
        }
    }
}

#[test]
fn the_table_takes_the_classic_instance() {
    let values = vec![55, 10, 47, 5, 4, 50, 8, 61, 85, 87];
    let weights: Vec<Vec<usize>> =
        [95, 4, 60, 32, 23, 72, 80, 62, 65, 46].iter().map(|w| vec![*w]).collect();
    let counts = optimal_counts(&values, &weights, &vec![1; 10], &vec![295]);
    assert_eq!(counts, vec![1, 1, 0, 0, 1, 0, 0, 1, 1, 1]);
    assert_eq!((0..10).map(|i| counts[i] * values[i]).sum::<u64>(), 302);
    assert_eq!((0..10).map(|i| counts[i] as usize * weights[i][0]).sum::<usize>(), 295);
    let counts = optimal_counts(&values, &weights, &vec![1; 10], &vec![0]);
    assert_eq!(counts, vec![0; 10]);
    let counts = optimal_counts(&vec![], &vec![], &vec![], &vec![3, 3]);
    assert_eq!(counts, Vec::<u64>::new());
    let counts = optimal_counts(&vec![3, 4], &vec![vec![], vec![]], &vec![2, 5], &vec![]);
    assert_eq!(counts, vec![2, 5]);
}

#[test]
fn one_item_of_two_fits() {
    let mut items = ProblemItems::<u32, 1>::new();
    items.add(Item::new(1, [1], 2));
    let mut knapsacks = ProblemKnapsacks::<u32, 1>::new();
    knapsacks.add(Knapsack::new([1]));
    let solution = items.insert_into(knapsacks).using(bounded_solvers::Dynamic);
    assert_eq!(solution.value(), 1);
    assert_eq!(solution.get(0).weights(), &[1]);
    assert_eq!(solution.get(0).iter(), vec![Item::new(1, [1], 1)]);
}

#[test]
fn solving_by_value_leaves_the_items_alone() {
    let mut items = ProblemItems::<u32, 1>::new();
    items.add(Item::new(4, [2], 3));
    items.add(Item::new(3, [1], 1));
    let mut knapsacks = ProblemKnapsacks::<u32, 1>::new();
    knapsacks.add(Knapsack::new([5]));
    let solution = items.clone().insert_into(knapsacks).using(bounded_solvers::Dynamic);
    assert_eq!(solution.value(), 11);
    assert_eq!(items.iter(), vec![Item::new(4, [2], 3), Item::new(3, [1], 1)]);
}

#[test]
fn solving_by_reference_draws_what_was_packed() {
    let mut items = ProblemItems::<u32, 1>::new();
    items.add(Item::new(4, [2], 3));
    items.add(Item::new(3, [1], 1));
    items.add(Item::new(1, [5], 2));
    let mut knapsacks = ProblemKnapsacks::<u32, 1>::new();
    knapsacks.add(Knapsack::new([5]));
    let solution = items.insert_mut_into(knapsacks).using(bounded_solvers::Dynamic);
    assert_eq!(solution.value(), 11);
    assert_eq!(
        items.iter(),
        vec![Item::new(4, [2], 1), Item::new(3, [1], 0), Item::new(1, [5], 2)]
    );

    let mut empty = ProblemKnapsacks::<u32, 1>::new();
    empty.add(Knapsack::new([0]));
    let again = items.insert_mut_into(empty).using(bounded_solvers::Dynamic);
    assert_eq!(again.value(), 0);
    assert_eq!(
        items.iter(),
        vec![Item::new(4, [2], 1), Item::new(3, [1], 0), Item::new(1, [5], 2)]
    );
}

#[test]
fn what_was_packed_before_is_not_drawn() {
    let mut items = ProblemItems::<u32, 1>::new();
    items.add(Item::new(1, [1], 5));
    let mut knapsack = Knapsack::<u32, 1>::new([3]);
    knapsack.add(Item::new(1, [1], 1));
    let mut knapsacks = ProblemKnapsacks::<u32, 1>::new();
    knapsacks.add(knapsack);
    let solution = items.insert_mut_into(knapsacks).using(bounded_solvers::Dynamic);
    assert_eq!(solution.value(), 3);
    assert_eq!(solution.get(0).iter(), vec![Item::new(1, [1], 3)]);
    assert_eq!(items.iter(), vec![Item::new(1, [1], 3)]);
}

#[test]
fn the_solver_fills_what_is_left_of_a_knapsack() {
    let mut items = ProblemItems::<u32, 2>::new();
    items.add(Item::new(10, [3, 1], 2));
    items.add(Item::new(4, [1, 1], 5));
    let mut knapsack = Knapsack::<u32, 2>::new([10, 4]);
    knapsack.add(Item::new(100, [4, 1], 1));
    assert!(bounded_solvers::dynamic::can_solve(&items, &knapsack));
    assert!(bounded_solvers::dynamic::try_dynamic(&mut items, &mut knapsack));
    assert_eq!(items.iter(), vec![Item::new(10, [3, 1], 0), Item::new(4, [1, 1], 5)]);
    assert_eq!(knapsack.value(), 120);
    assert_eq!(knapsack.weights(), &[10, 3]);
    assert_eq!(
        knapsack.iter(),
        vec![Item::new(100, [4, 1], 1), Item::new(10, [3, 1], 2)]
    );
}

#[test]
fn a_table_beyond_the_machine_is_refused() {
    let mut items = ProblemItems::<u32, 2>::new();
    items.add(Item::new(1, [1, 1], 4_000_000_000));
    let mut knapsack = Knapsack::<u32, 2>::new([4_000_000_000, 4_000_000_000]);
    assert!(!bounded_solvers::dynamic::can_solve(&items, &knapsack));
    assert!(!bounded_solvers::dynamic::try_dynamic(&mut items, &mut knapsack));
    assert_eq!(knapsack.len(), 0);
    assert_eq!(knapsack.value(), 0);
    assert_eq!(items.iter(), vec![Item::new(1, [1, 1], 4_000_000_000)]);

    let mut knapsacks = ProblemKnapsacks::<u32, 2>::new();
    knapsacks.add(Knapsack::new([1, 1]));
    knapsacks.add(Knapsack::new([1, 1]));
    let mut few = ProblemItems::<u32, 2>::new();
    few.add(Item::new(1, [1, 1], 1));
    let problem = few.insert_into(knapsacks);
    assert!(!bounded_solvers::Dynamic::can_solve(&problem));

    assert!(limits_hold(&vec![u64::MAX], &vec![1], &vec![3], 0));
    assert!(!limits_hold(&vec![u64::MAX], &vec![1], &vec![3], 1));
    assert!(!limits_hold(&vec![u64::MAX, 1], &vec![1, 1], &vec![3], 0));
    assert!(limits_hold(&vec![1], &vec![9], &vec![99, 99, 99], 0));
    assert!(!limits_hold(&vec![1], &vec![9], &vec![usize::MAX, 1], 0));
}

#[test]
fn a_value_beyond_the_machine_is_refused() {
    let mut items = ProblemItems::<u32, 1>::new();
    items.add(Item::new(u64::MAX, [1], 2));
    let mut knapsack = Knapsack::<u32, 1>::new([1]);
    assert!(!bounded_solvers::dynamic::try_dynamic(&mut items, &mut knapsack));
    assert_eq!(knapsack.value(), 0);
    let mut one = ProblemItems::<u32, 1>::new();
    one.add(Item::new(u64::MAX, [1], 1));
    assert!(bounded_solvers::dynamic::try_dynamic(&mut one, &mut knapsack));
    assert_eq!(knapsack.value(), u64::MAX);
}

fn classic_list() -> BinaryProblemItems<u32, 1> {
    let mut items = BinaryProblemItems::<u32, 1>::new();
    let rows = [
        (55, 95),
        (10, 4),
        (47, 60),
        (5, 32),
        (4, 23),
        (50, 72),
        (8, 80),
        (61, 62),
        (85, 65),
        (87, 46),
    ];
    for (value, weight) in rows {
        items.add(Item::new(value, [weight], 1));
    }
    items
}

#[test]
fn the_binary_solver_takes_the_classic_instance() {
    let mut knapsacks = BinaryProblemKnapsacks::<u32, 1>::new();
    knapsacks.add(KnapsackBinary::new([295]));
    let problem = classic_list().insert_into(knapsacks);
    assert!(binary_solvers::Dynamic::can_solve(&problem));
    let solution = problem.using(binary_solvers::Dynamic);
    assert_eq!(solution.value(), 302);
    assert_eq!(solution.get(0).weights(), &[295]);
    assert_eq!(
        solution.get(0).iter(),
        vec![
            Item::new(87, [46], 1),
            Item::new(85, [65], 1),
            Item::new(61, [62], 1),
            Item::new(4, [23], 1),
            Item::new(10, [4], 1),
            Item::new(55, [95], 1),
        ]
    );
}

#[test]
fn the_binary_solver_counts_every_item_once() {
    let mut items = BinaryProblemItems::<u32, 1>::new();
    items.add(Item::new(5, [2], 9));
    items.add(Item::new(5, [2], 9));
    let mut knapsack = KnapsackBinary::<u32, 1>::new([7]);
    assert!(binary_solvers::dynamic::try_dynamic(&items, &mut knapsack));
    assert_eq!(knapsack.value(), 10);
    assert_eq!(knapsack.weights(), &[4]);
}

#[test]
fn a_binary_problem_solved_by_reference_uses_its_items_up() {
    let mut items = BinaryProblemItems::<u32, 1>::new();
    items.add(Item::new(2, [1], 1));
    items.add(Item::new(3, [2], 1));
    items.add(Item::new(1, [1], 1));
    let mut knapsacks = BinaryProblemKnapsacks::<u32, 1>::new();
    knapsacks.add(KnapsackBinary::new([2]));
    let solution = items.insert_mut_into(knapsacks).using(binary_solvers::Dynamic);
    assert_eq!(solution.value(), 3);
    let left: Vec<u32> = items.iter().iter().map(|item| item.quantity).collect();
    assert_eq!(left.iter().sum::<u32>(), 3 - solution.get(0).len() as u32);
}

#[test]
fn a_bounded_strategy_solves_a_binary_problem() {
    let mut knapsack = KnapsackBinary::<u32, 1>::new([295]);
    knapsack.add(Item::new(10, [4], 1));
    let mut knapsacks = BinaryProblemKnapsacks::<u32, 1>::new();
    knapsacks.add(knapsack);
    let mut list = classic_list();
    list.add(Item::new(55, [95], 1));
    let solution = list.insert_into(knapsacks).using(bounded_solvers::Dynamic);
    let values = vec![55, 10, 47, 5, 4, 50, 8, 61, 85, 87];
    let weights: Vec<Vec<usize>> =
        [95, 4, 60, 32, 23, 72, 80, 62, 65, 46].iter().map(|w| vec![*w]).collect();
    let quantities = vec![2, 1, 1, 1, 1, 1, 1, 1, 1, 1];
    assert_eq!(brute_force(&values, &weights, &quantities, &[291]), 298);
    assert_eq!(solution.value(), 10 + 298);
    assert!(solution.get(0).weights()[0] <= 295);
    assert_eq!(solution.get(0).capacity(), &[295]);
}

#[test]
fn re_expressing_a_binary_problem_counts_every_item_once() {
    let mut list = BinaryProblemItems::<u8, 1>::new();
    list.add(Item::new(1, [0], 200));
    list.add(Item::new(2, [3], 2));
    list.add(Item::new(1, [0], 0));
    list.add(Item::new(1, [0], 55));
    list.add(Item::new(1, [0], 1));
    let mut knapsack = KnapsackBinary::<u8, 1>::new([9]);
    knapsack.add(Item::new(2, [3], 1));
    knapsack.add(Item::new(2, [3], 2));
    let mut knapsacks = BinaryProblemKnapsacks::<u8, 1>::new();
    knapsacks.add(knapsack);
    let bounded = to_bounded(list.insert_into(knapsacks));
    assert_eq!(bounded.items.iter(), vec![Item::new(1, [0], 4), Item::new(2, [3], 1)]);
    assert_eq!(bounded.knapsacks.len(), 1);
    assert_eq!(bounded.knapsacks.get(0).iter(), vec![Item::new(2, [3], 3)]);
    assert_eq!(bounded.knapsacks.get(0).value(), 6);
    assert_eq!(bounded.knapsacks.get(0).capacity(), &[9]);

    let open = to_unbounded(bounded);
    assert_eq!(open.items.len(), 2);
    assert_eq!(open.items.get_index(1).unwrap().quantity, unbounded);
    assert_eq!(open.items.get_index(1).unwrap().weights, [3]);
    assert_eq!(open.knapsacks.get(0).value(), 6);
}

#[test]
fn re_expressing_a_binary_problem_stops_at_what_the_quantity_can_hold() {
    let mut list = BinaryProblemItems::<u8, 1>::new();
    for _ in 0..300 {
        list.add(Item::new(7, [1], 1));
    }
    list.add(Item::new(7, [2], 9));
    let bounded = to_bounded(list.insert_into(BinaryProblemKnapsacks::<u8, 1>::new()));
    assert_eq!(bounded.items.iter(), vec![Item::new(7, [1], 255), Item::new(7, [2], 1)]);
}

#[test]
fn a_bounded_strategy_takes_a_binary_item_once() {
    let mut list = BinaryProblemItems::<u32, 1>::new();
    list.add(Item::new(5, [2], 9));
    list.add(Item::new(5, [2], 9));
    list.add(Item::new(1, [1], 3));
    let mut knapsacks = BinaryProblemKnapsacks::<u32, 1>::new();
    knapsacks.add(KnapsackBinary::new([100]));
    let merged = list.clone().insert_into(knapsacks.clone()).using(bounded_solvers::Dynamic);
    let listed = list.insert_into(knapsacks).using(binary_solvers::Dynamic);
    assert_eq!(merged.value(), 11);
    assert_eq!(listed.value(), 11);
    assert_eq!(merged.get(0).weights(), &[5]);
    assert_eq!(listed.get(0).weights(), &[5]);
}

#[test]
fn packing_in_place_fills_the_knapsack() {
    let mut items = ProblemItems::<u32, 1>::new();
    items.add(Item::new(1, [1], 2));
    let mut knapsack = Knapsack::<u32, 1>::new([2]);
    bounded_solvers::dynamic::dynamic(&mut items, &mut knapsack);
    assert_eq!(items.iter(), vec![Item::new(1, [1], 0)]);
    assert_eq!(knapsack.get_item((1, [1])), Some(Item::new(1, [1], 2)));
    assert_eq!(knapsack.value(), 2);
    assert_eq!(knapsack.weights(), &[2]);
}

#[test]
fn the_table_agrees_with_trying_everything_in_three_dimensions() {
    let values = vec![9, 14, 5, 21];
    let weights = vec![vec![1, 2, 0], vec![2, 1, 3], vec![0, 1, 1], vec![3, 3, 2]];
    let quantities = vec![3, 2, 2, 1];
    for a in 0..5 {
        for b in 0..5 {
            for c in 0..4 {
                let room = vec![a, b, c];
                let counts = optimal_counts(&values, &weights, &quantities, &room);
                let value: u64 = (0..4).map(|i| counts[i] * values[i]).sum();
                for d in 0..3 {
                    let used: usize = (0..4).map(|i| counts[i] as usize * weights[i][d]).sum();
                    assert!(used <= room[d]);
                }
                assert_eq!(value, brute_force(&values, &weights, &quantities, &room));
            }
        }
    }
}

#[test]
fn the_solver_works_on_small_scalars() {
    let mut items = ProblemItems::<u8, 2>::new();
    items.add(Item::new(300, [100, 1], 2));
    items.add(Item::new(200, [60, 1], 3));
    let mut knapsack = Knapsack::<u8, 2>::new([255, 3]);
    assert!(bounded_solvers::dynamic::try_dynamic(&mut items, &mut knapsack));
    assert_eq!(items.iter(), vec![Item::new(300, [100, 1], 1), Item::new(200, [60, 1], 1)]);
    assert_eq!(knapsack.value(), 700);
    assert_eq!(knapsack.weights(), &[220, 3]);
    assert_eq!(
        knapsack.iter(),
        vec![Item::new(300, [100, 1], 1), Item::new(200, [60, 1], 2)]
    );
}

#[derive(Clone, Copy)]
struct OneEach;

impl kpsolver::BoundedSolver<u32, 1> for OneEach {
    type Output = ProblemKnapsacks<u32, 1>;

    fn solve(self, problem: kpsolver::BoundedProblem<u32, 1>) -> ProblemKnapsacks<u32, 1> {
        let list = problem.items.iter();
        let mut knapsacks = problem.knapsacks;
        for k in 0..knapsacks.len() {
            for item in list.iter() {
                knapsacks.get_mut(k).add(Item::new(item.value, item.weights, 1));
            }
        }
        knapsacks
    }
}

#[test]
fn solving_by_reference_draws_from_every_knapsack() {
    let mut items = ProblemItems::<u32, 1>::new();
    items.add(Item::new(4, [2], 3));
    items.add(Item::new(3, [1], 2));
    items.add(Item::new(9, [50], 7));
    let mut knapsacks = ProblemKnapsacks::<u32, 1>::new();
    knapsacks.add(Knapsack::new([3]));
    knapsacks.add(Knapsack::new([2]));
    knapsacks.add(Knapsack::new([1]));
    let mut held = Knapsack::new([10]);
    held.add(Item::new(4, [2], 2));
    knapsacks.add(held);
    let solution = items.insert_mut_into(knapsacks).using(OneEach);
    assert_eq!(solution.value(), 7 + 4 + 3 + 15);
    assert_eq!(
        items.iter(),
        vec![Item::new(4, [2], 0), Item::new(3, [1], 0), Item::new(9, [50], 7)]
    );
    assert_eq!(solution.get(3).iter(), vec![Item::new(4, [2], 3), Item::new(3, [1], 1)]);
}
