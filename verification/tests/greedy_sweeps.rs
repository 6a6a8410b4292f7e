use kpsolver::binary_solvers::generalized_greedy::{
    GeneralizedGreedy, ItemInfo, Packing, Placement,
};
use kpsolver::knapsack::KnapsackBinary;
use kpsolver::{BinaryProblemItems, BinaryProblemKnapsacks, Item};

fn marks(decisions: &[(usize, bool)]) -> Vec<ItemInfo> {
    decisions.iter().map(|(j, x)| ItemInfo { j: *j, x: *x }).collect()
}

fn fitting(decisions: &[(usize, bool)]) -> Placement {
    Placement { marks: marks(decisions), value: 1, split_value: 0 }
}

fn splitting(decisions: &[(usize, bool)]) -> Placement {
    Placement { marks: marks(decisions), value: 0, split_value: 0 }
}

fn packings(records: &[(usize, usize)]) -> Vec<Packing> {
    records.iter().map(|(j, knapsack)| Packing { j: *j, knapsack: *knapsack }).collect()
}

#[test]
fn the_first_sweep_fills_one_knapsack_after_the_other() {
    let values = vec![10, 20, 30];
    let weights = vec![vec![5], vec![6], vec![7]];
    let rooms = vec![vec![10], vec![10]];
    let placement =
        GeneralizedGreedy::senju_toyoda_sweep(&values, &weights, &rooms, vec![0, 1, 2], 1);
    assert_eq!(placement.marks, marks(&[(2, true), (1, false), (1, true), (0, false)]));
    assert_eq!(placement.value, 50);
    assert_eq!(placement.split_value, 30);
}

#[test]
fn the_first_sweep_holds_aside_what_is_too_large() {
    let values = vec![5, 9, 4];
    let weights = vec![vec![20, 1], vec![3, 1], vec![1, 7]];
    let rooms = vec![vec![10, 5]];
    let placement =
        GeneralizedGreedy::senju_toyoda_sweep(&values, &weights, &rooms, vec![1, 2, 0], 2);
    assert_eq!(placement.marks, marks(&[(1, true)]));
    assert_eq!(placement.value, 9);
    assert_eq!(placement.split_value, 0);
}

#[test]
fn the_first_sweep_brings_back_what_was_held_aside() {
    let values = vec![1, 2, 3];
    let weights = vec![vec![8], vec![12], vec![7]];
    let rooms = vec![vec![10], vec![12]];
    let placement =
        GeneralizedGreedy::senju_toyoda_sweep(&values, &weights, &rooms, vec![0, 1, 2], 1);
    assert_eq!(placement.marks, marks(&[(2, true), (0, false), (1, true), (0, false)]));
    assert_eq!(placement.value, 5);
    assert_eq!(placement.split_value, 2);
}

#[test]
fn the_first_sweep_turns_round_when_the_split_items_win() {
    let values = vec![1, 100];
    let weights = vec![vec![6], vec![6]];
    let rooms = vec![vec![10]];
    let placement =
        GeneralizedGreedy::senju_toyoda_sweep(&values, &weights, &rooms, vec![1, 0], 1);
    assert_eq!(placement.marks, marks(&[(0, false), (1, true)]));
    assert_eq!(placement.value, 1);
    assert_eq!(placement.split_value, 100);
}

#[test]
fn the_first_sweep_without_knapsacks_decides_nothing() {
    let placement =
        GeneralizedGreedy::senju_toyoda_sweep(&vec![1], &vec![vec![1]], &vec![], vec![0], 1);
    assert_eq!(placement.marks, vec![]);
    assert_eq!(placement.value, 0);
    assert_eq!(placement.split_value, 0);
}

#[test]
fn the_second_sweep_decides_every_item_anew() {
    let values = vec![10, 20, 30];
    let weights = vec![vec![5], vec![6], vec![7]];
    let rooms = vec![vec![10], vec![10]];
    let placement = GeneralizedGreedy::loulou_michaelides_sweep(
        &values,
        &weights,
        &rooms,
        marks(&[(2, false), (1, true), (0, false)]),
        1,
    );
    assert_eq!(placement.marks, marks(&[(2, true), (1, false), (0, true)]));
    assert_eq!(placement.value, 40);
    assert_eq!(placement.split_value, 20);
}

#[test]
fn the_second_sweep_stops_when_the_knapsacks_are_used_up() {
    let values = vec![10, 20, 30];
    let weights = vec![vec![5], vec![6], vec![7]];
    let rooms = vec![vec![6]];
    let placement = GeneralizedGreedy::loulou_michaelides_sweep(
        &values,
        &weights,
        &rooms,
        marks(&[(1, false), (2, true), (0, true)]),
        1,
    );
    assert_eq!(placement.marks, marks(&[(1, true), (2, false), (0, true)]));
    assert_eq!(placement.value, 20);
    assert_eq!(placement.split_value, 30);
}

fn three_items() -> BinaryProblemItems<u32, 1> {
    let mut items = BinaryProblemItems::<u32, 1>::new();
    items.add(Item::new(10, [5], 1));
    items.add(Item::new(20, [6], 1));
    items.add(Item::new(30, [7], 1));
    items
}

fn two_knapsacks() -> BinaryProblemKnapsacks<u32, 1> {
    let mut knapsacks = BinaryProblemKnapsacks::<u32, 1>::new();
    knapsacks.add(KnapsackBinary::new([10]));
    knapsacks.add(KnapsackBinary::new([10]));
    knapsacks
}

#[test]
fn committing_the_fitting_items_moves_on_when_a_knapsack_is_full() {
    let mut knapsacks = two_knapsacks();
    let packed = GeneralizedGreedy::commit(
        &three_items(),
        &mut knapsacks,
        &vec![1, 0],
        &fitting(&[(2, true), (1, false), (0, true)]),
    );
    assert_eq!(packed, packings(&[(2, 1), (0, 0)]));
    assert_eq!(knapsacks.get(1).iter(), vec![Item::new(30, [7], 1)]);
    assert_eq!(knapsacks.get(0).iter(), vec![Item::new(10, [5], 1)]);
    assert_eq!(knapsacks.value(), 40);
}

#[test]
fn committing_the_split_items_gives_each_knapsack_one() {
    let mut knapsacks = two_knapsacks();
    let packed = GeneralizedGreedy::commit(
        &three_items(),
        &mut knapsacks,
        &vec![0, 1],
        &splitting(&[(2, false), (1, true), (0, false), (1, false)]),
    );
    assert_eq!(packed, packings(&[(2, 0), (0, 1)]));
    assert_eq!(knapsacks.get(0).iter(), vec![Item::new(30, [7], 1)]);
    assert_eq!(knapsacks.get(1).iter(), vec![Item::new(10, [5], 1)]);
    assert_eq!(knapsacks.value(), 40);
}

#[test]
fn an_item_larger_than_every_knapsack_stays_out() {
    let mut items = three_items();
    items.add(Item::new(1000, [11], 1));
    let values = vec![10, 20, 30, 1000];
    let weights = vec![vec![5], vec![6], vec![7], vec![11]];
    let rooms = vec![vec![10], vec![10]];
    let first =
        GeneralizedGreedy::senju_toyoda_sweep(&values, &weights, &rooms, vec![0, 1, 2, 3], 1);
    assert!(first.marks.iter().all(|mark| mark.j != 3));
    let mut knapsacks = two_knapsacks();
    let packed = GeneralizedGreedy::commit(
        &items,
        &mut knapsacks,
        &vec![0, 1],
        &fitting(&[(3, true), (2, true), (3, true)]),
    );
    assert_eq!(packed, vec![]);
    assert_eq!(knapsacks.value(), 0);
    let mut knapsacks = two_knapsacks();
    let packed = GeneralizedGreedy::commit(
        &items,
        &mut knapsacks,
        &vec![0, 1],
        &splitting(&[(3, false), (2, false), (3, false)]),
    );
    assert_eq!(packed, packings(&[(2, 1)]));
    assert_eq!(knapsacks.get(0).len(), 0);
    assert_eq!(knapsacks.get(1).iter(), vec![Item::new(30, [7], 1)]);
    for k in 0..2 {
        assert!(knapsacks.get(k).weights()[0] <= 10);
    }
}

#[test]
fn no_item_is_packed_twice() {
    let values = vec![3, 9];
    let weights = vec![vec![7], vec![4]];
    let rooms = vec![vec![10], vec![10]];
    let first = GeneralizedGreedy::senju_toyoda_sweep(&values, &weights, &rooms, vec![1, 0], 1);
    assert_eq!(first.marks, marks(&[(0, true), (1, false), (1, true)]));
    let mut items = BinaryProblemItems::<u32, 1>::new();
    items.add(Item::new(3, [7], 1));
    items.add(Item::new(9, [4], 1));
    let mut knapsacks = two_knapsacks();
    let packed = GeneralizedGreedy::commit(
        &items,
        &mut knapsacks,
        &vec![0, 1],
        &fitting(&[(1, true), (0, true), (1, true), (1, true)]),
    );
    assert_eq!(packed, packings(&[(1, 0), (0, 1)]));
    assert_eq!(knapsacks.value(), 12);
    assert_eq!(knapsacks.get(0).iter(), vec![Item::new(9, [4], 1)]);
    assert_eq!(knapsacks.get(1).iter(), vec![Item::new(3, [7], 1)]);

    let mut knapsacks = two_knapsacks();
    let packed = GeneralizedGreedy::commit(
        &items,
        &mut knapsacks,
        &vec![0, 1],
        &splitting(&[(0, false), (0, false)]),
    );
    assert_eq!(packed, packings(&[(0, 0)]));
    assert_eq!(knapsacks.get(0).iter(), vec![Item::new(3, [7], 1)]);
    assert_eq!(knapsacks.get(1).len(), 0);
}

#[test]
fn equal_items_at_two_positions_are_two_items() {
    let mut items = BinaryProblemItems::<u32, 1>::new();
    items.add(Item::new(5, [3], 1));
    items.add(Item::new(5, [3], 1));
    let mut knapsacks = two_knapsacks();
    let packed = GeneralizedGreedy::commit(
        &items,
        &mut knapsacks,
        &vec![0, 1],
        &fitting(&[(0, true), (1, true)]),
    );
    assert_eq!(packed, packings(&[(0, 0), (1, 0)]));
    assert_eq!(knapsacks.get(0).value(), 10);
}

fn scored_run(rows: &[(u64, u32)], capacities: &[u32]) -> BinaryProblemKnapsacks<u32, 1> {
    let mut items = BinaryProblemItems::<u32, 1>::new();
    for (value, weight) in rows {
        items.add(Item::new(*value, [*weight], 1));
    }
    let mut knapsacks = BinaryProblemKnapsacks::<u32, 1>::new();
    for capacity in capacities {
        knapsacks.add(KnapsackBinary::new([*capacity]));
    }
    let values: Vec<u64> = rows.iter().map(|row| row.0).collect();
    let weights: Vec<Vec<u64>> = rows.iter().map(|row| vec![row.1 as u64]).collect();
    let slack: Vec<Vec<u64>> = capacities.iter().map(|c| vec![*c as u64]).collect();

    let weight_sum: f64 = rows.iter().map(|row| row.1 as f64).sum();
    let capacity_sum: f64 = capacities.iter().map(|c| *c as f64).sum();
    let difference = weight_sum - capacity_sum;
    let largest_neg = if difference < 0.0 { difference } else { 0.0 };
    let rating = 1.0 + weight_sum / capacity_sum;
    let mut by_score: Vec<(usize, f64)> = rows
        .iter()
        .enumerate()
        .map(|(j, row)| (j, row.0 as f64 / (row.1 as f64 * (difference - largest_neg))))
        .collect();
    by_score.sort_by(|x, y| x.1.partial_cmp(&y.1).unwrap());
    let mut places: Vec<(usize, f64)> = capacities
        .iter()
        .enumerate()
        .map(|(k, c)| (k, *c as f64 * rating))
        .collect();
    places.sort_by(|x, y| x.1.partial_cmp(&y.1).unwrap());

    let order: Vec<usize> = by_score.iter().map(|scored| scored.0).collect();
    let rooms: Vec<Vec<u64>> = places.iter().map(|place| slack[place.0].clone()).collect();
    let first = GeneralizedGreedy::senju_toyoda_sweep(&values, &weights, &rooms, order, 1);

    let mut refined: Vec<(ItemInfo, f64)> =
        first.marks.iter().map(|mark| (*mark, values[mark.j] as f64 / 0.0)).collect();
    refined.sort_by(|x, y| y.1.partial_cmp(&x.1).unwrap());
    let again: Vec<ItemInfo> = refined.iter().map(|scored| scored.0).collect();
    let second = GeneralizedGreedy::loulou_michaelides_sweep(&values, &weights, &rooms, again, 1);

    let order: Vec<usize> = places.iter().map(|place| place.0).collect();
    let packed = GeneralizedGreedy::commit(&items, &mut knapsacks, &order, &second);
    let mut positions: Vec<usize> = packed.iter().map(|packing| packing.j).collect();
    positions.sort();
    positions.dedup();
    assert_eq!(positions.len(), packed.len());
    knapsacks
}

fn best_over_knapsacks(rows: &[(u64, u32)], capacity: u32, knapsacks: usize) -> u64 {
    let n = rows.len();
    let sets = 1_usize << n;
    let mut worth = vec![0_u64; sets];
    let mut one_knapsack: Vec<usize> = Vec::new();
    for set in 0..sets {
        let mut weight = 0;
        for j in 0..n {
            if set >> j & 1 == 1 {
                worth[set] += rows[j].0;
                weight += rows[j].1;
            }
        }
        if weight <= capacity {
            one_knapsack.push(set);
        }
    }
    let mut packed = vec![false; sets];
    packed[0] = true;
    for _ in 0..knapsacks {
        let mut next = packed.clone();
        for set in 0..sets {
            if packed[set] {
                for more in one_knapsack.iter() {
                    if set & more == 0 {
                        next[set | more] = true;
                    }
                }
            }
        }
        packed = next;
    }
    (0..sets).filter(|set| packed[*set]).map(|set| worth[set]).max().unwrap()
}

#[test]
fn fifteen_items_over_five_knapsacks() {
    let rows = [
        (10, 48),
        (30, 30),
        (25, 42),
        (50, 36),
        (35, 36),
        (30, 48),
        (15, 42),
        (40, 42),
        (30, 36),
        (35, 24),
        (45, 30),
        (10, 30),
        (20, 42),
        (30, 36),
        (25, 36),
    ];
    let solution = scored_run(&rows, &[100, 100, 100, 100, 100]);
    assert_eq!(best_over_knapsacks(&rows, 100, 5), 395);
    assert!(solution.value() * 2 > 395);
    assert!(solution.value() <= 395);
    for k in 0..5 {
        let knapsack = solution.get(k);
        assert!(knapsack.weights()[0] <= 100);
        let value: u64 = knapsack.iter().iter().map(|item| item.value).sum();
        assert_eq!(knapsack.value(), value);
    }
}
