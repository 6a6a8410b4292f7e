use kpsolver::bounded_solvers;
use kpsolver::{BoundedProblem, BoundedSolver, Item, Knapsack, ProblemItems, ProblemKnapsacks};
use minilp::{ComparisonOp, OptimizationDirection, Problem};

#[derive(Clone, Copy)]
struct TheoreticalGreedy;

fn rank(values: &[u64], weights: &[Vec<u64>], units: &[usize], room: &[u64]) -> Vec<usize> {
    let dims = room.len();
    let total_units: usize = units.iter().sum();
    let mut positions: Vec<(usize, Vec<f64>, f64)> = Vec::new();
    for j in 0..values.len() {
        let mut coord = vec![0.0; dims];
        for r in 0..dims {
            if weights[j][r] != 0 || values[j] != 0 {
                coord[r] = weights[j][r] as f64 / values[j] as f64;
            }
        }
        positions.push((j, coord, 0.0));
    }
    let mut dual_problem = Problem::new(OptimizationDirection::Minimize);
    let mut variables: Vec<minilp::Variable> = Vec::new();
    for r in 0..dims {
        variables.push(dual_problem.add_var(room[r] as f64, (0.0, f64::INFINITY)));
    }
    for _ in 0..total_units {
        variables.push(dual_problem.add_var(1.0, (0.0, f64::INFINITY)));
    }
    let mut unit = 0;
    for j in 0..values.len() {
        for _ in 0..units[j] {
            let mut formula: Vec<(minilp::Variable, f64)> = Vec::new();
            for r in 0..dims {
                formula.push((variables[r], weights[j][r] as f64));
            }
            formula.push((variables[dims + unit], 1.0));
            dual_problem.add_constraint(&formula, ComparisonOp::Ge, values[j] as f64);
            unit += 1;
        }
    }
    let solution = dual_problem.solve().unwrap();
    let normal: Vec<f64> = (0..dims).map(|r| solution[variables[r]]).collect();
    let magnitude = normal.iter().map(|c| c.powf(2.0)).sum::<f64>().sqrt();
    for position in positions.iter_mut() {
        let mut dot_product = 0.0;
        for r in 0..dims {
            dot_product += position.1[r] * normal[r];
        }
        position.2 = dot_product / magnitude;
    }
    positions.sort_by(|x, y| x.2.partial_cmp(&y.2).unwrap());
    positions.iter().map(|position| position.0).collect()
}

impl<const S: usize> BoundedSolver<u32, S> for TheoreticalGreedy {
    type Output = ProblemKnapsacks<u32, S>;

    fn solve(self, problem: BoundedProblem<u32, S>) -> ProblemKnapsacks<u32, S> {
        let items = problem.items;
        let mut knapsacks = problem.knapsacks;
        let list = items.iter();
        let values: Vec<u64> = list.iter().map(|item| item.value).collect();
        let weights: Vec<Vec<u64>> =
            list.iter().map(|item| item.weights.iter().map(|w| *w as u64).collect()).collect();
        let units: Vec<usize> = list.iter().map(|item| item.quantity as usize).collect();
        let room = knapsacks.get(0).room();
        let order = rank(&values, &weights, &units, &room);
        bounded_solvers::TheoreticalGreedy::fill_in_rank(&items, knapsacks.get_mut(0), &order);
        knapsacks
    }
}

fn items_of<const S: usize>(rows: &[(u64, [u32; S], u32)]) -> ProblemItems<u32, S> {
    let mut items = ProblemItems::<u32, S>::new();
    for (value, weights, quantity) in rows {
        items.add(Item::<u32, S>::new(*value, *weights, *quantity));
    }
    items
}

fn one_knapsack<const S: usize>(capacity: [u32; S]) -> ProblemKnapsacks<u32, S> {
    let mut knapsacks = ProblemKnapsacks::<u32, S>::new();
    knapsacks.add(Knapsack::<u32, S>::new(capacity));
    knapsacks
}

#[test]
fn theoretical_greedy_random_sample_1() {
    let mut items = items_of(&[(1, [1], 2)]);
    let knapsack = one_knapsack([1]);

    let solution = items.clone().insert_into(knapsack).using(TheoreticalGreedy);
    assert_eq!(solution.value(), 1);
    assert_eq!(solution.get(0).weights(), &[1]);
    let knapsack_mut = one_knapsack([1]);

    let solution_mut = items.insert_mut_into(knapsack_mut).using(TheoreticalGreedy);
    assert_eq!(solution_mut.value(), 1);
    assert_eq!(items.get_index(0).unwrap().quantity, 1);
    assert_eq!(solution_mut.get(0).weights(), &[1]);
}

#[test]
fn theoretical_greedy_random_sample_2() {
    let items = items_of(&[
        (55, [95], 1),
        (10, [4], 1),
        (47, [60], 1),
        (5, [32], 1),
        (4, [23], 1),
        (50, [72], 1),
        (8, [80], 1),
        (61, [62], 1),
        (85, [65], 1),
        (87, [46], 1),
    ]);
    let knapsack = one_knapsack([295]);

    let solution = items.insert_into(knapsack).using(TheoreticalGreedy);
    assert!(solution.value() >= 151);
}

#[test]
fn theoretical_greedy_random_sample_3() {
    let items = items_of(&[(2, [1], 1), (3, [2], 1), (1, [1], 1)]);
    let knapsack = one_knapsack([2]);

    let solution = items.insert_into(knapsack).using(TheoreticalGreedy);
    assert!(solution.value() as f64 >= 1.5);
}

#[test]
fn theoretical_greedy_random_sample_multi_constraint_1() {
    let mut items = items_of(&[(1, [1, 1], 2)]);
    let knapsack = one_knapsack([1, 1]);

    let solution = items.clone().insert_into(knapsack).using(TheoreticalGreedy);
    assert_eq!(solution.value(), 1);
    assert_eq!(solution.get(0).weights(), &[1, 1]);
    let knapsack_mut = one_knapsack([1, 1]);

    let solution_mut = items.insert_mut_into(knapsack_mut).using(TheoreticalGreedy);
    assert_eq!(solution_mut.value(), 1);
    assert_eq!(items.get_index(0).unwrap().quantity, 1);
    assert_eq!(solution_mut.get(0).weights(), &[1, 1]);
}

#[test]
fn theoretical_greedy_random_sample_multi_constraint_2() {
    let items = items_of(&[
        (55, [95, 34], 1),
        (10, [4, 64], 1),
        (47, [60, 13], 1),
        (5, [32, 35], 1),
        (4, [23, 9], 1),
        (50, [72, 87], 1),
        (8, [80, 35], 1),
        (61, [62, 12], 1),
        (85, [65, 54], 1),
        (87, [46, 92], 1),
    ]);
    let knapsack = one_knapsack([269, 175]);

    let solution = items.insert_into(knapsack).using(TheoreticalGreedy);
    assert!(solution.value() >= 140);
}

#[test]
fn theoretical_greedy_random_sample_multi_constraint_3() {
    let items = items_of(&[(2, [2, 2], 70), (5, [5, 2], 70), (10, [10, 2], 70)]);
    let knapsack = one_knapsack([100, 70]);

    let solution = items.insert_into(knapsack).using(TheoreticalGreedy);
    assert!(solution.value() >= 50);
}
