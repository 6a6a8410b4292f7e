use good_lp::{variable, Expression, ProblemVariables, Solution, SolverModel, Variable};
use kpsolver::{BoundedProblem, BoundedSolver, Item, Knapsack, ProblemItems, ProblemKnapsacks};

#[derive(Clone, Copy)]
struct Milp;

impl<const S: usize> BoundedSolver<u32, S> for Milp {
    type Output = ProblemKnapsacks<u32, S>;

    fn solve(self, problem: BoundedProblem<u32, S>) -> ProblemKnapsacks<u32, S> {
        let list = problem.items.iter();
        let mut knapsacks = problem.knapsacks;
        let m = knapsacks.len();
        let n = list.len();
        let mut vars = ProblemVariables::new();
        let mut decision: Vec<Vec<Variable>> = Vec::new();
        for _ in 0..m {
            let mut row: Vec<Variable> = Vec::new();
            for item in list.iter() {
                row.push(vars.add(variable().integer().min(0).max(item.quantity as f64)));
            }
            decision.push(row);
        }
        let mut objective = Expression::default();
        for i in 0..m {
            for j in 0..n {
                objective += list[j].value as f64 * decision[i][j];
            }
        }
        let mut model = vars.maximise(objective).using(good_lp::microlp);
        for i in 0..m {
            let room = knapsacks.get(i).room();
            for k in 0..S {
                let mut weight_sum = Expression::default();
                for j in 0..n {
                    weight_sum += list[j].weights[k] as f64 * decision[i][j];
                }
                model = model.with(weight_sum.leq(room[k] as f64));
            }
        }
        for j in 0..n {
            let mut item_sum = Expression::default();
            for i in 0..m {
                item_sum += decision[i][j];
            }
            model = model.with(item_sum.leq(list[j].quantity as f64));
        }
        let solution = model.solve().unwrap();
        for i in 0..m {
            for j in 0..n {
                let assigned = solution.value(decision[i][j]).round();
                knapsacks.get_mut(i).add(Item::<u32, S>::new(
                    list[j].value,
                    list[j].weights,
                    assigned as u32,
                ));
            }
        }
        knapsacks
    }
}

fn items_of<const S: usize>(rows: &[(u64, [u32; S], u32)]) -> ProblemItems<u32, S> {
    let mut items = ProblemItems::<u32, S>::new();
    for (value, weights, quantity) in rows {
        items.add(Item::<u32, S>::new(*value, *weights, *quantity));
    }
    items
}

fn knapsacks_of<const S: usize>(capacities: &[[u32; S]]) -> ProblemKnapsacks<u32, S> {
    let mut knapsacks = ProblemKnapsacks::<u32, S>::new();
    for capacity in capacities {
        knapsacks.add(Knapsack::<u32, S>::new(*capacity));
    }
    knapsacks
}

#[test]
fn highs_random_sample_1() {
    let mut items = items_of(&[(1, [1], 2)]);
    let solution = items.clone().insert_into(knapsacks_of(&[[1]])).using(Milp);
    assert_eq!(solution.value(), 1);
    assert_eq!(solution.get(0).weights(), &[1]);

    let solution_mut = items.insert_mut_into(knapsacks_of(&[[1]])).using(Milp);
    assert_eq!(solution_mut.value(), 1);
    assert_eq!(items.get_index(0).unwrap().quantity, 1);
    assert_eq!(solution_mut.get(0).weights(), &[1]);
}

#[test]
fn highs_random_sample_2() {
    let items = items_of(&[
        (55, [95], 1),
        (10, [4], 1),
        (47, [60], 1),
        (5, [32], 1),
        (4, [23], 1),
        (50, [72], 1),
        (8, [80], 1),
        (61, [62], 1),
        (85, [65], 1),
        (87, [46], 1),
    ]);
    let solution = items.insert_into(knapsacks_of(&[[295]])).using(Milp);
    assert_eq!(solution.value(), 302);
}

#[test]
fn highs_random_sample_3() {
    let items = items_of(&[(2, [1], 1), (3, [2], 1), (1, [1], 1)]);
    let solution = items.insert_into(knapsacks_of(&[[2]])).using(Milp);
    assert_eq!(solution.value(), 3);
}

#[test]
fn highs_random_sample_multi_constraint_1() {
    let mut items = items_of(&[(1, [1, 1], 2)]);
    let solution = items.clone().insert_into(knapsacks_of(&[[1, 1]])).using(Milp);
    assert_eq!(solution.value(), 1);
    assert_eq!(solution.get(0).weights(), &[1, 1]);

    let solution_mut = items.insert_mut_into(knapsacks_of(&[[1, 1]])).using(Milp);
    assert_eq!(solution_mut.value(), 1);
    assert_eq!(items.get_index(0).unwrap().quantity, 1);
    assert_eq!(solution_mut.get(0).weights(), &[1, 1]);
}

#[test]
fn highs_random_sample_multi_constraint_2() {
    let items = items_of(&[
        (55, [95, 34], 1),
        (10, [4, 64], 1),
        (47, [60, 13], 1),
        (5, [32, 35], 1),
        (4, [23, 9], 1),
        (50, [72, 87], 1),
        (8, [80, 35], 1),
        (61, [62, 12], 1),
        (85, [65, 54], 1),
        (87, [46, 92], 1),
    ]);
    let solution = items.insert_into(knapsacks_of(&[[269, 175]])).using(Milp);
    assert_eq!(solution.value(), 280);
}

#[test]
fn highs_random_sample_multi_constraint_3() {
    let items = items_of(&[(2, [2, 2], 70), (5, [5, 2], 70), (10, [10, 2], 70)]);
    let solution = items.insert_into(knapsacks_of(&[[100, 70]])).using(Milp);
    assert_eq!(solution.value(), 100);
}

#[test]
fn random_sample_multi_knapsack_1() {
    let mut items = items_of(&[(1, [1], 3)]);
    let solution = items.clone().insert_into(knapsacks_of(&[[1], [1]])).using(Milp);
    assert_eq!(solution.value(), 2);
    assert_eq!(solution.get(0).weights(), &[1]);
    assert_eq!(solution.get(1).weights(), &[1]);

    let solution_mut = items.insert_mut_into(knapsacks_of(&[[1], [1]])).using(Milp);
    assert_eq!(solution.value(), 2);
    assert_eq!(items.get_index(0).unwrap().quantity, 1);
    assert_eq!(solution_mut.get(0).weights(), &[1]);
    assert_eq!(solution_mut.get(1).weights(), &[1]);
}
