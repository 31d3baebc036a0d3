use std::collections::HashSet;

use set_cover::solver::{Solver, SolverInput};

fn as_set(values: &Vec<u32>) -> HashSet<u32> {
    values.iter().cloned().collect()
}

#[test]
fn test_basic_functionality() {
    let mut input = SolverInput::new(Vec::new());
    input.add_solution(1, vec![1, 2, 3]);
    input.add_solution(2, vec![2, 4]);
    input.add_solution(3, vec![3, 5]);

    let problems: Vec<u32> = vec![1, 2, 3, 4, 5];

    let solver = Solver::GreedySolver(input);
    let result = solver.solve(problems);

    let expected_best_solutions: HashSet<u32> = vec![1, 2, 3].into_iter().collect();
    let expected_unsolved_problems: HashSet<u32> = HashSet::new();

    assert_eq!(
        as_set(result.get_best_solutions()),
        expected_best_solutions,
        "Unexpected best solutions"
    );
    assert_eq!(
        as_set(result.get_unsolved_problems()),
        expected_unsolved_problems,
        "Unexpected unsolved problems"
    );
}

#[test]
fn test_empty_input() {
    let input = SolverInput::new(Vec::new());
    let problems: Vec<u32> = Vec::new();

    let solver = Solver::GreedySolver(input);
    let result = solver.solve(problems);

    let expected_best_solutions: HashSet<u32> = HashSet::new();
    let expected_unsolved_problems: HashSet<u32> = HashSet::new();

    assert_eq!(
        as_set(result.get_best_solutions()),
        expected_best_solutions,
        "Unexpected best solutions for empty input"
    );
    assert_eq!(
        as_set(result.get_unsolved_problems()),
        expected_unsolved_problems,
        "Unexpected unsolved problems for empty input"
    );
}

#[test]
fn test_single_set_covers_all() {
    let mut input = SolverInput::new(Vec::new());
    input.add_solution(1, vec![1, 2, 3]);

    let problems: Vec<u32> = vec![1, 2, 3];

    let solver = Solver::GreedySolver(input);
    let result = solver.solve(problems);

    let expected_best_solutions: HashSet<u32> = vec![1].into_iter().collect();
    let expected_unsolved_problems: HashSet<u32> = HashSet::new();

    assert_eq!(
        as_set(result.get_best_solutions()),
        expected_best_solutions,
        "Unexpected best solutions when a single set covers all"
    );
    assert_eq!(
        as_set(result.get_unsolved_problems()),
        expected_unsolved_problems,
        "Unexpected unsolved problems when a single set covers all"
    );
}

#[test]
fn test_no_solution_found() {
    let input = SolverInput::new(Vec::new());
    let problems: Vec<u32> = vec![1, 2, 3];

    let solver = Solver::GreedySolver(input);
    let result = solver.solve(problems);

    let expected_best_solutions: HashSet<u32> = HashSet::new();
    let expected_unsolved_problems: HashSet<u32> = vec![1, 2, 3].into_iter().collect();

    assert_eq!(
        as_set(result.get_best_solutions()),
        expected_best_solutions,
        "Unexpected best solutions when no solution found"
    );
    assert_eq!(
        as_set(result.get_unsolved_problems()),
        expected_unsolved_problems,
        "Unexpected unsolved problems when no solution found"
    );
}

#[test]
fn test_partial_failure() {
    let mut input = SolverInput::new(Vec::new());
    input.add_solution(1, vec![10, 20, 30]);

    let solver = Solver::GreedySolver(input);
    let result = solver.solve(vec![40]);

    let expected_best_solutions: HashSet<u32> = HashSet::new();
    let expected_unsolved_problems: HashSet<u32> = vec![40].into_iter().collect();

    assert_eq!(as_set(result.get_best_solutions()), expected_best_solutions);
    assert_eq!(
        as_set(result.get_unsolved_problems()),
        expected_unsolved_problems
    );
}

#[test]
fn test_solve_twice_same_result() {
    let mut input = SolverInput::new(Vec::new());
    input.add_solution(1, vec![1, 2, 3]);
    input.add_solution(2, vec![2, 4]);
    input.add_solution(3, vec![3, 5]);

    let solver = Solver::GreedySolver(input);
    let first = solver.solve(vec![1, 2, 3, 4, 5]);
    let second = solver.solve(vec![1, 2, 3, 4, 5]);

    assert_eq!(first.get_best_solutions(), second.get_best_solutions());
    assert_eq!(
        first.get_unsolved_problems(),
        second.get_unsolved_problems()
    );
}

#[test]
fn test_new_replaces_duplicate_solution() {
    let input = SolverInput::new(vec![(1, vec![1]), (1, vec![2])]);

    let solver = Solver::GreedySolver(input);
    let result = solver.solve(vec![1, 2]);

    let expected_best_solutions: HashSet<u32> = vec![1].into_iter().collect();
    let expected_unsolved_problems: HashSet<u32> = vec![1].into_iter().collect();

    assert_eq!(as_set(result.get_best_solutions()), expected_best_solutions);
    assert_eq!(
        as_set(result.get_unsolved_problems()),
        expected_unsolved_problems
    );
}

#[test]
fn test_add_solution_replaces_existing_entry() {
    let mut input = SolverInput::new(Vec::new());
    input.add_solution(1, vec![1, 2]);
    input.add_solution(1, vec![3]);

    let solver = Solver::GreedySolver(input);
    let result = solver.solve(vec![1, 2, 3]);

    let expected_best_solutions: HashSet<u32> = vec![1].into_iter().collect();
    let expected_unsolved_problems: HashSet<u32> = vec![1, 2].into_iter().collect();

    assert_eq!(as_set(result.get_best_solutions()), expected_best_solutions);
    assert_eq!(
        as_set(result.get_unsolved_problems()),
        expected_unsolved_problems
    );
}

#[test]
fn test_duplicate_targets_count_once() {
    let mut input = SolverInput::new(Vec::new());
    input.add_solution(1, vec![1, 2]);

    let solver = Solver::GreedySolver(input);
    let result = solver.solve(vec![1, 1, 2, 2]);

    let expected_best_solutions: HashSet<u32> = vec![1].into_iter().collect();
    let expected_unsolved_problems: HashSet<u32> = HashSet::new();

    assert_eq!(as_set(result.get_best_solutions()), expected_best_solutions);
    assert_eq!(
        as_set(result.get_unsolved_problems()),
        expected_unsolved_problems
    );
}

#[test]
fn test_tie_broken_by_first_entry() {
    let mut input = SolverInput::new(Vec::new());
    input.add_solution(5, vec![1, 2]);
    input.add_solution(7, vec![1, 2]);

    let solver = Solver::GreedySolver(input);
    let result = solver.solve(vec![1, 2]);

    let expected_best_solutions: HashSet<u32> = vec![5].into_iter().collect();
    let expected_unsolved_problems: HashSet<u32> = HashSet::new();

    assert_eq!(as_set(result.get_best_solutions()), expected_best_solutions);
    assert_eq!(
        as_set(result.get_unsolved_problems()),
        expected_unsolved_problems
    );
}

#[test]
fn test_default_is_empty_catalog() {
    let input = SolverInput::default();

    let solver = Solver::GreedySolver(input);
    let result = solver.solve(vec![9]);

    let expected_best_solutions: HashSet<u32> = HashSet::new();
    let expected_unsolved_problems: HashSet<u32> = vec![9].into_iter().collect();

    assert_eq!(as_set(result.get_best_solutions()), expected_best_solutions);
    assert_eq!(
        as_set(result.get_unsolved_problems()),
        expected_unsolved_problems
    );
}
