use optimal_smurf::branch_and_bound::{estimate, find_optimal_sequence, new_node};
use optimal_smurf::build_problem;
use optimal_smurf::dynamic_programming::oracle;
use optimal_smurf::{bounding_solve, dynamic_solve, Problem};

fn sample_problem() -> Problem {
    let v = vec![1, 1, 2, 3];
    let w = vec![2, 3, 5, 1];
    let k = 5;
    build_problem(v, w, k)
}

#[test]
fn test_oracle() {
    let v = vec![5, 6, 3];
    let w = vec![4, 5, 2];
    assert_eq!(oracle(0, -1, &w, &v), 0);
    assert_eq!(oracle(9, -1, &w, &v), 0);
    assert_eq!(oracle(3, 0, &w, &v), 0);
    assert_eq!(oracle(4, 0, &w, &v), 5);
    assert_eq!(oracle(9, 0, &w, &v), 5);
    assert_eq!(oracle(3, 1, &w, &v), 0);
    assert_eq!(oracle(4, 1, &w, &v), 5);
    assert_eq!(oracle(5, 1, &w, &v), 6);
    assert_eq!(oracle(9, 1, &w, &v), 11);
    assert_eq!(oracle(3, 2, &w, &v), 3);
    assert_eq!(oracle(8, 2, &w, &v), 9);
}

#[test]
fn test_dynamic_solve() {
    let v = vec![5, 6, 3];
    let w = vec![4, 5, 2];
    let k = 9;
    let problem = build_problem(v, w, k);
    let solved = dynamic_solve(problem);
    assert_eq!(solved.contained, vec![true, true, false]);
    assert_eq!(solved.value, 11);
}

#[test]
fn test_find_optimal_sequence() {
    let p = sample_problem();
    let s = find_optimal_sequence(&p);
    assert_eq!(s, vec![3, 0, 2, 1]);
}

#[test]
fn test_estimate_equal() {
    let v = vec![1, 1, 2, 3];
    let w = vec![2, 3, 5, 1];
    let p = build_problem(v, w, 1);
    let s = find_optimal_sequence(&p);
    let n = new_node(&p);
    let e = estimate(&n, &s, &p);
    assert_eq!(e, 3);
}

#[test]
fn test_estimate_approx() {
    let v = vec![1, 1, 2, 3];
    let w = vec![2, 3, 5, 1];
    let p = build_problem(v, w, 2);
    let s = find_optimal_sequence(&p);
    let n = new_node(&p);
    let e = estimate(&n, &s, &p);
    assert_eq!(e, 3);
}

#[test]
fn test_bounding_solve() {
    let v = vec![5, 6, 3];
    let w = vec![4, 5, 2];
    let k = 9;
    let problem = build_problem(v, w, k);
    let solved = bounding_solve(problem);
    assert_eq!(solved.contained, vec![true, true, false]);
    assert_eq!(solved.value, 11);
}

#[test]
fn test_build_problem() {
    let v = vec![1, 2, 3];
    let w = vec![3, 5, 1];
    let k = 42;
    let p = build_problem(v.clone(), w.clone(), k.clone());
    assert_eq!(p.v, v);
    assert_eq!(p.w, w);
    assert_eq!(p.k, k);
}
