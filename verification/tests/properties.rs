use optimal_smurf::branch_and_bound::{build_next_node, find_optimal_sequence, new_node};
use optimal_smurf::build_problem;
use optimal_smurf::dynamic_programming::{oracle, OracleCache};
use optimal_smurf::{bounding_solve, dynamic_solve, Solution};

fn check_solution(v: &[i64], w: &[i64], k: i64, s: &Solution) {
    assert_eq!(s.contained.len(), v.len());
    let mut value: i64 = 0;
    let mut weight: i64 = 0;
    for i in 0..v.len() {
        if s.contained[i] {
            value += v[i];
            weight += w[i];
        }
    }
    assert_eq!(s.value, value);
    assert!(weight <= k);
}

#[test]
fn solvers_agree_on_small_instances() {
    let cases: Vec<(Vec<i64>, Vec<i64>, i64)> = vec![
        (vec![5, 6, 3], vec![4, 5, 2], 9),
        (vec![1, 1, 2, 3], vec![2, 3, 5, 1], 5),
        (vec![10, 40, 30, 50], vec![5, 4, 6, 3], 10),
        (vec![7, 7, 7], vec![3, 3, 3], 6),
        (vec![2, 2], vec![1, 1], 0),
        (vec![0, 5, 0], vec![1, 2, 3], 4),
    ];
    for (v, w, k) in cases {
        let d = dynamic_solve(build_problem(v.clone(), w.clone(), k));
        let b = bounding_solve(build_problem(v.clone(), w.clone(), k));
        assert_eq!(d.value, b.value);
        check_solution(&v, &w, k, &d);
        check_solution(&v, &w, k, &b);
    }
}

#[test]
fn capacity_monotonicity() {
    let v = vec![4, 9, 2, 7, 5];
    let w = vec![3, 6, 1, 4, 2];
    let mut last_dynamic: i64 = -1;
    let mut last_bounding: i64 = -1;
    for k in 0..=17 {
        let d = dynamic_solve(build_problem(v.clone(), w.clone(), k));
        let b = bounding_solve(build_problem(v.clone(), w.clone(), k));
        assert!(d.value >= last_dynamic);
        assert!(b.value >= last_bounding);
        last_dynamic = d.value;
        last_bounding = b.value;
    }
}

#[test]
fn cache_round_trip_matches_oracle() {
    let v = vec![5, 6, 3, 4];
    let w = vec![4, 5, 2, 3];
    let k = 11;
    let cache = OracleCache::build(k, &w, &v);
    for j in -1..(v.len() as i64) {
        for c in 0..=k {
            assert_eq!(cache.get(c, j), oracle(c, j, &w, &v));
        }
    }
}

#[test]
fn zero_items_yield_empty_solution() {
    let d = dynamic_solve(build_problem(vec![], vec![], 7));
    assert_eq!(d.value, 0);
    assert!(d.contained.is_empty());
    let b = bounding_solve(build_problem(vec![], vec![], 7));
    assert_eq!(b.value, 0);
    assert!(b.contained.is_empty());
}

#[test]
fn zero_capacity_takes_nothing() {
    let v = vec![3, 1, 4];
    let w = vec![2, 1, 3];
    let d = dynamic_solve(build_problem(v.clone(), w.clone(), 0));
    assert_eq!(d.value, 0);
    assert_eq!(d.contained, vec![false, false, false]);
    let b = bounding_solve(build_problem(v, w, 0));
    assert_eq!(b.value, 0);
    assert_eq!(b.contained, vec![false, false, false]);
}

#[test]
fn single_fitting_item_is_taken() {
    let d = dynamic_solve(build_problem(vec![8], vec![3], 5));
    assert_eq!(d.value, 8);
    assert_eq!(d.contained, vec![true]);
    let b = bounding_solve(build_problem(vec![8], vec![3], 5));
    assert_eq!(b.value, 8);
    assert_eq!(b.contained, vec![true]);
}

#[test]
fn four_item_instance_is_solved_exactly() {
    let v = vec![1, 1, 2, 3];
    let w = vec![2, 3, 5, 1];
    let k = 5;
    let d = dynamic_solve(build_problem(v.clone(), w.clone(), k));
    let b = bounding_solve(build_problem(v.clone(), w.clone(), k));
    assert_eq!(d.value, 4);
    assert_eq!(b.value, 4);
    check_solution(&v, &w, k, &d);
    check_solution(&v, &w, k, &b);
}

#[test]
fn bounding_solve_is_deterministic() {
    let v = vec![1, 1, 2, 3];
    let w = vec![2, 3, 5, 1];
    let k = 5;
    let first = bounding_solve(build_problem(v.clone(), w.clone(), k));
    let second = bounding_solve(build_problem(v.clone(), w.clone(), k));
    assert_eq!(first.value, second.value);
    assert_eq!(first.contained, second.contained);
    let third = bounding_solve(build_problem(v, w, k));
    assert_eq!(second.value, third.value);
    assert_eq!(second.contained, third.contained);
}

#[test]
fn equal_ratio_items_keep_original_order() {
    let v = vec![2, 4, 1];
    let w = vec![2, 4, 1];
    let p = build_problem(v, w, 5);
    let s = find_optimal_sequence(&p);
    assert_eq!(s, vec![0, 1, 2]);
}

#[test]
fn next_node_accounts_for_the_decision() {
    let v = vec![1, 1, 2, 3];
    let w = vec![2, 3, 5, 1];
    let p = build_problem(v, w, 5);
    let s = find_optimal_sequence(&p);
    let root = new_node(&p);
    let taken = build_next_node(&root, &s, true, &p).unwrap();
    assert_eq!(taken.value, 3);
    assert_eq!(taken.room, 4);
    assert_eq!(taken.contained, vec![true]);
    assert_eq!(taken.estimate, 4);
    let skipped = build_next_node(&root, &s, false, &p).unwrap();
    assert_eq!(skipped.value, 0);
    assert_eq!(skipped.room, 5);
    assert_eq!(skipped.contained, vec![false]);
    assert_eq!(skipped.estimate, 2);
}
