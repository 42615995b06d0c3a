use csp_solver::arc_consistency::ArcConsistencySolver;
use csp_solver::assignment::Assignment;
use csp_solver::backtracking::BacktrackingSolver;
use csp_solver::constraint::{all_different, diff, Constraint, Pred};
use csp_solver::csp::Csp;
use csp_solver::domain::{HashSetDomain, VecDomain};
use csp_solver::forward_checking::ForwardCheckingSolver;
use csp_solver::variable::Variable;

// color encoding for the map coloring problems
const RED: u64 = 0;
const GREEN: u64 = 1;
const BLUE: u64 = 2;

fn create_australia_csp() -> Csp<HashSetDomain> {
    let mut australia = Csp::<HashSetDomain>::new();
    let wa = Variable::new("WA");
    let nt = Variable::new("NT");
    let sa = Variable::new("SA");
    let q = Variable::new("Q");
    let nsw = Variable::new("NSW");
    let v = Variable::new("V");
    let t = Variable::new("T");
    let colors = vec![RED, GREEN, BLUE];
    australia.add_variable(wa.clone(), HashSetDomain::new(colors.clone())).unwrap();
    australia.add_variable(nt.clone(), HashSetDomain::new(colors.clone())).unwrap();
    australia.add_variable(sa.clone(), HashSetDomain::new(colors.clone())).unwrap();
    australia.add_variable(q.clone(), HashSetDomain::new(colors.clone())).unwrap();
    australia.add_variable(nsw.clone(), HashSetDomain::new(colors.clone())).unwrap();
    australia.add_variable(v.clone(), HashSetDomain::new(colors.clone())).unwrap();
    australia.add_variable(t.clone(), HashSetDomain::new(colors.clone())).unwrap();
    australia.add_constraint(diff("WA-NT", wa.clone(), nt.clone())).unwrap();
    australia.add_constraint(diff("WA-SA", wa.clone(), sa.clone())).unwrap();
    australia.add_constraint(diff("NT-SA", nt.clone(), sa.clone())).unwrap();
    australia.add_constraint(diff("NT-Q", nt.clone(), q.clone())).unwrap();
    australia.add_constraint(diff("SA-Q", sa.clone(), q.clone())).unwrap();
    australia.add_constraint(diff("SA-NSW", sa.clone(), nsw.clone())).unwrap();
    australia.add_constraint(diff("SA-V", sa.clone(), v.clone())).unwrap();
    australia.add_constraint(diff("Q-NSW", q.clone(), nsw.clone())).unwrap();
    australia.add_constraint(diff("NSW-V", nsw.clone(), v.clone())).unwrap();
    australia
}

fn create_queens_csp(size: u64) -> Csp<VecDomain> {
    let mut csp = Csp::<VecDomain>::new();
    for col in 0..size {
        let var = Variable::new(&format!("Q{}", col));
        let mut rows = Vec::new();
        for row in 0..size {
            rows.push(row);
        }
        csp.add_variable(var, VecDomain::new(rows)).unwrap();
    }
    for i in 0..size {
        for j in i + 1..size {
            let var_i = Variable::new(&format!("Q{}", i));
            let var_j = Variable::new(&format!("Q{}", j));
            let name = format!("NotSameRow-{}-{}", i, j);
            let d = j - i;
            // rows differ, and neither diagonal attacks: |row_i - row_j| != j - i
            let pred = Pred::Both(
                Box::new(Pred::NotEqual(0, 1)),
                Box::new(Pred::Both(
                    Box::new(Pred::OffsetNotEqual(0, d, 1)),
                    Box::new(Pred::OffsetNotEqual(1, d, 0)),
                )),
            );
            let constraint = Constraint::new(&name, vec![var_i, var_j], pred);
            csp.add_constraint(constraint).unwrap();
        }
    }
    csp
}

fn create_sample_sudoku() -> Csp<VecDomain> {
    let initial_values: Vec<(u64, u64, u64)> =
        vec![(0, 0, 1), (0, 3, 4), (1, 2, 4), (2, 1, 1), (3, 0, 4), (3, 3, 2)];
    create_sudoku_csp(&initial_values)
}

fn create_sudoku_csp(initial_values: &[(u64, u64, u64)]) -> Csp<VecDomain> {
    let mut csp = Csp::<VecDomain>::new();
    for row in 0..4u64 {
        for col in 0..4u64 {
            let var = Variable::new(&format!("C{}{}", row, col));
            let initial = initial_values.iter().find(|(r, c, _)| *r == row && *c == col);
            if let Some((_, _, value)) = initial {
                csp.add_variable(var, VecDomain::new(vec![*value])).unwrap();
            } else {
                csp.add_variable(var, VecDomain::new(vec![1, 2, 3, 4])).unwrap();
            }
        }
    }
    for row in 0..4u64 {
        let mut row_vars = Vec::new();
        for col in 0..4u64 {
            row_vars.push(Variable::new(&format!("C{}{}", row, col)));
        }
        csp.add_constraint(all_different(&format!("Row{}", row), row_vars)).unwrap();
    }
    for col in 0..4u64 {
        let mut col_vars = Vec::new();
        for row in 0..4u64 {
            col_vars.push(Variable::new(&format!("C{}{}", row, col)));
        }
        csp.add_constraint(all_different(&format!("Col{}", col), col_vars)).unwrap();
    }
    for box_row in 0..2u64 {
        for box_col in 0..2u64 {
            let mut box_vars = Vec::new();
            for row in 0..2u64 {
                for col in 0..2u64 {
                    box_vars.push(Variable::new(&format!(
                        "C{}{}",
                        box_row * 2 + row,
                        box_col * 2 + col
                    )));
                }
            }
            csp.add_constraint(all_different(
                &format!("Box{}{}", box_row, box_col),
                box_vars,
            ))
            .unwrap();
        }
    }
    csp
}

#[test]
fn test_all_algorithms_find_solutions() {
    let australia = create_australia_csp();

    assert!(BacktrackingSolver::backtrack_search(&australia).is_some());
    assert!(BacktrackingSolver::mrv_search(&australia).is_some());
    assert!(ForwardCheckingSolver::solve(&australia).is_some());
    assert!(ArcConsistencySolver::solve(&australia).is_some());
}

#[test]
fn test_performance_consistency() {
    let sudoku = create_sample_sudoku();

    // all algorithms should find solutions
    let basic_solution = BacktrackingSolver::backtrack_search(&sudoku);
    let mrv_solution = BacktrackingSolver::mrv_search(&sudoku);
    let fc_solution = ForwardCheckingSolver::solve(&sudoku);

    assert_eq!(basic_solution.is_some(), mrv_solution.is_some());
    assert_eq!(basic_solution.is_some(), fc_solution.is_some());

    if let (Some(basic), Some(mrv)) = (basic_solution, mrv_solution) {
        // should be valid solutions even if assignments differ
        assert!(sudoku.is_solution(&basic));
        assert!(sudoku.is_solution(&mrv));
    }
}

#[test]
fn test_multiple_solutions() {
    let queens_4 = create_queens_csp(4);
    let solutions = BacktrackingSolver::find_all_backtracking(&queens_4);

    // 4-queens should have exactly 2 solutions
    assert_eq!(solutions.len(), 2);

    // all solutions should be valid
    for solution in &solutions {
        assert!(queens_4.is_solution(solution));
    }
}

#[test]
fn test_australia_solution_count() {
    let australia = create_australia_csp();
    let solutions = BacktrackingSolver::find_all_backtracking(&australia);
    // 6 colorings of the mainland, 3 free colors for T
    assert_eq!(solutions.len(), 18);
    for solution in &solutions {
        assert!(australia.is_solution(solution));
    }
    // no two returned assignments agree everywhere
    for i in 0..solutions.len() {
        for j in i + 1..solutions.len() {
            let vars = solutions[i].variables();
            let mut all_equal = true;
            for v in &vars {
                if solutions[i].get(v) != solutions[j].get(v) {
                    all_equal = false;
                }
            }
            assert!(!all_equal);
        }
    }
}

#[test]
fn test_australia_all_heuristic_searches() {
    let australia = create_australia_csp();
    let lcv = BacktrackingSolver::lcv_search(&australia);
    let mrv_lcv = BacktrackingSolver::mrv_lcv_search(&australia);
    assert!(lcv.is_some());
    assert!(mrv_lcv.is_some());
    assert!(australia.is_solution(&lcv.unwrap()));
    assert!(australia.is_solution(&mrv_lcv.unwrap()));
    assert_eq!(BacktrackingSolver::find_all_mrv(&australia).len(), 18);
    assert_eq!(BacktrackingSolver::find_all_lcv(&australia).len(), 18);
    assert_eq!(BacktrackingSolver::find_all_mrv_lcv(&australia).len(), 18);
}

#[test]
fn test_four_queens_exact_solutions() {
    let queens_4 = create_queens_csp(4);
    let solutions = BacktrackingSolver::find_all_backtracking(&queens_4);
    assert_eq!(solutions.len(), 2);
    let expected: Vec<Vec<u64>> = vec![vec![1, 3, 0, 2], vec![2, 0, 3, 1]];
    for rows in &expected {
        let mut found = false;
        for solution in &solutions {
            let mut all_match = true;
            for (col, row) in rows.iter().enumerate() {
                let var = Variable::new(&format!("Q{}", col));
                if solution.get(&var) != Some(*row) {
                    all_match = false;
                }
            }
            if all_match {
                found = true;
            }
        }
        assert!(found);
    }
}

#[test]
fn test_eight_queens() {
    let queens_8 = create_queens_csp(8);
    let first = BacktrackingSolver::backtrack_search(&queens_8).unwrap();
    let expected_first: Vec<u64> = vec![0, 4, 7, 5, 2, 6, 1, 3];
    for (col, row) in expected_first.iter().enumerate() {
        let var = Variable::new(&format!("Q{}", col));
        assert_eq!(first.get(&var), Some(*row));
    }
    let solutions = BacktrackingSolver::find_all_backtracking(&queens_8);
    assert_eq!(solutions.len(), 92);
}

#[test]
fn test_sudoku_all_solvers() {
    // the sample grid pins two fours into the same 2x2 box, so it admits no
    // solution; every solver must agree on that
    let sample = create_sample_sudoku();
    assert!(BacktrackingSolver::backtrack_search(&sample).is_none());
    assert!(BacktrackingSolver::mrv_search(&sample).is_none());
    assert!(ForwardCheckingSolver::solve(&sample).is_none());
    assert!(ArcConsistencySolver::solve(&sample).is_none());

    // a satisfiable grid: every solver returns a complete grid in which every
    // row, column, and box is a permutation of 1..=4 and the pinned cells
    // keep their values
    let fixed: Vec<(u64, u64, u64)> =
        vec![(0, 0, 1), (0, 3, 4), (1, 2, 1), (2, 1, 1), (3, 0, 4), (3, 3, 1)];
    let sudoku = create_sudoku_csp(&fixed);
    let solvers: Vec<Option<Assignment>> = vec![
        BacktrackingSolver::backtrack_search(&sudoku),
        BacktrackingSolver::mrv_search(&sudoku),
        ForwardCheckingSolver::solve(&sudoku),
        ArcConsistencySolver::solve(&sudoku),
    ];
    for result in solvers {
        let solution = result.unwrap();
        assert!(sudoku.is_solution(&solution));
        for (r, c, v) in &fixed {
            assert_eq!(solution.get(&Variable::new(&format!("C{}{}", r, c))), Some(*v));
        }
        // every row, column, and box is a permutation of 1..=4
        for row in 0..4u64 {
            let mut seen = vec![false; 5];
            for col in 0..4u64 {
                let v = solution.get(&Variable::new(&format!("C{}{}", row, col))).unwrap();
                assert!((1..=4).contains(&v));
                assert!(!seen[v as usize]);
                seen[v as usize] = true;
            }
        }
        for col in 0..4u64 {
            let mut seen = vec![false; 5];
            for row in 0..4u64 {
                let v = solution.get(&Variable::new(&format!("C{}{}", row, col))).unwrap();
                assert!(!seen[v as usize]);
                seen[v as usize] = true;
            }
        }
        for box_row in 0..2u64 {
            for box_col in 0..2u64 {
                let mut seen = vec![false; 5];
                for row in 0..2u64 {
                    for col in 0..2u64 {
                        let var =
                            Variable::new(&format!("C{}{}", box_row * 2 + row, box_col * 2 + col));
                        let v = solution.get(&var).unwrap();
                        assert!(!seen[v as usize]);
                        seen[v as usize] = true;
                    }
                }
            }
        }
    }
}

#[test]
fn test_unsolvable_two_coloring() {
    let mut csp = Csp::<HashSetDomain>::new();
    let a = Variable::new("A");
    let b = Variable::new("B");
    let c = Variable::new("C");
    let two_colors = vec![RED, BLUE];
    csp.add_variable(a.clone(), HashSetDomain::new(two_colors.clone())).unwrap();
    csp.add_variable(b.clone(), HashSetDomain::new(two_colors.clone())).unwrap();
    csp.add_variable(c.clone(), HashSetDomain::new(two_colors.clone())).unwrap();
    csp.add_constraint(diff("A-B", a.clone(), b.clone())).unwrap();
    csp.add_constraint(diff("B-C", b.clone(), c.clone())).unwrap();
    csp.add_constraint(diff("A-C", a.clone(), c.clone())).unwrap();
    assert!(BacktrackingSolver::backtrack_search(&csp).is_none());
    assert!(BacktrackingSolver::mrv_search(&csp).is_none());
    assert!(BacktrackingSolver::lcv_search(&csp).is_none());
    assert!(ForwardCheckingSolver::solve(&csp).is_none());
    assert!(ArcConsistencySolver::solve(&csp).is_none());
    assert_eq!(BacktrackingSolver::find_all_backtracking(&csp).len(), 0);
}

#[test]
fn test_empty_problem() {
    let csp = Csp::<VecDomain>::new();
    let solution = BacktrackingSolver::backtrack_search(&csp).unwrap();
    assert_eq!(solution.size(), 0);
    let all = BacktrackingSolver::find_all_backtracking(&csp);
    assert_eq!(all.len(), 1);
    assert_eq!(all[0].size(), 0);
    assert!(ForwardCheckingSolver::solve(&csp).is_some());
    assert!(ArcConsistencySolver::solve(&csp).is_some());
}

#[test]
fn test_empty_domain_means_no_solution() {
    let mut csp = Csp::<VecDomain>::new();
    csp.add_variable(Variable::new("x"), VecDomain::new(vec![1, 2])).unwrap();
    csp.add_variable(Variable::new("y"), VecDomain::new(vec![])).unwrap();
    assert!(BacktrackingSolver::backtrack_search(&csp).is_none());
    assert!(BacktrackingSolver::mrv_search(&csp).is_none());
    assert!(ForwardCheckingSolver::solve(&csp).is_none());
    assert!(ArcConsistencySolver::solve(&csp).is_none());
    assert_eq!(BacktrackingSolver::find_all_backtracking(&csp).len(), 0);
}

#[test]
fn test_no_constraints_cartesian_product() {
    let mut csp = Csp::<VecDomain>::new();
    csp.add_variable(Variable::new("x"), VecDomain::new(vec![1, 2])).unwrap();
    csp.add_variable(Variable::new("y"), VecDomain::new(vec![3, 4, 5])).unwrap();
    let all = BacktrackingSolver::find_all_backtracking(&csp);
    assert_eq!(all.len(), 6);
    for solution in &all {
        assert!(csp.is_solution(solution));
    }
}

#[test]
fn test_limited_solutions_prefix() {
    let australia = create_australia_csp();
    let all = BacktrackingSolver::find_all_solutions(
        &australia,
        csp_solver::utils::first_unassigned,
        csp_solver::utils::domain_order,
    );
    assert_eq!(all.len(), 18);
    // limit 0: empty without searching
    let none = BacktrackingSolver::find_limited_solutions(
        &australia,
        csp_solver::utils::first_unassigned,
        csp_solver::utils::domain_order,
        0,
    );
    assert_eq!(none.len(), 0);
    // a limit below the total gives a prefix of the full enumeration
    let five = BacktrackingSolver::find_limited_solutions(
        &australia,
        csp_solver::utils::first_unassigned,
        csp_solver::utils::domain_order,
        5,
    );
    assert_eq!(five.len(), 5);
    for (limited, full) in five.iter().zip(all.iter()) {
        for v in &limited.variables() {
            assert_eq!(limited.get(v), full.get(v));
        }
        assert_eq!(limited.size(), full.size());
    }
    // a limit above the total returns everything
    let plenty = BacktrackingSolver::find_limited_solutions(
        &australia,
        csp_solver::utils::first_unassigned,
        csp_solver::utils::domain_order,
        100,
    );
    assert_eq!(plenty.len(), 18);
}

#[test]
fn test_find_solution_generic_entry() {
    let queens_4 = create_queens_csp(4);
    let solution = BacktrackingSolver::find_solution(
        &queens_4,
        csp_solver::utils::first_unassigned,
        csp_solver::utils::domain_order,
    );
    assert!(queens_4.is_solution(&solution.unwrap()));
}

#[test]
fn test_round_trip_other_solvers_imply_basic() {
    // any solution found by MRV, LCV, FC, or AC implies basic backtracking
    // also finds some solution on the same problem
    let problems = vec![create_australia_csp()];
    for csp in &problems {
        let mrv = BacktrackingSolver::mrv_search(csp);
        let lcv = BacktrackingSolver::lcv_search(csp);
        let fc = ForwardCheckingSolver::solve(csp);
        let ac = ArcConsistencySolver::solve(csp);
        let basic = BacktrackingSolver::backtrack_search(csp);
        if mrv.is_some() || lcv.is_some() || fc.is_some() || ac.is_some() {
            assert!(basic.is_some());
        }
        for found in [mrv, lcv, fc, ac].into_iter().flatten() {
            assert!(csp.is_solution(&found));
        }
    }
}
