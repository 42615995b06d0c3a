use csp_solver::assignment::Assignment;
use csp_solver::constraint::diff;
use csp_solver::csp::Csp;
use csp_solver::domain::VecDomain;
use csp_solver::heuristics::{
    degree_heuristic, least_constraining_value, minimum_remaining_values, mrv_degree,
};
use csp_solver::solver::Solver;
use csp_solver::utils::{domain_order, first_unassigned};
use csp_solver::variable::Variable;

fn small_csp() -> Csp<VecDomain> {
    let mut csp = Csp::<VecDomain>::new();
    let x = Variable::new("x");
    let y = Variable::new("y");
    let z = Variable::new("z");
    csp.add_variable(x.clone(), VecDomain::new(vec![1, 2, 3])).unwrap();
    csp.add_variable(y.clone(), VecDomain::new(vec![1, 2])).unwrap();
    csp.add_variable(z.clone(), VecDomain::new(vec![1])).unwrap();
    csp.add_constraint(diff("x!=y", x.clone(), y.clone())).unwrap();
    csp.add_constraint(diff("y!=z", y.clone(), z.clone())).unwrap();
    csp
}

#[test]
fn test_first_unassigned_order() {
    let csp = small_csp();
    let mut a = Assignment::new();
    let first = first_unassigned(&a, &csp).unwrap();
    assert_eq!(first.name, "x");
    a.assign(Variable::new("x"), 1);
    let second = first_unassigned(&a, &csp).unwrap();
    assert_eq!(second.name, "y");
    a.assign(Variable::new("y"), 2);
    a.assign(Variable::new("z"), 1);
    assert!(first_unassigned(&a, &csp).is_none());
}

#[test]
fn test_domain_order_returns_domain_values() {
    let csp = small_csp();
    let a = Assignment::new();
    let x = Variable::new("x");
    let dom = csp.get_domain(&x).unwrap();
    let ordered = domain_order(&x, dom, &a, &csp);
    assert_eq!(ordered, vec![1, 2, 3]);
}

#[test]
fn test_mrv_prefers_fewest_consistent_values() {
    let csp = small_csp();
    let a = Assignment::new();
    // z has a single candidate value, the minimum
    let picked = minimum_remaining_values(&a, &csp).unwrap();
    assert_eq!(picked.name, "z");
    let picked_global = Solver::minimum_remaining_values(&a, &csp).unwrap();
    assert_eq!(picked_global.name, "z");
}

#[test]
fn test_mrv_none_when_all_assigned() {
    let csp = small_csp();
    let mut a = Assignment::new();
    a.assign(Variable::new("x"), 3);
    a.assign(Variable::new("y"), 2);
    a.assign(Variable::new("z"), 1);
    assert!(minimum_remaining_values(&a, &csp).is_none());
    assert!(degree_heuristic(&a, &csp).is_none());
    assert!(mrv_degree(&a, &csp).is_none());
    assert!(Solver::minimum_remaining_values(&a, &csp).is_none());
}

#[test]
fn test_degree_prefers_most_constrained() {
    let csp = small_csp();
    let a = Assignment::new();
    // y participates in two constraints whose scopes are fully unassigned
    let picked = degree_heuristic(&a, &csp).unwrap();
    assert_eq!(picked.name, "y");
}

#[test]
fn test_mrv_degree_combines_both() {
    let csp = small_csp();
    let a = Assignment::new();
    // z alone has the minimal count of consistent values
    let picked = mrv_degree(&a, &csp).unwrap();
    assert_eq!(picked.name, "z");
}

#[test]
fn test_lcv_orders_least_constraining_first() {
    let mut csp = Csp::<VecDomain>::new();
    let x = Variable::new("x");
    let y = Variable::new("y");
    csp.add_variable(x.clone(), VecDomain::new(vec![1, 2])).unwrap();
    csp.add_variable(y.clone(), VecDomain::new(vec![1])).unwrap();
    csp.add_constraint(diff("x!=y", x.clone(), y.clone())).unwrap();
    let a = Assignment::new();
    let dom = csp.get_domain(&x).unwrap();
    // choosing x = 1 wipes y's only value; x = 2 rules nothing out
    let ordered = least_constraining_value(&x, dom, &a, &csp);
    assert_eq!(ordered, vec![2, 1]);
    let lcv_alias = Solver::least_constraining_value(&x, dom, &a, &csp);
    assert_eq!(lcv_alias, vec![2, 1]);
}

#[test]
fn test_lcv_is_stable_for_equal_scores() {
    let mut csp = Csp::<VecDomain>::new();
    let x = Variable::new("x");
    csp.add_variable(x.clone(), VecDomain::new(vec![3, 1, 2])).unwrap();
    let a = Assignment::new();
    let dom = csp.get_domain(&x).unwrap();
    // no constraints: all scores equal, the domain order is kept
    let ordered = least_constraining_value(&x, dom, &a, &csp);
    assert_eq!(ordered, vec![3, 1, 2]);
}

#[test]
fn test_mrv_tie_break_registration_order() {
    let mut csp = Csp::<VecDomain>::new();
    csp.add_variable(Variable::new("a"), VecDomain::new(vec![1, 2])).unwrap();
    csp.add_variable(Variable::new("b"), VecDomain::new(vec![1, 2])).unwrap();
    let a = Assignment::new();
    // equal counts: the first registered variable wins
    assert_eq!(minimum_remaining_values(&a, &csp).unwrap().name, "a");
    assert_eq!(Solver::minimum_remaining_values(&a, &csp).unwrap().name, "a");
}

#[test]
fn test_degree_tie_break_keeps_last() {
    let mut csp = Csp::<VecDomain>::new();
    csp.add_variable(Variable::new("a"), VecDomain::new(vec![1, 2])).unwrap();
    csp.add_variable(Variable::new("b"), VecDomain::new(vec![1, 2])).unwrap();
    let a = Assignment::new();
    // no constraints: all degree scores are zero, the last registered wins
    assert_eq!(degree_heuristic(&a, &csp).unwrap().name, "b");
}

#[test]
fn test_mrv_degree_tie_break_keeps_first() {
    let mut csp = Csp::<VecDomain>::new();
    let a_var = Variable::new("a");
    let b_var = Variable::new("b");
    csp.add_variable(a_var.clone(), VecDomain::new(vec![1, 2])).unwrap();
    csp.add_variable(b_var.clone(), VecDomain::new(vec![1, 2])).unwrap();
    csp.add_constraint(diff("a!=b", a_var, b_var)).unwrap();
    let a = Assignment::new();
    // equal counts and equal degrees: the first registered variable wins
    assert_eq!(mrv_degree(&a, &csp).unwrap().name, "a");
}

#[test]
fn test_solver_front_end_searches() {
    let csp = small_csp();
    let basic = Solver::backtrack_search(&csp).unwrap();
    assert!(csp.is_solution(&basic));
    let mrv = Solver::mrv_search(&csp).unwrap();
    assert!(csp.is_solution(&mrv));
    let lcv = Solver::lcv_search(&csp).unwrap();
    assert!(csp.is_solution(&lcv));
    let mrv_lcv = Solver::mrv_lcv_search(&csp).unwrap();
    assert!(csp.is_solution(&mrv_lcv));
    let generic = Solver::solve(&csp, Solver::first_unassigned, Solver::domain_order).unwrap();
    assert!(csp.is_solution(&generic));
    // y != z forces y = 2 and z = 1, leaving x either 1 or 3
    assert_eq!(generic.get(&Variable::new("z")), Some(1));
    assert_eq!(generic.get(&Variable::new("y")), Some(2));
    let x_val = generic.get(&Variable::new("x")).unwrap();
    assert!(x_val == 1 || x_val == 3);
    assert_ne!(x_val, 2);
}

#[test]
fn test_solver_with_degree_selection() {
    let csp = small_csp();
    let found = Solver::solve(&csp, degree_heuristic, domain_order).unwrap();
    assert!(csp.is_solution(&found));
    let found2 = Solver::solve(&csp, mrv_degree, domain_order).unwrap();
    assert!(csp.is_solution(&found2));
}
