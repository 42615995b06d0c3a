use csp_solver::assignment::Assignment;
use csp_solver::constraint::{all_different, diff, same, sum, Constraint, Pred};
use csp_solver::csp::{Csp, CspError};
use csp_solver::domain::{
    btree_set_domain, hash_set_domain, sorted_vec_domain, vec_domain, BTreeSetDomain, Domain,
    HashSetDomain, SortedVecDomain, VecDomain,
};
use csp_solver::variable::Variable;

#[test]
fn test_variable_identity() {
    let a = Variable::new("X");
    let b = Variable::new("X");
    let c = Variable::new("Y");
    assert!(a.same_variable(&b));
    assert!(!a.same_variable(&c));
    assert_eq!(a.name, "X");
    let d = a.clone();
    assert!(d.same_variable(&a));
}

#[test]
fn test_assignment_basic_operations() {
    let mut a = Assignment::new();
    let x = Variable::new("x");
    let y = Variable::new("y");
    assert_eq!(a.size(), 0);
    assert!(a.is_complete(0));
    assert!(!a.is_assigned(&x));
    a.assign(x.clone(), 5);
    assert!(a.is_assigned(&x));
    assert_eq!(a.get(&x), Some(5));
    assert_eq!(a.get(&y), None);
    assert_eq!(a.size(), 1);
    a.assign(x.clone(), 7);
    assert_eq!(a.get(&x), Some(7));
    assert_eq!(a.size(), 1);
    a.assign(y.clone(), 9);
    assert_eq!(a.size(), 2);
    assert!(a.is_complete(2));
    a.unassign(&x);
    assert!(!a.is_assigned(&x));
    assert_eq!(a.size(), 1);
    a.unassign(&x);
    assert_eq!(a.size(), 1);
}

#[test]
fn test_assignment_views_and_copies() {
    let mut a = Assignment::new();
    a.assign(Variable::new("p"), 1);
    a.assign(Variable::new("q"), 2);
    let vars = a.variables();
    assert_eq!(vars.len(), 2);
    let pairs = a.iter();
    assert_eq!(pairs.len(), 2);
    for (v, val) in &pairs {
        assert_eq!(a.get(v), Some(*val));
    }
    let copy = a.get_assignments();
    assert_eq!(copy.len(), 2);
    let dup = a.duplicate();
    assert_eq!(dup.size(), 2);
    assert_eq!(dup.get(&Variable::new("p")), Some(1));
    assert_eq!(dup.get(&Variable::new("q")), Some(2));
}

#[test]
fn test_constraint_unassigned_is_not_violated() {
    let x = Variable::new("x");
    let y = Variable::new("y");
    let c = diff("x-y", x.clone(), y.clone());
    let mut a = Assignment::new();
    // nothing assigned: not yet violated
    assert!(c.is_satisfied(&a));
    a.assign(x.clone(), 1);
    // one scope variable unassigned: still not violated
    assert!(c.is_satisfied(&a));
    a.assign(y.clone(), 1);
    assert!(!c.is_satisfied(&a));
    a.assign(y.clone(), 2);
    assert!(c.is_satisfied(&a));
}

#[test]
fn test_constraint_same_and_sum() {
    let x = Variable::new("x");
    let y = Variable::new("y");
    let z = Variable::new("z");
    let c_same = same("x=y", x.clone(), y.clone());
    let c_sum = sum("x+y+z=6", vec![x.clone(), y.clone(), z.clone()], 6);
    let mut a = Assignment::new();
    a.assign(x.clone(), 3);
    a.assign(y.clone(), 3);
    assert!(c_same.is_satisfied(&a));
    // sum judges only once the whole scope is assigned
    assert!(c_sum.is_satisfied(&a));
    a.assign(z.clone(), 0);
    assert!(c_sum.is_satisfied(&a));
    a.assign(z.clone(), 1);
    assert!(!c_sum.is_satisfied(&a));
    a.assign(y.clone(), 4);
    assert!(!c_same.is_satisfied(&a));
}

#[test]
fn test_constraint_all_different() {
    let vars = vec![Variable::new("a"), Variable::new("b"), Variable::new("c")];
    let c = all_different("abc", vars.clone());
    assert_eq!(c.name(), "abc");
    assert_eq!(c.variables().len(), 3);
    let mut a = Assignment::new();
    a.assign(vars[0].clone(), 1);
    a.assign(vars[1].clone(), 2);
    assert!(c.is_satisfied(&a));
    a.assign(vars[2].clone(), 1);
    assert!(!c.is_satisfied(&a));
    a.assign(vars[2].clone(), 3);
    assert!(c.is_satisfied(&a));
    assert!(c.involves(&Variable::new("a")));
    assert!(!c.involves(&Variable::new("d")));
    let copy = c.duplicate();
    assert!(copy.is_satisfied(&a));
}

#[test]
fn test_assignment_is_consistent() {
    let x = Variable::new("x");
    let y = Variable::new("y");
    let constraints = vec![
        diff("x!=y", x.clone(), y.clone()),
        sum("x+y=3", vec![x.clone(), y.clone()], 3),
    ];
    let mut a = Assignment::new();
    a.assign(x.clone(), 1);
    a.assign(y.clone(), 2);
    assert!(a.is_consistent(&constraints));
    a.assign(y.clone(), 1);
    assert!(!a.is_consistent(&constraints));
}

fn check_domain_contract<D: Domain>(d: &D) {
    // membership agrees with the value listing
    let values = d.values();
    assert_eq!(d.size(), values.len());
    assert_eq!(d.is_empty(), values.is_empty());
    for v in &values {
        assert!(d.contains(*v));
    }
    // no duplicates in the listing
    for i in 0..values.len() {
        for j in i + 1..values.len() {
            assert_ne!(values[i], values[j]);
        }
    }
}

fn check_remove_purity<D: Domain>(d: &D, victim: u64) {
    let before = d.values();
    let removed = d.remove(victim);
    // the receiver is untouched
    assert_eq!(d.values(), before);
    // the result holds exactly the other values
    assert!(!removed.contains(victim));
    assert!(removed.size() <= d.size());
    for v in &before {
        assert_eq!(removed.contains(*v), *v != victim);
    }
    check_domain_contract(&removed);
}

fn check_restrict_purity<D: Domain>(d: &D, keep: Vec<u64>) {
    let before = d.values();
    let restricted = d.restrict_to(&keep);
    assert_eq!(d.values(), before);
    assert!(restricted.size() <= d.size());
    for v in &before {
        assert_eq!(restricted.contains(*v), keep.contains(v));
    }
    for v in restricted.values() {
        assert!(d.contains(v) && keep.contains(&v));
    }
    check_domain_contract(&restricted);
}

#[test]
fn test_hash_set_domain() {
    let d = HashSetDomain::new(vec![3, 1, 4, 1, 5]);
    assert_eq!(d.size(), 4);
    assert!(d.contains(4));
    assert!(!d.contains(2));
    check_domain_contract(&d);
    check_remove_purity(&d, 4);
    check_remove_purity(&d, 9);
    check_restrict_purity(&d, vec![1, 5, 7]);
    let r = HashSetDomain::from_range(2, 5);
    assert_eq!(r.size(), 4);
    assert!(r.contains(2) && r.contains(5) && !r.contains(6));
}

#[test]
fn test_btree_set_domain() {
    let d = BTreeSetDomain::new(vec![9, 2, 7, 2]);
    assert_eq!(d.size(), 3);
    assert_eq!(d.values(), vec![2, 7, 9]);
    check_domain_contract(&d);
    check_remove_purity(&d, 7);
    check_restrict_purity(&d, vec![2, 9]);
    let r = BTreeSetDomain::from_range(1, 1);
    assert_eq!(r.values(), vec![1]);
}

#[test]
fn test_vec_domain() {
    let d = VecDomain::new(vec![5, 3, 8, 3]);
    // insertion order kept, duplicates dropped
    assert_eq!(d.values(), vec![5, 3, 8]);
    check_domain_contract(&d);
    check_remove_purity(&d, 3);
    check_restrict_purity(&d, vec![8, 5]);
    let r = VecDomain::from_range(4, 2);
    assert!(r.is_empty());
}

#[test]
fn test_sorted_vec_domain() {
    let d = SortedVecDomain::new(vec![6, 1, 6, 4]);
    assert_eq!(d.values(), vec![1, 4, 6]);
    assert!(d.contains(4));
    assert!(!d.contains(5));
    check_domain_contract(&d);
    check_remove_purity(&d, 1);
    check_restrict_purity(&d, vec![4]);
    let r = SortedVecDomain::from_range(0, 3);
    assert_eq!(r.values(), vec![0, 1, 2, 3]);
}

#[test]
fn test_from_range_upper_edge() {
    let d = SortedVecDomain::from_range(u64::MAX - 2, u64::MAX);
    assert_eq!(d.values(), vec![u64::MAX - 2, u64::MAX - 1, u64::MAX]);
    let h = HashSetDomain::from_range(u64::MAX, u64::MAX);
    assert_eq!(h.values(), vec![u64::MAX]);
}

#[test]
fn test_domain_factories() {
    assert_eq!(hash_set_domain(vec![1, 2, 2]).size(), 2);
    assert_eq!(btree_set_domain(vec![2, 1]).values(), vec![1, 2]);
    assert_eq!(vec_domain(vec![2, 1]).values(), vec![2, 1]);
    assert_eq!(sorted_vec_domain(vec![2, 1]).values(), vec![1, 2]);
}

#[test]
fn test_csp_construction_and_queries() {
    let mut csp = Csp::<VecDomain>::new();
    assert_eq!(csp.num_variables(), 0);
    assert_eq!(csp.num_constraints(), 0);
    let x = Variable::new("x");
    let y = Variable::new("y");
    csp.add_variable(x.clone(), VecDomain::new(vec![1, 2])).unwrap();
    csp.add_variable(y.clone(), VecDomain::new(vec![1, 2, 3])).unwrap();
    assert_eq!(csp.num_variables(), 2);
    assert_eq!(csp.get_domain(&x).unwrap().size(), 2);
    assert_eq!(csp.get_domain(&y).unwrap().size(), 3);
    assert!(csp.get_domain(&Variable::new("z")).is_none());
    let vars = csp.get_variables();
    assert_eq!(vars.len(), 2);
    assert_eq!(vars[0].name, "x");
    assert_eq!(vars[1].name, "y");
    csp.add_constraint(diff("x!=y", x.clone(), y.clone())).unwrap();
    assert_eq!(csp.num_constraints(), 1);
    assert_eq!(csp.get_constraints().len(), 1);
    assert_eq!(csp.get_constraints_for_variable(&x).len(), 1);
    assert_eq!(csp.get_constraints_for_variable(&Variable::new("z")).len(), 0);
}

#[test]
fn test_csp_duplicate_variable_error() {
    let mut csp = Csp::<VecDomain>::new();
    let x = Variable::new("x");
    csp.add_variable(x.clone(), VecDomain::new(vec![1])).unwrap();
    let err = csp.add_variable(Variable::new("x"), VecDomain::new(vec![2]));
    assert!(matches!(err, Err(CspError::DuplicateVariable(_))));
    assert_eq!(csp.num_variables(), 1);
    // the state is unchanged: the original domain is kept
    assert!(csp.get_domain(&x).unwrap().contains(1));
    assert!(!csp.get_domain(&x).unwrap().contains(2));
}

#[test]
fn test_csp_unknown_variable_error() {
    let mut csp = Csp::<VecDomain>::new();
    csp.add_variable(Variable::new("x"), VecDomain::new(vec![1])).unwrap();
    let err = csp.add_constraint(diff(
        "x!=z",
        Variable::new("x"),
        Variable::new("z"),
    ));
    assert!(matches!(err, Err(CspError::UnknownVariable(_))));
    assert_eq!(csp.num_constraints(), 0);
    let msg_len = match err {
        Err(e) => e.message().len(),
        Ok(()) => 0,
    };
    assert!(msg_len > 0);
}

#[test]
fn test_csp_invalid_predicate_error() {
    let mut csp = Csp::<VecDomain>::new();
    let x = Variable::new("x");
    csp.add_variable(x.clone(), VecDomain::new(vec![1])).unwrap();
    // the predicate mentions position 1 but the scope has a single variable
    let bad = Constraint::new("bad", vec![x.clone()], Pred::Equal(0, 1));
    let err = csp.add_constraint(bad);
    assert!(matches!(err, Err(CspError::InvalidPredicate(_))));
    assert_eq!(csp.num_constraints(), 0);
}

#[test]
fn test_csp_is_consistent_and_is_solution() {
    let mut csp = Csp::<VecDomain>::new();
    let x = Variable::new("x");
    let y = Variable::new("y");
    csp.add_variable(x.clone(), VecDomain::new(vec![1, 2])).unwrap();
    csp.add_variable(y.clone(), VecDomain::new(vec![1, 2])).unwrap();
    csp.add_constraint(diff("x!=y", x.clone(), y.clone())).unwrap();
    let mut a = Assignment::new();
    assert!(csp.is_consistent(&a));
    assert!(!csp.is_solution(&a));
    a.assign(x.clone(), 1);
    assert!(csp.is_consistent(&a));
    assert!(!csp.is_solution(&a));
    a.assign(y.clone(), 1);
    assert!(!csp.is_consistent(&a));
    assert!(!csp.is_solution(&a));
    a.assign(y.clone(), 2);
    assert!(csp.is_consistent(&a));
    assert!(csp.is_solution(&a));
}
