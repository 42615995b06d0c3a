use vstd::prelude::*;
use crate::assignment::Assignment;
use crate::backtracking::BacktrackingSolver;
use crate::backtracking::select_post;
use crate::csp::Csp;
use crate::domain::Domain;
use crate::variable::Variable;

verus! {

/// A single-solution solver front end over the backtracking engine, bundling
/// the standard heuristics as associated functions.
pub struct Solver;

impl Solver {
    /// Generic backtracking search for one solution, parameterized by a
    /// variable-selection and a value-ordering strategy.
    pub fn solve<D: Domain, VS, VO>(
        csp: &Csp<D>,
        select_variable: VS,
        order_values: VO,
    ) -> (r: Option<Assignment>) where
        VS: Fn(&Assignment, &Csp<D>) -> Option<Variable> + Copy,
        VO: Fn(&Variable, &D, &Assignment, &Csp<D>) -> Vec<u64> + Copy,

        requires
            csp.wf(),
            crate::backtracking::select_fn_ok(select_variable, csp),
            crate::backtracking::order_fn_ok(order_values, csp),
        ensures
            match r {
                Some(a) => a.wf() && csp.full_solution(a@),
                None => forall|m: Map<Seq<char>, u64>| !csp.full_solution(m),
            },
    {
        BacktrackingSolver::find_solution(csp, select_variable, order_values)
    }

    /// Standard variable selection: the first unassigned variable.
    pub fn first_unassigned<D: Domain>(assignment: &Assignment, csp: &Csp<D>) -> (r: Option<
        Variable,
    >)
        requires
            csp.wf(),
            assignment.wf(),
        ensures
            select_post(csp, assignment@, r),
    {
        crate::utils::first_unassigned(assignment, csp)
    }

    /// MRV variable selection, counting the values that keep the whole
    /// problem consistent; the returned variable has a minimal count, ties
    /// broken by registration order.
    #[verifier::loop_isolation(false)]
    pub fn minimum_remaining_values<D: Domain>(assignment: &Assignment, csp: &Csp<D>) -> (r: Option<
        Variable,
    >)
        requires
            csp.wf(),
            assignment.wf(),
        ensures
            select_post(csp, assignment@, r),
            r matches Some(v) ==> crate::heuristics::minimizes_global_score(csp, assignment@, v@)
                && crate::heuristics::first_minimal_global(csp, assignment@, v@),
    {
        let vars = csp.get_variables();
        let mut best: Option<Variable> = None;
        let mut best_count: usize = usize::MAX;
        let ghost mut best_i: int = 0;
        let mut i: usize = 0;
        while i < vars.len()
            invariant
                vars@.len() == csp.names().len(),
                forall|j: int| 0 <= j < vars@.len() ==> (#[trigger] vars@[j])@ == csp.names()[j],
                i <= vars@.len(),
                match best {
                    Some(v) => csp.registered(v@) && !assignment@.contains_key(v@) && 0 <= best_i
                        < i && csp.names()[best_i] == v@ && best_count
                        == crate::heuristics::mrv_global_score(csp, assignment@, v@) && (forall|
                        j: int,
                    |
                        0 <= j < i && !assignment@.contains_key(#[trigger] csp.names()[j])
                            ==> best_count <= crate::heuristics::mrv_global_score(
                            csp,
                            assignment@,
                            csp.names()[j],
                        )) && (forall|j: int|
                        0 <= j < best_i && !assignment@.contains_key(#[trigger] csp.names()[j])
                            ==> best_count < crate::heuristics::mrv_global_score(
                            csp,
                            assignment@,
                            csp.names()[j],
                        )),
                    None => forall|j: int|
                        0 <= j < i ==> assignment@.contains_key(#[trigger] csp.names()[j]),
                },
            decreases vars@.len() - i,
        {
            let var = &vars[i];
            proof {
                assert(csp.names()[i as int] == var@);
            }
            if !assignment.is_assigned(var) {
                let count = crate::heuristics::count_global_supported(var, assignment, csp);
                let replace = match &best {
                    None => true,
                    Some(_) => count < best_count,
                };
                if replace {
                    best = Some(var.clone());
                    best_count = count;
                    proof {
                        best_i = i as int;
                    }
                }
            }
            i += 1;
        }
        proof {
            if best is None {
                assert forall|k: Seq<char>| csp.registered(k) implies assignment@.contains_key(
                    k,
                ) by {
                    let j = choose|j: int| 0 <= j < csp.names().len() && csp.names()[j] == k;
                    assert(assignment@.contains_key(csp.names()[j]));
                }
            } else {
                let v = best.unwrap();
                csp.lemma_idx_of(v@);
                assert(csp.idx_of(v@) == best_i);
                assert forall|k: Seq<char>|
                    csp.registered(k) && !assignment@.contains_key(k) implies
                crate::heuristics::mrv_global_score(csp, assignment@, v@)
                    <= crate::heuristics::mrv_global_score(csp, assignment@, k) by {
                    let j = choose|j: int| 0 <= j < csp.names().len() && csp.names()[j] == k;
                    assert(best_count <= crate::heuristics::mrv_global_score(
                        csp,
                        assignment@,
                        csp.names()[j],
                    ));
                }
            }
        }
        best
    }

    /// Standard value ordering: domain order.
    pub fn domain_order<D: Domain>(
        var: &Variable,
        domain: &D,
        assignment: &Assignment,
        csp: &Csp<D>,
    ) -> (r: Vec<u64>)
        requires
            domain.inv(),
        ensures
            r@ == domain.vals(),
            r@.no_duplicates(),
    {
        crate::utils::domain_order(var, domain, assignment, csp)
    }

    /// LCV value ordering.
    pub fn least_constraining_value<D: Domain>(
        var: &Variable,
        domain: &D,
        assignment: &Assignment,
        csp: &Csp<D>,
    ) -> (r: Vec<u64>)
        requires
            csp.wf(),
            assignment.wf(),
            domain.inv(),
        ensures
            r@.no_duplicates(),
            forall|x: u64| r@.contains(x) <==> domain.vals().contains(x),
            forall|p: int, q: int|
                0 <= p < q < r@.len() ==> crate::heuristics::lcv_score_spec(
                    csp,
                    assignment@,
                    var@,
                    #[trigger] r@[p],
                ) <= crate::heuristics::lcv_score_spec(csp, assignment@, var@, #[trigger] r@[q]),
            forall|p: int, q: int|
                0 <= p < q < r@.len() && crate::heuristics::lcv_score_spec(
                    csp,
                    assignment@,
                    var@,
                    #[trigger] r@[p],
                ) == crate::heuristics::lcv_score_spec(csp, assignment@, var@, #[trigger] r@[q])
                    ==> crate::domain::ordered_pair_in(domain.vals(), r@[p], r@[q]),
    {
        crate::heuristics::least_constraining_value(var, domain, assignment, csp)
    }

    /// Simple backtracking search: the returned solution is the least in the
    /// traversal order fixed by variable registration order and each domain's
    /// own value order.
    pub fn backtrack_search<D: Domain>(csp: &Csp<D>) -> (r: Option<Assignment>)
        requires
            csp.wf(),
        ensures
            match r {
                Some(a) => a.wf() && csp.full_solution(a@),
                None => forall|m: Map<Seq<char>, u64>| !csp.full_solution(m),
            },
            r matches Some(a) ==> forall|m: Map<Seq<char>, u64>| #[trigger]
                csp.full_solution(m) && m != a@ ==> crate::backtracking::lex_before(csp, a@, m),
    {
        BacktrackingSolver::backtrack_search(csp)
    }

    /// MRV search.
    pub fn mrv_search<D: Domain>(csp: &Csp<D>) -> (r: Option<Assignment>)
        requires
            csp.wf(),
        ensures
            match r {
                Some(a) => a.wf() && csp.full_solution(a@),
                None => forall|m: Map<Seq<char>, u64>| !csp.full_solution(m),
            },
    {
        Self::solve(csp, Self::minimum_remaining_values, Self::domain_order)
    }

    /// LCV search.
    pub fn lcv_search<D: Domain>(csp: &Csp<D>) -> (r: Option<Assignment>)
        requires
            csp.wf(),
        ensures
            match r {
                Some(a) => a.wf() && csp.full_solution(a@),
                None => forall|m: Map<Seq<char>, u64>| !csp.full_solution(m),
            },
    {
        Self::solve(csp, Self::first_unassigned, Self::least_constraining_value)
    }

    /// Combined MRV and LCV search.
    pub fn mrv_lcv_search<D: Domain>(csp: &Csp<D>) -> (r: Option<Assignment>)
        requires
            csp.wf(),
        ensures
            match r {
                Some(a) => a.wf() && csp.full_solution(a@),
                None => forall|m: Map<Seq<char>, u64>| !csp.full_solution(m),
            },
    {
        Self::solve(csp, Self::minimum_remaining_values, Self::least_constraining_value)
    }
}

} // verus!
