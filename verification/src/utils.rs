use vstd::prelude::*;
use crate::assignment::Assignment;
use crate::backtracking::select_post;
use crate::csp::Csp;
use crate::domain::Domain;
use crate::variable::Variable;

verus! {

/// Standard variable selection: the first variable in registration order that
/// the assignment does not bind yet.
#[verifier::loop_isolation(false)]
pub fn first_unassigned<D: Domain>(assignment: &Assignment, csp: &Csp<D>) -> (r: Option<Variable>)
    requires
        csp.wf(),
        assignment.wf(),
    ensures
        select_post(csp, assignment@, r),
        r matches Some(v) ==> exists|i: int|
            0 <= i < csp.names().len() && csp.names()[i] == v@ && (forall|j: int|
                0 <= j < i ==> assignment@.contains_key(#[trigger] csp.names()[j])),
{
    let vars = csp.get_variables();
    let mut i: usize = 0;
    while i < vars.len()
        invariant
            vars@.len() == csp.names().len(),
            forall|j: int| 0 <= j < vars@.len() ==> (#[trigger] vars@[j])@ == csp.names()[j],
            i <= vars@.len(),
            forall|j: int| 0 <= j < i ==> assignment@.contains_key(#[trigger] csp.names()[j]),
        decreases vars@.len() - i,
    {
        if !assignment.is_assigned(&vars[i]) {
            let v = vars[i].clone();
            proof {
                assert(csp.names()[i as int] == v@);
            }
            return Some(v);
        }
        i += 1;
    }
    proof {
        assert forall|k: Seq<char>| csp.registered(k) implies assignment@.contains_key(k) by {
            let j = choose|j: int| 0 <= j < csp.names().len() && csp.names()[j] == k;
            assert(assignment@.contains_key(csp.names()[j]));
        }
    }
    None
}

/// Standard value ordering: the domain values in the domain's own order.
pub fn domain_order<D: Domain>(
    _var: &Variable,
    domain: &D,
    _assignment: &Assignment,
    _csp: &Csp<D>,
) -> (r: Vec<u64>)
    requires
        domain.inv(),
    ensures
        r@ == domain.vals(),
        r@.no_duplicates(),
{
    proof {
        domain.lemma_inv_distinct();
    }
    domain.values()
}

} // verus!
