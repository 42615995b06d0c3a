use vstd::prelude::*;
use crate::assignment::Assignment;
use crate::backtracking::select_post;
use crate::constraint::Constraint;
use crate::csp::Csp;
use crate::domain::Domain;
use crate::variable::Variable;

verus! {

broadcast use vstd::seq_lib::group_seq_properties;

/// Some pair of `s` has `x` as its first component.
pub open spec fn pairs_contain(s: Seq<(u64, u128)>, x: u64) -> bool {
    exists|p: int| 0 <= p < s.len() && (#[trigger] s[p]).0 == x
}

/// Every constraint of `csp` that involves the variable named `k` is
/// satisfied by `m`.
pub open spec fn locally_satisfied<D: Domain>(csp: &Csp<D>, m: Map<Seq<char>, u64>, k: Seq<char>) -> bool {
    forall|i: int|
        0 <= i < csp.cons().len() && (#[trigger] csp.cons()[i]).scope().contains(k)
            ==> csp.cons()[i].spec_satisfied(m)
}

/// Among the values of `vals`, how many keep every constraint involving `k`
/// satisfied when tried for `k` against the assignment `m`.
pub open spec fn count_local_ok<D: Domain>(
    csp: &Csp<D>,
    m: Map<Seq<char>, u64>,
    k: Seq<char>,
    vals: Seq<u64>,
) -> nat
    decreases vals.len(),
{
    if vals.len() == 0 {
        0
    } else {
        count_local_ok(csp, m, k, vals.drop_last()) + if locally_satisfied(
            csp,
            m.insert(k, vals.last()),
            k,
        ) {
            1nat
        } else {
            0
        }
    }
}

/// Among the values of `vals`, how many keep the whole problem consistent
/// when tried for `k` against the assignment `m`.
pub open spec fn count_global_ok<D: Domain>(
    csp: &Csp<D>,
    m: Map<Seq<char>, u64>,
    k: Seq<char>,
    vals: Seq<u64>,
) -> nat
    decreases vals.len(),
{
    if vals.len() == 0 {
        0
    } else {
        count_global_ok(csp, m, k, vals.drop_last()) + if csp.spec_consistent(
            m.insert(k, vals.last()),
        ) {
            1nat
        } else {
            0
        }
    }
}

/// The MRV score of the variable named `k`: its count of values that keep
/// every constraint involving it satisfied.
pub open spec fn mrv_local_score<D: Domain>(csp: &Csp<D>, m: Map<Seq<char>, u64>, k: Seq<char>) -> nat {
    count_local_ok(csp, m, k, csp.dom_of(k))
}

/// The globally probed MRV score of the variable named `k`: its count of
/// values that keep the whole problem consistent.
pub open spec fn mrv_global_score<D: Domain>(csp: &Csp<D>, m: Map<Seq<char>, u64>, k: Seq<char>) -> nat {
    count_global_ok(csp, m, k, csp.dom_of(k))
}

/// The variable named `v` has a minimal local MRV score among the unassigned
/// variables.
pub open spec fn minimizes_local_score<D: Domain>(
    csp: &Csp<D>,
    m: Map<Seq<char>, u64>,
    v: Seq<char>,
) -> bool {
    forall|k: Seq<char>|
        csp.registered(k) && !m.contains_key(k) ==> mrv_local_score(csp, m, v) <= #[trigger]
            mrv_local_score(csp, m, k)
}

/// Every unassigned variable registered before `v` has a strictly larger
/// local MRV score: ties are broken by registration order.
pub open spec fn first_minimal_local<D: Domain>(
    csp: &Csp<D>,
    m: Map<Seq<char>, u64>,
    v: Seq<char>,
) -> bool {
    forall|i: int|
        0 <= i < csp.idx_of(v) && !m.contains_key(#[trigger] csp.names()[i]) ==> mrv_local_score(
            csp,
            m,
            csp.names()[i],
        ) > mrv_local_score(csp, m, v)
}

/// The variable named `v` has a minimal global MRV score among the unassigned
/// variables.
pub open spec fn minimizes_global_score<D: Domain>(
    csp: &Csp<D>,
    m: Map<Seq<char>, u64>,
    v: Seq<char>,
) -> bool {
    forall|k: Seq<char>|
        csp.registered(k) && !m.contains_key(k) ==> mrv_global_score(csp, m, v) <= #[trigger]
            mrv_global_score(csp, m, k)
}

/// Every unassigned variable registered before `v` has a strictly larger
/// global MRV score: ties are broken by registration order.
pub open spec fn first_minimal_global<D: Domain>(
    csp: &Csp<D>,
    m: Map<Seq<char>, u64>,
    v: Seq<char>,
) -> bool {
    forall|i: int|
        0 <= i < csp.idx_of(v) && !m.contains_key(#[trigger] csp.names()[i]) ==> mrv_global_score(
            csp,
            m,
            csp.names()[i],
        ) > mrv_global_score(csp, m, v)
}

/// How many names of `scope` the assignment `m` leaves unassigned.
pub open spec fn unassigned_in_scope(m: Map<Seq<char>, u64>, scope: Seq<Seq<char>>) -> nat
    decreases scope.len(),
{
    if scope.len() == 0 {
        0
    } else {
        unassigned_in_scope(m, scope.drop_last()) + if m.contains_key(scope.last()) {
            0nat
        } else {
            1
        }
    }
}

/// The degree score of the variable named `k` over the first `upto`
/// constraints: the summed count of still-unassigned scope members of the
/// constraints involving `k`.
pub open spec fn degree_sum<D: Domain>(
    csp: &Csp<D>,
    m: Map<Seq<char>, u64>,
    k: Seq<char>,
    upto: int,
) -> nat
    decreases upto,
{
    if upto <= 0 {
        0
    } else {
        degree_sum(csp, m, k, upto - 1) + if csp.cons()[upto - 1].scope().contains(k) {
            unassigned_in_scope(m, csp.cons()[upto - 1].scope())
        } else {
            0
        }
    }
}

/// The degree score of the variable named `k`.
pub open spec fn degree_score_spec<D: Domain>(csp: &Csp<D>, m: Map<Seq<char>, u64>, k: Seq<char>) -> nat {
    degree_sum(csp, m, k, csp.cons().len() as int)
}

/// The variable named `v` has a maximal degree score among the unassigned
/// variables.
pub open spec fn maximizes_degree<D: Domain>(
    csp: &Csp<D>,
    m: Map<Seq<char>, u64>,
    v: Seq<char>,
) -> bool {
    forall|k: Seq<char>|
        csp.registered(k) && !m.contains_key(k) ==> #[trigger] degree_score_spec(csp, m, k)
            <= degree_score_spec(csp, m, v)
}

/// Among the candidate values `vals` of a neighbor named `u`, how many
/// become inconsistent once the assignment additionally binds `u` on top of
/// the candidate binding already in `m`.
pub open spec fn lcv_pair_count<D: Domain>(
    csp: &Csp<D>,
    m: Map<Seq<char>, u64>,
    u: Seq<char>,
    vals: Seq<u64>,
) -> nat
    decreases vals.len(),
{
    if vals.len() == 0 {
        0
    } else {
        lcv_pair_count(csp, m, u, vals.drop_last()) + if csp.spec_consistent(
            m.insert(u, vals.last()),
        ) {
            0nat
        } else {
            1
        }
    }
}

/// The LCV score of binding `v` to `x` over the first `upto` registered
/// variables: how many neighbor values that binding rules out.
pub open spec fn lcv_sum<D: Domain>(
    csp: &Csp<D>,
    m: Map<Seq<char>, u64>,
    v: Seq<char>,
    x: u64,
    upto: int,
) -> nat
    decreases upto,
{
    if upto <= 0 {
        0
    } else {
        lcv_sum(csp, m, v, x, upto - 1) + if !m.contains_key(csp.names()[upto - 1]) && csp.names()[
            upto - 1
        ] != v {
            lcv_pair_count(csp, m.insert(v, x), csp.names()[upto - 1], csp.dom_of(csp.names()[upto - 1]))
        } else {
            0
        }
    }
}

/// The LCV score of binding `v` to `x`.
pub open spec fn lcv_score_spec<D: Domain>(
    csp: &Csp<D>,
    m: Map<Seq<char>, u64>,
    v: Seq<char>,
    x: u64,
) -> nat {
    lcv_sum(csp, m, v, x, csp.names().len() as int)
}

/// The scope of every constraint in `list` lies inside `csp`, so each one may
/// be judged against an assignment.
proof fn lemma_listed_constraints_wf<D: Domain>(csp: &Csp<D>, list: Seq<&Constraint>)
    requires
        csp.wf(),
        forall|p: int| 0 <= p < list.len() ==> csp.has_constraint(*(#[trigger] list[p])),
    ensures
        forall|p: int| 0 <= p < list.len() ==> (#[trigger] list[p]).wf(),
{
    csp.lemma_wf_facts();
    assert forall|p: int| 0 <= p < list.len() implies (#[trigger] list[p]).wf() by {
        let i = choose|i: int| 0 <= i < csp.cons().len() && csp.cons()[i] == *list[p];
        assert(csp.cons()[i].wf());
    }
}

/// How many values of `var`'s domain keep every constraint involving `var`
/// satisfied when tried against the current assignment.
#[verifier::loop_isolation(false)]
fn count_local_supported<D: Domain>(var: &Variable, assignment: &Assignment, csp: &Csp<D>) -> (r:
    usize)
    requires
        csp.wf(),
        assignment.wf(),
        csp.registered(var@),
    ensures
        r == mrv_local_score(csp, assignment@, var@),
{
    let involved = csp.get_constraints_for_variable(var);
    proof {
        lemma_listed_constraints_wf(csp, involved@);
    }
    let dom = match csp.get_domain(var) {
        Some(d) => d,
        None => {
            proof {
                assert(false);
            }
            return 0;
        },
    };
    let vals = dom.values();
    let mut count: usize = 0;
    let mut i: usize = 0;
    proof {
        assert(vals@.subrange(0, 0) =~= Seq::<u64>::empty());
    }
    while i < vals.len()
        invariant
            i <= vals@.len(),
            count <= i,
            count == count_local_ok(csp, assignment@, var@, vals@.subrange(0, i as int)),
        decreases vals@.len() - i,
    {
        let mut temp = assignment.duplicate();
        temp.assign(var.clone(), vals[i]);
        let mut ok = true;
        let mut j: usize = 0;
        while j < involved.len()
            invariant
                temp.wf(),
                j <= involved@.len(),
                ok == forall|p: int|
                    0 <= p < j ==> (#[trigger] involved@[p]).spec_satisfied(temp@),
            decreases involved@.len() - j,
        {
            if !involved[j].is_satisfied(&temp) {
                ok = false;
            }
            j += 1;
        }
        proof {
            assert(ok == locally_satisfied(csp, temp@, var@)) by {
                if ok {
                    assert forall|ci: int|
                        0 <= ci < csp.cons().len() && (#[trigger] csp.cons()[ci]).scope().contains(
                            var@,
                        ) implies csp.cons()[ci].spec_satisfied(temp@) by {
                        let p = choose|p: int|
                            0 <= p < involved@.len() && *involved@[p] == csp.cons()[ci];
                        assert(involved@[p].spec_satisfied(temp@));
                    }
                } else {
                    let p = choose|p: int|
                        0 <= p < involved@.len() && !(#[trigger] involved@[p]).spec_satisfied(
                            temp@,
                        );
                    if locally_satisfied(csp, temp@, var@) {
                        let ci = choose|ci: int|
                            0 <= ci < csp.cons().len() && csp.cons()[ci] == *involved@[p];
                        assert(csp.cons()[ci].scope().contains(var@));
                        assert(csp.cons()[ci].spec_satisfied(temp@));
                    }
                }
            }
            assert(vals@.subrange(0, i + 1).drop_last() =~= vals@.subrange(0, i as int));
            assert(vals@.subrange(0, i + 1).last() == vals@[i as int]);
        }
        if ok {
            count += 1;
        }
        i += 1;
    }
    proof {
        assert(vals@.subrange(0, vals@.len() as int) =~= vals@);
    }
    count
}

/// How many values of `var`'s domain keep the whole problem consistent when
/// tried against the current assignment.
#[verifier::loop_isolation(false)]
pub(crate) fn count_global_supported<D: Domain>(
    var: &Variable,
    assignment: &Assignment,
    csp: &Csp<D>,
) -> (r: usize)
    requires
        csp.wf(),
        assignment.wf(),
        csp.registered(var@),
    ensures
        r == mrv_global_score(csp, assignment@, var@),
{
    let dom = match csp.get_domain(var) {
        Some(d) => d,
        None => {
            proof {
                assert(false);
            }
            return 0;
        },
    };
    let vals = dom.values();
    let mut count: usize = 0;
    let mut i: usize = 0;
    proof {
        assert(vals@.subrange(0, 0) =~= Seq::<u64>::empty());
    }
    while i < vals.len()
        invariant
            i <= vals@.len(),
            count <= i,
            count == count_global_ok(csp, assignment@, var@, vals@.subrange(0, i as int)),
        decreases vals@.len() - i,
    {
        let mut temp = assignment.duplicate();
        temp.assign(var.clone(), vals[i]);
        proof {
            assert(vals@.subrange(0, i + 1).drop_last() =~= vals@.subrange(0, i as int));
            assert(vals@.subrange(0, i + 1).last() == vals@[i as int]);
        }
        if csp.is_consistent(&temp) {
            count += 1;
        }
        i += 1;
    }
    proof {
        assert(vals@.subrange(0, vals@.len() as int) =~= vals@);
    }
    count
}

/// The degree score of `var`: over the constraints involving it, the summed
/// count of still-unassigned scope members, `var` itself included.
#[verifier::loop_isolation(false)]
fn degree_score<D: Domain>(var: &Variable, assignment: &Assignment, csp: &Csp<D>) -> (r: u128)
    requires
        csp.wf(),
        assignment.wf(),
    ensures
        r == degree_score_spec(csp, assignment@, var@),
{
    let big: u128 = usize::MAX as u128;
    let cs = csp.get_constraints();
    let mut score: u128 = 0;
    let mut i: usize = 0;
    while i < cs.len()
        invariant
            i <= csp.cons().len(),
            score <= (i as u128) * big,
            score == degree_sum(csp, assignment@, var@, i as int),
        decreases csp.cons().len() - i,
    {
        let c = &cs[i];
        proof {
            assert(*c == csp.cons()[i as int]);
        }
        if c.involves(var) {
            let scope = c.variables();
            let mut cnt: usize = 0;
            let mut j: usize = 0;
            proof {
                assert(c.scope().subrange(0, 0) =~= Seq::<Seq<char>>::empty());
            }
            while j < scope.len()
                invariant
                    j <= scope@.len(),
                    cnt <= j,
                    cnt == unassigned_in_scope(assignment@, c.scope().subrange(0, j as int)),
                decreases scope@.len() - j,
            {
                proof {
                    assert(c.scope().subrange(0, j + 1).drop_last() =~= c.scope().subrange(
                        0,
                        j as int,
                    ));
                    assert(c.scope().subrange(0, j + 1).last() == c.scope()[j as int]);
                    assert(c.scope()[j as int] == scope@[j as int]@);
                }
                if !assignment.is_assigned(&scope[j]) {
                    cnt += 1;
                }
                j += 1;
            }
            proof {
                assert(c.scope().subrange(0, c.scope().len() as int) =~= c.scope());
                assert((i as u128) * big + big == ((i + 1) as u128) * big) by (nonlinear_arith);
                assert(((i + 1) as u128) * big <= big * big) by (nonlinear_arith)
                    requires
                        0 <= (i + 1) as u128 <= big,
                ;
                assert(big * big < u128::MAX) by (nonlinear_arith)
                    requires
                        big <= 0xFFFF_FFFF_FFFF_FFFFu128,
                ;
            }
            score = score + cnt as u128;
        } else {
            proof {
                assert((i as u128) * big <= ((i + 1) as u128) * big) by (nonlinear_arith)
                    requires
                        big >= 0 && 0 <= i as u128 <= (i + 1) as u128,
                ;
            }
        }
        i += 1;
    }
    score
}

/// MRV variable selection: the unassigned variable with the fewest values
/// that keep its own constraints satisfied, ties broken by registration
/// order.
#[verifier::loop_isolation(false)]
pub fn minimum_remaining_values<D: Domain>(assignment: &Assignment, csp: &Csp<D>) -> (r: Option<
    Variable,
>)
    requires
        csp.wf(),
        assignment.wf(),
    ensures
        select_post(csp, assignment@, r),
        r matches Some(v) ==> minimizes_local_score(csp, assignment@, v@) && first_minimal_local(
            csp,
            assignment@,
            v@,
        ),
{
    let vars = csp.get_variables();
    let mut best: Option<Variable> = None;
    let mut best_count: usize = usize::MAX;
    let ghost mut best_i: int = 0;
    let mut i: usize = 0;
    while i < vars.len()
        invariant
            vars@.len() == csp.names().len(),
            forall|j: int| 0 <= j < vars@.len() ==> (#[trigger] vars@[j])@ == csp.names()[j],
            i <= vars@.len(),
            match best {
                Some(v) => csp.registered(v@) && !assignment@.contains_key(v@) && 0 <= best_i < i
                    && csp.names()[best_i] == v@ && best_count == mrv_local_score(
                    csp,
                    assignment@,
                    v@,
                ) && (forall|j: int|
                    0 <= j < i && !assignment@.contains_key(#[trigger] csp.names()[j])
                        ==> best_count <= mrv_local_score(csp, assignment@, csp.names()[j])) && (
                forall|j: int|
                    0 <= j < best_i && !assignment@.contains_key(#[trigger] csp.names()[j])
                        ==> best_count < mrv_local_score(csp, assignment@, csp.names()[j])),
                None => forall|j: int|
                    0 <= j < i ==> assignment@.contains_key(#[trigger] csp.names()[j]),
            },
        decreases vars@.len() - i,
    {
        let var = &vars[i];
        proof {
            assert(csp.names()[i as int] == var@);
        }
        if !assignment.is_assigned(var) {
            let count = count_local_supported(var, assignment, csp);
            let replace = match &best {
                None => true,
                Some(_) => count < best_count,
            };
            if replace {
                best = Some(var.clone());
                best_count = count;
                proof {
                    best_i = i as int;
                }
            }
        }
        i += 1;
    }
    proof {
        if best is None {
            assert forall|k: Seq<char>| csp.registered(k) implies assignment@.contains_key(k) by {
                let j = choose|j: int| 0 <= j < csp.names().len() && csp.names()[j] == k;
                assert(assignment@.contains_key(csp.names()[j]));
            }
        } else {
            let v = best.unwrap();
            csp.lemma_idx_of(v@);
            assert(csp.idx_of(v@) == best_i);
            assert forall|k: Seq<char>|
                csp.registered(k) && !assignment@.contains_key(k) implies mrv_local_score(
                csp,
                assignment@,
                v@,
            ) <= mrv_local_score(csp, assignment@, k) by {
                let j = choose|j: int| 0 <= j < csp.names().len() && csp.names()[j] == k;
                assert(best_count <= mrv_local_score(csp, assignment@, csp.names()[j]));
            }
        }
    }
    best
}

/// Degree variable selection: an unassigned variable with the maximal summed
/// count of still-unassigned scope members over the constraints involving
/// it; among equal scores the last in registration order wins.
#[verifier::loop_isolation(false)]
pub fn degree_heuristic<D: Domain>(assignment: &Assignment, csp: &Csp<D>) -> (r: Option<Variable>)
    requires
        csp.wf(),
        assignment.wf(),
    ensures
        select_post(csp, assignment@, r),
        r matches Some(v) ==> maximizes_degree(csp, assignment@, v@),
{
    let vars = csp.get_variables();
    let mut best: Option<Variable> = None;
    let mut best_score: u128 = 0;
    let mut i: usize = 0;
    while i < vars.len()
        invariant
            vars@.len() == csp.names().len(),
            forall|j: int| 0 <= j < vars@.len() ==> (#[trigger] vars@[j])@ == csp.names()[j],
            i <= vars@.len(),
            match best {
                Some(v) => csp.registered(v@) && !assignment@.contains_key(v@) && best_score
                    == degree_score_spec(csp, assignment@, v@) && (forall|j: int|
                    0 <= j < i && !assignment@.contains_key(#[trigger] csp.names()[j])
                        ==> degree_score_spec(csp, assignment@, csp.names()[j]) <= best_score),
                None => forall|j: int|
                    0 <= j < i ==> assignment@.contains_key(#[trigger] csp.names()[j]),
            },
        decreases vars@.len() - i,
    {
        let var = &vars[i];
        proof {
            assert(csp.names()[i as int] == var@);
        }
        if !assignment.is_assigned(var) {
            let score = degree_score(var, assignment, csp);
            let replace = match &best {
                None => true,
                Some(_) => score >= best_score,
            };
            if replace {
                best = Some(var.clone());
                best_score = score;
            }
        }
        i += 1;
    }
    proof {
        if best is None {
            assert forall|k: Seq<char>| csp.registered(k) implies assignment@.contains_key(k) by {
                let j = choose|j: int| 0 <= j < csp.names().len() && csp.names()[j] == k;
                assert(assignment@.contains_key(csp.names()[j]));
            }
        } else {
            let v = best.unwrap();
            assert forall|k: Seq<char>|
                csp.registered(k) && !assignment@.contains_key(k) implies #[trigger]
            degree_score_spec(csp, assignment@, k) <= degree_score_spec(csp, assignment@, v@) by {
                let j = choose|j: int| 0 <= j < csp.names().len() && csp.names()[j] == k;
                assert(degree_score_spec(csp, assignment@, csp.names()[j]) <= best_score);
            }
        }
    }
    best
}

/// Combined MRV and degree selection: among the unassigned variables whose
/// count of consistent values is minimal, one with the maximal degree score.
#[verifier::loop_isolation(false)]
pub fn mrv_degree<D: Domain>(assignment: &Assignment, csp: &Csp<D>) -> (r: Option<Variable>)
    requires
        csp.wf(),
        assignment.wf(),
    ensures
        select_post(csp, assignment@, r),
        r matches Some(v) ==> minimizes_global_score(csp, assignment@, v@) && (forall|k: Seq<char>|
            csp.registered(k) && !assignment@.contains_key(k) && mrv_global_score(
                csp,
                assignment@,
                k,
            ) == mrv_global_score(csp, assignment@, v@) ==> #[trigger] degree_score_spec(
                csp,
                assignment@,
                k,
            ) <= degree_score_spec(csp, assignment@, v@)),
        // stable tie-break: earlier-registered variables with the same minimal
        // count have a strictly smaller degree score
        r matches Some(v) ==> forall|i: int|
            0 <= i < csp.idx_of(v@) && !assignment@.contains_key(#[trigger] csp.names()[i])
                && mrv_global_score(csp, assignment@, csp.names()[i]) == mrv_global_score(
                csp,
                assignment@,
                v@,
            ) ==> degree_score_spec(csp, assignment@, csp.names()[i]) < degree_score_spec(
                csp,
                assignment@,
                v@,
            ),
{
    let vars = csp.get_variables();
    let mut min_count: usize = usize::MAX;
    let mut any_unassigned = false;
    let ghost mut witness: int = 0;
    let mut i: usize = 0;
    while i < vars.len()
        invariant
            vars@.len() == csp.names().len(),
            forall|j: int| 0 <= j < vars@.len() ==> (#[trigger] vars@[j])@ == csp.names()[j],
            i <= vars@.len(),
            !any_unassigned ==> forall|j: int|
                0 <= j < i ==> assignment@.contains_key(#[trigger] csp.names()[j]),
            any_unassigned ==> 0 <= witness < i && !assignment@.contains_key(
                csp.names()[witness],
            ) && min_count == mrv_global_score(csp, assignment@, csp.names()[witness]) && (forall|
                j: int,
            |
                0 <= j < i && !assignment@.contains_key(#[trigger] csp.names()[j]) ==> min_count
                    <= mrv_global_score(csp, assignment@, csp.names()[j])),
        decreases vars@.len() - i,
    {
        let var = &vars[i];
        proof {
            assert(csp.names()[i as int] == var@);
        }
        if !assignment.is_assigned(var) {
            let count = count_global_supported(var, assignment, csp);
            if !any_unassigned || count < min_count {
                min_count = count;
                proof {
                    witness = i as int;
                }
            }
            any_unassigned = true;
        }
        i += 1;
    }
    if !any_unassigned {
        proof {
            assert forall|k: Seq<char>| csp.registered(k) implies assignment@.contains_key(k) by {
                let j = choose|j: int| 0 <= j < csp.names().len() && csp.names()[j] == k;
                assert(assignment@.contains_key(csp.names()[j]));
            }
        }
        return None;
    }
    let mut best: Option<Variable> = None;
    let mut best_score: u128 = 0;
    let ghost mut best_i: int = 0;
    let mut i2: usize = 0;
    while i2 < vars.len()
        invariant
            vars@.len() == csp.names().len(),
            forall|j: int| 0 <= j < vars@.len() ==> (#[trigger] vars@[j])@ == csp.names()[j],
            i2 <= vars@.len(),
            0 <= witness < vars@.len(),
            !assignment@.contains_key(csp.names()[witness]),
            min_count == mrv_global_score(csp, assignment@, csp.names()[witness]),
            forall|j: int|
                0 <= j < vars@.len() && !assignment@.contains_key(#[trigger] csp.names()[j])
                    ==> min_count <= mrv_global_score(csp, assignment@, csp.names()[j]),
            witness < i2 ==> best is Some,
            match best {
                Some(v) => csp.registered(v@) && !assignment@.contains_key(v@) && 0 <= best_i < i2
                    && csp.names()[best_i] == v@ && mrv_global_score(csp, assignment@, v@)
                    == min_count && best_score == degree_score_spec(csp, assignment@, v@) && (
                forall|j: int|
                    0 <= j < i2 && !assignment@.contains_key(#[trigger] csp.names()[j])
                        && mrv_global_score(csp, assignment@, csp.names()[j]) == min_count
                        ==> degree_score_spec(csp, assignment@, csp.names()[j]) <= best_score) && (
                forall|j: int|
                    0 <= j < best_i && !assignment@.contains_key(#[trigger] csp.names()[j])
                        && mrv_global_score(csp, assignment@, csp.names()[j]) == min_count
                        ==> degree_score_spec(csp, assignment@, csp.names()[j]) < best_score),
                None => forall|j: int|
                    0 <= j < i2 && !assignment@.contains_key(#[trigger] csp.names()[j])
                        ==> mrv_global_score(csp, assignment@, csp.names()[j]) != min_count,
            },
        decreases vars@.len() - i2,
    {
        let var = &vars[i2];
        proof {
            assert(csp.names()[i2 as int] == var@);
        }
        if !assignment.is_assigned(var) {
            let count = count_global_supported(var, assignment, csp);
            if count == min_count {
                let score = degree_score(var, assignment, csp);
                let replace = match &best {
                    None => true,
                    Some(_) => score > best_score,
                };
                if replace {
                    best = Some(var.clone());
                    best_score = score;
                    proof {
                        best_i = i2 as int;
                    }
                }
            }
        }
        i2 += 1;
    }
    match best {
        Some(v) => {
            proof {
                assert forall|k: Seq<char>|
                    csp.registered(k) && !assignment@.contains_key(k) && mrv_global_score(
                        csp,
                        assignment@,
                        k,
                    ) == mrv_global_score(csp, assignment@, v@) implies #[trigger]
                degree_score_spec(csp, assignment@, k) <= degree_score_spec(
                    csp,
                    assignment@,
                    v@,
                ) by {
                    let j = choose|j: int| 0 <= j < csp.names().len() && csp.names()[j] == k;
                    assert(degree_score_spec(csp, assignment@, csp.names()[j]) <= best_score);
                }
                assert forall|k: Seq<char>|
                    csp.registered(k) && !assignment@.contains_key(k) implies mrv_global_score(
                    csp,
                    assignment@,
                    v@,
                ) <= mrv_global_score(csp, assignment@, k) by {
                    let j = choose|j: int| 0 <= j < csp.names().len() && csp.names()[j] == k;
                    assert(min_count <= mrv_global_score(csp, assignment@, csp.names()[j]));
                }
                csp.lemma_idx_of(v@);
                assert(csp.idx_of(v@) == best_i);
            }
            Some(v)
        },
        None => {
            proof {
                assert(false);
            }
            None
        },
    }
}

/// The number of neighbor values a candidate assignment would rule out: over
/// every other unassigned variable and value of its domain, the count of
/// extensions that are inconsistent with `var` set to `val`.
#[verifier::loop_isolation(false)]
fn lcv_score<D: Domain>(var: &Variable, val: u64, assignment: &Assignment, csp: &Csp<D>) -> (r:
    u128)
    requires
        csp.wf(),
        assignment.wf(),
    ensures
        r == lcv_score_spec(csp, assignment@, var@, val),
{
    let big: u128 = usize::MAX as u128;
    let vars = csp.get_variables();
    let mut base = assignment.duplicate();
    base.assign(var.clone(), val);
    let mut score: u128 = 0;
    let mut i: usize = 0;
    while i < vars.len()
        invariant
            base.wf(),
            base@ == assignment@.insert(var@, val),
            vars@.len() == csp.names().len(),
            forall|j: int| 0 <= j < vars@.len() ==> (#[trigger] vars@[j])@ == csp.names()[j],
            i <= vars@.len(),
            score <= (i as u128) * big,
            score == lcv_sum(csp, assignment@, var@, val, i as int),
        decreases vars@.len() - i,
    {
        let other = &vars[i];
        proof {
            assert(csp.names()[i as int] == other@);
        }
        if !assignment.is_assigned(other) && !other.same_variable(var) {
            let mut cnt: usize = 0;
            match csp.get_domain(other) {
                Some(d) => {
                    let dvals = d.values();
                    let mut j: usize = 0;
                    proof {
                        assert(dvals@.subrange(0, 0) =~= Seq::<u64>::empty());
                    }
                    while j < dvals.len()
                        invariant
                            base.wf(),
                            base@ == assignment@.insert(var@, val),
                            j <= dvals@.len(),
                            cnt <= j,
                            cnt == lcv_pair_count(csp, base@, other@, dvals@.subrange(0, j as int)),
                        decreases dvals@.len() - j,
                    {
                        let mut test = base.duplicate();
                        test.assign(other.clone(), dvals[j]);
                        proof {
                            assert(dvals@.subrange(0, j + 1).drop_last() =~= dvals@.subrange(
                                0,
                                j as int,
                            ));
                            assert(dvals@.subrange(0, j + 1).last() == dvals@[j as int]);
                        }
                        if !csp.is_consistent(&test) {
                            cnt += 1;
                        }
                        j += 1;
                    }
                    proof {
                        assert(dvals@.subrange(0, dvals@.len() as int) =~= dvals@);
                    }
                },
                None => {
                    proof {
                        assert(false);
                    }
                },
            }
            proof {
                assert((i as u128) * big + big == ((i + 1) as u128) * big) by (nonlinear_arith);
                assert(((i + 1) as u128) * big <= big * big) by (nonlinear_arith)
                    requires
                        0 <= (i + 1) as u128 <= big,
                ;
                assert(big * big < u128::MAX) by (nonlinear_arith)
                    requires
                        big <= 0xFFFF_FFFF_FFFF_FFFFu128,
                ;
            }
            score = score + cnt as u128;
        } else {
            proof {
                assert((i as u128) * big <= ((i + 1) as u128) * big) by (nonlinear_arith)
                    requires
                        big >= 0 && 0 <= i as u128 <= (i + 1) as u128,
                ;
            }
        }
        i += 1;
    }
    score
}

/// Insert a scored value into the list, after every entry whose score is not
/// larger, so that equal scores keep their insertion order; returns the
/// insertion position.
#[verifier::loop_isolation(false)]
#[verifier::rlimit(60)]
fn insert_pair_sorted(sorted: &mut Vec<(u64, u128)>, x: u64, score: u128) -> (pos: usize)
    requires
        !pairs_contain(old(sorted)@, x),
        forall|p: int, q: int|
            0 <= p < q < old(sorted)@.len() ==> old(sorted)@[p].0 != old(sorted)@[q].0,
        forall|p: int, q: int|
            0 <= p < q < old(sorted)@.len() ==> old(sorted)@[p].1 <= old(sorted)@[q].1,
    ensures
        pos <= old(sorted)@.len(),
        final(sorted)@ == old(sorted)@.insert(pos as int, (x, score)),
        forall|t: int| 0 <= t < pos ==> (#[trigger] old(sorted)@[t]).1 <= score,
        forall|t: int| pos <= t < old(sorted)@.len() ==> (#[trigger] old(sorted)@[t]).1 > score,
        final(sorted)@.len() == old(sorted)@.len() + 1,
        forall|p: int, q: int|
            0 <= p < q < final(sorted)@.len() ==> final(sorted)@[p].0 != final(sorted)@[q].0,
        forall|p: int, q: int|
            0 <= p < q < final(sorted)@.len() ==> final(sorted)@[p].1 <= final(sorted)@[q].1,
        forall|x2: u64| #[trigger]
            pairs_contain(final(sorted)@, x2) <==> pairs_contain(old(sorted)@, x2) || x2 == x,
        forall|p: int|
            0 <= p < final(sorted)@.len() ==> (#[trigger] final(sorted)@[p]) == (x, score) || (
            exists|p0: int| 0 <= p0 < old(sorted)@.len() && old(sorted)@[p0] == final(sorted)@[p]),
{
    let ghost s0 = sorted@;
    let mut q: usize = 0;
    while q < sorted.len() && sorted[q].1 <= score
        invariant
            q <= sorted@.len(),
            forall|t: int| 0 <= t < q ==> (#[trigger] sorted@[t]).1 <= score,
        decreases sorted@.len() - q,
    {
        q += 1;
    }
    sorted.insert(q, (x, score));
    proof {
        s0.insert_ensures(q as int, (x, score));
        assert forall|t: int| q <= t < s0.len() implies (#[trigger] s0[t]).1 > score by {
            if t > q as int {
                assert(s0[q as int].1 <= s0[t].1);
            }
        }
        assert forall|p1: int, q1: int|
            0 <= p1 < q1 < sorted@.len() implies sorted@[p1].1 <= sorted@[q1].1 by {
            let p0 = if p1 < q as int { p1 } else { p1 - 1 };
            let q0 = if q1 < q as int { q1 } else { q1 - 1 };
            if p1 == q as int {
                assert(sorted@[p1].1 == score);
                assert(sorted@[q1] == s0[q0]);
                assert(q as int <= q0 < s0.len());
                assert(s0[q as int].1 > score);
                if q0 > q as int {
                    assert(s0[q as int].1 <= s0[q0].1);
                }
            } else if q1 == q as int {
                assert(sorted@[q1].1 == score);
                assert(sorted@[p1] == s0[p0]);
                assert(0 <= p0 < q as int);
                assert(s0[p0].1 <= score);
            } else {
                assert(sorted@[p1] == s0[p0]);
                assert(sorted@[q1] == s0[q0]);
            }
        }
        assert forall|p1: int, q1: int|
            0 <= p1 < q1 < sorted@.len() implies sorted@[p1].0 != sorted@[q1].0 by {
            let p0 = if p1 < q as int { p1 } else { p1 - 1 };
            let q0 = if q1 < q as int { q1 } else { q1 - 1 };
            if p1 == q as int {
                assert(sorted@[p1].0 == x);
                assert(sorted@[q1] == s0[q0]);
                if s0[q0].0 == x {
                    assert(pairs_contain(s0, x));
                }
            } else if q1 == q as int {
                assert(sorted@[q1].0 == x);
                assert(sorted@[p1] == s0[p0]);
                if s0[p0].0 == x {
                    assert(pairs_contain(s0, x));
                }
            } else {
                assert(sorted@[p1] == s0[p0]);
                assert(sorted@[q1] == s0[q0]);
            }
        }
        assert forall|x2: u64| #[trigger]
            pairs_contain(sorted@, x2) implies pairs_contain(s0, x2) || x2 == x by {
            let p = choose|p: int| 0 <= p < sorted@.len() && (#[trigger] sorted@[p]).0 == x2;
            if p != q as int {
                let p0 = if p < q as int { p } else { p - 1 };
                assert(sorted@[p] == s0[p0]);
            }
        }
        assert forall|x2: u64| pairs_contain(s0, x2) || x2 == x implies pairs_contain(
            sorted@,
            x2,
        ) by {
            if x2 == x {
                assert(sorted@[q as int].0 == x);
            } else {
                let p0 = choose|p0: int| 0 <= p0 < s0.len() && (#[trigger] s0[p0]).0 == x2;
                let p = if p0 < q as int { p0 } else { p0 + 1 };
                assert(sorted@[p] == s0[p0]);
            }
        }
        assert forall|p: int| 0 <= p < sorted@.len() implies (#[trigger] sorted@[p]) == (x, score)
            || (exists|p0: int| 0 <= p0 < s0.len() && s0[p0] == sorted@[p]) by {
            if p != q as int {
                let p0 = if p < q as int { p } else { p - 1 };
                assert(s0[p0] == sorted@[p]);
            }
        }
    }
    q
}

/// LCV value ordering: the domain values of `var` sorted ascending by how
/// many neighbor values they rule out; the sort is stable, so equal scores
/// keep the domain order.
#[verifier::loop_isolation(false)]
#[verifier::rlimit(100)]
pub fn least_constraining_value<D: Domain>(
    var: &Variable,
    domain: &D,
    assignment: &Assignment,
    csp: &Csp<D>,
) -> (r: Vec<u64>)
    requires
        csp.wf(),
        assignment.wf(),
        domain.inv(),
    ensures
        r@.no_duplicates(),
        forall|x: u64| r@.contains(x) <==> domain.vals().contains(x),
        forall|p: int, q: int|
            0 <= p < q < r@.len() ==> lcv_score_spec(csp, assignment@, var@, #[trigger] r@[p])
                <= lcv_score_spec(csp, assignment@, var@, #[trigger] r@[q]),
        // the sort is stable: equal scores keep the domain order
        forall|p: int, q: int|
            0 <= p < q < r@.len() && lcv_score_spec(csp, assignment@, var@, #[trigger] r@[p])
                == lcv_score_spec(csp, assignment@, var@, #[trigger] r@[q])
                ==> crate::domain::ordered_pair_in(domain.vals(), r@[p], r@[q]),
{
    proof {
        domain.lemma_inv_distinct();
    }
    let vals = domain.values();
    let mut sorted: Vec<(u64, u128)> = Vec::new();
    let ghost mut srcs: Seq<int> = Seq::empty();
    let mut i: usize = 0;
    while i < vals.len()
        invariant
            i <= vals@.len(),
            forall|x: u64| #[trigger]
                pairs_contain(sorted@, x) <==> vals@.take(i as int).contains(x),
            forall|p: int, q: int| 0 <= p < q < sorted@.len() ==> sorted@[p].0 != sorted@[q].0,
            forall|p: int, q: int| 0 <= p < q < sorted@.len() ==> sorted@[p].1 <= sorted@[q].1,
            forall|p: int|
                0 <= p < sorted@.len() ==> (#[trigger] sorted@[p]).1 == lcv_score_spec(
                    csp,
                    assignment@,
                    var@,
                    sorted@[p].0,
                ),
            srcs.len() == sorted@.len(),
            forall|p: int|
                0 <= p < sorted@.len() ==> 0 <= #[trigger] srcs[p] < i && vals@[srcs[p]]
                    == sorted@[p].0,
            forall|p: int, q: int|
                0 <= p < q < sorted@.len() && sorted@[p].1 == sorted@[q].1 ==> srcs[p] < srcs[q],
        decreases vals@.len() - i,
    {
        let x = vals[i];
        let score = lcv_score(var, x, assignment, csp);
        proof {
            if pairs_contain(sorted@, x) {
                assert(vals@.take(i as int).contains(x));
                let j = choose|j: int| 0 <= j < i && vals@[j] == x;
                assert(vals@[j] == vals@[i as int]);
                assert(false);
            }
        }
        let ghost s0 = sorted@;
        let ghost srcs0 = srcs;
        let pos = insert_pair_sorted(&mut sorted, x, score);
        proof {
            srcs = srcs0.insert(pos as int, i as int);
            srcs0.insert_ensures(pos as int, i as int);
            s0.insert_ensures(pos as int, (x, score));
            assert forall|p: int|
                0 <= p < sorted@.len() implies 0 <= #[trigger] srcs[p] < i + 1 && vals@[srcs[p]]
                == sorted@[p].0 by {
                if p == pos as int {
                    assert(srcs[p] == i as int);
                    assert(sorted@[p] == (x, score));
                } else {
                    let p0 = if p < pos as int {
                        p
                    } else {
                        p - 1
                    };
                    assert(srcs[p] == srcs0[p0]);
                    assert(sorted@[p] == s0[p0]);
                }
            }
            assert forall|p: int, q: int|
                0 <= p < q < sorted@.len() && sorted@[p].1 == sorted@[q].1 implies srcs[p]
                < srcs[q] by {
                if p == pos as int {
                    // entries after the insertion point carry strictly larger
                    // scores, so no equal-score entry follows the new one
                    let q0 = q - 1;
                    assert(sorted@[q] == s0[q0]);
                    assert(s0[q0].1 > score);
                    assert(false);
                } else if q == pos as int {
                    let p0 = p;
                    assert(srcs[p] == srcs0[p0]);
                    assert(srcs0[p0] < i);
                    assert(srcs[q] == i as int);
                } else {
                    let p0 = if p < pos as int {
                        p
                    } else {
                        p - 1
                    };
                    let q0 = if q < pos as int {
                        q
                    } else {
                        q - 1
                    };
                    assert(srcs[p] == srcs0[p0] && srcs[q] == srcs0[q0]);
                    assert(sorted@[p] == s0[p0] && sorted@[q] == s0[q0]);
                }
            }
            assert forall|p: int| 0 <= p < sorted@.len() implies (#[trigger] sorted@[p]).1
                == lcv_score_spec(csp, assignment@, var@, sorted@[p].0) by {
                if sorted@[p] != (x, score) {
                    let p0 = choose|p0: int| 0 <= p0 < s0.len() && s0[p0] == sorted@[p];
                    assert(s0[p0].1 == lcv_score_spec(csp, assignment@, var@, s0[p0].0));
                }
            }
            assert forall|x2: u64| #[trigger]
                pairs_contain(sorted@, x2) implies vals@.take(i + 1).contains(x2) by {
                if pairs_contain(s0, x2) {
                    assert(vals@.take(i as int).contains(x2));
                    let j = choose|j: int| 0 <= j < i && vals@[j] == x2;
                } else {
                    assert(x2 == x);
                    assert(vals@[i as int] == x2);
                }
            }
            assert forall|x2: u64| vals@.take(i + 1).contains(x2) implies pairs_contain(
                sorted@,
                x2,
            ) by {
                let j = choose|j: int| 0 <= j < i + 1 && vals@[j] == x2;
                if j == i as int {
                    assert(x2 == x);
                } else {
                    assert(vals@.take(i as int).contains(x2));
                    assert(pairs_contain(s0, x2));
                }
            }
        }
        i += 1;
    }
    proof {
        assert(vals@.take(vals@.len() as int) =~= vals@);
    }
    let mut r: Vec<u64> = Vec::new();
    let mut p: usize = 0;
    while p < sorted.len()
        invariant
            p <= sorted@.len(),
            r@.len() == p,
            forall|t: int| 0 <= t < p ==> r@[t] == sorted@[t].0,
        decreases sorted@.len() - p,
    {
        r.push(sorted[p].0);
        p += 1;
    }
    proof {
        assert forall|x: u64| r@.contains(x) implies domain.vals().contains(x) by {
            let t = choose|t: int| 0 <= t < r@.len() && r@[t] == x;
            assert(sorted@[t].0 == x);
            assert(pairs_contain(sorted@, x));
            assert(vals@.contains(x));
        }
        assert forall|x: u64| domain.vals().contains(x) implies r@.contains(x) by {
            assert(vals@.contains(x));
            assert(pairs_contain(sorted@, x));
            let p2 = choose|p2: int| 0 <= p2 < sorted@.len() && (#[trigger] sorted@[p2]).0 == x;
            assert(r@[p2] == x);
        }
        assert forall|t1: int, t2: int| 0 <= t1 < t2 < r@.len() implies r@[t1] != r@[t2] by {
            assert(sorted@[t1].0 != sorted@[t2].0);
        }
        assert forall|t1: int, t2: int|
            0 <= t1 < t2 < r@.len() && lcv_score_spec(csp, assignment@, var@, #[trigger] r@[t1])
                == lcv_score_spec(csp, assignment@, var@, #[trigger] r@[t2]) implies
        crate::domain::ordered_pair_in(domain.vals(), r@[t1], r@[t2]) by {
            assert(r@[t1] == sorted@[t1].0 && r@[t2] == sorted@[t2].0);
            assert(sorted@[t1].1 == lcv_score_spec(csp, assignment@, var@, sorted@[t1].0));
            assert(sorted@[t2].1 == lcv_score_spec(csp, assignment@, var@, sorted@[t2].0));
            assert(sorted@[t1].1 == sorted@[t2].1);
            assert(srcs[t1] < srcs[t2]);
            assert(vals@[srcs[t1]] == r@[t1] && vals@[srcs[t2]] == r@[t2]);
        }
    }
    r
}

} // verus!
