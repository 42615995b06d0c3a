use vstd::prelude::*;
use crate::assignment::Assignment;
use crate::constraint::lemma_satisfied_submap;
use crate::csp::Csp;
use crate::domain::Domain;
use crate::variable::Variable;

verus! {

/// What an admissible variable-selection function returns: an unassigned
/// registered variable whenever one exists, and nothing only once every
/// registered variable is assigned.
pub open spec fn select_post<D: Domain>(
    csp: &Csp<D>,
    m: Map<Seq<char>, u64>,
    r: Option<Variable>,
) -> bool {
    match r {
        Some(v) => csp.registered(v@) && !m.contains_key(v@),
        None => forall|k: Seq<char>| csp.registered(k) ==> #[trigger] m.contains_key(k),
    }
}

/// What an admissible value-ordering function returns: a permutation of the
/// domain values, without duplicates.
pub open spec fn order_post(dom_vals: Seq<u64>, r: Seq<u64>) -> bool {
    r.no_duplicates() && (forall|x: u64| r.contains(x) <==> dom_vals.contains(x))
}

/// An admissible variable-selection function for `csp`: callable on every
/// well-formed search state, and every value it may return satisfies
/// [`select_post`].
pub open spec fn select_fn_ok<D: Domain, VS: Fn(&Assignment, &Csp<D>) -> Option<Variable>>(
    f: VS,
    csp: &Csp<D>,
) -> bool {
    &&& forall|a: Assignment, r: Option<Variable>| #[trigger]
        call_ensures(f, (&a, csp), r) ==> select_post(csp, a@, r)
    &&& forall|a: Assignment|
        a.wf() && csp.partial_ok(a@) && csp.spec_consistent(a@) ==> #[trigger] call_requires(
            f,
            (&a, csp),
        )
}

/// An admissible value-ordering function for `csp`: callable on every
/// well-formed search state, and every value it may return satisfies
/// [`order_post`] for the domain it was handed.
pub open spec fn order_fn_ok<
    D: Domain,
    VO: Fn(&Variable, &D, &Assignment, &Csp<D>) -> Vec<u64>,
>(f: VO, csp: &Csp<D>) -> bool {
    &&& forall|v: Variable, d: D, a: Assignment, r: Vec<u64>|
        d.inv() && #[trigger] call_ensures(f, (&v, &d, &a, csp), r) ==> order_post(d.vals(), r@)
    &&& forall|v: Variable, d: D, a: Assignment|
        csp.registered(v@) && d.inv() && d.vals() == csp.dom_of(v@) && a.wf() && csp.partial_ok(a@)
            && csp.spec_consistent(a@) && !a@.contains_key(v@) ==> #[trigger] call_requires(
            f,
            (&v, &d, &a, csp),
        )
}

/// Every variable the selection function may return is the first unassigned
/// one in registration order.
pub open spec fn select_is_first<D: Domain, VS: Fn(&Assignment, &Csp<D>) -> Option<Variable>>(
    f: VS,
    csp: &Csp<D>,
) -> bool {
    forall|a: Assignment, r: Option<Variable>| #[trigger]
        call_ensures(f, (&a, csp), r) ==> (r matches Some(v) ==> exists|i: int|
            0 <= i < csp.names().len() && csp.names()[i] == v@ && (forall|j: int|
                0 <= j < i ==> a@.contains_key(#[trigger] csp.names()[j])))
}

/// Every sequence the ordering function may return is the domain's own value
/// sequence.
pub open spec fn order_is_domain<
    D: Domain,
    VO: Fn(&Variable, &D, &Assignment, &Csp<D>) -> Vec<u64>,
>(f: VO, csp: &Csp<D>) -> bool {
    forall|v: Variable, d: D, a: Assignment, rv: Vec<u64>| #[trigger]
        call_ensures(f, (&v, &d, &a, csp), rv) ==> rv@ == d.vals()
}

/// The assignment binds exactly the first `k` registered variables.
pub open spec fn prefix_assigned<D: Domain>(csp: &Csp<D>, m: Map<Seq<char>, u64>, k: int) -> bool {
    &&& forall|j: int| 0 <= j < k ==> m.contains_key(#[trigger] csp.names()[j])
    &&& forall|j: int| k <= j < csp.n() ==> !m.contains_key(#[trigger] csp.names()[j])
}

/// The position of the value `x` among the domain values of the registered
/// name `k`.
pub open spec fn value_pos<D: Domain>(csp: &Csp<D>, k: Seq<char>, x: u64) -> int {
    choose|p: int| 0 <= p < csp.dom_of(k).len() && csp.dom_of(k)[p] == x
}

/// `m1` comes before `m2` in the traversal order of the default heuristics:
/// at the first registration position where they differ, `m1`'s value sits
/// earlier in that variable's domain.
pub open spec fn lex_before<D: Domain>(
    csp: &Csp<D>,
    m1: Map<Seq<char>, u64>,
    m2: Map<Seq<char>, u64>,
) -> bool {
    exists|i: int|
        0 <= i < csp.n() && (forall|j: int|
            0 <= j < i ==> m1[#[trigger] csp.names()[j]] == m2[csp.names()[j]]) && value_pos(
            csp,
            csp.names()[i],
            m1[csp.names()[i]],
        ) < value_pos(csp, csp.names()[i], m2[csp.names()[i]])
}

/// The position of a domain value is well defined.
proof fn lemma_value_pos<D: Domain>(csp: &Csp<D>, k: Seq<char>, p: int)
    requires
        csp.wf(),
        csp.registered(k),
        0 <= p < csp.dom_of(k).len(),
    ensures
        value_pos(csp, k, csp.dom_of(k)[p]) == p,
{
    csp.lemma_idx_of(k);
    csp.lemma_wf_facts();
    csp.lemma_dom_distinct(csp.idx_of(k));
    let x = csp.dom_of(k)[p];
    assert(0 <= p < csp.dom_of(k).len() && csp.dom_of(k)[p] == x);
    let p2 = value_pos(csp, k, x);
    assert(0 <= p2 < csp.dom_of(k).len() && csp.dom_of(k)[p2] == x);
    if p2 != p {
        assert(csp.dom_of(k)[p] != csp.dom_of(k)[p2]);
    }
}

/// Some entry of `sols` with index in `[lo, hi)` has view `m`.
pub open spec fn listed_between(sols: Seq<Assignment>, lo: int, hi: int, m: Map<Seq<char>, u64>) -> bool {
    exists|i: int| lo <= i < hi && sols[i]@ == m
}

/// The map `m` binds `key` to one of the first `k` entries of `vals`.
pub open spec fn picks_value(m: Map<Seq<char>, u64>, key: Seq<char>, vals: Seq<u64>, k: int) -> bool {
    exists|q: int| 0 <= q < k && m[key] == vals[q]
}

/// Every entry of `sols` is a well-formed solution of `csp`, and no two
/// entries denote the same assignment.
pub open spec fn distinct_solutions<D: Domain>(csp: &Csp<D>, sols: Seq<Assignment>) -> bool {
    &&& forall|i: int|
        0 <= i < sols.len() ==> (#[trigger] sols[i]).wf() && csp.full_solution(sols[i]@)
    &&& forall|i: int, j: int| 0 <= i < j < sols.len() ==> sols[i]@ != sols[j]@
}

/// Every solution of `csp` appears among `sols`.
pub open spec fn lists_every_solution<D: Domain>(csp: &Csp<D>, sols: Seq<Assignment>) -> bool {
    forall|m: Map<Seq<char>, u64>| #[trigger]
        csp.full_solution(m) ==> listed_between(sols, 0, sols.len() as int, m)
}

proof fn lemma_listed_extend(
    s1: Seq<Assignment>,
    s2: Seq<Assignment>,
    lo: int,
    hi: int,
    m: Map<Seq<char>, u64>,
)
    requires
        0 <= lo,
        hi <= s1.len(),
        s2.len() >= s1.len(),
        forall|i: int| 0 <= i < s1.len() ==> s2[i] == s1[i],
        listed_between(s1, lo, hi, m),
    ensures
        listed_between(s2, lo, hi, m),
{
    let i = choose|i: int| lo <= i < hi && s1[i]@ == m;
    assert(s2[i]@ == m);
}

/// A list of distinct solutions that lists every solution has exactly as many
/// entries as the problem has solutions; in particular the solution set of a
/// problem is finite.
pub proof fn lemma_solution_count<D: Domain>(csp: &Csp<D>, sols: Seq<Assignment>)
    requires
        distinct_solutions(csp, sols),
        lists_every_solution(csp, sols),
    ensures
        csp.solution_set().finite(),
        csp.solution_set().len() == sols.len(),
{
    let views = sols.map_values(|a: Assignment| a@);
    assert forall|i: int, j: int| 0 <= i < j < views.len() implies views[i] != views[j] by {
        assert(sols[i]@ != sols[j]@);
    }
    assert(views.no_duplicates());
    assert forall|m: Map<Seq<char>, u64>| csp.solution_set().contains(m) implies views.to_set()
        .contains(m) by {
        assert(csp.full_solution(m));
        let i = choose|i: int| 0 <= i < sols.len() && sols[i]@ == m;
        assert(views[i] == m);
    }
    assert forall|m: Map<Seq<char>, u64>| views.to_set().contains(m) implies csp.solution_set()
        .contains(m) by {
        let i = choose|i: int| 0 <= i < views.len() && views[i] == m;
        assert(sols[i]@ == m);
    }
    assert(views.to_set() =~= csp.solution_set());
    views.unique_seq_to_set();
}

/// Base backtracking solver that the other solvers build upon.
///
/// The search enumerates, in the traversal order fixed by the given
/// variable-selection and value-ordering functions, exactly the assignments
/// that bind every registered variable to a value of its domain and satisfy
/// every constraint.
pub struct BacktrackingSolver;

/// The recursive chronological backtracking procedure.
///
/// Starting from the consistent partial assignment in `a`, appends to `sols`
/// distinct full solutions extending `a`; unless it stops early at the
/// solution limit, it appends every such solution and restores `a`.
#[verifier::loop_isolation(false)]
fn backtrack<D: Domain, VS, VO>(
    a: &mut Assignment,
    csp: &Csp<D>,
    select: VS,
    order: VO,
    sols: &mut Vec<Assignment>,
    limit: usize,
    limited: bool,
) -> (stopped: bool) where
    VS: Fn(&Assignment, &Csp<D>) -> Option<Variable> + Copy,
    VO: Fn(&Variable, &D, &Assignment, &Csp<D>) -> Vec<u64> + Copy,

    requires
        csp.wf(),
        select_fn_ok(select, csp),
        order_fn_ok(order, csp),
        old(a).wf(),
        csp.partial_ok(old(a)@),
        csp.spec_consistent(old(a)@),
        limited ==> old(sols)@.len() <= limit,
    ensures
        final(sols)@.len() >= old(sols)@.len(),
        forall|i: int| 0 <= i < old(sols)@.len() ==> final(sols)@[i] == old(sols)@[i],
        forall|i: int|
            old(sols)@.len() <= i < final(sols)@.len() ==> (#[trigger] final(sols)@[i]).wf()
                && csp.full_solution(final(sols)@[i]@) && old(a)@.submap_of(final(sols)@[i]@),
        forall|i: int, j: int|
            old(sols)@.len() <= i < j < final(sols)@.len()
                ==> final(sols)@[i]@ != final(sols)@[j]@,
        limited ==> final(sols)@.len() <= limit,
        stopped ==> limited && final(sols)@.len() == limit,
        !stopped ==> final(a)@ == old(a)@ && final(a).wf(),
        !stopped ==> forall|m: Map<Seq<char>, u64>| #[trigger]
            csp.full_solution(m) && old(a)@.submap_of(m) ==> listed_between(
                final(sols)@,
                old(sols)@.len() as int,
                final(sols)@.len() as int,
                m,
            ),
        // with the default heuristics, starting from a registration-order
        // prefix, the first recorded solution comes first in traversal order
        select_is_first(select, csp) && order_is_domain(order, csp) && (exists|k0: int|
            0 <= k0 <= csp.n() && prefix_assigned(csp, old(a)@, k0))
            ==> (final(sols)@.len() > old(sols)@.len() ==> forall|m: Map<Seq<char>, u64>|
            #[trigger] csp.full_solution(m) && old(a)@.submap_of(m)
                && m != final(sols)@[old(sols)@.len() as int]@
                ==> lex_before(csp, final(sols)@[old(sols)@.len() as int]@, m)),
    decreases csp.n() - a@.dom().len(),
{
    proof {
        a.lemma_dom_finite();
        csp.lemma_wf_facts();
        csp.names().lemma_no_dup_set_cardinality();
    }
    let ghost exact = select_is_first(select, csp) && order_is_domain(order, csp) && (exists|
        k0: int,
    | 0 <= k0 <= csp.n() && prefix_assigned(csp, a@, k0));
    let ghost k0: int = choose|k0: int| 0 <= k0 <= csp.n() && prefix_assigned(csp, a@, k0);
    if limited && sols.len() >= limit {
        return true;
    }
    let n = csp.num_variables();
    if a.is_complete(n) {
        proof {
            csp.lemma_complete_partial_is_full(a@);
        }
        let copy = a.duplicate();
        sols.push(copy);
        let stopped2 = limited && sols.len() >= limit;
        proof {
            let cur = sols@;
            let base = old(sols)@.len() as int;
            assert(cur[base] == copy);
            assert(a@.submap_of(a@));
            if exact {
                assert forall|m: Map<Seq<char>, u64>| #[trigger]
                    csp.full_solution(m) && old(a)@.submap_of(m) && m != cur[base]@ implies
                lex_before(csp, cur[base]@, m) by {
                    assert(m.dom() =~= a@.dom());
                    assert forall|k: Seq<char>| m.dom().contains(k) implies m[k] == a@[k] by {
                        assert(a@.dom().contains(k));
                    }
                    assert(m =~= a@);
                    assert(false);
                }
            }
            if !stopped2 {
                assert forall|m: Map<Seq<char>, u64>| #[trigger]
                    csp.full_solution(m) && old(a)@.submap_of(m) implies listed_between(
                    cur,
                    base,
                    cur.len() as int,
                    m,
                ) by {
                    assert(m.dom() =~= a@.dom());
                    assert forall|k: Seq<char>| m.dom().contains(k) implies m[k] == a@[k] by {
                        assert(a@.dom().contains(k));
                    }
                    assert(m =~= a@);
                    assert(cur[base]@ == m);
                }
            }
        }
        return stopped2;
    }
    let picked = select(&*a, csp);
    match picked {
        None => {
            proof {
                assert forall|k: Seq<char>| csp.names().to_set().contains(k) implies a@.dom()
                    .contains(k) by {
                    assert(csp.registered(k));
                    assert(a@.contains_key(k));
                }
                assert(a@.dom() =~= csp.names().to_set());
                assert(false);
            }
            false
        },
        Some(v) => {
            proof {
                csp.lemma_idx_of(v@);
            }
            let dom_ref = match csp.get_domain(&v) {
                Some(d) => d,
                None => {
                    proof {
                        assert(false);
                    }
                    return false;
                },
            };
            let ordered = order(&v, dom_ref, &*a, csp);
            proof {
                assert(order_post(dom_ref.vals(), ordered@));
                dom_ref.lemma_inv_distinct();
            }
            proof {
                if exact {
                    // the default selection picks the next prefix variable,
                    // and the default ordering hands back the domain itself
                    let i = choose|i: int|
                        0 <= i < csp.names().len() && csp.names()[i] == v@ && (forall|j: int|
                            0 <= j < i ==> a@.contains_key(#[trigger] csp.names()[j]));
                    if i > k0 {
                        assert(a@.contains_key(csp.names()[k0]));
                        assert(!a@.contains_key(csp.names()[k0]));
                    }
                    if i < k0 {
                        assert(a@.contains_key(csp.names()[i]));
                        assert(!a@.contains_key(v@));
                    }
                    assert(v@ == csp.names()[k0]);
                    assert(k0 < csp.n());
                    assert(ordered@ == csp.dom_of(v@));
                }
            }
            let ghost a0 = a@;
            let ghost sols0 = sols@;
            let mut k: usize = 0;
            let mut stopped = false;
            while k < ordered.len() && !stopped
                invariant
                    k <= ordered@.len(),
                    sols@.len() >= sols0.len(),
                    forall|i: int| 0 <= i < sols0.len() ==> sols@[i] == sols0[i],
                    forall|i: int|
                        sols0.len() <= i < sols@.len() ==> (#[trigger] sols@[i]).wf()
                            && csp.full_solution(sols@[i]@) && a0.submap_of(sols@[i]@)
                            && picks_value(sols@[i]@, v@, ordered@, k as int),
                    forall|i: int, j: int|
                        sols0.len() <= i < j < sols@.len() ==> sols@[i]@ != sols@[j]@,
                    limited ==> sols@.len() <= limit,
                    stopped ==> limited && sols@.len() == limit,
                    !stopped ==> a@ == a0 && a.wf(),
                    !stopped ==> forall|m: Map<Seq<char>, u64>| #[trigger]
                        csp.full_solution(m) && a0.submap_of(m) && picks_value(
                            m,
                            v@,
                            ordered@,
                            k as int,
                        ) ==> listed_between(sols@, sols0.len() as int, sols@.len() as int, m),
                    exact ==> (sols@.len() > sols0.len() ==> forall|m: Map<Seq<char>, u64>|
                        #[trigger] csp.full_solution(m) && a0.submap_of(m) && m != sols@[
                            sols0.len() as int
                        ]@ ==> lex_before(csp, sols@[sols0.len() as int]@, m)),
                decreases ordered@.len() - k,
            {
                let x = ordered[k];
                let ghost a1 = a0.insert(v@, x);
                a.assign(v.clone(), x);
                proof {
                    assert(ordered@.contains(x)) by {
                        assert(ordered@[k as int] == x);
                    }
                    assert(csp.dom_of(v@).contains(x));
                    assert forall|key: Seq<char>| a1.contains_key(key) implies csp.registered(key)
                        && csp.dom_of(key).contains(a1[key]) by {
                        if key != v@ {
                            assert(a0.contains_key(key));
                        }
                    }
                    assert(csp.partial_ok(a1));
                    assert(a0.submap_of(a1));
                }
                let consistent_here = csp.is_consistent(&*a);
                let ghost sols_before = sols@;
                let mut st = false;
                if consistent_here {
                    proof {
                        a.lemma_dom_finite();
                        assert(a@.dom().contains(v@));
                        assert(!a0.dom().contains(v@));
                        assert(a0.dom().subset_of(a@.dom()));
                        vstd::set_lib::lemma_len_subset(a0.dom(), a@.dom());
                        assert(a@.dom().len() > a0.dom().len()) by {
                            if a@.dom().len() == a0.dom().len() {
                                vstd::set_lib::lemma_subset_equality(a0.dom(), a@.dom());
                                assert(a0.dom().contains(v@));
                            }
                        }
                        assert forall|key: Seq<char>| a@.dom().contains(key) implies csp.names()
                            .to_set().contains(key) by {
                            assert(a@.contains_key(key));
                            assert(csp.registered(key));
                        }
                        assert(a@.dom().subset_of(csp.names().to_set()));
                        vstd::set_lib::lemma_len_subset(a@.dom(), csp.names().to_set());
                        assert(a@.dom().len() <= csp.n());
                    }
                    st = backtrack(a, csp, select, order, sols, limit, limited);
                    proof {
                        // every solution the recursive call recorded binds the
                        // branch variable to the value just tried
                        assert(forall|i: int|
                            sols_before.len() <= i < sols@.len() ==> (#[trigger] sols@[i]).wf()
                                && csp.full_solution(sols@[i]@) && a1.submap_of(sols@[i]@));
                        assert forall|i: int|
                            sols_before.len() <= i < sols@.len() implies (#[trigger] sols@[i]@)[v@]
                            == ordered@[k as int] by {
                            assert(a1.dom().contains(v@));
                            assert(a1.submap_of(sols@[i]@));
                            assert(sols@[i]@[v@] == a1[v@]);
                            assert(a1[v@] == x);
                        }
                    }
                } else {
                    proof {
                        // no solution extends an inconsistent assignment
                        assert forall|m: Map<Seq<char>, u64>|
                            csp.full_solution(m) && a1.submap_of(m) implies false by {
                            assert forall|ci: int|
                                0 <= ci < csp.cons().len() implies (#[trigger] csp.cons()[ci])
                                .spec_satisfied(a1) by {
                                lemma_satisfied_submap(&csp.cons()[ci], a1, m);
                            }
                            assert(csp.spec_consistent(a1));
                        }
                    }
                }
                if st {
                    stopped = true;
                    proof {
                        assert forall|i: int|
                            sols0.len() <= i < sols@.len() implies (#[trigger] sols@[i]).wf()
                                && csp.full_solution(sols@[i]@) && a0.submap_of(sols@[i]@)
                                && picks_value(sols@[i]@, v@, ordered@, k + 1) by {
                            if i < sols_before.len() {
                                assert(sols@[i] == sols_before[i]);
                                assert(picks_value(sols@[i]@, v@, ordered@, k as int));
                                let q = choose|q: int|
                                    0 <= q < k && sols@[i]@[v@] == ordered@[q];
                                assert(0 <= q < k + 1 && sols@[i]@[v@] == ordered@[q]);
                            } else {
                                assert(a1.submap_of(sols@[i]@));
                                assert(a0.submap_of(sols@[i]@)) by {
                                    assert forall|key: Seq<char>| a0.dom().contains(key) implies
                                        sols@[i]@.dom().contains(key) && a0[key]
                                        == sols@[i]@[key] by {
                                        assert(a1.dom().contains(key));
                                        assert(a1[key] == a0[key]);
                                    }
                                }
                                assert(a1.dom().contains(v@));
                                assert(sols@[i]@[v@] == a1[v@]);
                                assert(sols@[i]@[v@] == ordered@[k as int]);
                                assert(picks_value(sols@[i]@, v@, ordered@, k + 1));
                            }
                        }
                        lemma_distinct_after_branch(csp, sols@, sols0.len() as int,
                            sols_before.len() as int, v@, ordered@, k as int);
                    }
                } else {
                    a.unassign(&v);
                    proof {
                        assert(a@ =~= a0);
                        assert forall|i: int|
                            sols0.len() <= i < sols@.len() implies (#[trigger] sols@[i]).wf()
                                && csp.full_solution(sols@[i]@) && a0.submap_of(sols@[i]@)
                                && picks_value(sols@[i]@, v@, ordered@, k + 1) by {
                            if i < sols_before.len() {
                                assert(sols@[i] == sols_before[i]);
                                let q = choose|q: int|
                                    0 <= q < k && sols@[i]@[v@] == ordered@[q];
                                assert(0 <= q < k + 1 && sols@[i]@[v@] == ordered@[q]);
                            } else {
                                assert(a1.submap_of(sols@[i]@));
                                assert(a0.submap_of(sols@[i]@)) by {
                                    assert forall|key: Seq<char>| a0.dom().contains(key) implies
                                        sols@[i]@.dom().contains(key) && a0[key]
                                        == sols@[i]@[key] by {
                                        assert(a1.dom().contains(key));
                                        assert(a1[key] == a0[key]);
                                    }
                                }
                                assert(a1.dom().contains(v@));
                                assert(sols@[i]@[v@] == a1[v@]);
                                assert(sols@[i]@[v@] == ordered@[k as int]);
                                assert(picks_value(sols@[i]@, v@, ordered@, k + 1));
                            }
                        }
                        lemma_distinct_after_branch(csp, sols@, sols0.len() as int,
                            sols_before.len() as int, v@, ordered@, k as int);
                        // completeness for values up to and including ordered[k]
                        assert forall|m: Map<Seq<char>, u64>| #[trigger]
                            csp.full_solution(m) && a0.submap_of(m) && picks_value(
                                m,
                                v@,
                                ordered@,
                                k + 1,
                            ) implies listed_between(
                            sols@,
                            sols0.len() as int,
                            sols@.len() as int,
                            m,
                        ) by {
                            let q = choose|q: int| 0 <= q < k + 1 && m[v@] == ordered@[q];
                            if q < k {
                                assert(picks_value(m, v@, ordered@, k as int));
                                lemma_listed_extend(
                                    sols_before,
                                    sols@,
                                    sols0.len() as int,
                                    sols_before.len() as int,
                                    m,
                                );
                            } else {
                                // m extends a1, covered by the recursive call
                                assert(m[v@] == ordered@[k as int]);
                                assert(a1.submap_of(m)) by {
                                    assert forall|key: Seq<char>| a1.dom().contains(key) implies
                                        m.dom().contains(key) && a1[key] == m[key] by {
                                        if key == v@ {
                                            assert(m.dom() == csp.names().to_set());
                                            assert(csp.names().to_set().contains(v@));
                                        } else {
                                            assert(a0.dom().contains(key));
                                        }
                                    }
                                }
                                if consistent_here {
                                    assert(listed_between(
                                        sols@,
                                        sols_before.len() as int,
                                        sols@.len() as int,
                                        m,
                                    ));
                                    let i = choose|i: int|
                                        sols_before.len() <= i < sols@.len() && sols@[i]@ == m;
                                    assert(sols0.len() <= i < sols@.len() && sols@[i]@ == m);
                                }
                            }
                        }
                    }
                }
                proof {
                    if exact && sols@.len() > sols0.len() {
                        let first = sols@[sols0.len() as int]@;
                        if sols_before.len() > sols0.len() {
                            // the first recorded solution predates this branch
                            // and was kept in place; the claim carries over
                            assert(sols@[sols0.len() as int] == sols_before[sols0.len() as int]);
                        } else {
                            // this branch recorded the first solution: it
                            // beats every other extension of the entry state
                            assert(consistent_here);
                            assert(prefix_assigned(csp, a1, k0 + 1)) by {
                                assert forall|j: int| 0 <= j < k0 + 1 implies a1.contains_key(
                                    #[trigger] csp.names()[j],
                                ) by {
                                    if j < k0 {
                                        assert(a0.contains_key(csp.names()[j]));
                                    }
                                }
                                assert forall|j: int|
                                    k0 + 1 <= j < csp.n() implies !a1.contains_key(
                                    #[trigger] csp.names()[j],
                                ) by {
                                    assert(!a0.contains_key(csp.names()[j]));
                                    if csp.names()[j] == v@ {
                                        assert(csp.names()[j] == csp.names()[k0]);
                                    }
                                }
                            }
                            assert(exists|kk: int|
                                0 <= kk <= csp.n() && prefix_assigned(csp, a1, kk));
                            assert((#[trigger] sols@[sols0.len() as int]).wf());
                            assert(a1.submap_of(first));
                            assert(a0.submap_of(first));
                            assert(first[v@] == ordered@[k as int]) by {
                                assert(a1.dom().contains(v@));
                                assert(first[v@] == a1[v@]);
                            }
                            assert forall|m: Map<Seq<char>, u64>| #[trigger]
                                csp.full_solution(m) && a0.submap_of(m) && m != first implies
                            lex_before(csp, first, m) by {
                                assert(m.dom() == csp.names().to_set());
                                assert(csp.names().to_set().contains(v@)) by {
                                    assert(csp.names()[k0] == v@);
                                }
                                assert(m.contains_key(v@));
                                assert(csp.dom_of(v@).contains(m[v@]));
                                let q = choose|q: int|
                                    0 <= q < csp.dom_of(v@).len() && csp.dom_of(v@)[q] == m[v@];
                                if q < k as int {
                                    // values tried earlier admit no extension
                                    assert(picks_value(m, v@, ordered@, k as int)) by {
                                        assert(m[v@] == ordered@[q]);
                                    }
                                    assert(listed_between(
                                        sols_before,
                                        sols0.len() as int,
                                        sols_before.len() as int,
                                        m,
                                    ));
                                    let t = choose|t: int|
                                        sols0.len() <= t < sols_before.len() && sols_before[t]@
                                            == m;
                                    assert(false);
                                } else if q == k as int {
                                    // the branch just searched: its first
                                    // entry beats every solution of the branch
                                    assert(m[v@] == ordered@[k as int]);
                                    assert(a1.submap_of(m)) by {
                                        assert forall|key: Seq<char>| #[trigger]
                                            a1.dom().contains(key) implies m.dom().contains(key)
                                            && a1[key] == m[key] by {
                                            if key == v@ {
                                                assert(csp.names().to_set().contains(v@));
                                            } else {
                                                assert(a0.dom().contains(key));
                                                crate::forward_checking::lemma_submap_key(
                                                    a0,
                                                    m,
                                                    key,
                                                );
                                            }
                                        }
                                    }
                                    assert(lex_before(csp, first, m));
                                } else {
                                    // later values differ at the branch
                                    // variable, at an earlier domain position
                                    lemma_value_pos(csp, v@, k as int);
                                    lemma_value_pos(csp, v@, q);
                                    assert(value_pos(csp, v@, first[v@]) == k as int);
                                    assert(value_pos(csp, v@, m[v@]) == q);
                                    assert forall|j: int| 0 <= j < k0 implies first[
                                        #[trigger] csp.names()[j]
                                    ] == m[csp.names()[j]] by {
                                        assert(a0.contains_key(csp.names()[j]));
                                        assert(a0.dom().contains(csp.names()[j]));
                                        crate::forward_checking::lemma_submap_key(
                                            a0,
                                            first,
                                            csp.names()[j],
                                        );
                                        crate::forward_checking::lemma_submap_key(
                                            a0,
                                            m,
                                            csp.names()[j],
                                        );
                                    }
                                    assert(0 <= k0 < csp.n() && value_pos(
                                        csp,
                                        csp.names()[k0],
                                        first[csp.names()[k0]],
                                    ) < value_pos(csp, csp.names()[k0], m[csp.names()[k0]]));
                                    assert(lex_before(csp, first, m));
                                }
                            }
                        }
                    }
                }
                k += 1;
            }
            proof {
                if !stopped {
                    assert forall|m: Map<Seq<char>, u64>| #[trigger]
                        csp.full_solution(m) && a0.submap_of(m) implies listed_between(
                        sols@,
                        sols0.len() as int,
                        sols@.len() as int,
                        m,
                    ) by {
                        assert(m.dom() == csp.names().to_set());
                        assert(csp.names().to_set().contains(v@));
                        assert(m.contains_key(v@));
                        assert(csp.dom_of(v@).contains(m[v@]));
                        assert(ordered@.contains(m[v@]));
                        let q = choose|q: int| 0 <= q < ordered@.len() && ordered@[q] == m[v@];
                        assert(picks_value(m, v@, ordered@, k as int));
                    }
                }
            }
            stopped
        },
    }
}

/// Solutions recorded in different branches of the value loop differ: the
/// earlier ones bind the branch variable to an earlier ordered value.
proof fn lemma_distinct_after_branch<D: Domain>(
    csp: &Csp<D>,
    sols: Seq<Assignment>,
    base: int,
    mid: int,
    key: Seq<char>,
    vals: Seq<u64>,
    k: int,
)
    requires
        0 <= base <= mid <= sols.len(),
        0 <= k < vals.len(),
        vals.no_duplicates(),
        forall|i: int, j: int| base <= i < j < mid ==> sols[i]@ != sols[j]@,
        forall|i: int, j: int| mid <= i < j < sols.len() ==> sols[i]@ != sols[j]@,
        forall|i: int| base <= i < mid ==> picks_value(#[trigger] sols[i]@, key, vals, k),
        forall|i: int| mid <= i < sols.len() ==> (#[trigger] sols[i]@)[key] == vals[k],
    ensures
        forall|i: int, j: int| base <= i < j < sols.len() ==> sols[i]@ != sols[j]@,
{
    assert forall|i: int, j: int| base <= i < j < sols.len() implies sols[i]@ != sols[j]@ by {
        if i < mid && j >= mid {
            let q = choose|q: int| 0 <= q < k && sols[i]@[key] == vals[q];
            assert(vals[q] != vals[k]);
            assert(sols[i]@[key] != sols[j]@[key]);
        }
    }
}

impl BacktrackingSolver {
    /// Run the search from the empty assignment and collect solutions until
    /// the limit, if any, is reached.
    fn search<D: Domain, VS, VO>(
        csp: &Csp<D>,
        select_variable: VS,
        order_values: VO,
        limit: usize,
        limited: bool,
    ) -> (sols: Vec<Assignment>) where
        VS: Fn(&Assignment, &Csp<D>) -> Option<Variable> + Copy,
        VO: Fn(&Variable, &D, &Assignment, &Csp<D>) -> Vec<u64> + Copy,

        requires
            csp.wf(),
            select_fn_ok(select_variable, csp),
            order_fn_ok(order_values, csp),
        ensures
            distinct_solutions(csp, sols@),
            limited ==> sols@.len() <= limit,
            (!limited || sols@.len() < limit) ==> lists_every_solution(csp, sols@),
            select_is_first(select_variable, csp) && order_is_domain(order_values, csp) ==> (
            sols@.len() > 0 ==> forall|m: Map<Seq<char>, u64>| #[trigger]
                csp.full_solution(m) && m != sols@[0]@ ==> lex_before(csp, sols@[0]@, m)),
    {
        let mut assignment = Assignment::new();
        if !csp.is_consistent(&assignment) {
            proof {
                assert forall|m: Map<Seq<char>, u64>| #[trigger]
                    csp.full_solution(m) implies false by {
                    assert forall|ci: int|
                        0 <= ci < csp.cons().len() implies (#[trigger] csp.cons()[ci])
                        .spec_satisfied(assignment@) by {
                        assert(assignment@.submap_of(m));
                        lemma_satisfied_submap(&csp.cons()[ci], assignment@, m);
                    }
                }
            }
            return Vec::new();
        }
        let mut sols: Vec<Assignment> = Vec::new();
        proof {
            assert(prefix_assigned(csp, assignment@, 0));
        }
        let stopped = backtrack(
            &mut assignment,
            csp,
            select_variable,
            order_values,
            &mut sols,
            limit,
            limited,
        );
        proof {
            if select_is_first(select_variable, csp) && order_is_domain(order_values, csp)
                && sols@.len() > 0 {
                assert forall|m: Map<Seq<char>, u64>| #[trigger]
                    csp.full_solution(m) && m != sols@[0]@ implies lex_before(
                    csp,
                    sols@[0]@,
                    m,
                ) by {
                    assert(Map::<Seq<char>, u64>::empty().submap_of(m));
                }
            }
            if !stopped {
                assert forall|m: Map<Seq<char>, u64>| #[trigger]
                    csp.full_solution(m) implies listed_between(
                    sols@,
                    0,
                    sols@.len() as int,
                    m,
                ) by {
                    assert(Map::<Seq<char>, u64>::empty().submap_of(m));
                }
            }
        }
        sols
    }

    /// Find a single solution using the provided heuristics: the first
    /// solution of the traversal, or nothing exactly when the problem has no
    /// solution within its domains.
    pub fn find_solution<D: Domain, VS, VO>(
        csp: &Csp<D>,
        select_variable: VS,
        order_values: VO,
    ) -> (r: Option<Assignment>) where
        VS: Fn(&Assignment, &Csp<D>) -> Option<Variable> + Copy,
        VO: Fn(&Variable, &D, &Assignment, &Csp<D>) -> Vec<u64> + Copy,

        requires
            csp.wf(),
            select_fn_ok(select_variable, csp),
            order_fn_ok(order_values, csp),
        ensures
            match r {
                Some(a) => a.wf() && csp.full_solution(a@),
                None => forall|m: Map<Seq<char>, u64>| !csp.full_solution(m),
            },
            select_is_first(select_variable, csp) && order_is_domain(order_values, csp) ==> (
            r matches Some(a) ==> forall|m: Map<Seq<char>, u64>| #[trigger]
                csp.full_solution(m) && m != a@ ==> lex_before(csp, a@, m)),
    {
        let mut sols = Self::search(csp, select_variable, order_values, 1, true);
        let ghost sols0 = sols@;
        let r = sols.pop();
        proof {
            if r is None {
                assert(sols0.len() == 0);
                assert forall|m: Map<Seq<char>, u64>| !csp.full_solution(m) by {
                    if csp.full_solution(m) {
                        assert(listed_between(sols0, 0, 0, m));
                    }
                }
            } else {
                assert(r.unwrap() == sols0[sols0.len() - 1]);
                assert(sols0[sols0.len() - 1].wf());
            }
        }
        r
    }

    /// Find every solution using the provided heuristics: the returned list
    /// holds, without duplicates, exactly the assignments that bind every
    /// variable inside its domain and satisfy every constraint.
    pub fn find_all_solutions<D: Domain, VS, VO>(
        csp: &Csp<D>,
        select_variable: VS,
        order_values: VO,
    ) -> (sols: Vec<Assignment>) where
        VS: Fn(&Assignment, &Csp<D>) -> Option<Variable> + Copy,
        VO: Fn(&Variable, &D, &Assignment, &Csp<D>) -> Vec<u64> + Copy,

        requires
            csp.wf(),
            select_fn_ok(select_variable, csp),
            order_fn_ok(order_values, csp),
        ensures
            distinct_solutions(csp, sols@),
            lists_every_solution(csp, sols@),
            csp.solution_set().finite(),
            csp.solution_set().len() == sols@.len(),
    {
        let sols = Self::search(csp, select_variable, order_values, 0, false);
        proof {
            lemma_solution_count(csp, sols@);
        }
        sols
    }

    /// Find at most `limit` solutions, in discovery order. With `limit = 0`
    /// the search is not entered at all. Fewer than `limit` solutions are
    /// returned only when the returned list holds every solution.
    pub fn find_limited_solutions<D: Domain, VS, VO>(
        csp: &Csp<D>,
        select_variable: VS,
        order_values: VO,
        limit: usize,
    ) -> (sols: Vec<Assignment>) where
        VS: Fn(&Assignment, &Csp<D>) -> Option<Variable> + Copy,
        VO: Fn(&Variable, &D, &Assignment, &Csp<D>) -> Vec<u64> + Copy,

        requires
            csp.wf(),
            select_fn_ok(select_variable, csp),
            order_fn_ok(order_values, csp),
        ensures
            distinct_solutions(csp, sols@),
            sols@.len() <= limit,
            sols@.len() < limit ==> lists_every_solution(csp, sols@) && csp.solution_set().len()
                == sols@.len() && csp.solution_set().finite(),
    {
        if limit == 0 {
            return Vec::new();
        }
        let sols = Self::search(csp, select_variable, order_values, limit, true);
        proof {
            if sols@.len() < limit {
                lemma_solution_count(csp, sols@);
            }
        }
        sols
    }
}

impl BacktrackingSolver {
    /// Simple backtracking search: first unassigned variable, domain order.
    /// The returned solution is the least in the traversal order that the
    /// registration order of the variables and each domain's own value order
    /// fix.
    pub fn backtrack_search<D: Domain>(csp: &Csp<D>) -> (r: Option<Assignment>)
        requires
            csp.wf(),
        ensures
            match r {
                Some(a) => a.wf() && csp.full_solution(a@),
                None => forall|m: Map<Seq<char>, u64>| !csp.full_solution(m),
            },
            r matches Some(a) ==> forall|m: Map<Seq<char>, u64>| #[trigger]
                csp.full_solution(m) && m != a@ ==> lex_before(csp, a@, m),
    {
        Self::find_solution(csp, crate::utils::first_unassigned, crate::utils::domain_order)
    }

    /// MRV search: minimum remaining values selection, domain order.
    pub fn mrv_search<D: Domain>(csp: &Csp<D>) -> (r: Option<Assignment>)
        requires
            csp.wf(),
        ensures
            match r {
                Some(a) => a.wf() && csp.full_solution(a@),
                None => forall|m: Map<Seq<char>, u64>| !csp.full_solution(m),
            },
    {
        Self::find_solution(
            csp,
            crate::heuristics::minimum_remaining_values,
            crate::utils::domain_order,
        )
    }

    /// LCV search: first unassigned variable, least constraining value order.
    pub fn lcv_search<D: Domain>(csp: &Csp<D>) -> (r: Option<Assignment>)
        requires
            csp.wf(),
        ensures
            match r {
                Some(a) => a.wf() && csp.full_solution(a@),
                None => forall|m: Map<Seq<char>, u64>| !csp.full_solution(m),
            },
    {
        Self::find_solution(
            csp,
            crate::utils::first_unassigned,
            crate::heuristics::least_constraining_value,
        )
    }

    /// Combined MRV and LCV search.
    pub fn mrv_lcv_search<D: Domain>(csp: &Csp<D>) -> (r: Option<Assignment>)
        requires
            csp.wf(),
        ensures
            match r {
                Some(a) => a.wf() && csp.full_solution(a@),
                None => forall|m: Map<Seq<char>, u64>| !csp.full_solution(m),
            },
    {
        Self::find_solution(
            csp,
            crate::heuristics::minimum_remaining_values,
            crate::heuristics::least_constraining_value,
        )
    }

    /// Find all solutions using simple backtracking.
    pub fn find_all_backtracking<D: Domain>(csp: &Csp<D>) -> (sols: Vec<Assignment>)
        requires
            csp.wf(),
        ensures
            distinct_solutions(csp, sols@),
            lists_every_solution(csp, sols@),
            csp.solution_set().finite(),
            csp.solution_set().len() == sols@.len(),
    {
        Self::find_all_solutions(csp, crate::utils::first_unassigned, crate::utils::domain_order)
    }

    /// Find all solutions using the MRV heuristic.
    pub fn find_all_mrv<D: Domain>(csp: &Csp<D>) -> (sols: Vec<Assignment>)
        requires
            csp.wf(),
        ensures
            distinct_solutions(csp, sols@),
            lists_every_solution(csp, sols@),
            csp.solution_set().finite(),
            csp.solution_set().len() == sols@.len(),
    {
        Self::find_all_solutions(
            csp,
            crate::heuristics::minimum_remaining_values,
            crate::utils::domain_order,
        )
    }

    /// Find all solutions using the LCV heuristic.
    pub fn find_all_lcv<D: Domain>(csp: &Csp<D>) -> (sols: Vec<Assignment>)
        requires
            csp.wf(),
        ensures
            distinct_solutions(csp, sols@),
            lists_every_solution(csp, sols@),
            csp.solution_set().finite(),
            csp.solution_set().len() == sols@.len(),
    {
        Self::find_all_solutions(
            csp,
            crate::utils::first_unassigned,
            crate::heuristics::least_constraining_value,
        )
    }

    /// Find all solutions using the combined MRV and LCV heuristics.
    pub fn find_all_mrv_lcv<D: Domain>(csp: &Csp<D>) -> (sols: Vec<Assignment>)
        requires
            csp.wf(),
        ensures
            distinct_solutions(csp, sols@),
            lists_every_solution(csp, sols@),
            csp.solution_set().finite(),
            csp.solution_set().len() == sols@.len(),
    {
        Self::find_all_solutions(
            csp,
            crate::heuristics::minimum_remaining_values,
            crate::heuristics::least_constraining_value,
        )
    }
}

} // verus!
