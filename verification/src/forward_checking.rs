use vstd::prelude::*;
use vstd::pervasive::VecAdditionalExecFns;
use crate::assignment::Assignment;
use crate::constraint::lemma_satisfied_submap;
use crate::csp::Csp;
use crate::domain::Domain;
use crate::variable::Variable;

verus! {

broadcast use vstd::seq_lib::group_seq_properties;

/// The live domain table of a propagating solver: one well-formed domain per
/// registered variable.
pub open spec fn domains_ok<D: Domain>(csp: &Csp<D>, doms: Seq<D>) -> bool {
    doms.len() == csp.n() && (forall|i: int| 0 <= i < doms.len() ==> (#[trigger] doms[i]).inv())
}

/// The assignment `s` stays inside the domain table: every registered
/// variable's value in `s` lies in the corresponding live domain.
pub open spec fn values_in<D: Domain>(csp: &Csp<D>, doms: Seq<D>, s: Map<Seq<char>, u64>) -> bool {
    forall|i: int| 0 <= i < doms.len() ==> (#[trigger] doms[i]).vals().contains(s[csp.names()[i]])
}

/// The domain table still covers every solution extending `m`: pruning so far
/// has lost no solution of this branch.
pub open spec fn covers_extensions<D: Domain>(
    csp: &Csp<D>,
    doms: Seq<D>,
    m: Map<Seq<char>, u64>,
) -> bool {
    forall|s: Map<Seq<char>, u64>| #[trigger]
        csp.full_solution(s) && m.submap_of(s) ==> values_in(csp, doms, s)
}

/// The live domains only narrow the declared ones.
pub open spec fn domains_subset<D: Domain>(csp: &Csp<D>, doms: Seq<D>) -> bool {
    forall|i: int, x: u64|
        0 <= i < doms.len() && (#[trigger] doms[i].vals().contains(x)) ==> csp.doms()[i].contains(
            x,
        )
}

/// Two domain tables with pointwise equal values admit the same assignments.
pub(crate) proof fn lemma_values_in_congruent<D: Domain>(
    csp: &Csp<D>,
    d1: Seq<D>,
    d2: Seq<D>,
    s: Map<Seq<char>, u64>,
)
    requires
        d1.len() == d2.len(),
        d1.map_values(|d: D| d.vals()) == d2.map_values(|d: D| d.vals()),
        values_in(csp, d1, s),
    ensures
        values_in(csp, d2, s),
{
    assert forall|i: int| 0 <= i < d2.len() implies (#[trigger] d2[i]).vals().contains(
        s[csp.names()[i]],
    ) by {
        assert(d1.map_values(|d: D| d.vals())[i] == d2.map_values(|d: D| d.vals())[i]);
        assert(d1[i].vals().contains(s[csp.names()[i]]));
    }
}

/// A bound key of a sub-assignment keeps its value in any extension.
pub(crate) proof fn lemma_submap_key(
    m1: Map<Seq<char>, u64>,
    m2: Map<Seq<char>, u64>,
    k: Seq<char>,
)
    requires
        m1.submap_of(m2),
        m1.dom().contains(k),
    ensures
        m2.dom().contains(k),
        m1[k] == m2[k],
{
    assert(m2.dom().contains(k));
}

/// A map extending the larger of two nested partial assignments extends the
/// smaller one as well.
pub(crate) proof fn lemma_extension_submap(
    a0: Map<Seq<char>, u64>,
    a1: Map<Seq<char>, u64>,
    s: Map<Seq<char>, u64>,
)
    requires
        a0.submap_of(a1),
        a1.submap_of(s),
    ensures
        a0.submap_of(s),
{
    vstd::map_lib::lemma_submap_of_trans(a0, a1, s);
}

/// An independent copy of a domain table.
#[verifier::loop_isolation(false)]
pub(crate) fn duplicate_domains<D: Domain>(doms: &Vec<D>) -> (r: Vec<D>)
    requires
        forall|i: int| 0 <= i < doms@.len() ==> (#[trigger] doms@[i]).inv(),
    ensures
        r@.len() == doms@.len(),
        forall|i: int|
            0 <= i < r@.len() ==> (#[trigger] r@[i]).inv() && r@[i].vals() == doms@[i].vals(),
{
    let mut r: Vec<D> = Vec::new();
    let mut i: usize = 0;
    while i < doms.len()
        invariant
            i <= doms@.len(),
            r@.len() == i,
            forall|j: int|
                0 <= j < i ==> (#[trigger] r@[j]).inv() && r@[j].vals() == doms@[j].vals(),
        decreases doms@.len() - i,
    {
        r.push(doms[i].duplicate());
        i += 1;
    }
    r
}

/// The initial domain table of a problem: each variable's declared domain.
#[verifier::loop_isolation(false)]
pub(crate) fn initial_domains<D: Domain>(csp: &Csp<D>) -> (r: Vec<D>)
    requires
        csp.wf(),
    ensures
        domains_ok(csp, r@),
        domains_subset(csp, r@),
        forall|i: int| 0 <= i < r@.len() ==> (#[trigger] r@[i]).vals() == csp.doms()[i],
{
    proof {
        csp.lemma_wf_facts();
    }
    let n = csp.num_variables();
    let mut r: Vec<D> = Vec::new();
    let mut i: usize = 0;
    while i < n
        invariant
            i <= csp.n(),
            r@.len() == i,
            forall|j: int|
                0 <= j < i ==> (#[trigger] r@[j]).inv() && r@[j].vals() == csp.doms()[j],
        decreases csp.n() - i,
    {
        r.push(csp.domain_at(i).duplicate());
        i += 1;
    }
    proof {
        assert forall|i2: int, x: u64|
            0 <= i2 < r@.len() && (#[trigger] r@[i2].vals().contains(x)) implies csp.doms()[i2].contains(x) by {
            assert(r@[i2].vals() == csp.doms()[i2]);
        }
    }
    r
}

/// The initial domain table covers every solution.
pub(crate) proof fn lemma_initial_covers<D: Domain>(csp: &Csp<D>, doms: Seq<D>)
    requires
        csp.wf(),
        domains_ok(csp, doms),
        forall|i: int| 0 <= i < doms.len() ==> (#[trigger] doms[i]).vals() == csp.doms()[i],
    ensures
        covers_extensions(csp, doms, Map::<Seq<char>, u64>::empty()),
{
    assert forall|s: Map<Seq<char>, u64>| #[trigger]
        csp.full_solution(s) && Map::<Seq<char>, u64>::empty().submap_of(s) implies values_in(
        csp,
        doms,
        s,
    ) by {
        assert forall|i: int| 0 <= i < doms.len() implies (#[trigger] doms[i]).vals().contains(
            s[csp.names()[i]],
        ) by {
            let k = csp.names()[i];
            assert(csp.names().to_set().contains(k)) by {
                assert(csp.names()[i] == k);
            }
            assert(s.dom().contains(k));
            assert(s.contains_key(k));
            assert(csp.dom_of(k).contains(s[k]));
            csp.lemma_idx_of(k);
            assert(csp.idx_of(k) == i);
        }
    }
}

/// A solver that combines backtracking with forward checking: after each
/// tentative assignment the domains of the still-unassigned neighbors are
/// filtered down to the values that keep the touched constraints satisfied,
/// and a wiped-out domain rolls the branch back early.
pub struct ForwardCheckingSolver;

/// The candidate value `y` for the neighbor named `u` survives the filters of
/// the constraints below `upto` after the variable named `v` was assigned:
/// each of those constraints whose scope holds both variables accepts the
/// assignment extended with `u` bound to `y`.
pub open spec fn neighbor_keeps_upto<D: Domain>(
    csp: &Csp<D>,
    m: Map<Seq<char>, u64>,
    v: Seq<char>,
    u: Seq<char>,
    y: u64,
    upto: int,
) -> bool {
    forall|ci: int|
        0 <= ci < upto && (#[trigger] csp.cons()[ci]).scope().contains(v) && csp.cons()[
            ci
        ].scope().contains(u) ==> csp.cons()[ci].spec_satisfied(m.insert(u, y))
}

/// The candidate value `y` for the neighbor named `u` survives forward
/// checking after the variable named `v` was assigned.
pub open spec fn neighbor_keeps<D: Domain>(
    csp: &Csp<D>,
    m: Map<Seq<char>, u64>,
    v: Seq<char>,
    u: Seq<char>,
    y: u64,
) -> bool {
    neighbor_keeps_upto(csp, m, v, u, y, csp.cons().len() as int)
}

/// Some constraint below `upto` names both variables in its scope.
pub open spec fn shares_below<D: Domain>(
    csp: &Csp<D>,
    v: Seq<char>,
    u: Seq<char>,
    upto: int,
) -> bool {
    exists|ci: int|
        0 <= ci < upto && (#[trigger] csp.cons()[ci]).scope().contains(v) && csp.cons()[
            ci
        ].scope().contains(u)
}

/// Some constraint names both variables in its scope.
pub open spec fn shares_constraint<D: Domain>(csp: &Csp<D>, v: Seq<char>, u: Seq<char>) -> bool {
    shares_below(csp, v, u, csp.cons().len() as int)
}

/// The scope prefix below `j` mentions the name `u`.
pub open spec fn scope_prefix_has(scope: Seq<Seq<char>>, j: int, u: Seq<char>) -> bool {
    exists|w: int| 0 <= w < j && #[trigger] scope[w] == u
}

/// No candidate value of the neighbor survives forward checking: its live
/// domain is wiped out.
pub open spec fn neighbor_wiped<D: Domain>(
    csp: &Csp<D>,
    dom_vals: Seq<u64>,
    m: Map<Seq<char>, u64>,
    v: Seq<char>,
    u: Seq<char>,
) -> bool {
    forall|y: u64| #[trigger] dom_vals.contains(y) ==> !neighbor_keeps(csp, m, v, u, y)
}

/// Filter the live domains of the unassigned neighbors of `var` down to the
/// values that keep every constraint involving `var` satisfied.
///
/// On success every such neighbor's live domain holds exactly its entry
/// values accepted by all the constraints it shares with `var`, and none is
/// empty; all other domains are untouched. Failure reports that some
/// neighbor's domain was wiped out, so no solution lies in this branch.
#[verifier::loop_isolation(false)]
#[verifier::rlimit(60)]
fn forward_check<D: Domain>(
    var: &Variable,
    assignment: &Assignment,
    csp: &Csp<D>,
    doms: &mut Vec<D>,
) -> (ok: bool)
    requires
        csp.wf(),
        assignment.wf(),
        domains_ok(csp, old(doms)@),
    ensures
        domains_ok(csp, final(doms)@),
        forall|i: int, x: u64|
            0 <= i < final(doms)@.len() && (#[trigger] final(doms)@[i].vals().contains(x)) ==> old(
                doms,
            )@[i].vals().contains(x),
        forall|s: Map<Seq<char>, u64>| #[trigger]
            csp.full_solution(s) && assignment@.submap_of(s) && values_in(csp, old(doms)@, s)
                ==> values_in(csp, final(doms)@, s),
        !ok ==> forall|s: Map<Seq<char>, u64>| #[trigger]
            csp.full_solution(s) && assignment@.submap_of(s) ==> !values_in(csp, old(doms)@, s),
        forall|i: int|
            0 <= i < csp.n() && (assignment@.contains_key(csp.names()[i]) || csp.names()[i]
                == var@ || !shares_constraint(csp, var@, csp.names()[i])) ==> (
            #[trigger] final(doms)@[i]) == old(doms)@[i],
        ok ==> forall|i: int, y: u64|
            0 <= i < csp.n() && !assignment@.contains_key(csp.names()[i]) && csp.names()[i]
                != var@ ==> ((#[trigger] final(doms)@[i].vals().contains(y))
                <==> old(doms)@[i].vals().contains(y)
                && neighbor_keeps(csp, assignment@, var@, csp.names()[i], y)),
        ok ==> forall|i: int|
            0 <= i < csp.n() && !assignment@.contains_key(#[trigger] csp.names()[i])
                && csp.names()[i] != var@ && shares_constraint(csp, var@, csp.names()[i])
                ==> final(doms)@[i].vals().len() > 0,
        !ok ==> exists|i: int|
            0 <= i < csp.n() && !assignment@.contains_key(#[trigger] csp.names()[i])
                && csp.names()[i] != var@ && neighbor_wiped(
                csp,
                old(doms)@[i].vals(),
                assignment@,
                var@,
                csp.names()[i],
            ),
{
    proof {
        csp.lemma_wf_facts();
        csp.names().lemma_no_dup_set_cardinality();
    }
    let cs = csp.get_constraints();
    let ghost doms_in = old(doms)@;
    let ghost m = assignment@;
    let mut ci: usize = 0;
    while ci < cs.len()
        invariant
            ci <= csp.cons().len(),
            domains_ok(csp, doms@),
            forall|i: int, x: u64|
                0 <= i < doms@.len() && (#[trigger] doms@[i].vals().contains(x)) ==> doms_in[i].vals().contains(x),
            forall|s: Map<Seq<char>, u64>| #[trigger]
                csp.full_solution(s) && assignment@.submap_of(s) && values_in(csp, doms_in, s)
                    ==> values_in(csp, doms@, s),
            forall|i: int|
                0 <= i < csp.n() && (m.contains_key(csp.names()[i]) || csp.names()[i] == var@
                    || !shares_constraint(csp, var@, csp.names()[i])) ==> (#[trigger] doms@[i])
                    == doms_in[i],
            forall|i: int, y: u64|
                0 <= i < csp.n() && !m.contains_key(csp.names()[i]) && csp.names()[i] != var@
                    ==> ((#[trigger] doms@[i].vals().contains(y)) <==> doms_in[i].vals().contains(
                    y,
                ) && neighbor_keeps_upto(csp, m, var@, csp.names()[i], y, ci as int)),
            forall|i: int|
                0 <= i < csp.n() && !m.contains_key(#[trigger] csp.names()[i]) && csp.names()[i]
                    != var@ && shares_below(csp, var@, csp.names()[i], ci as int) ==> doms@[i].vals().len() > 0,
        decreases csp.cons().len() - ci,
    {
        let c = &cs[ci];
        proof {
            assert(csp.cons()[ci as int].wf());
            assert(csp.has_constraint(*c)) by {
                assert(csp.cons()[ci as int] == *c);
            }
        }
        let involved = c.involves(var);
        if involved {
            let scope = c.variables();
            let mut j: usize = 0;
            while j < scope.len()
                invariant
                    j <= scope@.len(),
                    domains_ok(csp, doms@),
                    forall|i: int, x: u64|
                        0 <= i < doms@.len() && (#[trigger] doms@[i].vals().contains(x)) ==> doms_in[i].vals().contains(x),
                    forall|s: Map<Seq<char>, u64>| #[trigger]
                        csp.full_solution(s) && assignment@.submap_of(s) && values_in(
                            csp,
                            doms_in,
                            s,
                        ) ==> values_in(csp, doms@, s),
                    forall|i: int|
                        0 <= i < csp.n() && (m.contains_key(csp.names()[i]) || csp.names()[i]
                            == var@ || !shares_constraint(csp, var@, csp.names()[i])) ==> (
                        #[trigger] doms@[i]) == doms_in[i],
                    forall|i: int, y: u64|
                        0 <= i < csp.n() && !m.contains_key(csp.names()[i]) && csp.names()[i]
                            != var@ ==> ((#[trigger] doms@[i].vals().contains(y)) <==> doms_in[
                            i
                        ].vals().contains(y) && neighbor_keeps_upto(
                            csp,
                            m,
                            var@,
                            csp.names()[i],
                            y,
                            ci as int,
                        ) && (scope_prefix_has(
                            csp.cons()[ci as int].scope(),
                            j as int,
                            csp.names()[i],
                        ) ==> csp.cons()[ci as int].spec_satisfied(m.insert(csp.names()[i], y)))),
                    forall|i: int|
                        0 <= i < csp.n() && !m.contains_key(#[trigger] csp.names()[i])
                            && csp.names()[i] != var@ && (shares_below(
                            csp,
                            var@,
                            csp.names()[i],
                            ci as int,
                        ) || scope_prefix_has(
                            csp.cons()[ci as int].scope(),
                            j as int,
                            csp.names()[i],
                        )) ==> doms@[i].vals().len() > 0,
                decreases scope@.len() - j,
            {
                let u = &scope[j];
                proof {
                    assert(c.scope()[j as int] == u@);
                }
                if !assignment.is_assigned(u) && !u.same_variable(var) {
                    let ui = match csp.index_of_variable(u) {
                        Some(ui) => ui,
                        None => {
                            proof {
                                assert(*c == csp.cons()[ci as int]);
                                csp.lemma_scope_registered(ci as int, j as int);
                                assert(false);
                            }
                            return false;
                        },
                    };
                    let ghost doms_mid = doms@;
                    let current = doms[ui].duplicate();
                    let vals = current.values();
                    let mut valid: Vec<u64> = Vec::new();
                    let mut t: usize = 0;
                    while t < vals.len()
                        invariant
                            t <= vals@.len(),
                            forall|y: u64| #[trigger]
                                valid@.contains(y) ==> current.vals().contains(y)
                                    && c.spec_satisfied(assignment@.insert(u@, y)),
                            forall|y: u64|
                                vals@.take(t as int).contains(y) && c.spec_satisfied(
                                    assignment@.insert(u@, y),
                                ) ==> #[trigger] valid@.contains(y),
                        decreases vals@.len() - t,
                    {
                        let y = vals[t];
                        let mut test = assignment.duplicate();
                        test.assign(u.clone(), y);
                        let keep = c.is_satisfied(&test);
                        let ghost valid0 = valid@;
                        if keep {
                            valid.push(y);
                        }
                        proof {
                            assert(vals@[t as int] == y);
                            if keep {
                                assert(valid@[valid@.len() - 1] == y);
                                assert forall|y2: u64| #[trigger]
                                    valid@.contains(y2) implies current.vals().contains(y2)
                                    && c.spec_satisfied(assignment@.insert(u@, y2)) by {
                                    let p = choose|p: int| 0 <= p < valid@.len() && valid@[p] == y2;
                                    if p < valid@.len() - 1 {
                                        assert(valid0[p] == y2);
                                        assert(valid0.contains(y2));
                                    } else {
                                        assert(y2 == y);
                                        assert(current.vals().contains(y));
                                    }
                                }
                            }
                            assert forall|y2: u64|
                                vals@.take(t + 1).contains(y2) && c.spec_satisfied(
                                    assignment@.insert(u@, y2),
                                ) implies #[trigger] valid@.contains(y2) by {
                                let w = choose|w: int| 0 <= w < t + 1 && vals@[w] == y2;
                                if w < t as int {
                                    assert(vals@.take(t as int).contains(y2)) by {
                                        assert(vals@[w] == y2);
                                    }
                                    assert(valid0.contains(y2));
                                    if keep {
                                        let p = choose|p: int|
                                            0 <= p < valid0.len() && valid0[p] == y2;
                                        assert(valid@[p] == y2);
                                    }
                                } else {
                                    assert(y2 == y);
                                }
                            }
                        }
                        t += 1;
                    }
                    proof {
                        assert(vals@.take(vals@.len() as int) =~= vals@);
                    }
                    if valid.len() == 0 {
                        proof {
                            assert forall|s: Map<Seq<char>, u64>| #[trigger]
                                csp.full_solution(s) && assignment@.submap_of(s) implies
                            !values_in(csp, doms_in, s) by {
                                if values_in(csp, doms_in, s) {
                                    assert(values_in(csp, doms_mid, s));
                                    let k = u@;
                                    assert(csp.names()[ui as int] == k);
                                    assert(doms_mid[ui as int].vals().contains(s[k]));
                                    assert(current.vals().contains(s[k]));
                                    let ext = assignment@.insert(k, s[k]);
                                    assert(ext.submap_of(s)) by {
                                        assert forall|k2: Seq<char>| #[trigger]
                                            ext.dom().contains(k2) implies s.dom().contains(k2)
                                            && ext[k2] == s[k2] by {
                                            if k2 != k {
                                                assert(assignment@.dom().contains(k2));
                                            } else {
                                                assert(s.dom() == csp.names().to_set());
                                                assert(csp.names().to_set().contains(k)) by {
                                                    assert(csp.names()[ui as int] == k);
                                                }
                                            }
                                        }
                                    }
                                    let cidx = choose|cx: int|
                                        0 <= cx < csp.cons().len() && csp.cons()[cx] == *c;
                                    assert(csp.cons()[cidx].spec_satisfied(s));
                                    lemma_satisfied_submap(c, ext, s);
                                    assert(c.spec_satisfied(ext));
                                    assert(vals@.contains(s[k]));
                                    assert(valid@.contains(s[k]));
                                    assert(false);
                                }
                            }
                            // the neighbor is wiped out: every entry value is
                            // rejected by some shared constraint
                            assert(neighbor_wiped(
                                csp,
                                doms_in[ui as int].vals(),
                                m,
                                var@,
                                csp.names()[ui as int],
                            )) by {
                                assert forall|y: u64| #[trigger]
                                    doms_in[ui as int].vals().contains(y) implies !neighbor_keeps(
                                    csp,
                                    m,
                                    var@,
                                    csp.names()[ui as int],
                                    y,
                                ) by {
                                    if neighbor_keeps(csp, m, var@, csp.names()[ui as int], y) {
                                        let k = u@;
                                        assert(csp.names()[ui as int] == k);
                                        assert(c.scope().contains(var@));
                                        assert(c.scope().contains(k)) by {
                                            assert(c.scope()[j as int] == k);
                                        }
                                        assert(c.spec_satisfied(m.insert(k, y))) by {
                                            assert(csp.cons()[ci as int].scope().contains(var@));
                                            assert(csp.cons()[ci as int].scope().contains(k));
                                        }
                                        assert(doms_mid[ui as int].vals().contains(y));
                                        assert(current.vals().contains(y));
                                        assert(vals@.contains(y));
                                        assert(valid@.contains(y));
                                        assert(false);
                                    }
                                }
                            }
                            assert(!m.contains_key(csp.names()[ui as int]));
                            assert(csp.names()[ui as int] != var@);
                        }
                        return false;
                    }
                    let filtered = current.restrict_to(&valid);
                    doms.set(ui, filtered);
                    proof {
                        assert forall|i: int, x: u64|
                            0 <= i < doms@.len() && (#[trigger] doms@[i].vals().contains(x))
                            implies doms_in[i].vals().contains(x) by {
                            if i == ui as int {
                                assert(valid@.contains(x));
                                assert(current.vals().contains(x));
                                assert(doms_mid[i].vals().contains(x));
                            } else {
                                assert(doms_mid[i] == doms@[i]);
                            }
                        }
                        assert forall|s: Map<Seq<char>, u64>| #[trigger]
                            csp.full_solution(s) && assignment@.submap_of(s) && values_in(
                            csp,
                            doms_in,
                            s,
                        ) implies values_in(csp, doms@, s) by {
                            assert(values_in(csp, doms_mid, s));
                            assert forall|i: int|
                                0 <= i < doms@.len() implies (#[trigger] doms@[i]).vals().contains(
                                s[csp.names()[i]],
                            ) by {
                                if i == ui as int {
                                    let k = u@;
                                    assert(csp.names()[ui as int] == k);
                                    assert(doms_mid[i].vals().contains(s[k]));
                                    assert(current.vals().contains(s[k]));
                                    let ext = assignment@.insert(k, s[k]);
                                    assert(ext.submap_of(s)) by {
                                        assert forall|k2: Seq<char>| #[trigger]
                                            ext.dom().contains(k2) implies s.dom().contains(k2)
                                            && ext[k2] == s[k2] by {
                                            if k2 != k {
                                                assert(assignment@.dom().contains(k2));
                                            } else {
                                                assert(s.dom() == csp.names().to_set());
                                                assert(csp.names().to_set().contains(k)) by {
                                                    assert(csp.names()[ui as int] == k);
                                                }
                                            }
                                        }
                                    }
                                    let cidx = choose|cx: int|
                                        0 <= cx < csp.cons().len() && csp.cons()[cx] == *c;
                                    assert(csp.cons()[cidx].spec_satisfied(s));
                                    lemma_satisfied_submap(c, ext, s);
                                    assert(vals@.contains(s[k]));
                                    assert(valid@.contains(s[k]));
                                } else {
                                    assert(doms_mid[i] == doms@[i]);
                                }
                            }
                        }
                        // the filtered neighbor now carries this constraint's
                        // filter as well; every other domain is unchanged
                        let ghost k = u@;
                        assert(csp.names()[ui as int] == k);
                        assert(c.scope().contains(k)) by {
                            assert(c.scope()[j as int] == k);
                        }
                        assert(c.scope().contains(var@));
                        assert forall|i: int|
                            0 <= i < csp.n() && (m.contains_key(csp.names()[i]) || csp.names()[i]
                                == var@ || !shares_constraint(csp, var@, csp.names()[i])) implies (
                        #[trigger] doms@[i]) == doms_in[i] by {
                            if i == ui as int {
                                assert(shares_constraint(csp, var@, k)) by {
                                    assert(csp.cons()[ci as int].scope().contains(var@));
                                    assert(csp.cons()[ci as int].scope().contains(k));
                                }
                                assert(false);
                            } else {
                                assert(doms@[i] == doms_mid[i]);
                            }
                        }
                        assert forall|i: int, y: u64|
                            0 <= i < csp.n() && !m.contains_key(csp.names()[i]) && csp.names()[i]
                                != var@ implies ((#[trigger] doms@[i].vals().contains(y)) <==>
                        doms_in[i].vals().contains(y) && neighbor_keeps_upto(
                            csp,
                            m,
                            var@,
                            csp.names()[i],
                            y,
                            ci as int,
                        ) && (scope_prefix_has(csp.cons()[ci as int].scope(), j + 1, csp.names()[i])
                            ==> csp.cons()[ci as int].spec_satisfied(
                            m.insert(csp.names()[i], y),
                        ))) by {
                            if i == ui as int {
                                assert(scope_prefix_has(csp.cons()[ci as int].scope(), j + 1, k))
                                    by {
                                    assert(csp.cons()[ci as int].scope()[j as int] == k);
                                }
                                assert(doms@[i] == filtered);
                                if doms@[i].vals().contains(y) {
                                    assert(current.vals().contains(y) && valid@.contains(y));
                                    assert(doms_mid[i].vals().contains(y));
                                    assert(c.spec_satisfied(m.insert(k, y)));
                                }
                                if doms_in[i].vals().contains(y) && neighbor_keeps_upto(
                                    csp,
                                    m,
                                    var@,
                                    k,
                                    y,
                                    ci as int,
                                ) && c.spec_satisfied(m.insert(k, y)) {
                                    assert(doms_mid[i].vals().contains(y));
                                    assert(current.vals().contains(y));
                                    assert(vals@.contains(y));
                                    assert(valid@.contains(y));
                                    assert(filtered.vals().contains(y));
                                }
                            } else {
                                assert(doms@[i] == doms_mid[i]);
                                assert(csp.names()[i] != k) by {
                                    if csp.names()[i] == k {
                                        assert(csp.names()[i] == csp.names()[ui as int]);
                                    }
                                }
                                assert(scope_prefix_has(
                                    csp.cons()[ci as int].scope(),
                                    j + 1,
                                    csp.names()[i],
                                ) <==> scope_prefix_has(
                                    csp.cons()[ci as int].scope(),
                                    j as int,
                                    csp.names()[i],
                                )) by {
                                    if scope_prefix_has(
                                        csp.cons()[ci as int].scope(),
                                        j + 1,
                                        csp.names()[i],
                                    ) {
                                        let w = choose|w: int|
                                            0 <= w < j + 1 && #[trigger] csp.cons()[
                                                ci as int
                                            ].scope()[w] == csp.names()[i];
                                        if w == j as int {
                                            assert(csp.names()[i] == k);
                                        } else {
                                            assert(scope_prefix_has(
                                                csp.cons()[ci as int].scope(),
                                                j as int,
                                                csp.names()[i],
                                            ));
                                        }
                                    }
                                }
                            }
                        }
                        assert forall|i: int|
                            0 <= i < csp.n() && !m.contains_key(#[trigger] csp.names()[i])
                                && csp.names()[i] != var@ && (shares_below(
                                csp,
                                var@,
                                csp.names()[i],
                                ci as int,
                            ) || scope_prefix_has(
                                csp.cons()[ci as int].scope(),
                                j + 1,
                                csp.names()[i],
                            )) implies doms@[i].vals().len() > 0 by {
                            if i == ui as int {
                                assert(valid@.contains(valid@[0]));
                                assert(current.vals().contains(valid@[0]));
                                assert(filtered.vals().contains(valid@[0]));
                            } else {
                                assert(doms@[i] == doms_mid[i]);
                                if scope_prefix_has(
                                    csp.cons()[ci as int].scope(),
                                    j + 1,
                                    csp.names()[i],
                                ) && !scope_prefix_has(
                                    csp.cons()[ci as int].scope(),
                                    j as int,
                                    csp.names()[i],
                                ) {
                                    let w = choose|w: int|
                                        0 <= w < j + 1 && #[trigger] csp.cons()[ci as int].scope()[
                                            w
                                        ] == csp.names()[i];
                                    assert(w == j as int);
                                    assert(csp.names()[i] == k);
                                    assert(csp.names()[i] == csp.names()[ui as int]);
                                    assert(false);
                                }
                            }
                        }
                    }
                } else {
                    proof {
                        // the member is already assigned or is the assigned
                        // variable itself: no neighbor's filter advances
                        assert forall|i: int|
                            0 <= i < csp.n() && !m.contains_key(csp.names()[i]) && csp.names()[i]
                                != var@ implies (scope_prefix_has(
                            csp.cons()[ci as int].scope(),
                            j + 1,
                            #[trigger] csp.names()[i],
                        ) <==> scope_prefix_has(
                            csp.cons()[ci as int].scope(),
                            j as int,
                            csp.names()[i],
                        )) by {
                            if scope_prefix_has(csp.cons()[ci as int].scope(), j + 1, csp.names()[i]) {
                                let w = choose|w: int|
                                    0 <= w < j + 1 && #[trigger] csp.cons()[ci as int].scope()[w]
                                        == csp.names()[i];
                                if w == j as int {
                                    assert(csp.names()[i] == u@);
                                    assert(m.contains_key(u@) || u@ == var@);
                                    assert(false);
                                } else {
                                    assert(scope_prefix_has(
                                        csp.cons()[ci as int].scope(),
                                        j as int,
                                        csp.names()[i],
                                    ));
                                }
                            }
                        }
                    }
                }
                j += 1;
            }
            proof {
                // the whole scope was processed: this constraint's filter is
                // now part of the processed-prefix filter
                assert(scope@.len() == csp.cons()[ci as int].scope().len());
                assert forall|i: int, y: u64|
                    0 <= i < csp.n() && !m.contains_key(csp.names()[i]) && csp.names()[i] != var@
                        implies ((#[trigger] doms@[i].vals().contains(y)) <==> doms_in[i].vals()
                    .contains(y) && neighbor_keeps_upto(
                    csp,
                    m,
                    var@,
                    csp.names()[i],
                    y,
                    ci + 1,
                )) by {
                    let k = csp.names()[i];
                    assert(scope_prefix_has(csp.cons()[ci as int].scope(), scope@.len() as int, k)
                        <==> csp.cons()[ci as int].scope().contains(k));
                    if doms@[i].vals().contains(y) {
                        assert(neighbor_keeps_upto(csp, m, var@, k, y, ci as int));
                        assert forall|ci2: int|
                            0 <= ci2 < ci + 1 && (#[trigger] csp.cons()[ci2]).scope().contains(
                                var@,
                            ) && csp.cons()[ci2].scope().contains(k) implies csp.cons()[
                        ci2].spec_satisfied(m.insert(k, y)) by {
                            if ci2 == ci as int {
                                assert(scope_prefix_has(
                                    csp.cons()[ci as int].scope(),
                                    scope@.len() as int,
                                    k,
                                ));
                            }
                        }
                    }
                    if doms_in[i].vals().contains(y) && neighbor_keeps_upto(
                        csp,
                        m,
                        var@,
                        k,
                        y,
                        ci + 1,
                    ) {
                        assert(neighbor_keeps_upto(csp, m, var@, k, y, ci as int));
                        if scope_prefix_has(csp.cons()[ci as int].scope(), scope@.len() as int, k) {
                            assert(csp.cons()[ci as int].scope().contains(k));
                            assert(csp.cons()[ci as int].scope().contains(var@));
                            assert(csp.cons()[ci as int].spec_satisfied(m.insert(k, y)));
                        }
                    }
                }
                assert forall|i: int|
                    0 <= i < csp.n() && !m.contains_key(#[trigger] csp.names()[i])
                        && csp.names()[i] != var@ && shares_below(csp, var@, csp.names()[i], ci + 1)
                        implies doms@[i].vals().len() > 0 by {
                    let k = csp.names()[i];
                    let ci2 = choose|ci2: int|
                        0 <= ci2 < ci + 1 && (#[trigger] csp.cons()[ci2]).scope().contains(var@)
                            && csp.cons()[ci2].scope().contains(k);
                    if ci2 == ci as int {
                        assert(scope_prefix_has(
                            csp.cons()[ci as int].scope(),
                            scope@.len() as int,
                            k,
                        ));
                    } else {
                        assert(shares_below(csp, var@, k, ci as int));
                    }
                }
            }
        } else {
            proof {
                // the constraint does not involve the assigned variable: it
                // contributes no filter
                assert(!c.scope().contains(var@));
                assert forall|i: int, y: u64|
                    0 <= i < csp.n() && !m.contains_key(csp.names()[i]) && csp.names()[i] != var@
                        implies ((#[trigger] neighbor_keeps_upto(
                        csp,
                        m,
                        var@,
                        csp.names()[i],
                        y,
                        ci + 1,
                    )) <==> neighbor_keeps_upto(csp, m, var@, csp.names()[i], y, ci as int)) by {
                    if neighbor_keeps_upto(csp, m, var@, csp.names()[i], y, ci as int) {
                        assert forall|ci2: int|
                            0 <= ci2 < ci + 1 && (#[trigger] csp.cons()[ci2]).scope().contains(
                                var@,
                            ) && csp.cons()[ci2].scope().contains(csp.names()[i]) implies csp.cons()[
                        ci2].spec_satisfied(m.insert(csp.names()[i], y)) by {
                            if ci2 == ci as int {
                                assert(csp.cons()[ci as int].scope().contains(var@));
                                assert(false);
                            }
                        }
                    }
                }
                assert forall|i: int|
                    0 <= i < csp.n() && !m.contains_key(#[trigger] csp.names()[i])
                        && csp.names()[i] != var@ && shares_below(csp, var@, csp.names()[i], ci + 1)
                        implies doms@[i].vals().len() > 0 by {
                    let k = csp.names()[i];
                    let ci2 = choose|ci2: int|
                        0 <= ci2 < ci + 1 && (#[trigger] csp.cons()[ci2]).scope().contains(var@)
                            && csp.cons()[ci2].scope().contains(k);
                    if ci2 == ci as int {
                        assert(csp.cons()[ci as int].scope().contains(var@));
                        assert(false);
                    } else {
                        assert(shares_below(csp, var@, k, ci as int));
                    }
                }
            }
        }
        ci += 1;
    }
    true
}

/// Select an unassigned variable whose live domain is smallest; nothing only
/// once every registered variable is assigned.
#[verifier::loop_isolation(false)]
fn select_min_domain<D: Domain>(assignment: &Assignment, csp: &Csp<D>, doms: &Vec<D>) -> (r: Option<
    usize,
>)
    requires
        csp.wf(),
        assignment.wf(),
        domains_ok(csp, doms@),
    ensures
        match r {
            Some(i) => i < csp.n() && !assignment@.contains_key(csp.names()[i as int]),
            None => forall|k: Seq<char>|
                csp.registered(k) ==> #[trigger] assignment@.contains_key(k),
        },
{
    let mut best: Option<usize> = None;
    let mut best_size: usize = usize::MAX;
    let mut i: usize = 0;
    while i < doms.len()
        invariant
            i <= csp.n(),
            match best {
                Some(b) => b < csp.n() && !assignment@.contains_key(csp.names()[b as int]),
                None => forall|j: int|
                    0 <= j < i ==> assignment@.contains_key(#[trigger] csp.names()[j]),
            },
        decreases doms@.len() - i,
    {
        let var = csp.variable_at(i);
        if !assignment.is_assigned(&var) {
            let size = doms[i].size();
            let replace = match best {
                None => true,
                Some(_) => size < best_size,
            };
            if replace {
                best = Some(i);
                best_size = size;
            }
        }
        i += 1;
    }
    proof {
        if best is None {
            assert forall|k: Seq<char>| csp.registered(k) implies assignment@.contains_key(k) by {
                let j = choose|j: int| 0 <= j < csp.names().len() && csp.names()[j] == k;
                assert(assignment@.contains_key(csp.names()[j]));
            }
        }
    }
    best
}

/// The map `s` binds `key` to one of the first `k` entries of `vals`.
pub open spec fn picks_early(s: Map<Seq<char>, u64>, key: Seq<char>, vals: Seq<u64>, k: int) -> bool {
    exists|q: int| 0 <= q < k && s[key] == vals[q]
}

/// Backtracking with forward checking over the live domain table.
#[verifier::loop_isolation(false)]
fn backtrack_fc<D: Domain>(a: &mut Assignment, csp: &Csp<D>, doms: &mut Vec<D>) -> (found: bool)
    requires
        csp.wf(),
        old(a).wf(),
        csp.partial_ok(old(a)@),
        csp.spec_consistent(old(a)@),
        domains_ok(csp, old(doms)@),
        domains_subset(csp, old(doms)@),
        covers_extensions(csp, old(doms)@, old(a)@),
    ensures
        domains_ok(csp, final(doms)@),
        found ==> final(a).wf() && csp.full_solution(final(a)@) && old(a)@.submap_of(final(a)@),
        !found ==> final(a)@ == old(a)@ && final(a).wf() && (forall|s: Map<Seq<char>, u64>|
            #[trigger] csp.full_solution(s) ==> !old(a)@.submap_of(s)),
        !found ==> final(doms)@.map_values(|d: D| d.vals()) == old(doms)@.map_values(
            |d: D| d.vals(),
        ),
    decreases csp.n() - a@.dom().len(),
{
    proof {
        a.lemma_dom_finite();
        csp.lemma_wf_facts();
    }
    let n = csp.num_variables();
    if a.is_complete(n) {
        proof {
            csp.lemma_complete_partial_is_full(a@);
            assert(a@.submap_of(a@));
        }
        return true;
    }
    let vi = match select_min_domain(&*a, csp, doms) {
        Some(vi) => vi,
        None => {
            proof {
                assert forall|k: Seq<char>| csp.names().to_set().contains(k) implies a@.dom()
                    .contains(k) by {
                    assert(csp.registered(k));
                    assert(a@.contains_key(k));
                }
                assert(a@.dom() =~= csp.names().to_set());
                assert(false);
            }
            return false;
        },
    };
    let v = csp.variable_at(vi);
    proof {
        csp.lemma_idx_of(v@);
    }
    let node_dom = doms[vi].duplicate();
    let ordered = node_dom.values();
    let ghost a0 = a@;
    let ghost doms0 = doms@;
    let mut k: usize = 0;
    let mut found = false;
    while k < ordered.len() && !found
        invariant
            k <= ordered@.len(),
            found ==> a.wf() && csp.full_solution(a@) && a0.submap_of(a@),
            !found ==> a@ == a0 && a.wf(),
            domains_ok(csp, doms@),
            !found ==> doms@.map_values(|d: D| d.vals()) == doms0.map_values(|d: D| d.vals()),
            !found ==> forall|s: Map<Seq<char>, u64>| #[trigger]
                csp.full_solution(s) && a0.submap_of(s) && picks_early(s, v@, ordered@, k as int)
                    ==> false,
        decreases ordered@.len() - k,
    {
        let x = ordered[k];
        let ghost a1 = a0.insert(v@, x);
        a.assign(v.clone(), x);
        proof {
            assert(ordered@.contains(x)) by {
                assert(ordered@[k as int] == x);
            }
            // the tried value lies in the declared domain of v
            assert(node_dom.vals() == doms0[vi as int].vals());
            assert(doms@[vi as int].vals() == doms0[vi as int].vals()) by {
                assert(doms@.map_values(|d: D| d.vals())[vi as int] == doms0.map_values(
                    |d: D| d.vals(),
                )[vi as int]);
            }
            assert(doms@[vi as int].vals().contains(x));
            assert(doms0[vi as int].vals().contains(x));
            assert(csp.doms()[vi as int].contains(x));
            assert(csp.dom_of(v@) == csp.doms()[vi as int]);
            assert forall|key: Seq<char>| #[trigger]
                a1.contains_key(key) implies csp.registered(key) && csp.dom_of(key).contains(
                a1[key],
            ) by {
                if key != v@ {
                    assert(a0.contains_key(key));
                } else {
                    assert(csp.names().contains(v@)) by {
                        assert(csp.names()[vi as int] == v@);
                    }
                }
            }
            assert(csp.partial_ok(a1));
            assert(a0.submap_of(a1));
        }
        let consistent_here = csp.is_consistent(&*a);
        let ghost doms_pre = doms@;
        let mut fc_ok = false;
        let mut rec_found = false;
        if consistent_here {
            proof {
                a.lemma_dom_finite();
                assert(a@.dom().contains(v@));
                assert(!a0.dom().contains(v@));
                assert(a0.dom().subset_of(a@.dom()));
                vstd::set_lib::lemma_len_subset(a0.dom(), a@.dom());
                assert(a@.dom().len() > a0.dom().len()) by {
                    if a@.dom().len() == a0.dom().len() {
                        vstd::set_lib::lemma_subset_equality(a0.dom(), a@.dom());
                        assert(a0.dom().contains(v@));
                    }
                }
                assert forall|key: Seq<char>| a@.dom().contains(key) implies csp.names().to_set()
                    .contains(key) by {
                    assert(a@.contains_key(key));
                    assert(csp.registered(key));
                }
                vstd::set_lib::lemma_len_subset(a@.dom(), csp.names().to_set());
            }
            let saved = duplicate_domains(doms);
            fc_ok = forward_check(&v, &*a, csp, doms);
            if fc_ok {
                proof {
                    // the pruned table still covers the extensions of a1
                    assert forall|s: Map<Seq<char>, u64>| #[trigger]
                        csp.full_solution(s) && a1.submap_of(s) implies values_in(
                        csp,
                        doms@,
                        s,
                    ) by {
                        lemma_extension_submap(a0, a1, s);
                        lemma_values_in_congruent(csp, doms0, doms_pre, s);
                        assert(values_in(csp, doms_pre, s));
                    }
                    assert(covers_extensions(csp, doms@, a1));
                    // the pruned table still only narrows the declared domains
                    assert forall|i: int, x2: u64|
                        0 <= i < doms@.len() && (#[trigger] doms@[i].vals().contains(x2)) implies
                    csp.doms()[i].contains(x2) by {
                        assert(doms_pre[i].vals().contains(x2));
                        assert(doms_pre.map_values(|d: D| d.vals())[i] == doms0.map_values(
                            |d: D| d.vals(),
                        )[i]);
                        assert(doms0[i].vals().contains(x2));
                    }
                    assert(domains_subset(csp, doms@));
                }
                rec_found = backtrack_fc(a, csp, doms);
            }
            if rec_found {
                found = true;
                proof {
                    lemma_extension_submap(a0, a1, a@);
                }
            } else {
                *doms = saved;
                a.unassign(&v);
                proof {
                    assert(a@ =~= a0);
                    assert(doms@.map_values(|d: D| d.vals()) =~= doms_pre.map_values(
                        |d: D| d.vals(),
                    ));
                }
            }
        } else {
            a.unassign(&v);
            proof {
                assert(a@ =~= a0);
            }
        }
        proof {
            if !found {
                assert forall|s: Map<Seq<char>, u64>| #[trigger]
                    csp.full_solution(s) && a0.submap_of(s) && picks_early(
                        s,
                        v@,
                        ordered@,
                        k + 1,
                    ) implies false by {
                    let q = choose|q: int| 0 <= q < k + 1 && s[v@] == ordered@[q];
                    if q < k as int {
                        assert(picks_early(s, v@, ordered@, k as int));
                    } else {
                        assert(s[v@] == x);
                        assert(a1.submap_of(s)) by {
                            assert forall|key: Seq<char>| #[trigger]
                                a1.dom().contains(key) implies s.dom().contains(key) && a1[key]
                                == s[key] by {
                                if key == v@ {
                                    assert(s.dom() == csp.names().to_set());
                                    assert(csp.names().to_set().contains(v@)) by {
                                        assert(csp.names()[vi as int] == v@);
                                    }
                                } else {
                                    assert(a0.dom().contains(key));
                                    lemma_submap_key(a0, s, key);
                                }
                            }
                        }
                        if !consistent_here {
                            assert forall|ci: int|
                                0 <= ci < csp.cons().len() implies (#[trigger] csp.cons()[ci])
                                .spec_satisfied(a1) by {
                                lemma_satisfied_submap(&csp.cons()[ci], a1, s);
                            }
                            assert(csp.spec_consistent(a1));
                            assert(false);
                        } else if !fc_ok {
                            // forward checking proved this branch empty
                            lemma_values_in_congruent(csp, doms0, doms_pre, s);
                            assert(values_in(csp, doms_pre, s));
                            assert(false);
                        } else {
                            // the recursive search proved this branch empty
                            assert(!a1.submap_of(s));
                            assert(false);
                        }
                    }
                }
            }
        }
        k += 1;
    }
    if found {
        return true;
    }
    proof {
        assert forall|s: Map<Seq<char>, u64>| #[trigger]
            csp.full_solution(s) implies !a0.submap_of(s) by {
            if a0.submap_of(s) {
                assert(values_in(csp, doms@, s));
                assert(csp.names()[vi as int] == v@);
                assert(doms@[vi as int].vals().contains(s[v@]));
                assert(doms@[vi as int].vals() == doms0[vi as int].vals()) by {
                    assert(doms@.map_values(|d: D| d.vals())[vi as int] == doms0.map_values(
                        |d: D| d.vals(),
                    )[vi as int]);
                }
                assert(node_dom.vals().contains(s[v@]));
                assert(ordered@.contains(s[v@]));
                let q = choose|q: int| 0 <= q < ordered@.len() && ordered@[q] == s[v@];
                assert(picks_early(s, v@, ordered@, k as int));
            }
        }
    }
    false
}

impl ForwardCheckingSolver {
    /// Solve the problem with forward checking: a returned assignment is a
    /// solution within the declared domains, and nothing is returned exactly
    /// when no such solution exists.
    pub fn solve<D: Domain>(csp: &Csp<D>) -> (r: Option<Assignment>)
        requires
            csp.wf(),
        ensures
            match r {
                Some(a) => a.wf() && csp.full_solution(a@),
                None => forall|m: Map<Seq<char>, u64>| !csp.full_solution(m),
            },
    {
        let mut assignment = Assignment::new();
        if !csp.is_consistent(&assignment) {
            proof {
                assert forall|m: Map<Seq<char>, u64>| !csp.full_solution(m) by {
                    if csp.full_solution(m) {
                        assert forall|ci: int|
                            0 <= ci < csp.cons().len() implies (#[trigger] csp.cons()[ci])
                            .spec_satisfied(assignment@) by {
                            assert(assignment@.submap_of(m));
                            lemma_satisfied_submap(&csp.cons()[ci], assignment@, m);
                        }
                    }
                }
            }
            return None;
        }
        let mut doms = initial_domains(csp);
        proof {
            lemma_initial_covers(csp, doms@);
        }
        if backtrack_fc(&mut assignment, csp, &mut doms) {
            Some(assignment)
        } else {
            proof {
                assert forall|m: Map<Seq<char>, u64>| !csp.full_solution(m) by {
                    if csp.full_solution(m) {
                        assert(Map::<Seq<char>, u64>::empty().submap_of(m));
                    }
                }
            }
            None
        }
    }
}

} // verus!
