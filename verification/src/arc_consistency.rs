use vstd::prelude::*;
use vstd::pervasive::VecAdditionalExecFns;
use crate::assignment::Assignment;
use crate::constraint::Constraint;
use crate::constraint::lemma_satisfied_submap;
use crate::csp::Csp;
use crate::domain::Domain;
use crate::forward_checking::covers_extensions;
use crate::forward_checking::domains_ok;
use crate::forward_checking::domains_subset;
use crate::forward_checking::duplicate_domains;
use crate::forward_checking::initial_domains;
use crate::forward_checking::lemma_extension_submap;
use crate::forward_checking::lemma_initial_covers;
use crate::forward_checking::lemma_submap_key;
use crate::forward_checking::lemma_values_in_congruent;
use crate::forward_checking::picks_early;
use crate::forward_checking::values_in;
use crate::variable::Variable;

verus! {

broadcast use vstd::seq_lib::group_seq_properties;

/// The summed sizes of a domain table, the termination measure of AC-3.
pub open spec fn doms_total<D: Domain>(doms: Seq<D>) -> nat
    decreases doms.len(),
{
    if doms.len() == 0 {
        0
    } else {
        doms_total(doms.drop_last()) + doms.last().vals().len()
    }
}

proof fn lemma_total_congruent<D: Domain>(d1: Seq<D>, d2: Seq<D>)
    requires
        d1.len() == d2.len(),
        forall|i: int| 0 <= i < d1.len() ==> (#[trigger] d1[i]).vals().len() == d2[i].vals().len(),
    ensures
        doms_total(d1) == doms_total(d2),
    decreases d1.len(),
{
    if d1.len() > 0 {
        lemma_total_congruent(d1.drop_last(), d2.drop_last());
        assert(d1[d1.len() - 1].vals().len() == d2[d2.len() - 1].vals().len());
    }
}

/// Shrinking one domain of a table strictly shrinks the summed size.
proof fn lemma_total_shrink<D: Domain>(d1: Seq<D>, d2: Seq<D>, k: int)
    requires
        d1.len() == d2.len(),
        0 <= k < d1.len(),
        forall|i: int| 0 <= i < d1.len() && i != k ==> #[trigger] d2[i] == d1[i],
        d2[k].vals().len() < d1[k].vals().len(),
    ensures
        doms_total(d2) < doms_total(d1),
    decreases d1.len(),
{
    if k == d1.len() - 1 {
        lemma_total_congruent(d1.drop_last(), d2.drop_last());
    } else {
        lemma_total_shrink(d1.drop_last(), d2.drop_last(), k);
        assert(d2[d1.len() - 1] == d1[d1.len() - 1]);
    }
}

/// A filtered domain misses a value the source held: it is strictly smaller.
proof fn lemma_strict_shrink(old_vals: Seq<u64>, new_vals: Seq<u64>, missing: u64)
    requires
        old_vals.no_duplicates(),
        new_vals.no_duplicates(),
        forall|x: u64| #[trigger] new_vals.contains(x) ==> old_vals.contains(x),
        old_vals.contains(missing),
        !new_vals.contains(missing),
    ensures
        new_vals.len() < old_vals.len(),
{
    old_vals.unique_seq_to_set();
    new_vals.unique_seq_to_set();
    let shrunk = old_vals.to_set().remove(missing);
    assert(new_vals.to_set().subset_of(shrunk));
    vstd::set_lib::lemma_len_subset(new_vals.to_set(), shrunk);
    assert(shrunk.len() == old_vals.to_set().len() - 1);
}

/// The two-variable test assignment an arc revision judges: `ni` bound to
/// `a`, then `nj` bound to `b` (overwriting `a` when the names coincide).
pub open spec fn pair_map(ni: Seq<char>, a: u64, nj: Seq<char>, b: u64) -> Map<Seq<char>, u64> {
    Map::<Seq<char>, u64>::empty().insert(ni, a).insert(nj, b)
}

/// Value `a` for variable `ni` has a supporter among `bs` for variable `nj`
/// under constraint `c`.
pub open spec fn has_support(c: Constraint, ni: Seq<char>, a: u64, nj: Seq<char>, bs: Seq<u64>) -> bool {
    exists|w: int| 0 <= w < bs.len() && c.spec_satisfied(pair_map(ni, a, nj, bs[w]))
}

/// The constraint at index `ci` is binary: its scope holds two variables.
pub open spec fn is_binary<D: Domain>(csp: &Csp<D>, ci: int) -> bool {
    csp.cons()[ci].scope().len() == 2
}

/// The variable index of the first scope entry of the constraint at `ci`.
pub open spec fn endpoint0<D: Domain>(csp: &Csp<D>, ci: int) -> int {
    csp.idx_of(csp.cons()[ci].scope()[0])
}

/// The variable index of the second scope entry of the constraint at `ci`.
pub open spec fn endpoint1<D: Domain>(csp: &Csp<D>, ci: int) -> int {
    csp.idx_of(csp.cons()[ci].scope()[1])
}

/// The directed arc from variable `i` to variable `j` under the constraint at
/// `ci` is consistent: every live value of `i` has a supporter among the live
/// values of `j`.
pub open spec fn arc_consistent<D: Domain>(
    csp: &Csp<D>,
    doms: Seq<D>,
    i: int,
    j: int,
    ci: int,
) -> bool {
    forall|a: u64| #[trigger]
        doms[i].vals().contains(a) ==> has_support(
            csp.cons()[ci],
            csp.names()[i],
            a,
            csp.names()[j],
            doms[j].vals(),
        )
}

/// Both directed arcs of every binary constraint are consistent.
pub open spec fn fully_arc_consistent<D: Domain>(csp: &Csp<D>, doms: Seq<D>) -> bool {
    forall|ci: int|
        0 <= ci < csp.cons().len() && #[trigger] is_binary(csp, ci) ==> arc_consistent(
            csp,
            doms,
            endpoint0(csp, ci),
            endpoint1(csp, ci),
            ci,
        ) && arc_consistent(csp, doms, endpoint1(csp, ci), endpoint0(csp, ci), ci)
}

/// The hypotheses under which AC-3 reaches full arc consistency: every scope
/// names at least two variables, without repetition, and no two binary
/// constraints cover the same pair of variables.
pub open spec fn arc_hypotheses<D: Domain>(csp: &Csp<D>) -> bool {
    &&& forall|ci: int| 0 <= ci < csp.cons().len() ==> (#[trigger] csp.cons()[ci]).scope().len()
        >= 2
    &&& forall|ci: int, p: int, q: int|
        0 <= ci < csp.cons().len() && 0 <= p < q < csp.cons()[ci].scope().len() ==> (
        #[trigger] csp.cons()[ci].scope()[p]) != (#[trigger] csp.cons()[ci].scope()[q])
    &&& forall|c1: int, c2: int|
        0 <= c1 < csp.cons().len() && 0 <= c2 < csp.cons().len() && c1 != c2 && #[trigger]
            is_binary(csp, c1) && #[trigger] is_binary(csp, c2) ==> !same_scope_pair(
            csp.cons()[c1].scope(),
            csp.cons()[c2].scope(),
        )
}

/// Two binary scopes cover the same unordered pair of variable names.
pub open spec fn same_scope_pair(s1: Seq<Seq<char>>, s2: Seq<Seq<char>>) -> bool {
    (s1[0] == s2[0] && s1[1] == s2[1]) || (s1[0] == s2[1] && s1[1] == s2[0])
}

/// A queue entry that names a binary constraint together with its own two
/// endpoint indices, in either direction.
pub open spec fn genuine_arc<D: Domain>(csp: &Csp<D>, e: (usize, usize, usize)) -> bool {
    is_binary(csp, e.2 as int) && (((e.0 as int) == endpoint0(csp, e.2 as int) && (e.1 as int)
        == endpoint1(csp, e.2 as int)) || ((e.0 as int) == endpoint1(csp, e.2 as int) && (
    e.1 as int) == endpoint0(csp, e.2 as int)))
}

/// The directed arc `(i, j, ci)` waits in the queue.
pub open spec fn enqueued(q: Seq<(usize, usize, usize)>, i: int, j: int, ci: int) -> bool {
    exists|t: int|
        0 <= t < q.len() && ((#[trigger] q[t]).0 as int) == i && (q[t].1 as int) == j && (
        q[t].2 as int) == ci
}

/// Every directed arc of every binary constraint is either already consistent
/// or still waits in the queue.
pub open spec fn arcs_covered<D: Domain>(
    csp: &Csp<D>,
    doms: Seq<D>,
    q: Seq<(usize, usize, usize)>,
) -> bool {
    forall|ci: int|
        0 <= ci < csp.cons().len() && #[trigger] is_binary(csp, ci) ==> (arc_consistent(
            csp,
            doms,
            endpoint0(csp, ci),
            endpoint1(csp, ci),
            ci,
        ) || enqueued(q, endpoint0(csp, ci), endpoint1(csp, ci), ci)) && (arc_consistent(
            csp,
            doms,
            endpoint1(csp, ci),
            endpoint0(csp, ci),
            ci,
        ) || enqueued(q, endpoint1(csp, ci), endpoint0(csp, ci), ci))
}

/// A two-key test assignment reads the same whichever way round it is built,
/// as long as the keys differ.
proof fn lemma_pair_map_symmetric(ni: Seq<char>, a: u64, nj: Seq<char>, b: u64)
    requires
        ni != nj,
    ensures
        pair_map(ni, a, nj, b) == pair_map(nj, b, ni, a),
{
    assert(pair_map(ni, a, nj, b) =~= pair_map(nj, b, ni, a));
}

/// A binary constraint's endpoints under the arc hypotheses: two distinct
/// registered variable indices carrying the two scope names.
proof fn lemma_endpoints<D: Domain>(csp: &Csp<D>, ci: int)
    requires
        csp.wf(),
        arc_hypotheses(csp),
        0 <= ci < csp.cons().len(),
        is_binary(csp, ci),
    ensures
        0 <= endpoint0(csp, ci) < csp.n(),
        0 <= endpoint1(csp, ci) < csp.n(),
        endpoint0(csp, ci) != endpoint1(csp, ci),
        csp.names()[endpoint0(csp, ci)] == csp.cons()[ci].scope()[0],
        csp.names()[endpoint1(csp, ci)] == csp.cons()[ci].scope()[1],
{
    csp.lemma_scope_registered(ci, 0);
    csp.lemma_scope_registered(ci, 1);
    csp.lemma_idx_of(csp.cons()[ci].scope()[0]);
    csp.lemma_idx_of(csp.cons()[ci].scope()[1]);
    assert(csp.cons()[ci].scope()[0] != csp.cons()[ci].scope()[1]);
}

/// Arc consistency survives shrinking the source domain, as long as the
/// target domain's values are unchanged.
proof fn lemma_arc_consistent_narrow<D: Domain>(
    csp: &Csp<D>,
    d1: Seq<D>,
    d2: Seq<D>,
    i: int,
    j: int,
    ci: int,
)
    requires
        0 <= i < d1.len(),
        0 <= j < d1.len(),
        d1.len() == d2.len(),
        arc_consistent(csp, d1, i, j, ci),
        forall|x: u64| #[trigger] d2[i].vals().contains(x) ==> d1[i].vals().contains(x),
        d2[j].vals() == d1[j].vals(),
    ensures
        arc_consistent(csp, d2, i, j, ci),
{
    assert forall|a: u64| #[trigger] d2[i].vals().contains(a) implies has_support(
        csp.cons()[ci],
        csp.names()[i],
        a,
        csp.names()[j],
        d2[j].vals(),
    ) by {
        assert(d1[i].vals().contains(a));
    }
}

/// Revising the arc from `i` to `j` cannot break the opposite arc of the same
/// constraint: a dropped value of `i` supported nothing in `j`, because the
/// support relation reads the same two-key assignment either way round.
proof fn lemma_flip_arc_preserved<D: Domain>(
    csp: &Csp<D>,
    d1: Seq<D>,
    d2: Seq<D>,
    i: int,
    j: int,
    ci: int,
)
    requires
        csp.wf(),
        0 <= i < d1.len(),
        0 <= j < d1.len(),
        i != j,
        csp.names()[i] != csp.names()[j],
        d1.len() == d2.len(),
        arc_consistent(csp, d1, j, i, ci),
        d2[j].vals() == d1[j].vals(),
        forall|x: u64| #[trigger] d2[i].vals().contains(x) ==> d1[i].vals().contains(x),
        forall|a: u64|
            d1[i].vals().contains(a) && !(#[trigger] d2[i].vals().contains(a)) ==> !has_support(
                csp.cons()[ci],
                csp.names()[i],
                a,
                csp.names()[j],
                d1[j].vals(),
            ),
    ensures
        arc_consistent(csp, d2, j, i, ci),
{
    let ni = csp.names()[i];
    let nj = csp.names()[j];
    let c = csp.cons()[ci];
    assert forall|a: u64| #[trigger] d2[j].vals().contains(a) implies has_support(
        c,
        nj,
        a,
        ni,
        d2[i].vals(),
    ) by {
        assert(d1[j].vals().contains(a));
        assert(has_support(c, nj, a, ni, d1[i].vals()));
        let w = choose|w: int|
            0 <= w < d1[i].vals().len() && c.spec_satisfied(pair_map(nj, a, ni, d1[i].vals()[w]));
        let b = d1[i].vals()[w];
        assert(d1[i].vals().contains(b));
        lemma_pair_map_symmetric(nj, a, ni, b);
        assert(c.spec_satisfied(pair_map(ni, b, nj, a)));
        assert(d2[i].vals().contains(b)) by {
            if !d2[i].vals().contains(b) {
                // b would have been dropped, but a supports it
                let w2 = choose|w2: int| 0 <= w2 < d1[j].vals().len() && d1[j].vals()[w2] == a;
                assert(c.spec_satisfied(pair_map(ni, b, nj, d1[j].vals()[w2])));
                assert(has_support(c, ni, b, nj, d1[j].vals()));
            }
        }
        let w3 = choose|w3: int| 0 <= w3 < d2[i].vals().len() && d2[i].vals()[w3] == b;
        assert(c.spec_satisfied(pair_map(nj, a, ni, d2[i].vals()[w3])));
    }
}

/// A solver that preprocesses the domains with AC-3 arc consistency and then
/// searches while maintaining arc consistency (MAC) after every tentative
/// assignment.
pub struct ArcConsistencySolver;

/// One AC-3 revision of the directed arc from variable `xi` to variable `xj`
/// under constraint `ci`: drop from the live domain of `xi` every value with
/// no supporter in the live domain of `xj`.
#[verifier::loop_isolation(false)]
fn revise<D: Domain>(
    csp: &Csp<D>,
    doms: &mut Vec<D>,
    xi: usize,
    xj: usize,
    ci: usize,
) -> (revised: bool)
    requires
        csp.wf(),
        domains_ok(csp, old(doms)@),
        xi < csp.n(),
        xj < csp.n(),
        ci < csp.cons().len(),
    ensures
        domains_ok(csp, final(doms)@),
        final(doms)@.len() == old(doms)@.len(),
        forall|i: int|
            0 <= i < old(doms)@.len() && i != xi ==> #[trigger] final(doms)@[i] == old(doms)@[i],
        forall|x: u64| #[trigger]
            final(doms)@[xi as int].vals().contains(x) ==> old(doms)@[xi as int].vals().contains(
                x,
            ),
        revised ==> final(doms)@[xi as int].vals().len() < old(doms)@[xi as int].vals().len(),
        !revised ==> final(doms)@ == old(doms)@,
        forall|s: Map<Seq<char>, u64>| #[trigger]
            csp.full_solution(s) && values_in(csp, old(doms)@, s) ==> values_in(
                csp,
                final(doms)@,
                s,
            ),
        xi != xj ==> forall|a: u64| #[trigger]
            final(doms)@[xi as int].vals().contains(a) ==> has_support(
                csp.cons()[ci as int],
                csp.names()[xi as int],
                a,
                csp.names()[xj as int],
                final(doms)@[xj as int].vals(),
            ),
        forall|a: u64|
            old(doms)@[xi as int].vals().contains(a)
                && !(#[trigger] final(doms)@[xi as int].vals().contains(a)) ==> !has_support(
                csp.cons()[ci as int],
                csp.names()[xi as int],
                a,
                csp.names()[xj as int],
                old(doms)@[xj as int].vals(),
            ),
        old(doms)@[xj as int].vals().len() > 0 && revised ==> forall|p: int|
            0 <= p < csp.cons()[ci as int].scope().len() ==> (
            #[trigger] csp.cons()[ci as int].scope()[p]) == csp.names()[xi as int]
                || csp.cons()[ci as int].scope()[p] == csp.names()[xj as int],
{
    proof {
        csp.lemma_wf_facts();
    }
    let cs = csp.get_constraints();
    let c = &cs[ci];
    proof {
        assert(*c == csp.cons()[ci as int]);
        assert(csp.cons()[ci as int].wf());
    }
    let xi_var = csp.variable_at(xi);
    let xj_var = csp.variable_at(xj);
    let ghost ni = csp.names()[xi as int];
    let ghost nj = csp.names()[xj as int];
    let xi_dom = doms[xi].duplicate();
    let xj_dom = doms[xj].duplicate();
    let xi_vals = xi_dom.values();
    let xj_vals = xj_dom.values();
    let mut valid: Vec<u64> = Vec::new();
    let mut dropped = false;
    let ghost mut missing: u64 = 0;
    let mut t: usize = 0;
    while t < xi_vals.len()
        invariant
            t <= xi_vals@.len(),
            forall|y: u64| #[trigger]
                valid@.contains(y) ==> xi_dom.vals().contains(y) && has_support(
                    *c,
                    ni,
                    y,
                    nj,
                    xj_dom.vals(),
                ),
            forall|y: u64|
                xi_vals@.take(t as int).contains(y) && has_support(*c, ni, y, nj, xj_dom.vals())
                    ==> #[trigger] valid@.contains(y),
            dropped ==> xi_dom.vals().contains(missing) && !has_support(
                *c,
                ni,
                missing,
                nj,
                xj_dom.vals(),
            ),
            !dropped ==> forall|w2: int|
                0 <= w2 < t ==> has_support(*c, ni, #[trigger] xi_vals@[w2], nj, xj_dom.vals()),
        decreases xi_vals@.len() - t,
    {
        let a_val = xi_vals[t];
        let mut supported = false;
        let mut w: usize = 0;
        while w < xj_vals.len() && !supported
            invariant
                w <= xj_vals@.len(),
                supported ==> has_support(*c, ni, a_val, nj, xj_dom.vals()),
                !supported ==> forall|w2: int|
                    0 <= w2 < w ==> !c.spec_satisfied(
                        pair_map(ni, a_val, nj, #[trigger] xj_vals@[w2]),
                    ),
            decreases xj_vals@.len() - w,
        {
            let b_val = xj_vals[w];
            let mut test = Assignment::new();
            test.assign(xi_var.clone(), a_val);
            test.assign(xj_var.clone(), b_val);
            if c.is_satisfied(&test) {
                supported = true;
                proof {
                    assert(test@ == pair_map(ni, a_val, nj, b_val));
                    assert(xj_vals@[w as int] == b_val);
                }
            }
            w += 1;
        }
        let ghost valid0 = valid@;
        if supported {
            valid.push(a_val);
        } else {
            dropped = true;
            proof {
                missing = a_val;
                assert(xi_vals@[t as int] == a_val);
                if has_support(*c, ni, a_val, nj, xj_dom.vals()) {
                    let w2 = choose|w2: int|
                        0 <= w2 < xj_dom.vals().len() && c.spec_satisfied(
                            pair_map(ni, a_val, nj, xj_dom.vals()[w2]),
                        );
                    assert(!c.spec_satisfied(pair_map(ni, a_val, nj, xj_vals@[w2])));
                }
            }
        }
        proof {
            assert(xi_vals@[t as int] == a_val);
            if supported {
                assert(valid@[valid@.len() - 1] == a_val);
                assert forall|y: u64| #[trigger]
                    valid@.contains(y) implies xi_dom.vals().contains(y) && has_support(
                    *c,
                    ni,
                    y,
                    nj,
                    xj_dom.vals(),
                ) by {
                    let p = choose|p: int| 0 <= p < valid@.len() && valid@[p] == y;
                    if p < valid@.len() - 1 {
                        assert(valid0[p] == y);
                        assert(valid0.contains(y));
                    } else {
                        assert(y == a_val);
                        assert(xi_dom.vals().contains(a_val));
                    }
                }
            }
            assert forall|y: u64|
                xi_vals@.take(t + 1).contains(y) && has_support(
                    *c,
                    ni,
                    y,
                    nj,
                    xj_dom.vals(),
                ) implies #[trigger] valid@.contains(y) by {
                let w2 = choose|w2: int| 0 <= w2 < t + 1 && xi_vals@[w2] == y;
                if w2 < t as int {
                    assert(xi_vals@.take(t as int).contains(y)) by {
                        assert(xi_vals@[w2] == y);
                    }
                    assert(valid0.contains(y));
                    if supported {
                        let p = choose|p: int| 0 <= p < valid0.len() && valid0[p] == y;
                        assert(valid@[p] == y);
                    }
                } else {
                    assert(y == a_val);
                }
            }
        }
        t += 1;
    }
    proof {
        assert(xi_vals@.take(xi_vals@.len() as int) =~= xi_vals@);
    }
    if !dropped {
        proof {
            assert forall|a: u64| #[trigger]
                doms@[xi as int].vals().contains(a) implies has_support(
                *c,
                ni,
                a,
                nj,
                doms@[xj as int].vals(),
            ) by {
                assert(xi_dom.vals().contains(a));
                let w2 = choose|w2: int| 0 <= w2 < xi_vals@.len() && xi_vals@[w2] == a;
                assert(has_support(*c, ni, xi_vals@[w2], nj, xj_dom.vals()));
            }
        }
        return false;
    }
    let ghost doms_before = doms@;
    let filtered = xi_dom.restrict_to(&valid);
    doms.set(xi, filtered);
    proof {
        xi_dom.lemma_inv_distinct();
        filtered.lemma_inv_distinct();
        assert forall|x: u64| #[trigger] filtered.vals().contains(x) implies xi_dom.vals()
            .contains(x) by {
            assert(xi_dom.vals().contains(x) && valid@.contains(x));
        }
        assert(!filtered.vals().contains(missing)) by {
            if valid@.contains(missing) {
                assert(has_support(*c, ni, missing, nj, xj_dom.vals()));
            }
        }
        lemma_strict_shrink(xi_dom.vals(), filtered.vals(), missing);
        assert(doms@[xi as int] == filtered);
        if xi != xj {
            assert(doms@[xj as int] == doms_before[xj as int]);
            assert forall|a: u64| #[trigger]
                doms@[xi as int].vals().contains(a) implies has_support(
                *c,
                ni,
                a,
                nj,
                doms@[xj as int].vals(),
            ) by {
                assert(filtered.vals().contains(a));
                assert(xi_dom.vals().contains(a) && valid@.contains(a));
                assert(has_support(*c, ni, a, nj, xj_dom.vals()));
            }
        }
        if xj_dom.vals().len() > 0 {
            assert forall|p: int| 0 <= p < c.scope().len() implies (#[trigger] c.scope()[p]) == ni
                || c.scope()[p] == nj by {
                if c.scope()[p] != ni && c.scope()[p] != nj {
                    let b0 = xj_dom.vals()[0];
                    assert(xj_dom.vals().contains(b0));
                    let pm = pair_map(ni, missing, nj, b0);
                    assert(!pm.contains_key(c.scope()[p]));
                    assert(!crate::constraint::all_assigned(c.scope(), pm)) by {
                        assert(!pm.contains_key(c.scope()[p]));
                    }
                    assert(c.spec_satisfied(pm));
                    assert(has_support(*c, ni, missing, nj, xj_dom.vals())) by {
                        assert(c.spec_satisfied(pair_map(ni, missing, nj, xj_dom.vals()[0])));
                    }
                    assert(false);
                }
            }
        }
        assert forall|a: u64|
            doms_before[xi as int].vals().contains(a) && !(#[trigger] doms@[xi as int].vals()
                .contains(a)) implies !has_support(*c, ni, a, nj, xj_dom.vals()) by {
            assert(xi_dom.vals().contains(a));
            assert(!valid@.contains(a)) by {
                if valid@.contains(a) {
                    assert(filtered.vals().contains(a));
                }
            }
            if has_support(*c, ni, a, nj, xj_dom.vals()) {
                let w2 = choose|w2: int| 0 <= w2 < xi_vals@.len() && xi_vals@[w2] == a;
                assert(xi_vals@.take(xi_vals@.len() as int).contains(a));
                assert(valid@.contains(a));
            }
        }
        assert forall|s: Map<Seq<char>, u64>| #[trigger]
            csp.full_solution(s) && values_in(csp, doms_before, s) implies values_in(
            csp,
            doms@,
            s,
        ) by {
            assert forall|i: int| 0 <= i < doms@.len() implies (#[trigger] doms@[i]).vals()
                .contains(s[csp.names()[i]]) by {
                if i == xi as int {
                    let a_val = s[ni];
                    let b_val = s[nj];
                    assert(doms_before[xi as int].vals().contains(a_val));
                    assert(xi_dom.vals().contains(a_val));
                    assert(doms_before[xj as int] == doms@[xj as int] || xi == xj);
                    // the solution's value at xj supports its value at xi
                    assert(xj_dom.vals().contains(b_val)) by {
                        if xi == xj {
                            assert(doms_before[xj as int].vals().contains(b_val));
                        } else {
                            assert(doms_before[xj as int].vals().contains(b_val));
                        }
                    }
                    let pm = pair_map(ni, a_val, nj, b_val);
                    assert(pm.submap_of(s)) by {
                        assert forall|k2: Seq<char>| #[trigger]
                            pm.dom().contains(k2) implies s.dom().contains(k2) && pm[k2]
                            == s[k2] by {
                            assert(k2 == ni || k2 == nj);
                            assert(s.dom() == csp.names().to_set());
                            if k2 == nj {
                                assert(csp.names().to_set().contains(nj)) by {
                                    assert(csp.names()[xj as int] == nj);
                                }
                            } else {
                                assert(csp.names().to_set().contains(ni)) by {
                                    assert(csp.names()[xi as int] == ni);
                                }
                            }
                        }
                    }
                    assert(csp.cons()[ci as int].spec_satisfied(s));
                    lemma_satisfied_submap(c, pm, s);
                    assert(has_support(*c, ni, a_val, nj, xj_dom.vals())) by {
                        let w2 = choose|w2: int|
                            0 <= w2 < xj_dom.vals().len() && xj_dom.vals()[w2] == b_val;
                        assert(c.spec_satisfied(pair_map(ni, a_val, nj, xj_dom.vals()[w2])));
                    }
                    assert(xi_vals@.contains(a_val));
                    assert(valid@.contains(a_val));
                    assert(filtered.vals().contains(a_val));
                } else {
                    assert(doms@[i] == doms_before[i]);
                }
            }
        }
    }
    true
}

/// One direction of an arc is covered: already consistent or still queued.
pub open spec fn arc_dir_covered<D: Domain>(
    csp: &Csp<D>,
    doms: Seq<D>,
    q: Seq<(usize, usize, usize)>,
    cd: int,
    p: int,
    qq: int,
) -> bool {
    arc_consistent(csp, doms, p, qq, cd) || enqueued(q, p, qq, cd)
}

/// While re-queueing the neighbors of a revised variable, an arc may also be
/// waiting for a later turn of the constraint loop.
pub open spec fn arc_dir_pending<D: Domain>(
    csp: &Csp<D>,
    xi: int,
    xj: int,
    ci2: int,
    cd: int,
    p: int,
    qq: int,
) -> bool {
    qq == xi && cd >= ci2 && csp.cons()[cd].scope().contains(csp.names()[xi])
        && csp.names()[p] != csp.names()[xi] && csp.names()[p] != csp.names()[xj]
}

proof fn lemma_enqueued_extend(
    q1: Seq<(usize, usize, usize)>,
    q2: Seq<(usize, usize, usize)>,
    i: int,
    j: int,
    ci: int,
)
    requires
        q2.len() >= q1.len(),
        forall|t: int| 0 <= t < q1.len() ==> q2[t] == q1[t],
        enqueued(q1, i, j, ci),
    ensures
        enqueued(q2, i, j, ci),
{
    let t = choose|t: int|
        0 <= t < q1.len() && ((#[trigger] q1[t]).0 as int) == i && (q1[t].1 as int) == j && (
        q1[t].2 as int) == ci;
    assert(q2[t] == q1[t]);
}

/// One case of re-establishing arc coverage after a revision that changed the
/// domain of `xi`: the arc is consistent again, still queued, or waits for
/// the neighbor re-queueing loop.
#[verifier::rlimit(60)]
proof fn lemma_arc_case<D: Domain>(
    csp: &Csp<D>,
    d1: Seq<D>,
    d2: Seq<D>,
    q_loop: Seq<(usize, usize, usize)>,
    q_pop: Seq<(usize, usize, usize)>,
    xi: int,
    xj: int,
    aci: int,
    cd: int,
    p: int,
    qq: int,
)
    requires
        csp.wf(),
        arc_hypotheses(csp),
        0 <= cd < csp.cons().len(),
        is_binary(csp, cd),
        0 <= xi < d1.len(),
        0 <= xj < d1.len(),
        0 <= aci < csp.cons().len(),
        d1.len() == d2.len(),
        d1.len() == csp.n(),
        (p == endpoint0(csp, cd) && qq == endpoint1(csp, cd)) || (p == endpoint1(csp, cd) && qq
            == endpoint0(csp, cd)),
        // effects of the revision
        forall|i: int| 0 <= i < d1.len() && i != xi ==> #[trigger] d2[i] == d1[i],
        forall|x: u64| #[trigger] d2[xi].vals().contains(x) ==> d1[xi].vals().contains(x),
        // the revised constraint is binary over exactly the two arc variables
        is_binary(csp, aci),
        xi != xj,
        csp.names()[xi] != csp.names()[xj],
        (endpoint0(csp, aci) == xi && endpoint1(csp, aci) == xj) || (endpoint0(csp, aci) == xj
            && endpoint1(csp, aci) == xi),
        // the support facts the revision guarantees
        forall|a: u64| #[trigger]
            d2[xi].vals().contains(a) ==> has_support(
                csp.cons()[aci],
                csp.names()[xi],
                a,
                csp.names()[xj],
                d2[xj].vals(),
            ),
        forall|a: u64|
            d1[xi].vals().contains(a) && !(#[trigger] d2[xi].vals().contains(a)) ==> !has_support(
                csp.cons()[aci],
                csp.names()[xi],
                a,
                csp.names()[xj],
                d1[xj].vals(),
            ),
        // the queue was popped
        q_loop.len() > 0,
        q_pop.len() == q_loop.len() - 1,
        forall|t: int| 0 <= t < q_pop.len() ==> #[trigger] q_pop[t] == q_loop[t + 1],
        (q_loop[0].0 as int) == xi && (q_loop[0].1 as int) == xj && (q_loop[0].2 as int) == aci,
        // the arc was covered before
        arc_dir_covered(csp, d1, q_loop, cd, p, qq),
    ensures
        arc_dir_covered(csp, d2, q_pop, cd, p, qq) || arc_dir_pending(csp, xi, xj, 0, cd, p, qq),
{
    lemma_endpoints(csp, cd);
    lemma_endpoints(csp, aci);
    if enqueued(q_loop, p, qq, cd) {
        let t = choose|t: int|
            0 <= t < q_loop.len() && ((#[trigger] q_loop[t]).0 as int) == p && (
            q_loop[t].1 as int) == qq && (q_loop[t].2 as int) == cd;
        if t == 0 {
            // the popped arc itself: the revision just made it consistent
            assert(p == xi && qq == xj && cd == aci);
            assert(d2[xj] == d1[xj]);
            assert(arc_consistent(csp, d2, xi, xj, aci));
        } else {
            assert(q_pop[t - 1] == q_loop[t]);
            assert(enqueued(q_pop, p, qq, cd));
        }
    } else {
        assert(arc_consistent(csp, d1, p, qq, cd));
        if qq != xi {
            assert(d2[qq].vals() == d1[qq].vals());
            assert forall|x: u64| #[trigger] d2[p].vals().contains(x) implies d1[p].vals()
                .contains(x) by {
                if p != xi {
                    assert(d2[p] == d1[p]);
                }
            }
            lemma_arc_consistent_narrow(csp, d1, d2, p, qq, cd);
        } else {
            if cd == aci {
                // the opposite direction of the revised arc survives
                assert(p == xj);
                assert(d2[xj] == d1[xj]);
                lemma_flip_arc_preserved(csp, d1, d2, xi, xj, aci);
            } else if p == xj {
                // two distinct binary constraints over the same pair:
                // excluded by hypothesis
                assert(same_scope_pair(csp.cons()[cd].scope(), csp.cons()[aci].scope())) by {
                    assert(csp.names()[endpoint0(csp, cd)] == csp.cons()[cd].scope()[0]);
                    assert(csp.names()[endpoint1(csp, cd)] == csp.cons()[cd].scope()[1]);
                    assert(csp.names()[endpoint0(csp, aci)] == csp.cons()[aci].scope()[0]);
                    assert(csp.names()[endpoint1(csp, aci)] == csp.cons()[aci].scope()[1]);
                }
                assert(false);
            } else {
                // a genuine neighbor arc: the re-queueing loop will push it
                assert(csp.cons()[cd].scope().contains(csp.names()[xi])) by {
                    assert(csp.names()[qq] == csp.cons()[cd].scope()[0] || csp.names()[qq]
                        == csp.cons()[cd].scope()[1]);
                }
                assert(csp.names()[p] != csp.names()[xi]) by {
                    if csp.names()[p] == csp.names()[xi] {
                        csp.lemma_idx_of(csp.names()[p]);
                    }
                }
                assert(csp.names()[p] != csp.names()[xj]) by {
                    if csp.names()[p] == csp.names()[xj] {
                        csp.lemma_idx_of(csp.names()[p]);
                    }
                }
                assert(arc_dir_pending(csp, xi, xj, 0, cd, p, qq));
            }
        }
    }
}

/// Re-establishing arc coverage after a revision that left every domain
/// unchanged: the popped arc is consistent, the others keep their cover.
proof fn lemma_arc_case_unrevised<D: Domain>(
    csp: &Csp<D>,
    doms: Seq<D>,
    q_loop: Seq<(usize, usize, usize)>,
    q_pop: Seq<(usize, usize, usize)>,
    xi: int,
    xj: int,
    aci: int,
    cd: int,
    p: int,
    qq: int,
)
    requires
        csp.wf(),
        arc_hypotheses(csp),
        0 <= cd < csp.cons().len(),
        is_binary(csp, cd),
        0 <= xi < doms.len(),
        0 <= xj < doms.len(),
        doms.len() == csp.n(),
        (p == endpoint0(csp, cd) && qq == endpoint1(csp, cd)) || (p == endpoint1(csp, cd) && qq
            == endpoint0(csp, cd)),
        // the popped arc is consistent whenever its variables differ
        xi != xj ==> forall|a: u64| #[trigger]
            doms[xi].vals().contains(a) ==> has_support(
                csp.cons()[aci],
                csp.names()[xi],
                a,
                csp.names()[xj],
                doms[xj].vals(),
            ),
        q_loop.len() > 0,
        q_pop.len() == q_loop.len() - 1,
        forall|t: int| 0 <= t < q_pop.len() ==> #[trigger] q_pop[t] == q_loop[t + 1],
        (q_loop[0].0 as int) == xi && (q_loop[0].1 as int) == xj && (q_loop[0].2 as int) == aci,
        arc_dir_covered(csp, doms, q_loop, cd, p, qq),
    ensures
        arc_dir_covered(csp, doms, q_pop, cd, p, qq),
{
    lemma_endpoints(csp, cd);
    if enqueued(q_loop, p, qq, cd) {
        let t = choose|t: int|
            0 <= t < q_loop.len() && ((#[trigger] q_loop[t]).0 as int) == p && (
            q_loop[t].1 as int) == qq && (q_loop[t].2 as int) == cd;
        if t == 0 {
            assert(p == xi && qq == xj && cd == aci);
            assert(p != qq);
            assert(arc_consistent(csp, doms, p, qq, cd));
        } else {
            assert(q_pop[t - 1] == q_loop[t]);
            assert(enqueued(q_pop, p, qq, cd));
        }
    }
}

/// Advancing the neighbor re-queueing loop by one constraint keeps every arc
/// covered or pending: arcs of the processed constraint that waited on it are
/// now queued.
proof fn lemma_advance_dir<D: Domain>(
    csp: &Csp<D>,
    doms: Seq<D>,
    q1: Seq<(usize, usize, usize)>,
    q2: Seq<(usize, usize, usize)>,
    xi: int,
    xj: int,
    ci2: int,
    involved: bool,
    cd: int,
    p: int,
    qq: int,
)
    requires
        csp.wf(),
        0 <= cd < csp.cons().len(),
        0 <= ci2 < csp.cons().len(),
        is_binary(csp, cd),
        (p == endpoint0(csp, cd) && qq == endpoint1(csp, cd)) || (p == endpoint1(csp, cd) && qq
            == endpoint0(csp, cd)),
        arc_hypotheses(csp),
        q2.len() >= q1.len(),
        forall|t: int| 0 <= t < q1.len() ==> q2[t] == q1[t],
        involved ==> forall|w2: int|
            0 <= w2 < csp.cons()[ci2].scope().len() && csp.cons()[ci2].scope()[w2] != csp.names()[
                xi
            ] && (#[trigger] csp.cons()[ci2].scope()[w2]) != csp.names()[xj] ==> enqueued(
                q2,
                csp.idx_of(csp.cons()[ci2].scope()[w2]),
                xi,
                ci2,
            ),
        !involved ==> !csp.cons()[ci2].scope().contains(csp.names()[xi]),
        arc_dir_covered(csp, doms, q1, cd, p, qq) || arc_dir_pending(csp, xi, xj, ci2, cd, p, qq),
    ensures
        arc_dir_covered(csp, doms, q2, cd, p, qq) || arc_dir_pending(
            csp,
            xi,
            xj,
            ci2 + 1,
            cd,
            p,
            qq,
        ),
{
    lemma_endpoints(csp, cd);
    if arc_dir_covered(csp, doms, q1, cd, p, qq) {
        if enqueued(q1, p, qq, cd) {
            lemma_enqueued_extend(q1, q2, p, qq, cd);
        }
    } else {
        assert(arc_dir_pending(csp, xi, xj, ci2, cd, p, qq));
        if cd == ci2 {
            assert(csp.cons()[cd].scope().contains(csp.names()[xi]));
            assert(involved);
            // the source endpoint's name sits in the scope; its arc was pushed
            let k: int = if p == endpoint0(csp, cd) {
                0
            } else {
                1
            };
            assert(csp.names()[p] == csp.cons()[cd].scope()[k]);
            assert(csp.cons()[cd].scope()[k] != csp.names()[xi]);
            assert(csp.cons()[cd].scope()[k] != csp.names()[xj]);
            assert(enqueued(q2, csp.idx_of(csp.cons()[cd].scope()[k]), xi, cd));
            assert(csp.idx_of(csp.cons()[cd].scope()[k]) == p) by {
                csp.lemma_idx_of(csp.cons()[cd].scope()[k]);
            }
            assert(qq == xi);
            assert(enqueued(q2, p, qq, cd));
        }
    }
}

/// AC-3 over the live domain table: repeatedly revise directed arcs of the
/// binary constraints until none changes; fails exactly when some live domain
/// is wiped out, in which case no solution lay inside the table. Under the
/// arc hypotheses, success leaves every binary arc consistent.
#[verifier::loop_isolation(false)]
#[verifier::rlimit(60)]
pub fn ac3<D: Domain>(csp: &Csp<D>, doms: &mut Vec<D>) -> (ok: bool)
    requires
        csp.wf(),
        domains_ok(csp, old(doms)@),
    ensures
        domains_ok(csp, final(doms)@),
        forall|i: int, x: u64|
            0 <= i < final(doms)@.len() && (#[trigger] final(doms)@[i].vals().contains(x)) ==> old(
                doms,
            )@[i].vals().contains(x),
        forall|s: Map<Seq<char>, u64>| #[trigger]
            csp.full_solution(s) && values_in(csp, old(doms)@, s) ==> values_in(
                csp,
                final(doms)@,
                s,
            ),
        !ok ==> forall|s: Map<Seq<char>, u64>| #[trigger]
            csp.full_solution(s) ==> !values_in(csp, old(doms)@, s),
        !ok ==> exists|i: int| 0 <= i < final(doms)@.len() && (#[trigger] final(doms)@[i]).vals().len()
            == 0,
        ok && arc_hypotheses(csp) && (forall|i: int|
            0 <= i < old(doms)@.len() ==> (#[trigger] old(doms)@[i]).vals().len() > 0)
            ==> fully_arc_consistent(csp, final(doms)@),
        arc_hypotheses(csp) && fully_arc_consistent(csp, old(doms)@) ==> ok && final(doms)@ == old(
            doms,
        )@,
{
    proof {
        csp.lemma_wf_facts();
    }
    let cs = csp.get_constraints();
    let ghost doms_in = old(doms)@;
    let ghost hyp = arc_hypotheses(csp) && (forall|i: int|
        0 <= i < doms_in.len() ==> (#[trigger] doms_in[i]).vals().len() > 0);
    let ghost precise = arc_hypotheses(csp) && fully_arc_consistent(csp, doms_in);
    let mut queue: Vec<(usize, usize, usize)> = Vec::new();
    let mut ci: usize = 0;
    while ci < cs.len()
        invariant
            ci <= csp.cons().len(),
            forall|t: int|
                0 <= t < queue@.len() ==> (#[trigger] queue@[t]).0 < csp.n() && queue@[t].1
                    < csp.n() && queue@[t].2 < csp.cons().len(),
            forall|ci2: int|
                0 <= ci2 < ci && #[trigger] is_binary(csp, ci2) ==> enqueued(
                    queue@,
                    endpoint0(csp, ci2),
                    endpoint1(csp, ci2),
                    ci2,
                ) && enqueued(queue@, endpoint1(csp, ci2), endpoint0(csp, ci2), ci2),
            forall|t: int| 0 <= t < queue@.len() ==> genuine_arc(csp, #[trigger] queue@[t]),
        decreases csp.cons().len() - ci,
    {
        let ghost queue0 = queue@;
        let c = &cs[ci];
        let scope = c.variables();
        if scope.len() == 2 {
            proof {
                assert(*c == csp.cons()[ci as int]);
                assert(c.scope()[0] == scope@[0]@);
                assert(c.scope()[1] == scope@[1]@);
                csp.lemma_scope_registered(ci as int, 0);
                csp.lemma_scope_registered(ci as int, 1);
            }
            let i0 = match csp.index_of_variable(&scope[0]) {
                Some(i) => i,
                None => {
                    proof {
                        assert(false);
                    }
                    return false;
                },
            };
            let i1 = match csp.index_of_variable(&scope[1]) {
                Some(i) => i,
                None => {
                    proof {
                        assert(false);
                    }
                    return false;
                },
            };
            queue.push((i0, i1, ci));
            queue.push((i1, i0, ci));
            proof {
                assert(i0 as int == endpoint0(csp, ci as int));
                assert(i1 as int == endpoint1(csp, ci as int));
                assert(queue@[queue@.len() - 2] == (i0, i1, ci));
                assert(queue@[queue@.len() - 1] == (i1, i0, ci));
                assert forall|ci2: int|
                    0 <= ci2 < ci + 1 && #[trigger] is_binary(csp, ci2) implies enqueued(
                    queue@,
                    endpoint0(csp, ci2),
                    endpoint1(csp, ci2),
                    ci2,
                ) && enqueued(queue@, endpoint1(csp, ci2), endpoint0(csp, ci2), ci2) by {
                    if ci2 < ci as int {
                        lemma_enqueued_extend(
                            queue0,
                            queue@,
                            endpoint0(csp, ci2),
                            endpoint1(csp, ci2),
                            ci2,
                        );
                        lemma_enqueued_extend(
                            queue0,
                            queue@,
                            endpoint1(csp, ci2),
                            endpoint0(csp, ci2),
                            ci2,
                        );
                    }
                }
            }
        }
        ci += 1;
    }
    proof {
        if hyp {
            assert forall|cd: int|
                0 <= cd < csp.cons().len() && #[trigger] is_binary(csp, cd) implies arc_dir_covered(
                csp,
                doms@,
                queue@,
                cd,
                endpoint0(csp, cd),
                endpoint1(csp, cd),
            ) && arc_dir_covered(csp, doms@, queue@, cd, endpoint1(csp, cd), endpoint0(csp, cd)) by {
            }
        }
    }
    while queue.len() > 0
        invariant
            forall|t: int|
                0 <= t < queue@.len() ==> (#[trigger] queue@[t]).0 < csp.n() && queue@[t].1
                    < csp.n() && queue@[t].2 < csp.cons().len(),
            domains_ok(csp, doms@),
            forall|i: int, x: u64|
                0 <= i < doms@.len() && (#[trigger] doms@[i].vals().contains(x)) ==> doms_in[
                    i
                ].vals().contains(x),
            forall|s: Map<Seq<char>, u64>| #[trigger]
                csp.full_solution(s) && values_in(csp, doms_in, s) ==> values_in(csp, doms@, s),
            hyp ==> forall|i: int|
                0 <= i < doms@.len() ==> (#[trigger] doms@[i]).vals().len() > 0,
            hyp ==> forall|cd: int|
                0 <= cd < csp.cons().len() && #[trigger] is_binary(csp, cd) ==> arc_dir_covered(
                    csp,
                    doms@,
                    queue@,
                    cd,
                    endpoint0(csp, cd),
                    endpoint1(csp, cd),
                ) && arc_dir_covered(
                    csp,
                    doms@,
                    queue@,
                    cd,
                    endpoint1(csp, cd),
                    endpoint0(csp, cd),
                ),
            precise ==> doms@ == doms_in,
            precise ==> forall|t: int| 0 <= t < queue@.len() ==> genuine_arc(
                csp,
                #[trigger] queue@[t],
            ),
        decreases doms_total(doms@), queue@.len(),
    {
        let ghost doms_loop = doms@;
        let ghost queue_loop = queue@;
        let arc = queue.remove(0);
        let xi = arc.0;
        let xj = arc.1;
        let aci = arc.2;
        let ghost queue_pop = queue@;
        proof {
            assert(queue_loop[0] == arc);
        }
        let revised = revise(csp, doms, xi, xj, aci);
        proof {
            if precise && revised {
                // a genuinely arc-consistent table is never revised: the
                // dropped value would have lacked a supporter it has
                assert(genuine_arc(csp, arc));
                lemma_endpoints(csp, aci as int);
                assert(doms_loop == doms_in);
                assert(doms@[xi as int].vals().len() < doms_loop[xi as int].vals().len());
                assert(exists|a: u64|
                    doms_loop[xi as int].vals().contains(a) && !(#[trigger] doms@[
                        xi as int
                    ].vals().contains(a))) by {
                    if forall|a: u64|
                        doms_loop[xi as int].vals().contains(a) ==> #[trigger] doms@[
                            xi as int
                        ].vals().contains(a) {
                        doms_loop[xi as int].lemma_inv_distinct();
                        doms@[xi as int].lemma_inv_distinct();
                        doms_loop[xi as int].vals().unique_seq_to_set();
                        doms@[xi as int].vals().unique_seq_to_set();
                        assert(doms_loop[xi as int].vals().to_set() =~= doms@[
                            xi as int
                        ].vals().to_set());
                    }
                }
                let a = choose|a: u64|
                    doms_loop[xi as int].vals().contains(a) && !(#[trigger] doms@[
                        xi as int
                    ].vals().contains(a));
                assert(!has_support(
                    csp.cons()[aci as int],
                    csp.names()[xi as int],
                    a,
                    csp.names()[xj as int],
                    doms_loop[xj as int].vals(),
                ));
                assert(arc_consistent(csp, doms_in, xi as int, xj as int, aci as int));
                assert(false);
            }
        }
        if revised {
            if doms[xi].is_empty() {
                proof {
                    assert forall|s: Map<Seq<char>, u64>| #[trigger]
                        csp.full_solution(s) implies !values_in(csp, doms_in, s) by {
                        if values_in(csp, doms_in, s) {
                            assert(values_in(csp, doms@, s));
                            assert(doms@[xi as int].vals().contains(s[csp.names()[xi as int]]));
                        }
                    }
                    assert(doms@[xi as int].vals().len() == 0);
                }
                return false;
            }
        }
        proof {
            if hyp {
                // under the hypotheses a revision pins the revised constraint
                // down: it is binary over exactly the two arc variables
                if revised {
                    assert(doms_loop[xj as int].vals().len() > 0);
                    assert(csp.names()[xi as int] != csp.names()[xj as int]) by {
                        if csp.names()[xi as int] == csp.names()[xj as int] {
                            assert(csp.cons()[aci as int].scope().len() >= 2);
                            assert(csp.cons()[aci as int].scope()[0] != csp.cons()[
                                aci as int
                            ].scope()[1]);
                            assert(csp.cons()[aci as int].scope()[0] == csp.names()[xi as int]
                                || csp.cons()[aci as int].scope()[0] == csp.names()[xj as int]);
                            assert(csp.cons()[aci as int].scope()[1] == csp.names()[xi as int]
                                || csp.cons()[aci as int].scope()[1] == csp.names()[xj as int]);
                        }
                    }
                    assert(is_binary(csp, aci as int)) by {
                        if csp.cons()[aci as int].scope().len() >= 3 {
                            let s0 = csp.cons()[aci as int].scope()[0];
                            let s1 = csp.cons()[aci as int].scope()[1];
                            let s2 = csp.cons()[aci as int].scope()[2];
                            assert(s0 != s1 && s0 != s2 && s1 != s2);
                            assert(s0 == csp.names()[xi as int] || s0 == csp.names()[xj as int]);
                            assert(s1 == csp.names()[xi as int] || s1 == csp.names()[xj as int]);
                            assert(s2 == csp.names()[xi as int] || s2 == csp.names()[xj as int]);
                        }
                        assert(csp.cons()[aci as int].scope().len() >= 2);
                    }
                    assert((endpoint0(csp, aci as int) == xi as int && endpoint1(csp, aci as int)
                        == xj as int) || (endpoint0(csp, aci as int) == xj as int && endpoint1(
                        csp,
                        aci as int,
                    ) == xi as int)) by {
                        lemma_endpoints(csp, aci as int);
                        let s0 = csp.cons()[aci as int].scope()[0];
                        let s1 = csp.cons()[aci as int].scope()[1];
                        assert(s0 == csp.names()[xi as int] || s0 == csp.names()[xj as int]);
                        assert(s1 == csp.names()[xi as int] || s1 == csp.names()[xj as int]);
                        assert(s0 != s1);
                        csp.lemma_idx_of(s0);
                        csp.lemma_idx_of(s1);
                        assert(csp.names()[xi as int] == csp.names()[xi as int]);
                    }
                }
            }
        }
        if revised {
            let xi_var = csp.variable_at(xi);
            let xj_var = csp.variable_at(xj);
            let ghost queue_base = queue@;
            proof {
                if hyp {
                    // every binary arc is consistent, queued, or waiting for
                    // the neighbor re-queueing loop below
                    assert forall|cd: int|
                        0 <= cd < csp.cons().len() && #[trigger] is_binary(csp, cd) implies (
                    arc_dir_covered(csp, doms@, queue@, cd, endpoint0(csp, cd), endpoint1(csp, cd))
                        || arc_dir_pending(
                        csp,
                        xi as int,
                        xj as int,
                        0,
                        cd,
                        endpoint0(csp, cd),
                        endpoint1(csp, cd),
                    )) && (arc_dir_covered(
                        csp,
                        doms@,
                        queue@,
                        cd,
                        endpoint1(csp, cd),
                        endpoint0(csp, cd),
                    ) || arc_dir_pending(
                        csp,
                        xi as int,
                        xj as int,
                        0,
                        cd,
                        endpoint1(csp, cd),
                        endpoint0(csp, cd),
                    )) by {
                        lemma_endpoints(csp, cd);
                        lemma_arc_case(
                            csp,
                            doms_loop,
                            doms@,
                            queue_loop,
                            queue_pop,
                            xi as int,
                            xj as int,
                            aci as int,
                            cd,
                            endpoint0(csp, cd),
                            endpoint1(csp, cd),
                        );
                        lemma_arc_case(
                            csp,
                            doms_loop,
                            doms@,
                            queue_loop,
                            queue_pop,
                            xi as int,
                            xj as int,
                            aci as int,
                            cd,
                            endpoint1(csp, cd),
                            endpoint0(csp, cd),
                        );
                    }
                }
            }
            let mut ci2: usize = 0;
            while ci2 < cs.len()
                invariant
                    ci2 <= csp.cons().len(),
                    forall|t: int|
                        0 <= t < queue@.len() ==> (#[trigger] queue@[t]).0 < csp.n() && queue@[t].1
                            < csp.n() && queue@[t].2 < csp.cons().len(),
                    hyp ==> forall|cd: int|
                        0 <= cd < csp.cons().len() && #[trigger] is_binary(csp, cd) ==> (
                        arc_dir_covered(
                            csp,
                            doms@,
                            queue@,
                            cd,
                            endpoint0(csp, cd),
                            endpoint1(csp, cd),
                        ) || arc_dir_pending(
                            csp,
                            xi as int,
                            xj as int,
                            ci2 as int,
                            cd,
                            endpoint0(csp, cd),
                            endpoint1(csp, cd),
                        )) && (arc_dir_covered(
                            csp,
                            doms@,
                            queue@,
                            cd,
                            endpoint1(csp, cd),
                            endpoint0(csp, cd),
                        ) || arc_dir_pending(
                            csp,
                            xi as int,
                            xj as int,
                            ci2 as int,
                            cd,
                            endpoint1(csp, cd),
                            endpoint0(csp, cd),
                        )),
                decreases csp.cons().len() - ci2,
            {
                let ghost queue_c2 = queue@;
                let c2 = &cs[ci2];
                let involved = c2.involves(&xi_var);
                if involved {
                    let scope2 = c2.variables();
                    let mut w: usize = 0;
                    while w < scope2.len()
                        invariant
                            w <= scope2@.len(),
                            queue@.len() >= queue_c2.len(),
                            forall|t: int| 0 <= t < queue_c2.len() ==> queue@[t] == queue_c2[t],
                            forall|t: int|
                                0 <= t < queue@.len() ==> (#[trigger] queue@[t]).0 < csp.n()
                                    && queue@[t].1 < csp.n() && queue@[t].2 < csp.cons().len(),
                            forall|w2: int|
                                0 <= w2 < w && csp.cons()[ci2 as int].scope()[w2] != csp.names()[
                                    xi as int
                                ] && (#[trigger] csp.cons()[ci2 as int].scope()[w2])
                                    != csp.names()[xj as int] ==> enqueued(
                                    queue@,
                                    csp.idx_of(csp.cons()[ci2 as int].scope()[w2]),
                                    xi as int,
                                    ci2 as int,
                                ),
                        decreases scope2@.len() - w,
                    {
                        let ghost queue_w = queue@;
                        let wv = &scope2[w];
                        proof {
                            assert(*c2 == csp.cons()[ci2 as int]);
                            assert(c2.scope()[w as int] == wv@);
                            csp.lemma_scope_registered(ci2 as int, w as int);
                        }
                        if !wv.same_variable(&xi_var) && !wv.same_variable(&xj_var) {
                            let wi = match csp.index_of_variable(wv) {
                                Some(i) => i,
                                None => {
                                    proof {
                                        assert(false);
                                    }
                                    return false;
                                },
                            };
                            queue.push((wi, xi, ci2));
                            proof {
                                assert(queue@[queue@.len() - 1] == (wi, xi, ci2));
                                assert forall|w2: int|
                                    0 <= w2 < w + 1 && csp.cons()[ci2 as int].scope()[w2]
                                        != csp.names()[xi as int] && (#[trigger] csp.cons()[
                                        ci2 as int
                                    ].scope()[w2]) != csp.names()[xj as int] implies enqueued(
                                    queue@,
                                    csp.idx_of(csp.cons()[ci2 as int].scope()[w2]),
                                    xi as int,
                                    ci2 as int,
                                ) by {
                                    if w2 < w as int {
                                        lemma_enqueued_extend(
                                            queue_w,
                                            queue@,
                                            csp.idx_of(csp.cons()[ci2 as int].scope()[w2]),
                                            xi as int,
                                            ci2 as int,
                                        );
                                    } else {
                                        assert(wi as int == csp.idx_of(
                                            csp.cons()[ci2 as int].scope()[w2],
                                        ));
                                    }
                                }
                            }
                        } else {
                            proof {
                                assert forall|w2: int|
                                    0 <= w2 < w + 1 && csp.cons()[ci2 as int].scope()[w2]
                                        != csp.names()[xi as int] && (#[trigger] csp.cons()[
                                        ci2 as int
                                    ].scope()[w2]) != csp.names()[xj as int] implies enqueued(
                                    queue@,
                                    csp.idx_of(csp.cons()[ci2 as int].scope()[w2]),
                                    xi as int,
                                    ci2 as int,
                                ) by {
                                    if w2 == w as int {
                                        assert(wv@ == csp.names()[xi as int] || wv@ == csp.names()[
                                            xj as int
                                        ]);
                                        assert(false);
                                    }
                                }
                            }
                        }
                        w += 1;
                    }
                    proof {
                        if hyp {
                            assert forall|cd: int|
                                0 <= cd < csp.cons().len() && #[trigger] is_binary(
                                    csp,
                                    cd,
                                ) implies (arc_dir_covered(
                                csp,
                                doms@,
                                queue@,
                                cd,
                                endpoint0(csp, cd),
                                endpoint1(csp, cd),
                            ) || arc_dir_pending(
                                csp,
                                xi as int,
                                xj as int,
                                ci2 + 1,
                                cd,
                                endpoint0(csp, cd),
                                endpoint1(csp, cd),
                            )) && (arc_dir_covered(
                                csp,
                                doms@,
                                queue@,
                                cd,
                                endpoint1(csp, cd),
                                endpoint0(csp, cd),
                            ) || arc_dir_pending(
                                csp,
                                xi as int,
                                xj as int,
                                ci2 + 1,
                                cd,
                                endpoint1(csp, cd),
                                endpoint0(csp, cd),
                            )) by {
                                lemma_advance_dir(
                                    csp,
                                    doms@,
                                    queue_c2,
                                    queue@,
                                    xi as int,
                                    xj as int,
                                    ci2 as int,
                                    true,
                                    cd,
                                    endpoint0(csp, cd),
                                    endpoint1(csp, cd),
                                );
                                lemma_advance_dir(
                                    csp,
                                    doms@,
                                    queue_c2,
                                    queue@,
                                    xi as int,
                                    xj as int,
                                    ci2 as int,
                                    true,
                                    cd,
                                    endpoint1(csp, cd),
                                    endpoint0(csp, cd),
                                );
                            }
                        }
                    }
                } else {
                    proof {
                        if hyp {
                            assert forall|cd: int|
                                0 <= cd < csp.cons().len() && #[trigger] is_binary(
                                    csp,
                                    cd,
                                ) implies (arc_dir_covered(
                                csp,
                                doms@,
                                queue@,
                                cd,
                                endpoint0(csp, cd),
                                endpoint1(csp, cd),
                            ) || arc_dir_pending(
                                csp,
                                xi as int,
                                xj as int,
                                ci2 + 1,
                                cd,
                                endpoint0(csp, cd),
                                endpoint1(csp, cd),
                            )) && (arc_dir_covered(
                                csp,
                                doms@,
                                queue@,
                                cd,
                                endpoint1(csp, cd),
                                endpoint0(csp, cd),
                            ) || arc_dir_pending(
                                csp,
                                xi as int,
                                xj as int,
                                ci2 + 1,
                                cd,
                                endpoint1(csp, cd),
                                endpoint0(csp, cd),
                            )) by {
                                lemma_advance_dir(
                                    csp,
                                    doms@,
                                    queue_c2,
                                    queue@,
                                    xi as int,
                                    xj as int,
                                    ci2 as int,
                                    false,
                                    cd,
                                    endpoint0(csp, cd),
                                    endpoint1(csp, cd),
                                );
                                lemma_advance_dir(
                                    csp,
                                    doms@,
                                    queue_c2,
                                    queue@,
                                    xi as int,
                                    xj as int,
                                    ci2 as int,
                                    false,
                                    cd,
                                    endpoint1(csp, cd),
                                    endpoint0(csp, cd),
                                );
                            }
                        }
                    }
                }
                ci2 += 1;
            }
            proof {
                lemma_total_shrink(doms_loop, doms@, xi as int);
                if hyp {
                    assert(doms@[xi as int].vals().len() > 0);
                    assert forall|i: int| 0 <= i < doms@.len() implies (#[trigger] doms@[i]).vals()
                        .len() > 0 by {
                        if i != xi as int {
                            assert(doms@[i] == doms_loop[i]);
                        }
                    }
                    // no arc is pending once the constraint loop is done
                    assert forall|cd: int|
                        0 <= cd < csp.cons().len() && #[trigger] is_binary(csp, cd) implies
                    arc_dir_covered(csp, doms@, queue@, cd, endpoint0(csp, cd), endpoint1(csp, cd))
                        && arc_dir_covered(
                        csp,
                        doms@,
                        queue@,
                        cd,
                        endpoint1(csp, cd),
                        endpoint0(csp, cd),
                    ) by {
                        assert(!arc_dir_pending(
                            csp,
                            xi as int,
                            xj as int,
                            csp.cons().len() as int,
                            cd,
                            endpoint0(csp, cd),
                            endpoint1(csp, cd),
                        ));
                        assert(!arc_dir_pending(
                            csp,
                            xi as int,
                            xj as int,
                            csp.cons().len() as int,
                            cd,
                            endpoint1(csp, cd),
                            endpoint0(csp, cd),
                        ));
                    }
                }
            }
        } else {
            proof {
                assert(doms@ == doms_loop);
                if hyp {
                    assert forall|cd: int|
                        0 <= cd < csp.cons().len() && #[trigger] is_binary(csp, cd) implies
                    arc_dir_covered(csp, doms@, queue@, cd, endpoint0(csp, cd), endpoint1(csp, cd))
                        && arc_dir_covered(
                        csp,
                        doms@,
                        queue@,
                        cd,
                        endpoint1(csp, cd),
                        endpoint0(csp, cd),
                    ) by {
                        lemma_endpoints(csp, cd);
                        lemma_arc_case_unrevised(
                            csp,
                            doms@,
                            queue_loop,
                            queue_pop,
                            xi as int,
                            xj as int,
                            aci as int,
                            cd,
                            endpoint0(csp, cd),
                            endpoint1(csp, cd),
                        );
                        lemma_arc_case_unrevised(
                            csp,
                            doms@,
                            queue_loop,
                            queue_pop,
                            xi as int,
                            xj as int,
                            aci as int,
                            cd,
                            endpoint1(csp, cd),
                            endpoint0(csp, cd),
                        );
                    }
                }
            }
        }
    }
    proof {
        if hyp {
            assert forall|cd: int|
                0 <= cd < csp.cons().len() && #[trigger] is_binary(csp, cd) implies arc_consistent(
                csp,
                doms@,
                endpoint0(csp, cd),
                endpoint1(csp, cd),
                cd,
            ) && arc_consistent(csp, doms@, endpoint1(csp, cd), endpoint0(csp, cd), cd) by {
                assert(!enqueued(queue@, endpoint0(csp, cd), endpoint1(csp, cd), cd));
                assert(!enqueued(queue@, endpoint1(csp, cd), endpoint0(csp, cd), cd));
            }
        }
    }
    true
}

/// Backtracking that maintains arc consistency: after each consistent
/// tentative assignment the assigned variable's live domain is pinned to the
/// chosen value and AC-3 is re-run before descending.
#[verifier::loop_isolation(false)]
fn backtrack_ac<D: Domain>(a: &mut Assignment, csp: &Csp<D>, doms: &mut Vec<D>) -> (found: bool)
    requires
        csp.wf(),
        old(a).wf(),
        csp.partial_ok(old(a)@),
        csp.spec_consistent(old(a)@),
        domains_ok(csp, old(doms)@),
        domains_subset(csp, old(doms)@),
        covers_extensions(csp, old(doms)@, old(a)@),
    ensures
        domains_ok(csp, final(doms)@),
        found ==> final(a).wf() && csp.full_solution(final(a)@) && old(a)@.submap_of(final(a)@),
        !found ==> final(a)@ == old(a)@ && final(a).wf() && (forall|s: Map<Seq<char>, u64>|
            #[trigger] csp.full_solution(s) ==> !old(a)@.submap_of(s)),
        !found ==> final(doms)@.map_values(|d: D| d.vals()) == old(doms)@.map_values(
            |d: D| d.vals(),
        ),
    decreases csp.n() - a@.dom().len(),
{
    proof {
        a.lemma_dom_finite();
        csp.lemma_wf_facts();
    }
    let n = csp.num_variables();
    if a.is_complete(n) {
        proof {
            csp.lemma_complete_partial_is_full(a@);
            assert(a@.submap_of(a@));
        }
        return true;
    }
    let vi = match select_min_live_domain(&*a, csp, doms) {
        Some(vi) => vi,
        None => {
            proof {
                assert forall|k: Seq<char>| csp.names().to_set().contains(k) implies a@.dom()
                    .contains(k) by {
                    assert(csp.registered(k));
                    assert(a@.contains_key(k));
                }
                assert(a@.dom() =~= csp.names().to_set());
                assert(false);
            }
            return false;
        },
    };
    let v = csp.variable_at(vi);
    proof {
        csp.lemma_idx_of(v@);
    }
    let node_dom = doms[vi].duplicate();
    let ordered = node_dom.values();
    let ghost a0 = a@;
    let ghost doms0 = doms@;
    let mut k: usize = 0;
    let mut found = false;
    while k < ordered.len() && !found
        invariant
            k <= ordered@.len(),
            found ==> a.wf() && csp.full_solution(a@) && a0.submap_of(a@),
            !found ==> a@ == a0 && a.wf(),
            domains_ok(csp, doms@),
            !found ==> doms@.map_values(|d: D| d.vals()) == doms0.map_values(|d: D| d.vals()),
            !found ==> forall|s: Map<Seq<char>, u64>| #[trigger]
                csp.full_solution(s) && a0.submap_of(s) && picks_early(s, v@, ordered@, k as int)
                    ==> false,
        decreases ordered@.len() - k,
    {
        let x = ordered[k];
        let ghost a1 = a0.insert(v@, x);
        a.assign(v.clone(), x);
        proof {
            assert(ordered@.contains(x)) by {
                assert(ordered@[k as int] == x);
            }
            assert(node_dom.vals() == doms0[vi as int].vals());
            assert(doms@[vi as int].vals() == doms0[vi as int].vals()) by {
                assert(doms@.map_values(|d: D| d.vals())[vi as int] == doms0.map_values(
                    |d: D| d.vals(),
                )[vi as int]);
            }
            assert(doms@[vi as int].vals().contains(x));
            assert(doms0[vi as int].vals().contains(x));
            assert(csp.doms()[vi as int].contains(x));
            assert(csp.dom_of(v@) == csp.doms()[vi as int]);
            assert forall|key: Seq<char>| #[trigger]
                a1.contains_key(key) implies csp.registered(key) && csp.dom_of(key).contains(
                a1[key],
            ) by {
                if key != v@ {
                    assert(a0.contains_key(key));
                } else {
                    assert(csp.names().contains(v@)) by {
                        assert(csp.names()[vi as int] == v@);
                    }
                }
            }
            assert(csp.partial_ok(a1));
            assert(a0.submap_of(a1));
        }
        let consistent_here = csp.is_consistent(&*a);
        let ghost doms_pre = doms@;
        let mut mac_ok = false;
        let mut rec_found = false;
        if consistent_here {
            proof {
                a.lemma_dom_finite();
                assert(a@.dom().contains(v@));
                assert(!a0.dom().contains(v@));
                assert(a0.dom().subset_of(a@.dom()));
                vstd::set_lib::lemma_len_subset(a0.dom(), a@.dom());
                assert(a@.dom().len() > a0.dom().len()) by {
                    if a@.dom().len() == a0.dom().len() {
                        vstd::set_lib::lemma_subset_equality(a0.dom(), a@.dom());
                        assert(a0.dom().contains(v@));
                    }
                }
                assert forall|key: Seq<char>| a@.dom().contains(key) implies csp.names().to_set()
                    .contains(key) by {
                    assert(a@.contains_key(key));
                    assert(csp.registered(key));
                }
                vstd::set_lib::lemma_len_subset(a@.dom(), csp.names().to_set());
            }
            let saved = duplicate_domains(doms);
            // pin the assigned variable's live domain to the chosen value
            let mut singleton: Vec<u64> = Vec::new();
            singleton.push(x);
            let pinned = doms[vi].restrict_to(&singleton);
            doms.set(vi, pinned);
            let ghost doms_pin = doms@;
            proof {
                // pinning keeps every solution extending a1
                assert forall|s: Map<Seq<char>, u64>| #[trigger]
                    csp.full_solution(s) && a1.submap_of(s) implies values_in(
                    csp,
                    doms_pin,
                    s,
                ) by {
                    lemma_extension_submap(a0, a1, s);
                    lemma_values_in_congruent(csp, doms0, doms_pre, s);
                    assert(values_in(csp, doms_pre, s));
                    assert forall|i: int| 0 <= i < doms_pin.len() implies (#[trigger] doms_pin[i])
                        .vals().contains(s[csp.names()[i]]) by {
                        if i == vi as int {
                            assert(a1.dom().contains(v@));
                            lemma_submap_key(a1, s, v@);
                            assert(s[v@] == x);
                            assert(singleton@.contains(x)) by {
                                assert(singleton@[0] == x);
                            }
                            assert(doms_pre[i].vals().contains(s[csp.names()[i]]));
                        } else {
                            assert(doms_pin[i] == doms_pre[i]);
                        }
                    }
                }
            }
            mac_ok = ac3(csp, doms);
            if mac_ok {
                proof {
                    // after propagation the table still covers extensions of a1
                    assert forall|s: Map<Seq<char>, u64>| #[trigger]
                        csp.full_solution(s) && a1.submap_of(s) implies values_in(
                        csp,
                        doms@,
                        s,
                    ) by {
                        assert(values_in(csp, doms_pin, s));
                    }
                    assert(covers_extensions(csp, doms@, a1));
                    assert forall|i: int, x2: u64|
                        0 <= i < doms@.len() && (#[trigger] doms@[i].vals().contains(x2)) implies
                    csp.doms()[i].contains(x2) by {
                        assert(doms_pin[i].vals().contains(x2));
                        if i == vi as int {
                            assert(doms_pin[i] == pinned);
                            assert(pinned.vals().contains(x2));
                            assert(doms_pre[i].vals().contains(x2) && singleton@.contains(x2));
                        } else {
                            assert(doms_pin[i] == doms_pre[i]);
                        }
                        assert(doms_pre.map_values(|d: D| d.vals())[i] == doms0.map_values(
                            |d: D| d.vals(),
                        )[i]);
                        assert(doms0[i].vals().contains(x2));
                    }
                    assert(domains_subset(csp, doms@));
                }
                rec_found = backtrack_ac(a, csp, doms);
            }
            if rec_found {
                found = true;
                proof {
                    lemma_extension_submap(a0, a1, a@);
                }
            } else {
                *doms = saved;
                a.unassign(&v);
                proof {
                    assert(a@ =~= a0);
                    assert(doms@.map_values(|d: D| d.vals()) =~= doms_pre.map_values(
                        |d: D| d.vals(),
                    ));
                }
            }
        } else {
            a.unassign(&v);
            proof {
                assert(a@ =~= a0);
            }
        }
        proof {
            if !found {
                assert forall|s: Map<Seq<char>, u64>| #[trigger]
                    csp.full_solution(s) && a0.submap_of(s) && picks_early(
                        s,
                        v@,
                        ordered@,
                        k + 1,
                    ) implies false by {
                    let q = choose|q: int| 0 <= q < k + 1 && s[v@] == ordered@[q];
                    if q < k as int {
                        assert(picks_early(s, v@, ordered@, k as int));
                    } else {
                        assert(s[v@] == x);
                        assert(a1.submap_of(s)) by {
                            assert forall|key: Seq<char>| #[trigger]
                                a1.dom().contains(key) implies s.dom().contains(key) && a1[key]
                                == s[key] by {
                                if key == v@ {
                                    assert(s.dom() == csp.names().to_set());
                                    assert(csp.names().to_set().contains(v@)) by {
                                        assert(csp.names()[vi as int] == v@);
                                    }
                                } else {
                                    assert(a0.dom().contains(key));
                                    lemma_submap_key(a0, s, key);
                                }
                            }
                        }
                        if !consistent_here {
                            assert forall|ci: int|
                                0 <= ci < csp.cons().len() implies (#[trigger] csp.cons()[ci])
                                .spec_satisfied(a1) by {
                                lemma_satisfied_submap(&csp.cons()[ci], a1, s);
                            }
                            assert(csp.spec_consistent(a1));
                            assert(false);
                        } else if !mac_ok {
                            // the propagation proved this branch empty
                            assert(false);
                        } else {
                            // the recursive search proved this branch empty
                            assert(!a1.submap_of(s));
                            assert(false);
                        }
                    }
                }
            }
        }
        k += 1;
    }
    if found {
        return true;
    }
    proof {
        assert forall|s: Map<Seq<char>, u64>| #[trigger]
            csp.full_solution(s) implies !a0.submap_of(s) by {
            if a0.submap_of(s) {
                assert(values_in(csp, doms@, s));
                assert(csp.names()[vi as int] == v@);
                assert(doms@[vi as int].vals().contains(s[v@]));
                assert(doms@[vi as int].vals() == doms0[vi as int].vals()) by {
                    assert(doms@.map_values(|d: D| d.vals())[vi as int] == doms0.map_values(
                        |d: D| d.vals(),
                    )[vi as int]);
                }
                assert(node_dom.vals().contains(s[v@]));
                assert(ordered@.contains(s[v@]));
                let q = choose|q: int| 0 <= q < ordered@.len() && ordered@[q] == s[v@];
                assert(picks_early(s, v@, ordered@, k as int));
            }
        }
    }
    false
}

/// Select an unassigned variable whose live domain is smallest.
#[verifier::loop_isolation(false)]
fn select_min_live_domain<D: Domain>(
    assignment: &Assignment,
    csp: &Csp<D>,
    doms: &Vec<D>,
) -> (r: Option<usize>)
    requires
        csp.wf(),
        assignment.wf(),
        domains_ok(csp, doms@),
    ensures
        match r {
            Some(i) => i < csp.n() && !assignment@.contains_key(csp.names()[i as int]),
            None => forall|k: Seq<char>|
                csp.registered(k) ==> #[trigger] assignment@.contains_key(k),
        },
{
    let mut best: Option<usize> = None;
    let mut best_size: usize = usize::MAX;
    let mut i: usize = 0;
    while i < doms.len()
        invariant
            i <= csp.n(),
            match best {
                Some(b) => b < csp.n() && !assignment@.contains_key(csp.names()[b as int]),
                None => forall|j: int|
                    0 <= j < i ==> assignment@.contains_key(#[trigger] csp.names()[j]),
            },
        decreases doms@.len() - i,
    {
        let var = csp.variable_at(i);
        if !assignment.is_assigned(&var) {
            let size = doms[i].size();
            let replace = match best {
                None => true,
                Some(_) => size < best_size,
            };
            if replace {
                best = Some(i);
                best_size = size;
            }
        }
        i += 1;
    }
    proof {
        if best is None {
            assert forall|k: Seq<char>| csp.registered(k) implies assignment@.contains_key(k) by {
                let j = choose|j: int| 0 <= j < csp.names().len() && csp.names()[j] == k;
                assert(assignment@.contains_key(csp.names()[j]));
            }
        }
    }
    best
}

impl ArcConsistencySolver {
    /// Solve the problem with AC-3 preprocessing and MAC search: a returned
    /// assignment is a solution within the declared domains, and nothing is
    /// returned exactly when no such solution exists.
    pub fn solve<D: Domain>(csp: &Csp<D>) -> (r: Option<Assignment>)
        requires
            csp.wf(),
        ensures
            match r {
                Some(a) => a.wf() && csp.full_solution(a@),
                None => forall|m: Map<Seq<char>, u64>| !csp.full_solution(m),
            },
    {
        let mut assignment = Assignment::new();
        if !csp.is_consistent(&assignment) {
            proof {
                assert forall|m: Map<Seq<char>, u64>| !csp.full_solution(m) by {
                    if csp.full_solution(m) {
                        assert forall|ci: int|
                            0 <= ci < csp.cons().len() implies (#[trigger] csp.cons()[ci])
                            .spec_satisfied(assignment@) by {
                            assert(assignment@.submap_of(m));
                            lemma_satisfied_submap(&csp.cons()[ci], assignment@, m);
                        }
                    }
                }
            }
            return None;
        }
        let mut doms = initial_domains(csp);
        let ghost doms_init = doms@;
        proof {
            lemma_initial_covers(csp, doms@);
        }
        if !ac3(csp, &mut doms) {
            proof {
                assert forall|m: Map<Seq<char>, u64>| !csp.full_solution(m) by {
                    if csp.full_solution(m) {
                        assert(Map::<Seq<char>, u64>::empty().submap_of(m));
                        assert(values_in(csp, doms_init, m));
                    }
                }
            }
            return None;
        }
        proof {
            // the preprocessed table still covers every solution and only
            // narrows the declared domains
            assert forall|s: Map<Seq<char>, u64>| #[trigger]
                csp.full_solution(s) && Map::<Seq<char>, u64>::empty().submap_of(s) implies
            values_in(csp, doms@, s) by {
                assert(values_in(csp, doms_init, s));
            }
            assert(covers_extensions(csp, doms@, Map::<Seq<char>, u64>::empty()));
            assert forall|i: int, x: u64|
                0 <= i < doms@.len() && (#[trigger] doms@[i].vals().contains(x)) implies csp.doms()[
                i
            ].contains(x) by {
                assert(doms_init[i].vals().contains(x));
                assert(doms_init[i].vals() == csp.doms()[i]);
            }
            assert(domains_subset(csp, doms@));
        }
        if backtrack_ac(&mut assignment, csp, &mut doms) {
            Some(assignment)
        } else {
            proof {
                assert forall|m: Map<Seq<char>, u64>| !csp.full_solution(m) by {
                    if csp.full_solution(m) {
                        assert(Map::<Seq<char>, u64>::empty().submap_of(m));
                    }
                }
            }
            None
        }
    }
}

} // verus!
