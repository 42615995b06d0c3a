use vstd::prelude::*;
use crate::assignment::Assignment;
use crate::constraint::Constraint;
use crate::constraint::Pred;
use crate::constraint::pred_wf;
use crate::domain::Domain;
use crate::variable::Variable;

verus! {

/// The constraints a borrowing query hands out, as values.
pub open spec fn deref_constraints(s: Seq<&Constraint>) -> Seq<Constraint> {
    s.map_values(|c: &Constraint| *c)
}

/// An error reported while building a problem.
#[derive(Debug)]
pub enum CspError {
    /// A variable with the same name was already registered.
    DuplicateVariable(String),
    /// A constraint references a variable that was never registered.
    UnknownVariable(String),
    /// A constraint's predicate mentions a position outside its scope.
    InvalidPredicate(String),
}

impl CspError {
    /// A short description of what went wrong.
    pub fn message(&self) -> (r: &str)
        ensures
            r@.len() > 0,
    {
        match self {
            CspError::DuplicateVariable(_) => {
                proof {
                    reveal_strlit("variable already exists");
                }
                "variable already exists"
            },
            CspError::UnknownVariable(_) => {
                proof {
                    reveal_strlit("variable does not exist in the CSP");
                }
                "variable does not exist in the CSP"
            },
            CspError::InvalidPredicate(_) => {
                proof {
                    reveal_strlit("predicate refers outside the constraint scope");
                }
                "predicate refers outside the constraint scope"
            },
        }
    }
}

/// A constraint satisfaction problem: a mapping from variables to domains
/// together with an ordered list of constraints.
///
/// Invariants: registered variable names are pairwise distinct, every
/// constraint's scope refers only to registered variables, and every
/// constraint's predicate stays inside its scope. A `Csp` is built once with
/// [`Csp::add_variable`] and [`Csp::add_constraint`] and then treated as
/// immutable during solving.
pub struct Csp<D: Domain> {
    variables: Vec<Variable>,
    domains: Vec<D>,
    constraints: Vec<Constraint>,
}

impl<D: Domain> Csp<D> {
    /// The registered variable names, in registration order.
    pub closed spec fn names(&self) -> Seq<Seq<char>> {
        self.variables@.map_values(|v: Variable| v@)
    }

    /// The registered domains' value sequences, aligned with `names()`.
    pub closed spec fn doms(&self) -> Seq<Seq<u64>> {
        self.domains@.map_values(|d: D| d.vals())
    }

    /// The registered constraints, in registration order.
    pub closed spec fn cons(&self) -> Seq<Constraint> {
        self.constraints@
    }

    /// The number of registered variables.
    pub open spec fn n(&self) -> nat {
        self.names().len()
    }

    /// The problem invariant.
    pub closed spec fn wf(&self) -> bool {
        &&& self.variables@.len() == self.domains@.len()
        &&& self.names().no_duplicates()
        &&& forall|i: int| 0 <= i < self.domains@.len() ==> (#[trigger] self.domains@[i]).inv()
        &&& forall|i: int| 0 <= i < self.cons().len() ==> (#[trigger] self.cons()[i]).wf()
        &&& forall|i: int, j: int|
            0 <= i < self.cons().len() && 0 <= j < self.cons()[i].scope().len()
                ==> self.names().contains(#[trigger] self.cons()[i].scope()[j])
    }

    /// A name is registered when some variable of the problem carries it.
    pub open spec fn registered(&self, k: Seq<char>) -> bool {
        self.names().contains(k)
    }

    /// The index of a registered name.
    pub open spec fn idx_of(&self, k: Seq<char>) -> int {
        choose|i: int| 0 <= i < self.names().len() && self.names()[i] == k
    }

    /// The domain values of a registered name.
    pub open spec fn dom_of(&self, k: Seq<char>) -> Seq<u64> {
        self.doms()[self.idx_of(k)]
    }

    /// A partial assignment fits the problem: it binds only registered
    /// variables, each to a value of that variable's domain.
    pub open spec fn partial_ok(&self, m: Map<Seq<char>, u64>) -> bool {
        forall|k: Seq<char>| #[trigger]
            m.contains_key(k) ==> self.registered(k) && self.dom_of(k).contains(m[k])
    }

    /// An assignment satisfies every constraint of the problem.
    pub open spec fn spec_consistent(&self, m: Map<Seq<char>, u64>) -> bool {
        forall|i: int| 0 <= i < self.cons().len() ==> (#[trigger] self.cons()[i]).spec_satisfied(m)
    }

    /// An assignment is a solution: complete and consistent.
    pub open spec fn spec_solution(&self, m: Map<Seq<char>, u64>) -> bool {
        m.dom().finite() && m.dom().len() == self.n() && self.spec_consistent(m)
    }

    /// An assignment solves the problem within its domains: it binds exactly
    /// the registered variables, each inside its domain, and satisfies every
    /// constraint. The solvers enumerate exactly these assignments.
    pub open spec fn full_solution(&self, m: Map<Seq<char>, u64>) -> bool {
        &&& m.dom() == self.names().to_set()
        &&& self.partial_ok(m)
        &&& self.spec_consistent(m)
    }

    /// The set of all solutions of the problem within its domains.
    pub open spec fn solution_set(&self) -> Set<Map<Seq<char>, u64>> {
        Set::new(|m: Map<Seq<char>, u64>| self.full_solution(m))
    }

    /// The basic facts the solvers need about well-formed problems.
    pub proof fn lemma_wf_facts(&self)
        requires
            self.wf(),
        ensures
            self.names().len() == self.doms().len(),
            self.names().to_set().finite(),
            self.names().to_set().len() == self.n(),
            forall|i: int| 0 <= i < self.cons().len() ==> (#[trigger] self.cons()[i]).wf(),
    {
        self.names().unique_seq_to_set();
    }

    /// The index of a registered name is well defined.
    pub proof fn lemma_idx_of(&self, k: Seq<char>)
        requires
            self.wf(),
            self.registered(k),
        ensures
            0 <= self.idx_of(k) < self.names().len(),
            self.names()[self.idx_of(k)] == k,
            forall|i: int| 0 <= i < self.names().len() && self.names()[i] == k ==> i == self.idx_of(
                k,
            ),
    {
        let j = choose|i: int| 0 <= i < self.names().len() && self.names()[i] == k;
        assert(self.names()[j] == k);
        assert forall|i: int|
            0 <= i < self.names().len() && self.names()[i] == k implies i == self.idx_of(k) by {
            let j2 = self.idx_of(k);
            if i != j2 {
                assert(self.names()[i] == self.names()[j2]);
            }
        }
    }

    /// Every registered domain's value sequence is duplicate-free.
    pub proof fn lemma_dom_distinct(&self, i: int)
        requires
            self.wf(),
            0 <= i < self.doms().len(),
        ensures
            self.doms()[i].no_duplicates(),
    {
        self.domains@[i].lemma_inv_distinct();
    }

    /// Every scope entry of a registered constraint names a registered
    /// variable.
    pub proof fn lemma_scope_registered(&self, i: int, j: int)
        requires
            self.wf(),
            0 <= i < self.cons().len(),
            0 <= j < self.cons()[i].scope().len(),
        ensures
            self.registered(self.cons()[i].scope()[j]),
    {
    }

    /// A full solution is a solution in the sense of `spec_solution`.
    pub proof fn lemma_full_solution_is_solution(&self, m: Map<Seq<char>, u64>)
        requires
            self.wf(),
            self.full_solution(m),
        ensures
            self.spec_solution(m),
    {
        self.lemma_wf_facts();
    }

    /// A partial assignment that fits the problem and is complete binds
    /// exactly the registered names.
    pub proof fn lemma_complete_partial_is_full(&self, m: Map<Seq<char>, u64>)
        requires
            self.wf(),
            self.partial_ok(m),
            m.dom().finite(),
            m.dom().len() == self.n(),
        ensures
            m.dom() == self.names().to_set(),
    {
        self.lemma_wf_facts();
        assert forall|k: Seq<char>| m.dom().contains(k) implies self.names().to_set().contains(
            k,
        ) by {
            assert(m.contains_key(k));
            assert(self.registered(k));
        }
        assert(m.dom().subset_of(self.names().to_set()));
        vstd::set_lib::lemma_subset_equality(m.dom(), self.names().to_set());
    }

    /// Create a new empty CSP.
    pub fn new() -> (r: Csp<D>)
        ensures
            r.wf(),
            r.names() == Seq::<Seq<char>>::empty(),
            r.doms() == Seq::<Seq<u64>>::empty(),
            r.cons() == Seq::<Constraint>::empty(),
    {
        let r = Csp { variables: Vec::new(), domains: Vec::new(), constraints: Vec::new() };
        proof {
            assert(r.names() =~= Seq::<Seq<char>>::empty());
            assert(r.doms() =~= Seq::<Seq<u64>>::empty());
        }
        r
    }

    fn find_index(&self, name: &Variable) -> (r: Option<usize>)
        requires
            self.wf(),
        ensures
            match r {
                Some(i) => i < self.names().len() && self.names()[i as int] == name@,
                None => !self.registered(name@),
            },
    {
        let mut i: usize = 0;
        while i < self.variables.len()
            invariant
                self.wf(),
                i <= self.names().len(),
                forall|j: int| 0 <= j < i ==> self.names()[j] != name@,
            decreases self.names().len() - i,
        {
            if self.variables[i].same_variable(name) {
                proof {
                    assert(self.names()[i as int] == name@);
                }
                return Some(i);
            }
            i += 1;
        }
        proof {
            if self.registered(name@) {
                let j = choose|j: int|
                    0 <= j < self.names().len() && self.names()[j] == name@;
                assert(self.names()[j] != name@);
            }
        }
        None
    }

    /// Add a variable with its domain to the CSP.
    ///
    /// Fails exactly when a variable with the same name is already
    /// registered; in that case the problem is left unchanged.
    pub fn add_variable(&mut self, variable: Variable, domain: D) -> (r: Result<(), CspError>)
        requires
            old(self).wf(),
            domain.inv(),
        ensures
            final(self).wf(),
            final(self).cons() == old(self).cons(),
            match r {
                Ok(()) => !old(self).registered(variable@) && final(self).names() == old(
                    self,
                ).names().push(variable@) && final(self).doms() == old(self).doms().push(
                    domain.vals(),
                ),
                Err(e) => old(self).registered(variable@) && final(self).names() == old(
                    self,
                ).names() && final(self).doms() == old(self).doms() && (e matches
                    CspError::DuplicateVariable(n) && n@ == variable@),
            },
    {
        match self.find_index(&variable) {
            Some(_) => Err(CspError::DuplicateVariable(variable.name)),
            None => {
                let ghost names0 = self.names();
                let ghost doms0 = self.doms();
                let ghost v = variable@;
                self.variables.push(variable);
                self.domains.push(domain);
                proof {
                    assert(self.names() =~= names0.push(v));
                    assert(self.doms() =~= doms0.push(domain.vals()));
                    assert forall|i: int, j: int|
                        0 <= i < j < self.names().len() implies self.names()[i]
                        != self.names()[j] by {
                        if j < self.names().len() - 1 {
                            assert(names0[i] != names0[j]);
                        } else {
                            assert(self.names()[j] == v);
                            assert(names0.contains(names0[i]));
                        }
                    }
                    assert forall|i: int, j: int|
                        0 <= i < self.cons().len() && 0 <= j < self.cons()[i].scope().len() implies
                        self.names().contains(#[trigger] self.cons()[i].scope()[j]) by {
                        assert(0 <= i < old(self).cons().len());
                        assert(self.cons()[i] == old(self).cons()[i]);
                        assert(0 <= j < old(self).cons()[i].scope().len());
                        assert(names0.contains(old(self).cons()[i].scope()[j]));
                        let p = choose|p: int|
                            0 <= p < names0.len() && names0[p] == old(self).cons()[i].scope()[j];
                        assert(self.names()[p] == names0[p]);
                    }
                }
                Ok(())
            },
        }
    }

    /// Add a constraint to the CSP.
    ///
    /// Fails exactly when the constraint references an unregistered variable
    /// or its predicate mentions a position outside its scope; in those cases
    /// the problem is left unchanged.
    #[verifier::loop_isolation(false)]
    pub fn add_constraint(&mut self, constraint: Constraint) -> (r: Result<(), CspError>)
        requires
            old(self).wf(),
        ensures
            final(self).wf(),
            final(self).names() == old(self).names(),
            final(self).doms() == old(self).doms(),
            match r {
                Ok(()) => final(self).cons() == old(self).cons().push(constraint) && constraint.wf()
                    && (forall|j: int|
                    0 <= j < constraint.scope().len() ==> old(self).registered(
                        #[trigger] constraint.scope()[j],
                    )),
                Err(e) => final(self).cons() == old(self).cons() && ((e matches
                    CspError::UnknownVariable(_) && (exists|j: int|
                    0 <= j < constraint.scope().len() && !old(self).registered(
                        #[trigger] constraint.scope()[j],
                    ))) || (e matches CspError::InvalidPredicate(_) && !constraint.wf())),
            },
    {
        let scope = constraint.variables();
        let n = scope.len();
        let mut i: usize = 0;
        while i < n
            invariant
                n == constraint.scope().len(),
                i <= n,
                forall|j: int| 0 <= j < i ==> self.registered(#[trigger] constraint.scope()[j]),
            decreases n - i,
        {
            let var = &scope[i];
            proof {
                assert(constraint.scope()[i as int] == var@);
            }
            match self.find_index(var) {
                Some(_) => {},
                None => {
                    return Err(CspError::UnknownVariable(var.name.clone()));
                },
            }
            i += 1;
        }
        if !check_pred_bounds(constraint.pred_ref(), n) {
            return Err(CspError::InvalidPredicate(String::new()));
        }
        let ghost cons0 = self.cons();
        self.constraints.push(constraint);
        proof {
            assert(self.cons() =~= cons0.push(constraint));
        }
        Ok(())
    }

    /// The index of a registered variable, for the solvers' parallel tables.
    pub(crate) fn index_of_variable(&self, variable: &Variable) -> (r: Option<usize>)
        requires
            self.wf(),
        ensures
            match r {
                Some(i) => i < self.names().len() && self.names()[i as int] == variable@
                    && i as int == self.idx_of(variable@),
                None => !self.registered(variable@),
            },
    {
        let r = self.find_index(variable);
        proof {
            if r is Some {
                self.lemma_idx_of(variable@);
            }
        }
        r
    }

    /// The registered variable at the given index.
    pub(crate) fn variable_at(&self, i: usize) -> (v: Variable)
        requires
            self.wf(),
            i < self.names().len(),
        ensures
            v@ == self.names()[i as int],
    {
        self.variables[i].clone()
    }

    /// The domain at the given index.
    pub(crate) fn domain_at(&self, i: usize) -> (d: &D)
        requires
            self.wf(),
            i < self.names().len(),
        ensures
            d.inv(),
            d.vals() == self.doms()[i as int],
    {
        proof {
            assert(self.doms()[i as int] == self.domains@[i as int].vals());
        }
        &self.domains[i]
    }

    /// Get the domain for the given variable, if it is registered.
    pub fn get_domain(&self, variable: &Variable) -> (r: Option<&D>)
        requires
            self.wf(),
        ensures
            match r {
                Some(d) => self.registered(variable@) && d.inv() && d.vals() == self.dom_of(
                    variable@,
                ),
                None => !self.registered(variable@),
            },
    {
        match self.find_index(variable) {
            Some(i) => {
                proof {
                    self.lemma_idx_of(variable@);
                    assert(self.doms()[i as int] == self.domains@[i as int].vals());
                }
                Some(&self.domains[i])
            },
            None => None,
        }
    }

    /// `c` is one of the constraints registered in this problem.
    pub open spec fn has_constraint(&self, c: Constraint) -> bool {
        exists|i: int| 0 <= i < self.cons().len() && self.cons()[i] == c
    }

    /// The constraints among the first `upto` whose scope mentions `k`, in
    /// registration order.
    pub open spec fn involving_prefix(&self, k: Seq<char>, upto: int) -> Seq<Constraint> {
        self.cons().take(upto).filter(|c: Constraint| c.scope().contains(k))
    }

    /// All constraints whose scope mentions `k`, in registration order.
    pub open spec fn involving(&self, k: Seq<char>) -> Seq<Constraint> {
        self.involving_prefix(k, self.cons().len() as int)
    }

    /// Get all constraints that involve the given variable, in order.
    #[verifier::loop_isolation(false)]
    pub fn get_constraints_for_variable(&self, var: &Variable) -> (r: Vec<&Constraint>)
        requires
            self.wf(),
        ensures
            forall|p: int| 0 <= p < r@.len() ==> (#[trigger] r@[p]).scope().contains(var@),
            forall|p: int| 0 <= p < r@.len() ==> self.has_constraint(*(#[trigger] r@[p])),
            forall|i: int|
                0 <= i < self.cons().len() && (#[trigger] self.cons()[i]).scope().contains(var@)
                    ==> exists|p: int| 0 <= p < r@.len() && *r@[p] == self.cons()[i],
            deref_constraints(r@) == self.involving(var@),
    {
        let mut r: Vec<&Constraint> = Vec::new();
        let ghost mut idxs: Seq<int> = Seq::empty();
        let mut i: usize = 0;
        proof {
            reveal(Seq::filter);
            assert(self.cons().take(0) =~= Seq::<Constraint>::empty());
            assert(deref_constraints(r@) =~= self.involving_prefix(var@, 0));
        }
        while i < self.constraints.len()
            invariant
                i <= self.cons().len(),
                idxs.len() == r@.len(),
                forall|p: int| 0 <= p < r@.len() ==> 0 <= #[trigger] idxs[p] < self.cons().len()
                    && self.cons()[idxs[p]] == *r@[p],
                forall|p: int| 0 <= p < r@.len() ==> (#[trigger] r@[p]).scope().contains(var@),
                forall|j: int|
                    0 <= j < i && (#[trigger] self.cons()[j]).scope().contains(var@) ==> exists|
                        p: int,
                    | 0 <= p < r@.len() && *r@[p] == self.cons()[j],
                deref_constraints(r@) == self.involving_prefix(var@, i as int),
            decreases self.cons().len() - i,
        {
            let c = &self.constraints[i];
            let ghost r0 = r@;
            proof {
                reveal(Seq::filter);
                assert(self.cons().take(i + 1).drop_last() =~= self.cons().take(i as int));
                assert(self.cons().take(i + 1).last() == self.cons()[i as int]);
            }
            if c.involves(var) {
                r.push(c);
                proof {
                    idxs = idxs.push(i as int);
                    assert(r@[r@.len() - 1] == c);
                    assert(*c == self.cons()[i as int]);
                    assert forall|j: int|
                        0 <= j < i + 1 && (#[trigger] self.cons()[j]).scope().contains(var@)
                            implies exists|p: int| 0 <= p < r@.len() && *r@[p]
                        == self.cons()[j] by {
                        if j < i as int {
                            let p = choose|p: int| 0 <= p < r0.len() && *r0[p] == self.cons()[j];
                            assert(*r@[p] == self.cons()[j]);
                        } else {
                            assert(*r@[r@.len() - 1] == self.cons()[j]);
                        }
                    }
                    assert(deref_constraints(r@) =~= deref_constraints(r0).push(*c));
                    assert(deref_constraints(r@) == self.involving_prefix(var@, i + 1));
                }
            } else {
                proof {
                    assert(deref_constraints(r@) == self.involving_prefix(var@, i + 1));
                }
            }
            i += 1;
        }
        proof {
            assert(self.cons().take(self.cons().len() as int) =~= self.cons());
        }
        proof {
            assert forall|p: int| 0 <= p < r@.len() implies self.has_constraint(
                *(#[trigger] r@[p]),
            ) by {
                assert(self.cons()[idxs[p]] == *r@[p]);
            }
        }
        r
    }

    /// Get all registered variables, in registration order.
    #[verifier::loop_isolation(false)]
    pub fn get_variables(&self) -> (r: Vec<Variable>)
        requires
            self.wf(),
        ensures
            r@.map_values(|v: Variable| v@) == self.names(),
            r@.len() == self.names().len(),
    {
        let mut r: Vec<Variable> = Vec::new();
        let mut i: usize = 0;
        while i < self.variables.len()
            invariant
                i <= self.names().len(),
                r@.len() == i,
                forall|j: int| 0 <= j < i ==> (#[trigger] r@[j])@ == self.names()[j],
            decreases self.names().len() - i,
        {
            r.push(self.variables[i].clone());
            i += 1;
        }
        proof {
            assert(r@.map_values(|v: Variable| v@) =~= self.names());
        }
        r
    }

    /// Get all constraints.
    pub fn get_constraints(&self) -> (r: &Vec<Constraint>)
        ensures
            r@ == self.cons(),
    {
        &self.constraints
    }

    /// Get the number of variables.
    pub fn num_variables(&self) -> (r: usize)
        ensures
            r == self.n(),
    {
        self.variables.len()
    }

    /// Get the number of constraints.
    pub fn num_constraints(&self) -> (r: usize)
        ensures
            r == self.cons().len(),
    {
        self.constraints.len()
    }

    /// Check if the given assignment satisfies every constraint; variables
    /// not yet assigned leave their constraints not yet violated.
    #[verifier::loop_isolation(false)]
    pub fn is_consistent(&self, assignment: &Assignment) -> (r: bool)
        requires
            self.wf(),
            assignment.wf(),
        ensures
            r == self.spec_consistent(assignment@),
    {
        let mut i: usize = 0;
        while i < self.constraints.len()
            invariant
                i <= self.cons().len(),
                forall|j: int| 0 <= j < i ==> (#[trigger] self.cons()[j]).spec_satisfied(
                    assignment@,
                ),
            decreases self.cons().len() - i,
        {
            if !self.constraints[i].is_satisfied(assignment) {
                return false;
            }
            i += 1;
        }
        true
    }

    /// Check if the assignment is complete and consistent.
    pub fn is_solution(&self, assignment: &Assignment) -> (r: bool)
        requires
            self.wf(),
            assignment.wf(),
        ensures
            r == self.spec_solution(assignment@),
    {
        proof {
            assignment.lemma_dom_finite();
        }
        if !assignment.is_complete(self.variables.len()) {
            return false;
        }
        self.is_consistent(assignment)
    }
}

#[verifier::loop_isolation(false)]
fn check_pred_bounds(p: &Pred, n: usize) -> (r: bool)
    ensures
        r == pred_wf(*p, n as nat),
    decreases *p,
{
    match p {
        Pred::Always => true,
        Pred::AllDifferent => true,
        Pred::Equal(i, j) => *i < n && *j < n,
        Pred::NotEqual(i, j) => *i < n && *j < n,
        Pred::OffsetNotEqual(i, _d, j) => *i < n && *j < n,
        Pred::SumEquals(_t) => true,
        Pred::Both(a, b) => {
            let ra = check_pred_bounds(a, n);
            if ra {
                check_pred_bounds(b, n)
            } else {
                false
            }
        },
    }
}

} // verus!
