use vstd::prelude::*;
use crate::assignment::Assignment;
use crate::variable::Variable;

verus! {

/// A predicate over the values of a constraint's scope.
///
/// A predicate is judged against the sequence of values currently assigned to
/// the scope variables, in scope order. Variable positions refer to indices
/// into the scope. Arithmetic is interpreted over the unbounded integers, so
/// `SumEquals` and `OffsetNotEqual` never wrap.
pub enum Pred {
    /// Always satisfied.
    Always,
    /// All scope values are pairwise distinct.
    AllDifferent,
    /// The values at the two scope positions are equal.
    Equal(usize, usize),
    /// The values at the two scope positions differ.
    NotEqual(usize, usize),
    /// `value(i) + d != value(j)` for `OffsetNotEqual(i, d, j)`.
    OffsetNotEqual(usize, u64, usize),
    /// The values of the whole scope sum to the given target.
    SumEquals(u64),
    /// Both sub-predicates are satisfied.
    Both(Box<Pred>, Box<Pred>),
}

/// The sum of a sequence of values, over the unbounded integers.
pub open spec fn sum_of(vals: Seq<u64>) -> int
    decreases vals.len(),
{
    if vals.len() == 0 {
        0
    } else {
        sum_of(vals.drop_last()) + vals.last()
    }
}

/// Whether every variable position mentioned by `p` lies below `n`.
pub open spec fn pred_wf(p: Pred, n: nat) -> bool
    decreases p,
{
    match p {
        Pred::Always => true,
        Pred::AllDifferent => true,
        Pred::Equal(i, j) => i < n && j < n,
        Pred::NotEqual(i, j) => i < n && j < n,
        Pred::OffsetNotEqual(i, _d, j) => i < n && j < n,
        Pred::SumEquals(_t) => true,
        Pred::Both(a, b) => pred_wf(*a, n) && pred_wf(*b, n),
    }
}

/// The meaning of a predicate on a full sequence of scope values.
pub open spec fn pred_eval(p: Pred, vals: Seq<u64>) -> bool
    decreases p,
{
    match p {
        Pred::Always => true,
        Pred::AllDifferent => forall|i: int, j: int|
            0 <= i < j < vals.len() ==> vals[i] != vals[j],
        Pred::Equal(i, j) => vals[i as int] == vals[j as int],
        Pred::NotEqual(i, j) => vals[i as int] != vals[j as int],
        Pred::OffsetNotEqual(i, d, j) => vals[i as int] + d != vals[j as int],
        Pred::SumEquals(t) => sum_of(vals) == t,
        Pred::Both(a, b) => pred_eval(*a, vals) && pred_eval(*b, vals),
    }
}

proof fn lemma_sum_bound(vals: Seq<u64>)
    ensures
        0 <= sum_of(vals) <= vals.len() * u64::MAX,
    decreases vals.len(),
{
    if vals.len() == 0 {
    } else {
        lemma_sum_bound(vals.drop_last());
        assert((vals.len() - 1) * u64::MAX + u64::MAX == vals.len() * u64::MAX) by (nonlinear_arith);
    }
}

#[verifier::loop_isolation(false)]
fn eval_pred(p: &Pred, vals: &Vec<u64>) -> (r: bool)
    requires
        pred_wf(*p, vals@.len()),
        vals@.len() <= usize::MAX,
    ensures
        r == pred_eval(*p, vals@),
    decreases *p,
{
    match p {
        Pred::Always => true,
        Pred::AllDifferent => {
            let n = vals.len();
            let mut i: usize = 0;
            while i < n
                invariant
                    n == vals@.len(),
                    i <= n,
                    forall|p2: int, q2: int| 0 <= p2 < q2 < vals@.len() && p2 < i ==> vals@[p2]
                        != vals@[q2],
                decreases n - i,
            {
                let mut j: usize = i + 1;
                while j < n
                    invariant
                        n == vals@.len(),
                        i < n,
                        i + 1 <= j <= n,
                        forall|q2: int| i < q2 < j ==> vals@[i as int] != vals@[q2],
                    decreases n - j,
                {
                    if vals[i] == vals[j] {
                        proof {
                            assert(0 <= i < j < vals@.len() && vals@[i as int] == vals@[j as int]);
                            assert(!pred_eval(*p, vals@));
                        }
                        return false;
                    }
                    j += 1;
                }
                i += 1;
            }
            true
        },
        Pred::Equal(i, j) => vals[*i] == vals[*j],
        Pred::NotEqual(i, j) => vals[*i] != vals[*j],
        Pred::OffsetNotEqual(i, d, j) => {
            let a = vals[*i] as u128 + *d as u128;
            let b = vals[*j] as u128;
            a != b
        },
        Pred::SumEquals(t) => {
            let n = vals.len();
            let mut acc: u128 = 0;
            let mut i: usize = 0;
            proof {
                assert(vals@.subrange(0, 0) =~= Seq::<u64>::empty());
            }
            while i < n
                invariant
                    n == vals@.len(),
                    i <= n,
                    acc == sum_of(vals@.subrange(0, i as int)),
                    acc <= (i as int) * u64::MAX,
                decreases n - i,
            {
                proof {
                    lemma_sum_bound(vals@.subrange(0, i as int));
                    assert((i as int) * u64::MAX + u64::MAX == (i + 1) * u64::MAX)
                        by (nonlinear_arith);
                    assert((i + 1) * u64::MAX <= (n as int) * u64::MAX <= u128::MAX)
                        by (nonlinear_arith)
                        requires
                            0 <= i + 1 <= n <= usize::MAX,
                    ;
                    assert(vals@.subrange(0, i + 1).drop_last() =~= vals@.subrange(0, i as int));
                }
                acc = acc + vals[i] as u128;
                i += 1;
            }
            proof {
                assert(vals@.subrange(0, n as int) =~= vals@);
            }
            acc == *t as u128
        },
        Pred::Both(a, b) => {
            let ra = eval_pred(a, vals);
            if ra {
                eval_pred(b, vals)
            } else {
                false
            }
        },
    }
}

/// Whether every scope name is bound in the map `m`.
pub open spec fn all_assigned(scope: Seq<Seq<char>>, m: Map<Seq<char>, u64>) -> bool {
    forall|i: int| 0 <= i < scope.len() ==> m.contains_key(#[trigger] scope[i])
}

/// The values bound to the scope names, in scope order.
pub open spec fn scope_values(scope: Seq<Seq<char>>, m: Map<Seq<char>, u64>) -> Seq<u64> {
    scope.map_values(|k: Seq<char>| m[k])
}

/// A named constraint over a fixed ordered list of variables.
///
/// A constraint judges an assignment: while any scope variable is unassigned
/// it is not yet violated and counts as satisfied; once the whole scope is
/// assigned, the predicate decides.
pub struct Constraint {
    name: String,
    variables: Vec<Variable>,
    pred: Pred,
}

impl Constraint {
    /// The name of this constraint, for display and debugging only.
    pub closed spec fn spec_name(&self) -> Seq<char> {
        self.name@
    }

    /// The names of the scope variables, in order.
    pub closed spec fn scope(&self) -> Seq<Seq<char>> {
        self.variables@.map_values(|v: Variable| v@)
    }

    /// The predicate that judges a fully assigned scope.
    pub closed spec fn spec_pred(&self) -> Pred {
        self.pred
    }

    /// The predicate mentions only positions inside the scope.
    pub open spec fn wf(&self) -> bool {
        pred_wf(self.spec_pred(), self.scope().len())
    }

    /// The meaning of this constraint on an assignment `m`: satisfied unless
    /// every scope variable is assigned and the predicate rejects the values.
    pub open spec fn spec_satisfied(&self, m: Map<Seq<char>, u64>) -> bool {
        all_assigned(self.scope(), m) ==> pred_eval(self.spec_pred(), scope_values(self.scope(), m))
    }

    /// Creates a new constraint with the given name, scope, and predicate.
    pub fn new(name: &str, variables: Vec<Variable>, pred: Pred) -> (c: Constraint)
        ensures
            c.spec_name() == name@,
            c.scope() == variables@.map_values(|v: Variable| v@),
            c.spec_pred() == pred,
    {
        Constraint { name: name.to_owned(), variables, pred }
    }

    /// Returns the name of this constraint.
    pub fn name(&self) -> (r: &str)
        ensures
            r@ == self.spec_name(),
    {
        self.name.as_str()
    }

    /// Returns the predicate that judges this constraint's scope.
    pub fn pred_ref(&self) -> (r: &Pred)
        ensures
            *r == self.spec_pred(),
    {
        &self.pred
    }

    /// Returns the variables involved in this constraint.
    pub fn variables(&self) -> (r: &Vec<Variable>)
        ensures
            r@.map_values(|v: Variable| v@) == self.scope(),
            r@.len() == self.scope().len(),
    {
        &self.variables
    }

    /// Returns true if the constraint is satisfied by the given assignment.
    ///
    /// If any scope variable is unassigned the constraint is not yet violated
    /// and this returns true; otherwise the predicate decides.
    #[verifier::loop_isolation(false)]
    pub fn is_satisfied(&self, assignment: &Assignment) -> (r: bool)
        requires
            self.wf(),
            assignment.wf(),
        ensures
            r == self.spec_satisfied(assignment@),
    {
        let n = self.variables.len();
        let mut vals: Vec<u64> = Vec::new();
        let mut i: usize = 0;
        while i < n
            invariant
                self.wf(),
                assignment.wf(),
                n == self.variables@.len(),
                i <= n,
                vals@.len() == i,
                forall|j: int| 0 <= j < i ==> assignment@.contains_key(#[trigger] self.scope()[j])
                    && vals@[j] == assignment@[self.scope()[j]],
            decreases n - i,
        {
            let var = &self.variables[i];
            proof {
                assert(self.scope()[i as int] == var@);
            }
            match assignment.get(var) {
                Some(x) => {
                    vals.push(x);
                },
                None => {
                    proof {
                        assert(!all_assigned(self.scope(), assignment@));
                    }
                    return true;
                },
            }
            i += 1;
        }
        proof {
            assert(all_assigned(self.scope(), assignment@));
            assert(vals@ =~= scope_values(self.scope(), assignment@));
        }
        eval_pred(&self.pred, &vals)
    }

    /// Returns true if the constraint involves the given variable.
    #[verifier::loop_isolation(false)]
    pub fn involves(&self, variable: &Variable) -> (r: bool)
        ensures
            r == self.scope().contains(variable@),
    {
        let n = self.variables.len();
        let mut i: usize = 0;
        while i < n
            invariant
                n == self.variables@.len(),
                i <= n,
                forall|j: int| 0 <= j < i ==> self.scope()[j] != variable@,
            decreases n - i,
        {
            if self.variables[i].same_variable(variable) {
                proof {
                    assert(self.scope()[i as int] == variable@);
                }
                return true;
            }
            i += 1;
        }
        proof {
            if self.scope().contains(variable@) {
                let j = choose|j: int| 0 <= j < self.scope().len() && self.scope()[j] == variable@;
                assert(self.scope()[j] != variable@);
            }
        }
        false
    }

    /// An independent copy of this constraint.
    #[verifier::loop_isolation(false)]
    pub fn duplicate(&self) -> (c: Constraint)
        ensures
            c.spec_name() == self.spec_name(),
            c.scope() == self.scope(),
            c.spec_pred() == self.spec_pred(),
    {
        let mut variables: Vec<Variable> = Vec::new();
        let mut i: usize = 0;
        while i < self.variables.len()
            invariant
                i <= self.variables@.len(),
                variables@.len() == i,
                forall|j: int| 0 <= j < i ==> variables@[j]@ == self.variables@[j]@,
            decreases self.variables@.len() - i,
        {
            variables.push(self.variables[i].clone());
            i += 1;
        }
        let c = Constraint {
            name: self.name.clone(),
            variables,
            pred: duplicate_pred(&self.pred),
        };
        proof {
            assert(c.scope() =~= self.scope());
        }
        c
    }
}

fn duplicate_pred(p: &Pred) -> (r: Pred)
    ensures
        r == *p,
    decreases *p,
{
    match p {
        Pred::Always => Pred::Always,
        Pred::AllDifferent => Pred::AllDifferent,
        Pred::Equal(i, j) => Pred::Equal(*i, *j),
        Pred::NotEqual(i, j) => Pred::NotEqual(*i, *j),
        Pred::OffsetNotEqual(i, d, j) => Pred::OffsetNotEqual(*i, *d, *j),
        Pred::SumEquals(t) => Pred::SumEquals(*t),
        Pred::Both(a, b) => Pred::Both(Box::new(duplicate_pred(a)), Box::new(duplicate_pred(b))),
    }
}

/// A constraint with an unassigned scope variable is satisfied.
///
/// Whenever at least one variable of the scope of `c` is unassigned in `m`,
/// `c` counts as not yet violated, whatever the predicate says.
pub proof fn lemma_unassigned_implies_satisfied(c: &Constraint, m: Map<Seq<char>, u64>)
    requires
        exists|i: int| 0 <= i < c.scope().len() && !m.contains_key(#[trigger] c.scope()[i]),
    ensures
        c.spec_satisfied(m),
{
    assert(!all_assigned(c.scope(), m));
}

/// Satisfaction restricts to sub-assignments: if `m2` satisfies `c` and `m1`
/// is contained in `m2`, then `m1` satisfies `c` as well, because a predicate
/// only reads the values of its scope, which agree between `m1` and `m2`.
pub proof fn lemma_satisfied_submap(c: &Constraint, m1: Map<Seq<char>, u64>, m2: Map<
    Seq<char>,
    u64,
>)
    requires
        m1.submap_of(m2),
        c.spec_satisfied(m2),
    ensures
        c.spec_satisfied(m1),
{
    if all_assigned(c.scope(), m1) {
        assert(all_assigned(c.scope(), m2));
        assert(scope_values(c.scope(), m1) =~= scope_values(c.scope(), m2));
    }
}

/// Creates an "all different" constraint: among the scope variables, once all
/// are assigned, all values must be pairwise distinct.
pub fn all_different(name: &str, variables: Vec<Variable>) -> (c: Constraint)
    ensures
        c.spec_name() == name@,
        c.scope() == variables@.map_values(|v: Variable| v@),
        c.spec_pred() == Pred::AllDifferent,
        c.wf(),
{
    Constraint::new(name, variables, Pred::AllDifferent)
}

/// Creates a binary inequality constraint: once both variables are assigned,
/// their values must differ.
pub fn diff(name: &str, var1: Variable, var2: Variable) -> (c: Constraint)
    ensures
        c.spec_name() == name@,
        c.scope() =~= seq![var1@, var2@],
        c.spec_pred() == Pred::NotEqual(0usize, 1usize),
        c.wf(),
{
    let ghost v1 = var1@;
    let ghost v2 = var2@;
    let mut variables: Vec<Variable> = Vec::new();
    variables.push(var1);
    variables.push(var2);
    let c = Constraint::new(name, variables, Pred::NotEqual(0, 1));
    proof {
        assert(c.scope() =~= seq![v1, v2]);
    }
    c
}

/// Creates a binary equality constraint: once both variables are assigned,
/// their values must be equal.
pub fn same(name: &str, var1: Variable, var2: Variable) -> (c: Constraint)
    ensures
        c.spec_name() == name@,
        c.scope() =~= seq![var1@, var2@],
        c.spec_pred() == Pred::Equal(0usize, 1usize),
        c.wf(),
{
    let ghost v1 = var1@;
    let ghost v2 = var2@;
    let mut variables: Vec<Variable> = Vec::new();
    variables.push(var1);
    variables.push(var2);
    let c = Constraint::new(name, variables, Pred::Equal(0, 1));
    proof {
        assert(c.scope() =~= seq![v1, v2]);
    }
    c
}

/// Creates a sum constraint: once every scope variable is assigned, the values
/// must sum to `target`.
pub fn sum(name: &str, variables: Vec<Variable>, target: u64) -> (c: Constraint)
    ensures
        c.spec_name() == name@,
        c.scope() == variables@.map_values(|v: Variable| v@),
        c.spec_pred() == Pred::SumEquals(target),
        c.wf(),
{
    Constraint::new(name, variables, Pred::SumEquals(target))
}

} // verus!
