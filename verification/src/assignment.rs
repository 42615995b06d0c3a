use vstd::prelude::*;
use vstd::pervasive::VecAdditionalExecFns;
use crate::constraint::Constraint;
use crate::variable::Variable;

verus! {

/// True when some entry of `s` binds the name `k`.
pub open spec fn seq_has_name(s: Seq<(Variable, u64)>, k: Seq<char>) -> bool {
    exists|i: int| 0 <= i < s.len() && s[i].0@ == k
}

/// An index of `s` whose entry binds the name `k` (meaningful when one exists).
pub open spec fn seq_name_idx(s: Seq<(Variable, u64)>, k: Seq<char>) -> int {
    choose|i: int| 0 <= i < s.len() && s[i].0@ == k
}

/// The entries bind pairwise distinct names.
pub open spec fn distinct_names(s: Seq<(Variable, u64)>) -> bool {
    forall|i: int, j: int| 0 <= i < j < s.len() ==> s[i].0@ != s[j].0@
}

/// The partial map described by a sequence of entries.
pub open spec fn seq_as_map(s: Seq<(Variable, u64)>) -> Map<Seq<char>, u64> {
    Map::new(|k: Seq<char>| seq_has_name(s, k), |k: Seq<char>| s[seq_name_idx(s, k)].1)
}

/// A partial mapping from variables to values.
///
/// Abstractly an `Assignment` is a finite `Map<Seq<char>, u64>` from variable
/// names to assigned values; that map is the assignment's view.
pub struct Assignment {
    entries: Vec<(Variable, u64)>,
}

impl View for Assignment {
    type V = Map<Seq<char>, u64>;

    closed spec fn view(&self) -> Map<Seq<char>, u64> {
        seq_as_map(self.entries@)
    }
}

proof fn lemma_entry_idx(s: Seq<(Variable, u64)>, i: int)
    requires
        distinct_names(s),
        0 <= i < s.len(),
    ensures
        seq_has_name(s, s[i].0@),
        seq_name_idx(s, s[i].0@) == i,
        seq_as_map(s).contains_key(s[i].0@),
        seq_as_map(s)[s[i].0@] == s[i].1,
{
    assert(seq_has_name(s, s[i].0@));
    let j = seq_name_idx(s, s[i].0@);
    if j != i {
        assert(s[i].0@ != s[j].0@);
    }
}

/// The key set of the map described by `s` has exactly one element per entry.
proof fn lemma_map_cardinality(s: Seq<(Variable, u64)>)
    requires
        distinct_names(s),
    ensures
        seq_as_map(s).dom().finite(),
        seq_as_map(s).dom().len() == s.len(),
    decreases s.len(),
{
    if s.len() == 0 {
        assert(seq_as_map(s).dom() =~= Set::<Seq<char>>::empty());
    } else {
        let front = s.drop_last();
        lemma_map_cardinality(front);
        let last = s.last();
        assert forall|k: Seq<char>| seq_has_name(s, k) && k != last.0@ implies seq_has_name(
            front,
            k,
        ) by {
            let i = choose|i: int| 0 <= i < s.len() && s[i].0@ == k;
            assert(front[i] == s[i]);
        }
        assert forall|k: Seq<char>| seq_has_name(front, k) implies seq_has_name(s, k) by {
            let i = choose|i: int| 0 <= i < front.len() && front[i].0@ == k;
            assert(s[i] == front[i]);
        }
        assert(seq_as_map(s).dom() =~= seq_as_map(front).dom().insert(last.0@));
        assert(!seq_as_map(front).dom().contains(last.0@)) by {
            if seq_has_name(front, last.0@) {
                let i = choose|i: int| 0 <= i < front.len() && front[i].0@ == last.0@;
                assert(s[i].0@ == s[s.len() - 1].0@);
            }
        }
    }
}

/// Two entry sequences with pointwise equal names and values describe the
/// same map.
proof fn lemma_map_congruence(s1: Seq<(Variable, u64)>, s2: Seq<(Variable, u64)>)
    requires
        distinct_names(s1),
        s1.len() == s2.len(),
        forall|i: int| 0 <= i < s1.len() ==> s1[i].0@ == s2[i].0@ && s1[i].1 == s2[i].1,
    ensures
        seq_as_map(s1) == seq_as_map(s2),
{
    assert forall|k: Seq<char>| seq_has_name(s1, k) implies seq_has_name(s2, k) by {
        let i = choose|i: int| 0 <= i < s1.len() && s1[i].0@ == k;
        assert(s2[i].0@ == k);
    }
    assert forall|k: Seq<char>| seq_has_name(s2, k) implies seq_has_name(s1, k) by {
        let i = choose|i: int| 0 <= i < s2.len() && s2[i].0@ == k;
        assert(s1[i].0@ == k);
    }
    assert forall|k: Seq<char>| seq_has_name(s1, k) implies s1[seq_name_idx(s1, k)].1
        == s2[seq_name_idx(s2, k)].1 by {
        let i = seq_name_idx(s1, k);
        assert(0 <= i < s1.len() && s1[i].0@ == k);
        let j = seq_name_idx(s2, k);
        assert(0 <= j < s2.len() && s2[j].0@ == k);
        assert(s1[j].0@ == k);
        if i != j {
            assert(s1[i].0@ != s1[j].0@);
        }
    }
    assert(seq_as_map(s1) =~= seq_as_map(s2));
}

impl Assignment {
    /// The entries bind pairwise distinct names; every operation preserves
    /// this, so the view loses no information.
    pub closed spec fn wf(&self) -> bool {
        distinct_names(self.entries@)
    }

    /// Create a new empty assignment.
    pub fn new() -> (a: Assignment)
        ensures
            a@ == Map::<Seq<char>, u64>::empty(),
            a.wf(),
    {
        let a = Assignment { entries: Vec::new() };
        proof {
            assert(a@ =~= Map::<Seq<char>, u64>::empty());
        }
        a
    }

    /// The well-formedness of an assignment implies its key set is finite.
    pub proof fn lemma_dom_finite(&self)
        requires
            self.wf(),
        ensures
            self@.dom().finite(),
    {
        lemma_map_cardinality(self.entries@);
    }

    fn find_idx(&self, var: &Variable) -> (r: Option<usize>)
        ensures
            match r {
                Some(i) => i < self.entries@.len() && self.entries@[i as int].0@ == var@,
                None => !seq_has_name(self.entries@, var@),
            },
    {
        let mut i: usize = 0;
        while i < self.entries.len()
            invariant
                i <= self.entries@.len(),
                forall|j: int| 0 <= j < i ==> self.entries@[j].0@ != var@,
            decreases self.entries@.len() - i,
        {
            if self.entries[i].0.same_variable(var) {
                return Some(i);
            }
            i += 1;
        }
        None
    }

    /// Assign a value to a variable, inserting it or overwriting any previous
    /// value.
    pub fn assign(&mut self, var: Variable, value: u64)
        requires
            old(self).wf(),
        ensures
            final(self).wf(),
            final(self)@ == old(self)@.insert(var@, value),
    {
        let ghost s0 = self.entries@;
        match self.find_idx(&var) {
            Some(i) => {
                let ghost k = var@;
                self.entries.set(i, (var, value));
                proof {
                    let s1 = self.entries@;
                    assert forall|p: int, q: int| 0 <= p < q < s1.len() implies s1[p].0@
                        != s1[q].0@ by {
                        assert(s0[p].0@ != s0[q].0@);
                    }
                    assert forall|k2: Seq<char>| seq_has_name(s1, k2) <==> seq_has_name(s0, k2) by {
                        if seq_has_name(s1, k2) {
                            let p = choose|p: int| 0 <= p < s1.len() && s1[p].0@ == k2;
                            assert(s0[p].0@ == k2);
                        }
                        if seq_has_name(s0, k2) {
                            let p = choose|p: int| 0 <= p < s0.len() && s0[p].0@ == k2;
                            assert(s1[p].0@ == k2);
                        }
                    }
                    assert forall|k2: Seq<char>| seq_has_name(s1, k2) implies s1[seq_name_idx(
                        s1,
                        k2,
                    )].1 == old(self)@.insert(k, value)[k2] by {
                        let p = seq_name_idx(s1, k2);
                        assert(0 <= p < s1.len() && s1[p].0@ == k2);
                        if k2 == k {
                            if p != i as int {
                                assert(s1[p] == s0[p]);
                                assert(s0[p].0@ != s0[i as int].0@ || p == i as int);
                                assert(false);
                            }
                        } else {
                            assert(p != i as int);
                            assert(s1[p] == s0[p]);
                            lemma_entry_idx(s0, p);
                        }
                    }
                    assert(self@ =~= old(self)@.insert(k, value));
                }
            },
            None => {
                let ghost k = var@;
                self.entries.push((var, value));
                proof {
                    let s1 = self.entries@;
                    assert forall|p: int, q: int| 0 <= p < q < s1.len() implies s1[p].0@
                        != s1[q].0@ by {
                        if q < s1.len() - 1 {
                            assert(s0[p].0@ != s0[q].0@);
                        } else {
                            assert(s1[p] == s0[p]);
                            if s0[p].0@ == k {
                                assert(seq_has_name(s0, k));
                            }
                        }
                    }
                    assert forall|k2: Seq<char>| seq_has_name(s1, k2) implies (seq_has_name(s0, k2)
                        || k2 == k) by {
                        let p = choose|p: int| 0 <= p < s1.len() && s1[p].0@ == k2;
                        if p < s1.len() - 1 {
                            assert(s0[p].0@ == k2);
                        }
                    }
                    assert forall|k2: Seq<char>| seq_has_name(s0, k2) implies seq_has_name(
                        s1,
                        k2,
                    ) by {
                        let p = choose|p: int| 0 <= p < s0.len() && s0[p].0@ == k2;
                        assert(s1[p].0@ == k2);
                    }
                    assert(seq_has_name(s1, k)) by {
                        assert(s1[s1.len() - 1].0@ == k);
                    }
                    assert forall|k2: Seq<char>| seq_has_name(s1, k2) implies s1[seq_name_idx(
                        s1,
                        k2,
                    )].1 == old(self)@.insert(k, value)[k2] by {
                        let p = seq_name_idx(s1, k2);
                        assert(0 <= p < s1.len() && s1[p].0@ == k2);
                        if k2 == k {
                            if p < s1.len() - 1 {
                                assert(s0[p].0@ == k);
                                assert(seq_has_name(s0, k));
                                assert(false);
                            }
                        } else {
                            assert(p < s1.len() - 1);
                            assert(s1[p] == s0[p]);
                            lemma_entry_idx(s0, p);
                        }
                    }
                    assert(self@ =~= old(self)@.insert(k, value));
                }
            },
        }
    }

    /// Remove the assignment for a variable, if present.
    pub fn unassign(&mut self, var: &Variable)
        requires
            old(self).wf(),
        ensures
            final(self).wf(),
            final(self)@ == old(self)@.remove(var@),
    {
        let ghost s0 = self.entries@;
        let ghost k = var@;
        match self.find_idx(var) {
            Some(i) => {
                self.entries.remove(i);
                proof {
                    let s1 = self.entries@;
                    s0.remove_ensures(i as int);
                    assert forall|p: int, q: int| 0 <= p < q < s1.len() implies s1[p].0@
                        != s1[q].0@ by {
                        let p0 = if p < i as int { p } else { p + 1 };
                        let q0 = if q < i as int { q } else { q + 1 };
                        assert(s1[p] == s0[p0] && s1[q] == s0[q0]);
                        assert(s0[p0].0@ != s0[q0].0@);
                    }
                    assert forall|k2: Seq<char>| seq_has_name(s1, k2) implies (seq_has_name(s0, k2)
                        && k2 != k) by {
                        let p = choose|p: int| 0 <= p < s1.len() && s1[p].0@ == k2;
                        let p0 = if p < i as int { p } else { p + 1 };
                        assert(s1[p] == s0[p0]);
                        assert(s0[p0].0@ == k2);
                        if k2 == k {
                            assert(s0[p0].0@ == s0[i as int].0@ && p0 != i as int);
                        }
                    }
                    assert forall|k2: Seq<char>| seq_has_name(s0, k2) && k2 != k implies
                        seq_has_name(s1, k2) by {
                        let p0 = choose|p: int| 0 <= p < s0.len() && s0[p].0@ == k2;
                        assert(p0 != i as int);
                        let p = if p0 < i as int { p0 } else { p0 - 1 };
                        assert(s1[p] == s0[p0]);
                    }
                    assert forall|k2: Seq<char>| seq_has_name(s1, k2) implies s1[seq_name_idx(
                        s1,
                        k2,
                    )].1 == old(self)@.remove(k)[k2] by {
                        let p = seq_name_idx(s1, k2);
                        assert(0 <= p < s1.len() && s1[p].0@ == k2);
                        let p0 = if p < i as int { p } else { p + 1 };
                        assert(s1[p] == s0[p0]);
                        lemma_entry_idx(s0, p0);
                    }
                    assert(self@ =~= old(self)@.remove(k));
                }
            },
            None => {
                proof {
                    assert(!self@.contains_key(k));
                    assert(self@ =~= old(self)@.remove(k));
                }
            },
        }
    }

    /// Check whether a variable is assigned.
    pub fn is_assigned(&self, var: &Variable) -> (r: bool)
        ensures
            r == self@.contains_key(var@),
    {
        self.find_idx(var).is_some()
    }

    /// Get the value assigned to a variable, if any.
    pub fn get(&self, var: &Variable) -> (r: Option<u64>)
        requires
            self.wf(),
        ensures
            r == if self@.contains_key(var@) {
                Some(self@[var@])
            } else {
                None::<u64>
            },
    {
        match self.find_idx(var) {
            Some(i) => {
                proof {
                    lemma_entry_idx(self.entries@, i as int);
                }
                Some(self.entries[i].1)
            },
            None => None,
        }
    }

    /// The number of assigned variables.
    pub fn size(&self) -> (r: usize)
        requires
            self.wf(),
        ensures
            r == self@.dom().len(),
            self@.dom().finite(),
    {
        proof {
            lemma_map_cardinality(self.entries@);
        }
        self.entries.len()
    }

    /// Check whether this is a complete assignment for a problem with
    /// `num_variables` variables.
    pub fn is_complete(&self, num_variables: usize) -> (r: bool)
        requires
            self.wf(),
        ensures
            r == (self@.dom().len() == num_variables),
            self@.dom().finite(),
    {
        self.size() == num_variables
    }

    /// The assigned variables, one per assigned name.
    pub fn variables(&self) -> (r: Vec<Variable>)
        requires
            self.wf(),
        ensures
            r@.len() == self@.dom().len(),
            forall|i: int| 0 <= i < r@.len() ==> self@.contains_key(#[trigger] r@[i]@),
            forall|i: int, j: int| 0 <= i < j < r@.len() ==> r@[i]@ != r@[j]@,
            forall|k: Seq<char>| self@.contains_key(k) ==> exists|i: int|
                0 <= i < r@.len() && #[trigger] r@[i]@ == k,
    {
        let pairs = self.iter();
        let mut r: Vec<Variable> = Vec::new();
        let mut i: usize = 0;
        while i < pairs.len()
            invariant
                i <= pairs@.len(),
                r@.len() == i,
                forall|j: int| 0 <= j < i ==> r@[j]@ == pairs@[j].0@,
            decreases pairs@.len() - i,
        {
            r.push(pairs[i].0.clone());
            i += 1;
        }
        proof {
            assert forall|k: Seq<char>| self@.contains_key(k) implies exists|i: int|
                0 <= i < r@.len() && #[trigger] r@[i]@ == k by {
                let i = choose|i: int| 0 <= i < pairs@.len() && #[trigger] pairs@[i].0@ == k;
                assert(r@[i]@ == k);
            }
        }
        r
    }

    /// All variable-value pairs of this assignment.
    pub fn iter(&self) -> (r: Vec<(Variable, u64)>)
        requires
            self.wf(),
        ensures
            r@.len() == self@.dom().len(),
            forall|i: int| 0 <= i < r@.len() ==> self@.contains_key(#[trigger] r@[i].0@) && r@[i].1
                == self@[r@[i].0@],
            forall|i: int, j: int| 0 <= i < j < r@.len() ==> r@[i].0@ != r@[j].0@,
            forall|k: Seq<char>| self@.contains_key(k) ==> exists|i: int|
                0 <= i < r@.len() && #[trigger] r@[i].0@ == k,
    {
        proof {
            lemma_map_cardinality(self.entries@);
        }
        let mut r: Vec<(Variable, u64)> = Vec::new();
        let mut i: usize = 0;
        while i < self.entries.len()
            invariant
                i <= self.entries@.len(),
                r@.len() == i,
                forall|j: int| 0 <= j < i ==> r@[j].0@ == self.entries@[j].0@ && r@[j].1
                    == self.entries@[j].1,
            decreases self.entries@.len() - i,
        {
            let v = self.entries[i].0.clone();
            let x = self.entries[i].1;
            r.push((v, x));
            i += 1;
        }
        proof {
            assert forall|i: int| 0 <= i < r@.len() implies self@.contains_key(
                #[trigger] r@[i].0@,
            ) && r@[i].1 == self@[r@[i].0@] by {
                lemma_entry_idx(self.entries@, i);
            }
            assert forall|k: Seq<char>| self@.contains_key(k) implies exists|i: int|
                0 <= i < r@.len() && #[trigger] r@[i].0@ == k by {
                let i = seq_name_idx(self.entries@, k);
                assert(r@[i].0@ == k);
            }
        }
        r
    }

    /// A copy of all assignments as variable-value pairs.
    pub fn get_assignments(&self) -> (r: Vec<(Variable, u64)>)
        requires
            self.wf(),
        ensures
            r@.len() == self@.dom().len(),
            forall|i: int| 0 <= i < r@.len() ==> self@.contains_key(#[trigger] r@[i].0@) && r@[i].1
                == self@[r@[i].0@],
            forall|i: int, j: int| 0 <= i < j < r@.len() ==> r@[i].0@ != r@[j].0@,
            forall|k: Seq<char>| self@.contains_key(k) ==> exists|i: int|
                0 <= i < r@.len() && #[trigger] r@[i].0@ == k,
    {
        self.iter()
    }

    /// Check if this assignment satisfies all given constraints; a
    /// constraint with an unassigned scope variable is not yet violated.
    #[verifier::loop_isolation(false)]
    pub fn is_consistent(&self, constraints: &Vec<Constraint>) -> (r: bool)
        requires
            self.wf(),
            forall|i: int| 0 <= i < constraints@.len() ==> (#[trigger] constraints@[i]).wf(),
        ensures
            r == forall|i: int|
                0 <= i < constraints@.len() ==> (#[trigger] constraints@[i]).spec_satisfied(
                    self@,
                ),
    {
        let mut i: usize = 0;
        while i < constraints.len()
            invariant
                i <= constraints@.len(),
                forall|j: int| 0 <= j < i ==> (#[trigger] constraints@[j]).spec_satisfied(self@),
            decreases constraints@.len() - i,
        {
            if !constraints[i].is_satisfied(self) {
                return false;
            }
            i += 1;
        }
        true
    }

    /// An independent copy of this assignment.
    pub fn duplicate(&self) -> (r: Assignment)
        requires
            self.wf(),
        ensures
            r.wf(),
            r@ == self@,
    {
        let mut entries: Vec<(Variable, u64)> = Vec::new();
        let mut i: usize = 0;
        while i < self.entries.len()
            invariant
                i <= self.entries@.len(),
                entries@.len() == i,
                forall|j: int| 0 <= j < i ==> entries@[j].0@ == self.entries@[j].0@ && entries@[j].1
                    == self.entries@[j].1,
            decreases self.entries@.len() - i,
        {
            let v = self.entries[i].0.clone();
            let x = self.entries[i].1;
            entries.push((v, x));
            i += 1;
        }
        let r = Assignment { entries };
        proof {
            lemma_map_congruence(r.entries@, self.entries@);
        }
        r
    }
}

} // verus!
