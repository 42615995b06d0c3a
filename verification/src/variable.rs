use vstd::prelude::*;

verus! {

/// A variable in a constraint satisfaction problem.
///
/// A variable is an identity token: two `Variable` values denote the same CSP
/// variable exactly when their names agree. Variables carry no domain; domains
/// are registered in the [`crate::csp::Csp`] that owns the problem.
pub struct Variable {
    /// The human-readable name of this variable.
    pub name: String,
}

impl View for Variable {
    type V = Seq<char>;

    open spec fn view(&self) -> Seq<char> {
        self.name@
    }
}

impl Variable {
    /// Creates a new variable with the given name.
    pub fn new(name: &str) -> (v: Variable)
        ensures
            v@ == name@,
    {
        Variable { name: name.to_owned() }
    }

    /// True exactly when `self` and `other` name the same variable.
    pub fn same_variable(&self, other: &Variable) -> (r: bool)
        ensures
            r == (self@ == other@),
    {
        self.name == other.name
    }
}

impl Clone for Variable {
    fn clone(&self) -> (r: Self)
        ensures
            r@ == self@,
    {
        Variable { name: self.name.clone() }
    }
}

} // verus!
