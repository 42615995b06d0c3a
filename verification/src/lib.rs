//! A constraint satisfaction problem (CSP) solver library.
//!
//! A problem is a finite set of named variables, each with a finite domain of
//! candidate values, together with a list of constraints over those variables.
//! The solvers search for complete assignments that satisfy every constraint:
//! plain chronological backtracking with pluggable variable-selection and
//! value-ordering heuristics, forward checking, and AC-3 arc consistency
//! preprocessing with MAC search.

pub mod variable;
pub mod assignment;
pub mod constraint;
pub mod domain;
pub mod csp;
pub mod backtracking;
pub mod utils;
pub mod heuristics;
pub mod solver;
pub mod forward_checking;
pub mod arc_consistency;

pub use crate::assignment::Assignment;
pub use crate::backtracking::BacktrackingSolver;
pub use crate::constraint::Constraint;
pub use crate::csp::Csp;
pub use crate::domain::Domain;
pub use crate::variable::Variable;
