//! How much of a gate set a decomposition phase tries to eliminate.
use vstd::prelude::*;

verus! {

/// How much of a gate set a pass is trying to eliminate.
#[derive(Debug, Clone, Copy, PartialEq, Eq, Structural)]
pub enum Scope {
    /// Rewrite only unsupported operations of arity three or more, before
    /// layout and routing: a coupling map describes pairs, so a three-qubit gate has no
    /// meaning on one.
    ArityOnly,
    /// Rewrite every operation the target does not support.
    Basis,
    /// Rewrite only one-qubit operations the target does not support: the
    /// cleanup after orientation repair, which cannot reopen the
    /// connectivity question.
    SingleQubitOnly,
}

/// Whether an operation of the given arity, supported or not by the target,
/// is in a scope's reach.
pub open spec fn admits_spec(scope: Scope, supported: bool, arity: nat) -> bool {
    match scope {
        Scope::ArityOnly => arity > 2 && !supported,
        Scope::Basis => !supported,
        Scope::SingleQubitOnly => arity == 1 && !supported,
    }
}

impl Scope {
    /// Whether an operation is in scope for rewriting, given whether the
    /// target supports it and how many qubits it acts on.
    pub fn admits(self, supported: bool, arity: usize) -> (r: bool)
        ensures
            r == admits_spec(self, supported, arity as nat),
    {
        match self {
            Scope::ArityOnly => arity > 2 && !supported,
            Scope::Basis => !supported,
            Scope::SingleQubitOnly => arity == 1 && !supported,
        }
    }
}

} // verus!
