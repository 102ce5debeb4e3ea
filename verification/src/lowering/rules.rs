//! Decomposition-rule vocabulary: how faithful a rewrite is, and why a rule
//! or a rule set can be refused.
use vstd::prelude::*;

verus! {

/// How faithfully a rule reproduces its source operation. `Exact` is the
/// stronger claim, `UpToGlobalPhase` the weaker.
#[derive(Debug, Clone, Copy, PartialEq, Eq, Structural, PartialOrd, Ord, Hash)]
pub enum Exactness {
    /// The emitted sequence equals the source unitary exactly.
    Exact,
    /// Equal up to an unobservable global phase.
    ///
    /// This relies on nothing in a circuit being applied conditionally or
    /// under control, so that a scalar factor on one fragment is a scalar
    /// factor on the whole circuit, which no experiment can observe.
    UpToGlobalPhase,
}

impl Exactness {
    /// The weaker of two exactness claims: one inexact step anywhere makes
    /// the whole expansion inexact.
    pub fn combine(self, other: Exactness) -> (r: Exactness)
        ensures
            r == (if self == Exactness::Exact && other == Exactness::Exact {
                Exactness::Exact
            } else {
                Exactness::UpToGlobalPhase
            }),
    {
        match (self, other) {
            (Exactness::Exact, Exactness::Exact) => Exactness::Exact,
            _ => Exactness::UpToGlobalPhase,
        }
    }
}

/// Combining claims is commutative, associative, has `Exact` as identity and
/// `UpToGlobalPhase` as absorbing element, so folding it over a rule closure
/// gives the same answer in any order.
pub proof fn lemma_combine_laws(a: Exactness, b: Exactness, c: Exactness)
    ensures
        combine_spec(a, b) == combine_spec(b, a),
        combine_spec(combine_spec(a, b), c) == combine_spec(a, combine_spec(b, c)),
        combine_spec(Exactness::Exact, a) == a,
        combine_spec(Exactness::UpToGlobalPhase, a) == Exactness::UpToGlobalPhase,
        combine_spec(a, a) == a,
{
}

/// The weaker of two exactness claims, in specifications.
pub open spec fn combine_spec(a: Exactness, b: Exactness) -> Exactness {
    if a == Exactness::Exact && b == Exactness::Exact {
        Exactness::Exact
    } else {
        Exactness::UpToGlobalPhase
    }
}

/// A rule that could not be applied to a particular operation.
#[derive(Debug, Clone, PartialEq)]
pub enum RuleError {
    /// A symbolic parameter would have to be transformed, and a parameter
    /// has no arithmetic to transform it with.
    SymbolicParameterRequiresTransformation {
        /// The rule that refused.
        rule: String,
        /// Which emitted step needed the transformation.
        step: usize,
        /// The unbound symbol.
        symbol: String,
    },
    /// The operation had the wrong number of qubits for this rule.
    OperandArity {
        /// The rule.
        rule: String,
        /// Operands the rule declares.
        expected: usize,
        /// Operands it was given.
        found: usize,
    },
    /// A step referenced an operand the source does not have.
    OperandIndex {
        /// The rule.
        rule: String,
        /// The out-of-range index.
        index: usize,
        /// How many operands exist.
        available: usize,
    },
    /// A transform referenced a parameter the source does not have.
    ParameterIndex {
        /// The rule.
        rule: String,
        /// The out-of-range index.
        index: usize,
        /// How many parameters exist.
        available: usize,
    },
    /// A step named a gate the shared gate table does not register.
    UnknownOperation {
        /// The rule.
        rule: String,
        /// The unrecognised mnemonic.
        op: String,
        /// What the shared table of gate names said.
        detail: String,
    },
}

/// A rule set that is malformed, or that cannot reach the target's basis.
#[derive(Debug, Clone, PartialEq)]
pub enum RuleSetError {
    /// The profile named a rule this library does not contain.
    UnknownRule {
        /// The unrecognised identifier.
        id: String,
    },
    /// Two rules rewrite the same operation.
    DuplicateSource {
        /// The first rule.
        first: String,
        /// The second.
        second: String,
        /// The operation they contest.
        mnemonic: String,
    },
    /// A rule is internally malformed.
    MalformedRule {
        /// The rule.
        rule: String,
        /// What is wrong with it.
        detail: String,
    },
    /// Rewriting could not terminate.
    CyclicRuleSet {
        /// An operation on the cycle.
        mnemonic: String,
    },
    /// An operation the rules reach is neither native nor further reducible.
    NotClosed {
        /// The rule whose expansion gets stuck.
        rule: String,
        /// The operation with nowhere to go.
        mnemonic: String,
    },
    /// A rule reaches an operation wider than its own source.
    ArityIncrease {
        /// The offending rule.
        rule: String,
        /// The multi-qubit operation it reaches.
        mnemonic: String,
    },
}


/// The identifiers of the built-in decomposition rules, in the order the
/// rule table lists them.
pub open spec fn builtin_rule_ids() -> Seq<Seq<char>> {
    seq![
        "id-to-nothing"@,
        "swap-to-cx"@,
        "cz-to-cx"@,
        "cy-to-cx"@,
        "ccx-to-cx"@,
        "x-to-sx"@,
        "sxdg-to-sx"@,
        "h-to-rz-sx"@,
        "y-to-rz-x"@,
        "z-to-rz"@,
        "s-to-rz"@,
        "sdg-to-rz"@,
        "t-to-rz"@,
        "tdg-to-rz"@,
        "p-to-rz"@,
        "rx-to-rz-sx"@,
        "ry-to-rz-sx"@,
        "u-to-rz-sx"@,
    ]
}

/// Every rule this library knows, by identifier, in table order.
pub fn builtin_ids() -> (r: Vec<&'static str>)
    ensures
        r@.map_values(|s: &'static str| s@) == builtin_rule_ids(),
{
    let mut v: Vec<&'static str> = Vec::new();
    v.push("id-to-nothing");
    v.push("swap-to-cx");
    v.push("cz-to-cx");
    v.push("cy-to-cx");
    v.push("ccx-to-cx");
    v.push("x-to-sx");
    v.push("sxdg-to-sx");
    v.push("h-to-rz-sx");
    v.push("y-to-rz-x");
    v.push("z-to-rz");
    v.push("s-to-rz");
    v.push("sdg-to-rz");
    v.push("t-to-rz");
    v.push("tdg-to-rz");
    v.push("p-to-rz");
    v.push("rx-to-rz-sx");
    v.push("ry-to-rz-sx");
    v.push("u-to-rz-sx");
    proof {
        assert(v@.map_values(|s: &'static str| s@) =~= builtin_rule_ids());
    }
    v
}

} // verus!
