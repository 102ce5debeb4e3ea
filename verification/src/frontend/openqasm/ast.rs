//! Pieces of the syntax tree for the supported OpenQASM 3 subset.
use vstd::prelude::*;

verus! {

/// A 1-based source position.
#[derive(Debug, Clone, Copy, PartialEq, Eq, Structural)]
pub struct Pos {
    /// 1-based line.
    pub line: u32,
    /// 1-based column.
    pub column: u32,
}

/// A reference to a whole register or one of its elements.
#[derive(Debug, Clone, PartialEq)]
pub struct Operand {
    /// Register name.
    pub name: String,
    /// Element index, or `None` to reference the whole register (broadcast).
    pub index: Option<u32>,
    /// Source position of the reference.
    pub pos: Pos,
}

/// One statement of a program. A gate call's classical parameters are not
/// held here: they are evaluated to angles before the statement is
/// translated, and handed over beside it.
#[derive(Debug, Clone)]
pub enum Statement {
    /// `include "stdgates.inc";` — accepted and recorded, never loaded.
    Include(String),
    /// `qubit[n] name;` or `qubit name;`
    QubitDecl {
        /// Register name.
        name: String,
        /// Declared width; `None` means a single unindexed qubit.
        size: Option<u32>,
        /// Source position of the declaration.
        pos: Pos,
    },
    /// `bit[n] name;` or `bit name;`
    BitDecl {
        /// Register name.
        name: String,
        /// Declared width; `None` means a single unindexed bit.
        size: Option<u32>,
        /// Source position of the declaration.
        pos: Pos,
    },
    /// `input float[64] name;` — a symbolic circuit parameter.
    InputDecl {
        /// Parameter name.
        name: String,
        /// Source position of the declaration.
        pos: Pos,
    },
    /// A gate application, e.g. `rz(pi/2) q[0];` or `cx a, b;`
    GateCall {
        /// Gate mnemonic as written.
        name: String,
        /// Qubit operands, in source order.
        operands: Vec<Operand>,
        /// Source position of the call's first token.
        pos: Pos,
    },
    /// `measure q[0] -> c[0];` or `c[0] = measure q[0];`
    Measure {
        /// Qubit being measured.
        source: Operand,
        /// Destination classical bit.
        target: Operand,
        /// Source position of the statement.
        pos: Pos,
    },
    /// `reset q[0];`
    Reset {
        /// Qubit being reset.
        target: Operand,
        /// Source position of the statement.
        pos: Pos,
    },
}

/// Supported binary arithmetic operators.
#[derive(Debug, Clone, Copy, PartialEq, Eq, Structural)]
pub enum BinOp {
    /// `+`
    Add,
    /// `-`
    Sub,
    /// `*`
    Mul,
    /// `/`
    Div,
}

} // verus!
