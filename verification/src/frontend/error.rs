//! The error type shared by every frontend.
//!
//! A frontend reports, and never silently repairs, malformed source,
//! unsupported constructs and parameter-arity mistakes; what QC-IR itself
//! rejects arrives as [`FrontendError::Ir`].
use vstd::prelude::*;

use crate::ir::error::IrError;

verus! {

/// Anything that can go wrong turning an external program into QC-IR.
#[derive(Debug, Clone, PartialEq)]
pub enum FrontendError {
    /// The source text is lexically or syntactically malformed.
    Syntax {
        /// What went wrong.
        message: String,
        /// 1-based source line.
        line: u32,
        /// 1-based source column.
        column: u32,
    },
    /// The source parsed, but means something the frontend cannot honour:
    /// an undeclared register, an out-of-bounds index, a broadcast over
    /// mismatched widths.
    Semantic(String),
    /// A construct outside the supported subset.
    Unsupported(String),
    /// A gate was given the wrong number of classical parameters (angles).
    ParamArity {
        /// Gate mnemonic as written in the source.
        gate: String,
        /// Number of parameters expected.
        expected: usize,
        /// Parameters supplied.
        found: usize,
    },
    /// QC-IR rejected the circuit the frontend built.
    Ir(IrError),
}

impl FrontendError {
    /// A [`FrontendError::Syntax`] at the given 1-based position.
    pub fn syntax(message: &str, line: u32, column: u32) -> (r: FrontendError)
        ensures
            r matches FrontendError::Syntax { message: m, line: l, column: c } && m@ == message@
                && l == line && c == column,
    {
        FrontendError::Syntax { message: message.to_string(), line, column }
    }

    /// A [`FrontendError::Semantic`].
    pub fn semantic(message: &str) -> (r: FrontendError)
        ensures
            r matches FrontendError::Semantic(m) && m@ == message@,
    {
        FrontendError::Semantic(message.to_string())
    }

    /// A [`FrontendError::Unsupported`].
    pub fn unsupported(what: &str) -> (r: FrontendError)
        ensures
            r matches FrontendError::Unsupported(m) && m@ == what@,
    {
        FrontendError::Unsupported(what.to_string())
    }
}

} // verus!
