//! The compiler orchestrator's vocabulary: which frontend reads the source,
//! how far the pipeline goes, and why compilation failed.
use vstd::prelude::*;

use crate::backend::BackendError;
use crate::frontend::error::FrontendError;
use crate::ir::error::IrError;
use crate::pass::PassError;

verus! {

/// Which frontend to read the source with.
#[derive(Debug, Clone, Copy, PartialEq, Eq, Structural, Default)]
pub enum Frontend {
    /// The documented OpenQASM 3 subset.
    #[default]
    OpenQasm3,
}

/// How far through the pipeline to go. Stopping early is a first-class
/// request, not a degraded run.
#[derive(Debug, Clone, Copy, PartialEq, Eq, Structural, Default)]
pub enum Stop {
    /// Frontend and optimization only.
    Optimized,
    /// And target lowering.
    Lowered,
    /// And execution preparation.
    #[default]
    Prepared,
}

/// Why compilation failed.
#[derive(Debug, Clone, PartialEq)]
pub enum CompileError {
    /// The source could not be read.
    Frontend {
        /// What the frontend said.
        source: FrontendError,
    },
    /// Parameter binding or an IR operation failed.
    Ir {
        /// The IR problem.
        source: IrError,
    },
    /// A pass failed.
    Pass {
        /// Which pass, and why.
        source: PassError,
    },
    /// Lowering or preparation failed.
    Backend {
        /// What the backend refused.
        source: BackendError,
    },
    /// The configuration named a backend that does not exist.
    UnknownBackend {
        /// What was asked for.
        requested: String,
        /// What exists.
        available: String,
    },
}

} // verus!
