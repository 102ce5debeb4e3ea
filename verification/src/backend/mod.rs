//! Backends: what can go wrong preparing a lowered circuit for one, and
//! what a run asks of it.
pub mod executable;
pub mod result;

use vstd::prelude::*;

use crate::lowering::LoweringError;

verus! {

/// Why a backend refused a circuit.
#[derive(Debug, Clone, PartialEq)]
pub enum BackendError {
    /// The circuit cannot be lowered onto this backend's target.
    Lowering {
        /// What lowering refused.
        source: LoweringError,
    },
    /// A lowered circuit could not be turned into an executable artifact.
    NotExecutable {
        /// Program index of the offending operation.
        index: usize,
        /// Why.
        detail: String,
    },
    /// This backend cannot run circuits from inside the compiler process: a
    /// boundary, not a failure.
    ExecutionNotAvailableInProcess {
        /// Which backend.
        backend: String,
        /// Where execution actually happens.
        reason: String,
    },
    /// The backend's own target description is unusable.
    InvalidTarget {
        /// Which backend.
        backend: String,
        /// What is wrong.
        detail: String,
    },
}

} // verus!
