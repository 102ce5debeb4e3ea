//! Circuit analysis: resource counts and structural diffing of two
//! circuits.
//!
//! What a pass did is read off the circuits themselves, by aligning the
//! instruction lists, rather than taken from the pass's own account.
pub mod diff;
pub mod report;
