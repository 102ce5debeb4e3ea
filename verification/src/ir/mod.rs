//! The intermediate representation: QC-IR, its dependency-graph form
//! QCO-IR, their value types and their errors.
pub mod convert;
pub mod error;
pub mod qc;
pub mod qco;
pub mod types;
