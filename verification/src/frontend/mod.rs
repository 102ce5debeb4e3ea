//! Frontend adapters: external programs to QC-IR.
//!
//! A frontend hands downstream code a [`crate::ir::qc::Circuit`] or a
//! [`FrontendError`], never a source-language structure. Gate names are
//! resolved through one shared table, [`gate_map::map_gate`], so that every
//! frontend agrees on what `rz` or `u2` means.
pub mod error;
pub mod gate_map;
pub mod openqasm;
pub mod qiskit;
