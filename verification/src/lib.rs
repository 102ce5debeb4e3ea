//! OQCI, the Open Quantum Compiler Infrastructure: the verified core.
//!
//! A program becomes QC-IR, which is validated at construction; it is then
//! placed on a device by a layout and made local by routing.
pub mod analysis;
pub mod backend;
pub mod cli;
pub mod compile;
pub mod frontend;
pub mod ir;
pub mod lowering;
pub mod pass;
pub mod replay;
pub mod target;
pub mod text;
