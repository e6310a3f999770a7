//! Yao's garbled circuits for two semi-honest parties: a netlist model with
//! its evaluation order, a Free-XOR garbler, the matching evaluator, a
//! Chou-Orlandi oblivious transfer for the evaluator's input labels, an
//! optimizer that rewrites a netlist towards XOR gates, and readers for two
//! netlist formats.
//!
//! The cryptography comes from other crates, through the functions of
//! [`primitives`] and [`ristretto`]; everything else is verified against
//! what those functions state.
#![allow(non_camel_case_types)]

pub mod correctness;
pub mod error;
pub mod evaluator;
pub mod garbler;
pub mod netlist;
pub mod optim;
pub mod optimizer;
pub mod ot;
pub mod parser;
pub mod primitives;
pub mod protocol;
pub mod ristretto;
pub mod utils;
pub mod yosys;
