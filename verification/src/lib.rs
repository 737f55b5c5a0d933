//! Instruction-lookup decomposition layer of a lookup-argument (Lasso-style)
//! virtual machine: splits 64-bit operand pairs into small subtable indices
//! and recombines per-chunk lookup results, as a low-degree polynomial over a
//! finite field, into the field element representing the instruction output.

pub mod field;
pub mod instruction;
pub mod instruction_utils;
pub mod subtable;
