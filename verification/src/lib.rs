//! A verified compiler and execution engine for a minimal tape-machine
//! language: eight instruction kinds over a fixed-size byte tape, with
//! run-length folding of adjacent operators, resolved jump targets, a
//! segmentation of the instruction stream into named units, and stepping
//! at instruction, unit, and breakpoint granularity.

pub mod parser;
pub mod interpreter;
