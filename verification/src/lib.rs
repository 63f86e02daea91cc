//! Building blocks of the cwe_checker library: a generic worklist fixpoint
//! computation over control-flow graphs, the intermediate representation of
//! a disassembled program, and a few CWE checks built on top of them.

pub mod checkers;
pub mod fixpoint;
pub mod graph;
pub mod intermediate_representation;
pub mod log;
pub mod order;
