//! Optimization passes of a C compiler: constant propagation over an intermediate
//! representation in SSA form, and peephole passes over x86-64 assembly.

pub mod float;
pub mod ir;
pub mod passes;
pub mod peephole;
