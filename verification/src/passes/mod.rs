pub mod arithmetic;
pub mod constant_fold;
pub mod effects;
pub mod execution;
pub mod fixpoint;
pub mod float_laws;
pub mod greatest;
pub mod lattice;
pub mod precision;
pub mod sccp;
pub mod use_def;
