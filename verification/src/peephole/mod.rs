pub mod address_folds;
pub mod combined;
pub mod compare_branch;
pub mod equivalence;
pub mod flags;
pub mod fusion;
pub mod helpers;
pub mod instructions;
pub mod join_blocks;
pub mod labels;
pub mod laws;
pub mod liveness;
pub mod local_laws;
pub mod local_patterns;
pub mod loop_trampoline;
pub mod machine;
pub mod narrow;
pub mod operands;
pub mod paths;
pub mod readings;
pub mod redirects;
pub mod register_moves;
pub mod routing;
pub mod sweep;
pub mod text;
pub mod types;
pub mod values;
