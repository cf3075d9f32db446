//! The decompiler's refinement of structured expressions.

pub mod ast;
pub mod binding_laws;
pub mod execution_laws;
pub mod inline_laws;
pub mod inline_single_use_bindings;
pub mod name_counts;
pub mod name_map;
pub mod path_uses;
pub mod repeated_reads;
pub mod substitution;
pub mod tree_laws;
