//! Choosing library functions and extracting expressions.
pub mod analysis_laws;
pub mod beam_pareto;
pub mod choice_laws;
pub mod cost_fn;
pub mod cost_fn_laws;
pub mod cost_laws;
pub mod cost_set;
pub mod extraction_laws;
pub mod fx_map;
pub mod hash_laws;
pub mod isax_extractor;
pub mod lambda;
pub mod lambda_laws;
pub mod lib_context;
pub mod lib_extractor;
pub mod lib_sel;
pub mod memo;
pub mod node_laws;
pub mod selection_laws;
pub mod sharing;
pub mod structural_hash;
