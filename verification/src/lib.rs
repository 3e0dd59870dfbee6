//! Library learning over expressions: costs of library selections, hardware
//! scheduling, e-class analysis and extraction.
pub mod analysis;
pub mod assoc;
pub mod ast_node;
pub mod au_filter;
pub mod au_filter_laws;
pub mod bb_query;
pub mod bb_query_laws;
pub mod egraph;
pub mod expand;
pub mod expand_laws;
pub mod expr_cost_laws;
pub mod extract;
pub mod id_map;
pub mod learn;
pub mod learn_laws;
pub mod marks;
pub mod number;
pub mod number_laws;
pub mod perf_infer;
pub mod perf_infer_laws;
pub mod rec_expr;
pub mod rewrites;
pub mod runner;
pub mod schedule;
pub mod schedule_laws;
pub mod sexp;
pub mod sexp_laws;
pub mod simple_lang;
pub mod sorting;
pub mod symbol;
pub mod teachable;
pub mod text;
pub mod text_laws;
pub mod text_sort;
pub mod text_split;
