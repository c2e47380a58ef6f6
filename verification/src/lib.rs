//! Execution-order analysis for a module bundler.

pub mod actual_order;
pub mod analysis;
pub mod analysis_laws;
pub mod at_risk;
pub mod call_laws;
pub mod chunk_cycles;
pub mod chunks;
pub mod closure_laws;
pub mod consistency;
pub mod consistency_laws;
pub mod dfs;
pub mod entry_laws;
mod fx;
pub mod hmr_update;
pub mod indices;
pub mod init_laws;
pub mod init_questions;
pub mod init_targets;
pub mod link;
pub mod lowering_laws;
pub mod members;
pub mod module_laws;
pub mod order_laws;
pub mod plan;
pub mod plan_laws;
pub mod post_lowering;
pub mod reach;
pub mod run_laws;
pub mod seqs;
pub mod source_laws;
pub mod source_order;
pub mod stage;
pub mod trace_laws;
pub mod visit;
pub mod wrap_all;
pub mod wrap_plan;
pub mod wrap_state;
