//! Verified core of the MIRAGE vector index.

pub mod arithmetic;
pub mod candidate;
pub mod candidate_laws;
pub mod config;
pub mod config_laws;
pub mod config_mismatch_optimizer;
pub mod faiss_random;
pub mod graph_plan_laws;
pub mod layer0_determinism;
pub mod layer0_laws;
pub mod layer0_model;
pub mod layer0_process;
pub mod layer0_structure;
pub mod main_graph;
pub mod main_graph_laws;
pub mod mirage;
pub mod mismatch_laws;
pub mod named_map;
pub mod operation_error;
pub mod operation_laws;
pub mod random_laws;
pub mod refinement_builder;
pub mod score;
