//! Per-repository mining engine for a source-code crawler: the file and
//! include model, the header-dependency graph, the backtracking header-set
//! selector, the per-file compiler loop and the repository-level bookkeeping,
//! each with a machine-checked contract.

pub mod abbrev;
pub mod analysis;
pub mod canon;
pub mod compile;
pub mod config;
pub mod dep_graph;
pub mod interface;
pub mod miner;
pub mod path;
pub mod pattern;
pub mod runner;
pub mod select;
pub mod text;
pub mod tidy;
pub mod types;
pub mod walk;
