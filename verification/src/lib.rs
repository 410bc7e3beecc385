use vstd::prelude::*;

pub mod types;
pub mod geometry;
pub mod conflict_analyzer;
pub mod conflict_laws;
pub mod grid;
pub mod error;
pub mod text;
pub mod config;
pub mod rule_config;
pub mod loader;
pub mod config_laws;
pub mod layered;
pub mod journal;
pub mod apply;
pub mod matcher;
pub mod arbitrator;
pub mod pipeline;
pub mod tick_state;
pub mod spatial;
pub mod search;
pub mod rule_eq;
pub mod invalidate;
pub mod partners;
pub mod write_cover;
pub mod semantics;
pub mod engine;

verus! {
} // verus!
