//! Gate-level power analysis.

pub mod activity;
pub mod cli;
pub mod double;
pub mod engine;
pub mod format;
pub mod job;
pub mod laws;
pub mod name_map;
pub mod names;
pub mod power;
pub mod render;
pub mod saif;
pub mod sweep;
pub mod text;
pub mod units;
pub mod vcd;
