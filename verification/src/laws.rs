//! What the operations of the library promise, stated on what goes into them and
//! what comes out.

pub mod power;
pub mod vcd;
pub mod numbers;
pub mod text;
pub mod saif;
pub mod job;
pub mod activity;
pub mod engine;
pub mod names;
pub mod cli;
pub mod report;
pub mod views;
