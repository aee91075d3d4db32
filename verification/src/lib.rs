//! Minesweeper board model and a deductive mine-probability solver.

pub mod base;
pub mod config;
pub mod engine;
pub mod ui;
