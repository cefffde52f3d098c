//! Validation and refinement of AI-generated unified-diff patch candidates.

pub mod checkers;
pub mod cli;
pub mod counters;
pub mod distance;
pub mod laws;
pub mod lexer;
pub mod models;
pub mod numbers;
pub mod refiner;
pub mod repair;
pub mod repair_laws;
pub mod text;
