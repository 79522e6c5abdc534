//! Impact analysis of Terraform and OpenTofu plans: what a plan would change, what depends on it,
//! and whether it is safe to apply.

pub mod text;
pub mod order;
pub mod json;
pub mod parser;
pub mod version;
pub mod validation;
pub mod drift;
pub mod paths;
pub mod digraph;
pub mod blueprint;
pub mod dot;
pub mod graph;
pub mod impact;
pub mod tree;
pub mod report;
pub mod commands;
pub mod ui;
