//! Composable agent kernel: tool-call normalization, bounded tool results,
//! context packing, budgets, dispatch traces and reliability primitives.

pub mod text;
pub mod json;
pub mod registry;
pub mod lfm;
pub mod normalizer;
pub mod trace;
pub mod dispatch;
pub mod tool;
pub mod envelope;
pub mod context;
pub mod reliability;
pub mod budget;
pub mod agent;
pub mod coordinator;
pub mod manifest;
pub mod instructions;
