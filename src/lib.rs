//! A small workflow engine: typed nodes joined by directed links are checked
//! for cycles, put in a deterministic topological order, and run one at a
//! time, each node receiving the concatenated outputs of its predecessors.

pub mod workflow;
pub mod flow;
pub mod settings;
pub mod registry;
pub mod engine;
pub mod nodes;
