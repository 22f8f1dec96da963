pub mod args;
pub mod config;
pub mod curve;
pub mod edit;
pub mod graph;
pub mod laws;
pub mod node;
pub mod update;
