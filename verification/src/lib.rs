//! Merge several PipeWire audio sinks into one virtual output: the registry
//! bookkeeping, port matching and command-line logic of the tool.
pub mod text;
pub mod keyed;
pub mod global;
pub mod registry;
pub mod merger;
pub mod detector;
pub mod cli;
pub mod error;
