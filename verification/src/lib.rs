//! Shard: declarative generation of Prism Launcher instances from a matrix of inputs.

pub mod text;
pub mod sorted_map;
pub mod config;
pub mod instance;
pub mod error;
pub mod prism;
pub mod manifest;
