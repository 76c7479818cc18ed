//! The shard configuration file: its templates, matrixes and loaders.

pub mod loader;
pub mod v1;
