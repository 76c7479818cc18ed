//! The shard manifest, stored alongside the Prism Launcher data directory. It
//! keeps track of which instances are managed by shard.

use vstd::prelude::*;

verus! {

/// The instances managed by shard.
#[derive(Debug)]
pub struct ShardManifest {
    /// The IDs of the instances managed by shard. An instance ID is the name of
    /// the directory of the instance within the Prism Launcher `instances`
    /// directory.
    pub instance_ids: Vec<String>,
}

impl Default for ShardManifest {
    /// A manifest that manages no instance.
    fn default() -> (manifest: Self)
        ensures
            manifest.instance_ids@.len() == 0,
    {
        ShardManifest { instance_ids: Vec::new() }
    }
}

} // verus!
