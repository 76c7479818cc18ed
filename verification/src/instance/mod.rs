//! Instances resolved from the matrixes of a configuration.

use vstd::prelude::*;

use crate::config::loader::{Loader, LoaderKind};
use crate::sorted_map::{text_entries, text_list_entries, SortedMap};

pub mod resolver;

verus! {

/// A resolved instance built from a matrix within a [`ShardConfig`](crate::config::v1::ShardConfig).
#[derive(Debug)]
pub struct ResolvedInstance {
    /// A unique ID for this instance: the template's name, then a hyphenated list of the input values in key order,
    /// each with its characters that are not alphanumeric made `_`. Resolution fails rather than give two instances
    /// one ID.
    pub id: String,
    /// The literal name of the instance (i.e. with all placeholders expanded).
    pub name: String,
    /// The loader that the instance should use.
    pub loader: Option<Loader>,
    /// The Minecraft version, the value of the `minecraft` input.
    pub minecraft_version: String,
    /// A map of mod provider to mod descriptors.
    pub mods: SortedMap<Vec<String>>,
    /// Information about how the instance was resolved (template, inputs, ...)
    pub source: InstanceSource,
}

/// Information about how an instance was resolved.
#[derive(Debug)]
pub struct InstanceSource {
    /// The name of the template that the instance was derived from.
    pub template: String,
    /// The inputs used to generate the instance.
    pub inputs: SortedMap<String>,
}

/// What a resolved instance holds, as text.
pub struct InstanceModel {
    pub id: Seq<char>,
    pub name: Seq<char>,
    pub loader: Option<(LoaderKind, Option<Seq<char>>)>,
    pub minecraft_version: Seq<char>,
    pub mods: Seq<(Seq<char>, Seq<Seq<char>>)>,
    pub template: Seq<char>,
    pub inputs: Seq<(Seq<char>, Seq<char>)>,
}

/// The text of an optional loader.
pub open spec fn loader_view(loader: Option<Loader>) -> Option<(LoaderKind, Option<Seq<char>>)> {
    match loader {
        Some(l) => Some(l@),
        None => None,
    }
}

impl View for ResolvedInstance {
    type V = InstanceModel;

    open spec fn view(&self) -> InstanceModel {
        InstanceModel {
            id: self.id@,
            name: self.name@,
            loader: loader_view(self.loader),
            minecraft_version: self.minecraft_version@,
            mods: text_list_entries(self.mods),
            template: self.source.template@,
            inputs: text_entries(self.source.inputs),
        }
    }
}

} // verus!
