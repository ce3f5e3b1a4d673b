//! Core engine of a module bundler: it discovers a program's module
//! dependency graph, numbers the modules deterministically, and partitions
//! the graph into output chunks.
//!
//! Resolution of specifiers to files, loading of file contents and parsing
//! are external collaborators; the graph store, the execution-order
//! assignment and the chunk-splitting algorithm live here and are verified.
#![allow(unused_imports)]
use vstd::prelude::*;

pub mod chunk;
pub mod chunk_graph;
pub mod chunk_spliter;
pub mod complier;
pub mod laws;
pub mod module;
pub mod module_graph;
pub mod options;
pub mod plugin;
pub mod reachability;
pub mod resolve_module_job;
pub mod utils;

pub use chunk::{Chunk, ChunkKind};
pub use chunk_graph::ChunkGraph;
pub use chunk_spliter::split_chunker::{split_code, ChunkIdGenerator};
pub use complier::compilation::Compilation;
pub use complier::Msg;
pub use module::{BoxModule, Module, ModuleGraphModule};
pub use module_graph::ModuleGraph;
pub use options::complier_options::ComplierOptions;
pub use options::entry::EntryItem;
pub use options::optimization::{ChunkIdAlgo, ModuleIdAlgo};
pub use plugin::api::{
    Asset, AssetFilename, LoadArgs, ParseModuleArgs, Plugin, RenderManifestArgs, ResolveArgs,
};
pub use plugin::plugin_deriver::PluginDriver;
pub use resolve_module_job::{
    resolve_source_type_by_uri, Dependency, JobContext, ModuleDependency, ResolveKind,
};
pub use utils::ext_by_module_uri;

verus! {

/// What can go wrong while building: resolution, loading and parsing
/// failures end the build; a duplicate module is benign bookkeeping.
#[derive(Debug, Clone, Copy, PartialEq, Eq, Structural)]
pub enum BuildError {
    ResolutionFailure,
    LoadFailure,
    UnsupportedSourceType,
    DuplicateModule,
}


/// The source language of a module, derived from its file extension.
#[derive(Debug, Clone, Copy, PartialEq, Eq, Hash, Structural)]
pub enum SourceType {
    Json,
    Css,
    Js,
    Jsx,
    Tsx,
    Ts,
}

/// The source type that a file extension denotes, if any.
pub open spec fn source_type_of_ext(s: Seq<char>) -> Option<SourceType> {
    if s == "json"@ {
        Some(SourceType::Json)
    } else if s == "css"@ {
        Some(SourceType::Css)
    } else if s == "js"@ {
        Some(SourceType::Js)
    } else if s == "jsx"@ {
        Some(SourceType::Jsx)
    } else if s == "tsx"@ {
        Some(SourceType::Tsx)
    } else if s == "ts"@ {
        Some(SourceType::Ts)
    } else {
        None
    }
}

/// Compares two string slices by contents.
pub fn str_eq(a: &str, b: &str) -> (r: bool)
    ensures
        r == (a@ == b@),
{
    a.to_owned() == b.to_owned()
}

impl SourceType {
    /// Maps a file extension (without the dot) to its source type.
    pub fn from_ext(value: &str) -> (r: Option<SourceType>)
        ensures
            r == source_type_of_ext(value@),
    {
        if str_eq(value, "json") {
            Some(SourceType::Json)
        } else if str_eq(value, "css") {
            Some(SourceType::Css)
        } else if str_eq(value, "js") {
            Some(SourceType::Js)
        } else if str_eq(value, "jsx") {
            Some(SourceType::Jsx)
        } else if str_eq(value, "tsx") {
            Some(SourceType::Tsx)
        } else if str_eq(value, "ts") {
            Some(SourceType::Ts)
        } else {
            None
        }
    }
}

} // verus!
