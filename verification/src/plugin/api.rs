use vstd::prelude::*;

use crate::SourceType;
use crate::module::BoxModule;
use crate::resolve_module_job::{JobContext, ResolveKind};

verus! {

/// Arguments to specifier resolution: the importing module, the specifier
/// as written, and the import kind.
#[derive(Debug)]
pub struct ResolveArgs {
    pub importer: Option<String>,
    pub specifier: String,
    pub kind: ResolveKind,
}

/// Arguments to content loading: the uri to read.
#[derive(Debug)]
pub struct LoadArgs {
    pub uri: String,
}

/// Arguments to parsing: the module's uri and its raw content.
#[derive(Debug)]
pub struct ParseModuleArgs {
    pub uri: String,
    pub source: String,
}

/// Arguments to manifest rendering: the chunk being rendered.
#[derive(Debug)]
pub struct RenderManifestArgs {
    pub chunk_id: String,
}

/// A build extension. Each plugin may register the source types it parses;
/// parsing dispatch goes to the last registrant of a type. Nothing is
/// assumed of an implementation.
pub trait Plugin: Send + Sync {
    fn register_parse_module(&self) -> Option<Vec<SourceType>> {
        None
    }

    fn loader(&self, job_ctx: &mut JobContext, args: &LoadArgs) -> Option<String> {
        None
    }

    fn parse_module(&self, job_ctx: &mut JobContext, args: ParseModuleArgs) -> Option<BoxModule> {
        None
    }

    fn render_manifest(&self, args: &RenderManifestArgs) -> Vec<Asset> {
        Vec::new()
    }
}

/// How an emitted asset is named.
#[derive(Debug)]
pub enum AssetFilename {
    Static(String),
    Template(String),
}

/// One rendered output file.
#[derive(Debug)]
pub struct Asset {
    pub rendered: String,
    pub filename: AssetFilename,
}

} // verus!
