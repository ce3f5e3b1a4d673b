use vstd::prelude::*;

use crate::module::ModuleGraphModule;
use crate::resolve_module_job::Dependency;

pub mod compilation;

verus! {

/// What a resolution job reports back to the build driver.
pub enum Msg {
    /// A dependency edge resolved to a canonical uri; recorded even when
    /// the target module is already known or its job later fails.
    DependencyReference(Dependency, String),
    /// A job finished owning its module: the parsed record is ready.
    TaskFinished(Box<ModuleGraphModule>),
    /// A job ended without producing a module; losing the deduplication
    /// race is the benign case.
    TaskErrorEncountered(()),
}

} // verus!
