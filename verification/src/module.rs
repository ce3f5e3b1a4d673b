use vstd::prelude::*;

use crate::SourceType;
use crate::resolve_module_job::{DepView, Dependency, ModuleDependency, ResolveKind};
use crate::module_graph::{static_targets, ModuleGraph};

verus! {

/// A parsed module's capability: it can render itself and enumerate the raw
/// dependencies found while parsing. Implementations come from parser
/// plugins; nothing is assumed of them.
pub trait Module: Send + Sync {
    fn render(&self) -> String;

    fn dependencies(&mut self) -> Vec<ModuleDependency> {
        Vec::new()
    }
}

pub type BoxModule = Box<dyn Module>;

/// The sentinel execution order of a module that has not been numbered yet.
pub const UNASSIGNED_ORDER: usize = usize::MAX;

/// The mathematical value of a module record. The parsed payload is an
/// opaque capability and has no spec-level content.
pub ghost struct ModuleView {
    pub uri: Seq<char>,
    pub source_type: SourceType,
    pub dependencies: Seq<DepView>,
    pub exec_order: int,
}

/// One resolved module of the graph: its canonical uri, its parsed payload,
/// its dependency edges in declaration order, and the execution order
/// assigned after the graph is closed.
pub struct ModuleGraphModule {
    pub exec_order: usize,
    pub module: BoxModule,
    pub uri: String,
    pub source_type: SourceType,
    pub dependencies: Vec<Dependency>,
}

impl View for ModuleGraphModule {
    type V = ModuleView;

    open spec fn view(&self) -> ModuleView {
        ModuleView {
            uri: self.uri@,
            source_type: self.source_type,
            dependencies: self.dependencies@.map_values(|d: Dependency| d@),
            exec_order: self.exec_order as int,
        }
    }
}

impl ModuleGraphModule {
    /// A fresh record: not yet numbered.
    pub fn new(
        module: BoxModule,
        uri: String,
        source_type: SourceType,
        dependencies: Vec<Dependency>,
    ) -> (r: Self)
        ensures
            r@ == (ModuleView {
                uri: uri@,
                source_type,
                dependencies: dependencies@.map_values(|d: Dependency| d@),
                exec_order: UNASSIGNED_ORDER as int,
            }),
    {
        Self { exec_order: UNASSIGNED_ORDER, module, uri, source_type, dependencies }
    }

    /// A module's identity is its canonical uri.
    pub fn id(&self) -> (r: &str)
        ensures
            r@ == self@.uri,
    {
        self.uri.as_str()
    }

    /// The modules this one eagerly depends on: the resolved target of
    /// every non-dynamic-import edge, in declaration order.
    pub fn depended_modules<'a>(&self, module_graph: &'a ModuleGraph) -> (r: Vec<
        &'a ModuleGraphModule,
    >)
        requires
            module_graph.wf(),
        ensures
            r@.len() == static_targets(*module_graph, self@.dependencies).len(),
            forall|k: int|
                0 <= k < r@.len() ==> #[trigger] r@[k]@ == module_graph.rec_at(
                    static_targets(*module_graph, self@.dependencies)[k],
                ),
    {
        let ghost deps = self@.dependencies;
        let n = self.dependencies.len();
        let mut out: Vec<&'a ModuleGraphModule> = Vec::new();
        let mut i: usize = 0;
        while i < n
            invariant
                module_graph.wf(),
                n == self.dependencies@.len(),
                deps == self@.dependencies,
                deps.len() == n,
                i <= n,
                out@.len() == static_targets(*module_graph, deps.take(i as int)).len(),
                forall|k: int|
                    0 <= k < out@.len() ==> #[trigger] out@[k]@ == module_graph.rec_at(
                        static_targets(*module_graph, deps.take(i as int))[k],
                    ),
            decreases n - i,
        {
            proof {
                assert(deps.take(i + 1 as int).drop_last() =~= deps.take(i as int));
                assert(deps.take(i + 1 as int).last() == deps[i as int]);
                assert(deps[i as int] == self.dependencies@[i as int]@);
            }
            let dep = &self.dependencies[i];
            if !matches!(dep.kind, ResolveKind::DynamicImport) {
                match module_graph.module_by_dependency(dep) {
                    Some(m) => {
                        out.push(m);
                    },
                    None => {
                    },
                }
            }
            i = i + 1;
        }
        proof {
            assert(deps.take(n as int) =~= deps);
        }
        out
    }
}

} // verus!
