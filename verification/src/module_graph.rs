use vstd::prelude::*;

use crate::module::{ModuleGraphModule, ModuleView};
use crate::resolve_module_job::{DepView, Dependency, ResolveKind};
use crate::str_eq;

verus! {

/// No two records share a uri.
pub open spec fn uris_unique(r: Seq<ModuleView>) -> bool {
    forall|i: int, j: int| 0 <= i < j < r.len() ==> r[i].uri != r[j].uri
}

/// Some record carries uri `u`.
pub open spec fn has_uri(r: Seq<ModuleView>, u: Seq<char>) -> bool {
    exists|i: int| 0 <= i < r.len() && r[i].uri == u
}

/// The index of the record carrying uri `u`.
pub open spec fn uri_idx(r: Seq<ModuleView>, u: Seq<char>) -> int {
    choose|i: int| 0 <= i < r.len() && r[i].uri == u
}

/// The record carrying uri `u`.
pub open spec fn rec_of(r: Seq<ModuleView>, u: Seq<char>) -> ModuleView {
    r[uri_idx(r, u)]
}

/// With unique uris, the record of a uri is the one at any index that
/// carries it.
pub proof fn lemma_uri_idx(r: Seq<ModuleView>, u: Seq<char>, i: int)
    requires
        uris_unique(r),
        0 <= i < r.len(),
        r[i].uri == u,
    ensures
        has_uri(r, u),
        uri_idx(r, u) == i,
        rec_of(r, u) == r[i],
{
    assert(has_uri(r, u));
    let j = uri_idx(r, u);
    if j != i {
        if j < i {
            assert(r[j].uri != r[i].uri);
        } else {
            assert(r[i].uri != r[j].uri);
        }
    }
}

/// No two recorded dependency edges share their triple.
pub open spec fn dep_keys_unique(r: Seq<(DepView, Seq<char>)>) -> bool {
    forall|i: int, j: int| 0 <= i < j < r.len() ==> r[i].0 != r[j].0
}

/// Some recorded edge has key `d`.
pub open spec fn has_dep_key(r: Seq<(DepView, Seq<char>)>, d: DepView) -> bool {
    exists|i: int| 0 <= i < r.len() && r[i].0 == d
}

/// The index of the recorded edge with key `d`.
pub open spec fn dep_idx(r: Seq<(DepView, Seq<char>)>, d: DepView) -> int {
    choose|i: int| 0 <= i < r.len() && r[i].0 == d
}

/// The uri that the recorded edge with key `d` resolved to.
pub open spec fn dep_uri_of(r: Seq<(DepView, Seq<char>)>, d: DepView) -> Seq<char> {
    r[dep_idx(r, d)].1
}

/// With unique keys, the target of a dependency is the one recorded at any
/// index that carries it.
pub proof fn lemma_dep_idx(r: Seq<(DepView, Seq<char>)>, d: DepView, i: int)
    requires
        dep_keys_unique(r),
        0 <= i < r.len(),
        r[i].0 == d,
    ensures
        has_dep_key(r, d),
        dep_idx(r, d) == i,
        dep_uri_of(r, d) == r[i].1,
{
    assert(has_dep_key(r, d));
    let j = dep_idx(r, d);
    if j != i {
        if j < i {
            assert(r[j].0 != r[i].0);
        } else {
            assert(r[i].0 != r[j].0);
        }
    }
}

/// The authoritative store of resolved modules and dependency edges. A uri
/// is the sole identity: many dependency edges may point at one record.
/// Edges may be recorded before their target module exists.
pub struct ModuleGraph {
    uri_to_module: Vec<ModuleGraphModule>,
    dependency_to_module_uri: Vec<(Dependency, String)>,
}

impl ModuleGraph {
    /// All module records, in insertion order.
    pub closed spec fn records(self) -> Seq<ModuleView> {
        self.uri_to_module@.map_values(|m: ModuleGraphModule| m@)
    }

    /// All recorded dependency edges, in insertion order.
    pub closed spec fn dep_records(self) -> Seq<(DepView, Seq<char>)> {
        self.dependency_to_module_uri@.map_values(|p: (Dependency, String)| (p.0@, p.1@))
    }

    /// The store's invariant: one record per uri, one target per edge.
    pub open spec fn wf(self) -> bool {
        uris_unique(self.records()) && dep_keys_unique(self.dep_records())
    }

    pub open spec fn contains_uri(self, u: Seq<char>) -> bool {
        has_uri(self.records(), u)
    }

    pub open spec fn uri_index(self, u: Seq<char>) -> int {
        uri_idx(self.records(), u)
    }

    pub open spec fn rec_at(self, u: Seq<char>) -> ModuleView {
        rec_of(self.records(), u)
    }

    pub open spec fn has_dependency(self, d: DepView) -> bool {
        has_dep_key(self.dep_records(), d)
    }

    pub open spec fn dep_target(self, d: DepView) -> Seq<char> {
        dep_uri_of(self.dep_records(), d)
    }

    pub fn new() -> (r: Self)
        ensures
            r.records() == Seq::<ModuleView>::empty(),
            r.dep_records() == Seq::<(DepView, Seq<char>)>::empty(),
            r.wf(),
    {
        let r = ModuleGraph { uri_to_module: Vec::new(), dependency_to_module_uri: Vec::new() };
        proof {
            assert(r.records() =~= Seq::<ModuleView>::empty());
            assert(r.dep_records() =~= Seq::<(DepView, Seq<char>)>::empty());
        }
        r
    }

    /// The index of the record carrying `uri`, if one exists.
    fn find_uri_index(&self, uri: &str) -> (r: Option<usize>)
        ensures
            match r {
                Some(i) => i < self.records().len() && self.records()[i as int].uri == uri@,
                None => !self.contains_uri(uri@),
            },
    {
        let n = self.uri_to_module.len();
        let mut i: usize = 0;
        while i < n
            invariant
                n == self.records().len(),
                i <= n,
                forall|j: int| 0 <= j < i ==> self.records()[j].uri != uri@,
            decreases n - i,
        {
            if str_eq(self.uri_to_module[i].uri.as_str(), uri) {
                return Some(i);
            }
            i = i + 1;
        }
        None
    }

    /// The index of the recorded edge with `dep`'s triple, if one exists.
    fn find_dep_index(&self, dep: &Dependency) -> (r: Option<usize>)
        ensures
            match r {
                Some(i) => i < self.dep_records().len() && self.dep_records()[i as int].0 == dep@,
                None => !self.has_dependency(dep@),
            },
    {
        let n = self.dependency_to_module_uri.len();
        let mut i: usize = 0;
        while i < n
            invariant
                n == self.dep_records().len(),
                i <= n,
                forall|j: int| 0 <= j < i ==> self.dep_records()[j].0 != dep@,
            decreases n - i,
        {
            if self.dependency_to_module_uri[i].0.key_eq(dep) {
                return Some(i);
            }
            i = i + 1;
        }
        None
    }

    /// Inserts a module record, keyed by its uri; an existing record for
    /// that uri is overwritten (which correct deduplication never causes).
    pub fn add_module(&mut self, module: ModuleGraphModule)
        requires
            old(self).wf(),
        ensures
            final(self).wf(),
            final(self).dep_records() == old(self).dep_records(),
            final(self).contains_uri(module@.uri),
            final(self).rec_at(module@.uri) == module@,
            forall|u: Seq<char>|
                u != module@.uri ==> final(self).contains_uri(u) == old(self).contains_uri(u),
            forall|u: Seq<char>|
                u != module@.uri && old(self).contains_uri(u) ==> final(self).rec_at(u) == old(
                    self,
                ).rec_at(u),
            !old(self).contains_uri(module@.uri) ==> final(self).records() == old(
                self,
            ).records().push(module@),
            old(self).contains_uri(module@.uri) ==> final(self).records() == old(
                self,
            ).records().update(old(self).uri_index(module@.uri), module@),
    {
        let ghost old_recs = self.records();
        let ghost mv = module@;
        match self.find_uri_index(module.uri.as_str()) {
            Some(i) => {
                proof {
                    lemma_uri_idx(old_recs, mv.uri, i as int);
                }
                self.uri_to_module.remove(i);
                self.uri_to_module.insert(i, module);
                proof {
                    assert(self.records() =~= old_recs.update(i as int, mv));
                    assert(uris_unique(self.records()));
                    assert(self.dep_records() =~= old(self).dep_records());
                    lemma_uri_idx(self.records(), mv.uri, i as int);
                    assert forall|u: Seq<char>|
                        u != mv.uri && has_uri(old_recs, u) implies rec_of(self.records(), u)
                        == rec_of(old_recs, u) by {
                        let j = uri_idx(old_recs, u);
                        lemma_uri_idx(old_recs, u, j);
                        lemma_uri_idx(self.records(), u, j);
                    }
                    assert forall|u: Seq<char>|
                        u != mv.uri implies has_uri(self.records(), u) == has_uri(old_recs, u) by {
                        if has_uri(self.records(), u) {
                            let j = choose|j: int|
                                0 <= j < self.records().len() && self.records()[j].uri == u;
                            assert(old_recs[j].uri == u);
                        }
                        if has_uri(old_recs, u) {
                            let j = uri_idx(old_recs, u);
                            lemma_uri_idx(old_recs, u, j);
                            assert(self.records()[j].uri == u);
                        }
                    }
                }
            },
            None => {
                self.uri_to_module.push(module);
                proof {
                    assert(self.records() =~= old_recs.push(mv));
                    assert(self.dep_records() =~= old(self).dep_records());
                    assert forall|i: int, j: int|
                        0 <= i < j < self.records().len() implies self.records()[i].uri
                        != self.records()[j].uri by {
                        if j < old_recs.len() {
                            assert(old_recs[i].uri != old_recs[j].uri);
                        } else {
                            assert(self.records()[j] == mv);
                            assert(old_recs[i].uri != mv.uri);
                        }
                    }
                    lemma_uri_idx(self.records(), mv.uri, old_recs.len() as int);
                    assert forall|u: Seq<char>|
                        u != mv.uri && has_uri(old_recs, u) implies rec_of(self.records(), u)
                        == rec_of(old_recs, u) by {
                        let j = uri_idx(old_recs, u);
                        lemma_uri_idx(old_recs, u, j);
                        lemma_uri_idx(self.records(), u, j);
                    }
                    assert forall|u: Seq<char>|
                        u != mv.uri implies has_uri(self.records(), u) == has_uri(old_recs, u) by {
                        if has_uri(self.records(), u) {
                            let j = choose|j: int|
                                0 <= j < self.records().len() && self.records()[j].uri == u;
                            assert(j < old_recs.len());
                            assert(old_recs[j].uri == u);
                        }
                        if has_uri(old_recs, u) {
                            let j = uri_idx(old_recs, u);
                            lemma_uri_idx(old_recs, u, j);
                            assert(self.records()[j].uri == u);
                        }
                    }
                }
            },
        }
    }

    /// Records that a dependency edge resolved to `uri`, keyed by the
    /// edge's triple; re-recording an edge overwrites its target.
    pub fn add_dependency(&mut self, dependency: Dependency, uri: String)
        requires
            old(self).wf(),
        ensures
            final(self).wf(),
            final(self).records() == old(self).records(),
            final(self).has_dependency(dependency@),
            final(self).dep_target(dependency@) == uri@,
            forall|d: DepView|
                d != dependency@ ==> final(self).has_dependency(d) == old(self).has_dependency(d),
            forall|d: DepView|
                d != dependency@ && old(self).has_dependency(d) ==> final(self).dep_target(d)
                    == old(self).dep_target(d),
    {
        let ghost old_deps = self.dep_records();
        let ghost dv = dependency@;
        let ghost uv = uri@;
        match self.find_dep_index(&dependency) {
            Some(i) => {
                proof {
                    lemma_dep_idx(old_deps, dv, i as int);
                }
                self.dependency_to_module_uri.remove(i);
                self.dependency_to_module_uri.insert(i, (dependency, uri));
                proof {
                    assert(self.dep_records() =~= old_deps.update(i as int, (dv, uv)));
                    assert(self.records() =~= old(self).records());
                    assert(dep_keys_unique(self.dep_records()));
                    lemma_dep_idx(self.dep_records(), dv, i as int);
                    assert forall|d: DepView|
                        d != dv && has_dep_key(old_deps, d) implies dep_uri_of(
                        self.dep_records(),
                        d,
                    ) == dep_uri_of(old_deps, d) by {
                        let j = dep_idx(old_deps, d);
                        lemma_dep_idx(old_deps, d, j);
                        lemma_dep_idx(self.dep_records(), d, j);
                    }
                    assert forall|d: DepView|
                        d != dv implies has_dep_key(self.dep_records(), d) == has_dep_key(
                        old_deps,
                        d,
                    ) by {
                        if has_dep_key(self.dep_records(), d) {
                            let j = choose|j: int|
                                0 <= j < self.dep_records().len() && self.dep_records()[j].0 == d;
                            assert(old_deps[j].0 == d);
                        }
                        if has_dep_key(old_deps, d) {
                            let j = dep_idx(old_deps, d);
                            lemma_dep_idx(old_deps, d, j);
                            assert(self.dep_records()[j].0 == d);
                        }
                    }
                }
            },
            None => {
                self.dependency_to_module_uri.push((dependency, uri));
                proof {
                    assert(self.dep_records() =~= old_deps.push((dv, uv)));
                    assert(self.records() =~= old(self).records());
                    assert forall|i: int, j: int|
                        0 <= i < j < self.dep_records().len() implies self.dep_records()[i].0
                        != self.dep_records()[j].0 by {
                        if j < old_deps.len() {
                            assert(old_deps[i].0 != old_deps[j].0);
                        } else {
                            assert(old_deps[i].0 != dv);
                        }
                    }
                    lemma_dep_idx(self.dep_records(), dv, old_deps.len() as int);
                    assert forall|d: DepView|
                        d != dv && has_dep_key(old_deps, d) implies dep_uri_of(
                        self.dep_records(),
                        d,
                    ) == dep_uri_of(old_deps, d) by {
                        let j = dep_idx(old_deps, d);
                        lemma_dep_idx(old_deps, d, j);
                        lemma_dep_idx(self.dep_records(), d, j);
                    }
                    assert forall|d: DepView|
                        d != dv implies has_dep_key(self.dep_records(), d) == has_dep_key(
                        old_deps,
                        d,
                    ) by {
                        if has_dep_key(self.dep_records(), d) {
                            let j = choose|j: int|
                                0 <= j < self.dep_records().len() && self.dep_records()[j].0 == d;
                            assert(j < old_deps.len());
                            assert(old_deps[j].0 == d);
                        }
                        if has_dep_key(old_deps, d) {
                            let j = dep_idx(old_deps, d);
                            lemma_dep_idx(old_deps, d, j);
                            assert(self.dep_records()[j].0 == d);
                        }
                    }
                }
            },
        }
    }

    /// The uri a dependency edge resolved to, if the edge was recorded.
    pub fn uri_by_dependency(&self, dep: &Dependency) -> (r: Option<&str>)
        requires
            self.wf(),
        ensures
            match r {
                Some(u) => self.has_dependency(dep@) && u@ == self.dep_target(dep@),
                None => !self.has_dependency(dep@),
            },
    {
        match self.find_dep_index(dep) {
            Some(i) => {
                proof {
                    lemma_dep_idx(self.dep_records(), dep@, i as int);
                }
                Some(self.dependency_to_module_uri[i].1.as_str())
            },
            None => None,
        }
    }

    /// The module a dependency edge resolved to, if the edge was recorded
    /// and its target module exists.
    pub fn module_by_dependency(&self, dep: &Dependency) -> (r: Option<&ModuleGraphModule>)
        requires
            self.wf(),
        ensures
            match r {
                Some(m) => self.has_dependency(dep@) && self.contains_uri(self.dep_target(dep@))
                    && m@ == self.rec_at(self.dep_target(dep@)),
                None => !self.has_dependency(dep@) || !self.contains_uri(self.dep_target(dep@)),
            },
    {
        match self.find_dep_index(dep) {
            Some(i) => {
                proof {
                    lemma_dep_idx(self.dep_records(), dep@, i as int);
                }
                let target: &str = self.dependency_to_module_uri[i].1.as_str();
                self.module_by_uri(target)
            },
            None => None,
        }
    }

    /// The module record carrying `uri`, if one exists.
    pub fn module_by_uri(&self, uri: &str) -> (r: Option<&ModuleGraphModule>)
        requires
            self.wf(),
        ensures
            match r {
                Some(m) => self.contains_uri(uri@) && m@ == self.rec_at(uri@),
                None => !self.contains_uri(uri@),
            },
    {
        match self.find_uri_index(uri) {
            Some(i) => {
                proof {
                    lemma_uri_idx(self.records(), uri@, i as int);
                }
                Some(&self.uri_to_module[i])
            },
            None => None,
        }
    }

    /// Mutable access to the module record carrying `uri`, if one exists.
    /// The caller's writes through the result become an update of that one
    /// record.
    pub fn module_by_uri_mut(&mut self, uri: &str) -> (r: Option<&mut ModuleGraphModule>)
        requires
            old(self).wf(),
        ensures
            match r {
                Some(p) => {
                    &&& old(self).contains_uri(uri@)
                    &&& (*p)@ == old(self).rec_at(uri@)
                    &&& final(self).records().len() == old(self).records().len()
                    &&& final(self).records()[old(self).uri_index(uri@)] == (*final(p))@
                    &&& forall|k: int|
                        0 <= k < old(self).records().len() && k != old(self).uri_index(uri@)
                            ==> final(self).records()[k] == old(self).records()[k]
                    &&& final(self).dep_records() == old(self).dep_records()
                },
                None => !old(self).contains_uri(uri@) && *final(self) == *old(self),
            },
    {
        let ghost old_recs = self.records();
        match self.find_uri_index(uri) {
            Some(i) => {
                proof {
                    lemma_uri_idx(old_recs, uri@, i as int);
                }
                Some(&mut self.uri_to_module[i])
            },
            None => None,
        }
    }

    /// All module records, in insertion order.
    pub fn modules(&self) -> (r: Vec<&ModuleGraphModule>)
        ensures
            r@.len() == self.records().len(),
            forall|i: int| 0 <= i < r@.len() ==> #[trigger] r@[i]@ == self.records()[i],
    {
        let n = self.uri_to_module.len();
        let mut out: Vec<&ModuleGraphModule> = Vec::new();
        let mut i: usize = 0;
        while i < n
            invariant
                n == self.records().len(),
                n == self.uri_to_module@.len(),
                i <= n,
                out@.len() == i,
                forall|j: int| 0 <= j < i ==> #[trigger] out@[j]@ == self.records()[j],
            decreases n - i,
        {
            out.push(&self.uri_to_module[i]);
            i = i + 1;
        }
        out
    }
}

/// The resolved targets of the non-dynamic edges among `deps`, in
/// declaration order: those whose edge is recorded in `g` and whose target
/// module exists. Dynamic-import edges are deliberately excluded: they are
/// separately loaded units, not eager dependencies.
pub open spec fn static_targets(g: ModuleGraph, deps: Seq<DepView>) -> Seq<Seq<char>>
    decreases deps.len(),
{
    if deps.len() == 0 {
        Seq::empty()
    } else {
        let rest = static_targets(g, deps.drop_last());
        let d = deps.last();
        if d.kind != ResolveKind::DynamicImport && g.has_dependency(d) && g.contains_uri(
            g.dep_target(d),
        ) {
            rest.push(g.dep_target(d))
        } else {
            rest
        }
    }
}

/// Every static target is a uri of the graph.
pub proof fn lemma_static_targets_contained(g: ModuleGraph, deps: Seq<DepView>)
    ensures
        forall|k: int|
            0 <= k < static_targets(g, deps).len() ==> g.contains_uri(
                #[trigger] static_targets(g, deps)[k],
            ),
    decreases deps.len(),
{
    if deps.len() > 0 {
        lemma_static_targets_contained(g, deps.drop_last());
        let rest = static_targets(g, deps.drop_last());
        let d = deps.last();
        assert forall|k: int|
            0 <= k < static_targets(g, deps).len() implies g.contains_uri(
            #[trigger] static_targets(g, deps)[k],
        ) by {
            if d.kind != ResolveKind::DynamicImport && g.has_dependency(d) && g.contains_uri(
                g.dep_target(d),
            ) {
                assert(static_targets(g, deps) == rest.push(g.dep_target(d)));
                if k < rest.len() {
                    assert(static_targets(g, deps)[k] == rest[k]);
                }
            } else {
                assert(static_targets(g, deps) == rest);
                assert(static_targets(g, deps)[k] == rest[k]);
            }
        }
    }
}

/// Module `u` depends on module `v` through a non-dynamic, resolved edge.
pub open spec fn static_edge(g: ModuleGraph, u: Seq<char>, v: Seq<char>) -> bool {
    g.contains_uri(u) && static_targets(g, g.rec_at(u).dependencies).contains(v)
}

/// The target of a static edge is a uri of the graph.
pub proof fn lemma_static_edge_contained(g: ModuleGraph, u: Seq<char>, v: Seq<char>)
    requires
        static_edge(g, u, v),
    ensures
        g.contains_uri(v),
{
    lemma_static_targets_contained(g, g.rec_at(u).dependencies);
}

impl Default for ModuleGraph {
    fn default() -> (r: Self)
        ensures
            r.records() == Seq::<ModuleView>::empty(),
            r.dep_records() == Seq::<(DepView, Seq<char>)>::empty(),
            r.wf(),
    {
        ModuleGraph::new()
    }
}

} // verus!
