use vstd::prelude::*;

use crate::chunk_graph::ChunkGraph;
use crate::complier::Msg;
use crate::module::{ModuleView, UNASSIGNED_ORDER};
use crate::module_graph::{static_targets, uri_idx, ModuleGraph};
use crate::options::complier_options::ComplierOptions;
use crate::options::entry::EntryItem;
use crate::reachability::{dfs_order, reachable_from};
use crate::resolve_module_job::{DepView, Dependency, ResolveKind};
use crate::utils::{contains_str, str_views};

verus! {

/// The dependency edges that seed the build: one per entry, in entry
/// order, with no importer.
pub open spec fn entry_dep_views(entries: Seq<(String, EntryItem)>) -> Seq<DepView> {
    entries.map_values(
        |p: (String, EntryItem)|
            DepView { importer: None, specifier: p.1.path@, kind: ResolveKind::Import },
    )
}

/// What `entry_dep_views` holds at each index.
pub proof fn lemma_entry_dep_views_index(entries: Seq<(String, EntryItem)>, i: int)
    requires
        0 <= i < entries.len(),
    ensures
        entry_dep_views(entries).len() == entries.len(),
        entry_dep_views(entries)[i] == (DepView {
            importer: None,
            specifier: entries[i].1.path@,
            kind: ResolveKind::Import,
        }),
{
}

/// One build in progress: the configuration, the requested entries, the
/// set of uris already claimed by a resolution job, and the two graphs the
/// build produces.
pub struct Compilation {
    pub options: ComplierOptions,
    pub entries: Vec<(String, EntryItem)>,
    pub visited_module_uri: Vec<String>,
    pub module_graph: ModuleGraph,
    pub chunk_graph: ChunkGraph,
}

impl Compilation {
    /// The build's invariant: entry names are distinct, the visited set is
    /// a set, and both graphs are well-formed.
    pub open spec fn wf(self) -> bool {
        &&& forall|i: int, j: int|
            0 <= i < j < self.entries@.len() ==> self.entries@[i].0@ != self.entries@[j].0@
        &&& str_views(self.visited_module_uri@).no_duplicates()
        &&& self.module_graph.wf()
        &&& self.chunk_graph.wf()
    }

    pub fn new(
        options: ComplierOptions,
        entries: Vec<(String, EntryItem)>,
        visited_module_uri: Vec<String>,
        module_graph: ModuleGraph,
    ) -> (r: Self)
        requires
            forall|i: int, j: int|
                0 <= i < j < entries@.len() ==> entries@[i].0@ != entries@[j].0@,
            str_views(visited_module_uri@).no_duplicates(),
            module_graph.wf(),
        ensures
            r.wf(),
            r.options == options,
            r.entries == entries,
            r.visited_module_uri == visited_module_uri,
            r.module_graph == module_graph,
            r.chunk_graph.chunk_views() == Seq::<crate::chunk::ChunkView>::empty(),
    {
        Self { options, entries, visited_module_uri, module_graph, chunk_graph: ChunkGraph::new() }
    }

    /// Adds a named entry; a name already present has its path replaced.
    pub fn add_entry(&mut self, key: String, value: EntryItem)
        requires
            old(self).wf(),
        ensures
            final(self).wf(),
            final(self).options == old(self).options,
            final(self).visited_module_uri == old(self).visited_module_uri,
            final(self).module_graph == old(self).module_graph,
            final(self).chunk_graph == old(self).chunk_graph,
            (exists|i: int|
                0 <= i < old(self).entries@.len() && old(self).entries@[i].0@ == key@) ==> {
                let i = choose|i: int|
                    0 <= i < old(self).entries@.len() && old(self).entries@[i].0@ == key@;
                final(self).entries@ =~= old(self).entries@.update(i, (key, value))
            },
            !(exists|i: int|
                0 <= i < old(self).entries@.len() && old(self).entries@[i].0@ == key@)
                ==> final(self).entries@ == old(self).entries@.push((key, value)),
    {
        let n = self.entries.len();
        let mut i: usize = 0;
        while i < n
            invariant
                *self == *old(self),
                old(self).wf(),
                n == self.entries@.len(),
                i <= n,
                forall|j: int| 0 <= j < i ==> self.entries@[j].0@ != key@,
            decreases n - i,
        {
            if crate::str_eq(self.entries[i].0.as_str(), key.as_str()) {
                proof {
                    let w = choose|w: int|
                        0 <= w < self.entries@.len() && self.entries@[w].0@ == key@;
                    if w < i as int {
                        assert(self.entries@[w].0@ != key@);
                    } else if w > i as int {
                        assert(self.entries@[i as int].0@ == key@);
                    }
                }
                let ghost old_entries = self.entries@;
                self.entries.remove(i);
                self.entries.insert(i, (key, value));
                proof {
                    assert(self.entries@ =~= old_entries.update(i as int, self.entries@[i as int]));
                    assert forall|a: int, b: int|
                        0 <= a < b < self.entries@.len() implies self.entries@[a].0@
                        != self.entries@[b].0@ by {
                        assert(old_entries[a].0@ != old_entries[b].0@);
                    }
                }
                return ;
            }
            i = i + 1;
        }
        let ghost pre_entries = self.entries@;
        let ghost kv = key@;
        proof {
            assert(forall|j: int| 0 <= j < n ==> pre_entries[j].0@ != kv);
        }
        self.entries.push((key, value));
        proof {
            assert forall|a: int, b: int|
                0 <= a < b < self.entries@.len() implies self.entries@[a].0@
                != self.entries@[b].0@ by {
                if b < self.entries@.len() - 1 {
                    assert(pre_entries[a].0@ != pre_entries[b].0@);
                } else {
                    assert(pre_entries[a].0@ != kv);
                }
            }
        }
    }

    /// The dependency each entry stands for: no importer, the entry's path
    /// as specifier, an ordinary import.
    pub fn entries_dependencies(&self) -> (r: Vec<Dependency>)
        ensures
            r@.map_values(|d: Dependency| d@) == entry_dep_views(self.entries@),
    {
        let n = self.entries.len();
        let mut out: Vec<Dependency> = Vec::new();
        let mut i: usize = 0;
        while i < n
            invariant
                n == self.entries@.len(),
                i <= n,
                out@.len() == i,
                forall|j: int|
                    0 <= j < i ==> #[trigger] out@[j]@ == (DepView {
                        importer: None,
                        specifier: self.entries@[j].1.path@,
                        kind: ResolveKind::Import,
                    }),
            decreases n - i,
        {
            out.push(
                Dependency {
                    importer: None,
                    specifier: self.entries[i].1.path.clone(),
                    kind: ResolveKind::Import,
                },
            );
            i = i + 1;
        }
        proof {
            assert(out@.map_values(|d: Dependency| d@) =~= entry_dep_views(self.entries@));
        }
        out
    }

    /// Atomic check-and-insert on the visited set: true exactly when this
    /// call is the first to claim `uri`, making its job the owner that
    /// loads and parses the module.
    pub fn try_visit(&mut self, uri: &str) -> (r: bool)
        requires
            old(self).wf(),
        ensures
            final(self).wf(),
            final(self).options == old(self).options,
            final(self).entries == old(self).entries,
            final(self).module_graph == old(self).module_graph,
            final(self).chunk_graph == old(self).chunk_graph,
            r == !str_views(old(self).visited_module_uri@).contains(uri@),
            r ==> str_views(final(self).visited_module_uri@) == str_views(
                old(self).visited_module_uri@,
            ).push(uri@),
            !r ==> final(self).visited_module_uri == old(self).visited_module_uri,
    {
        if contains_str(&self.visited_module_uri, uri) {
            false
        } else {
            let ghost old_views = str_views(self.visited_module_uri@);
            self.visited_module_uri.push(uri.to_owned());
            proof {
                assert(str_views(self.visited_module_uri@) =~= old_views.push(uri@));
            }
            true
        }
    }

    /// One step of the build driver: applies a scheduler message to the
    /// module graph and returns the number of jobs still in flight.
    pub fn process_msg(&mut self, msg: Msg, active_task_count: usize) -> (r: usize)
        requires
            old(self).wf(),
            !(msg is DependencyReference) ==> active_task_count >= 1,
        ensures
            final(self).wf(),
            final(self).options == old(self).options,
            final(self).entries == old(self).entries,
            final(self).visited_module_uri == old(self).visited_module_uri,
            final(self).chunk_graph == old(self).chunk_graph,
            match msg {
                Msg::DependencyReference(dep, uri) => {
                    &&& r == active_task_count
                    &&& final(self).module_graph.records() == old(self).module_graph.records()
                    &&& final(self).module_graph.has_dependency(dep@)
                    &&& final(self).module_graph.dep_target(dep@) == uri@
                    &&& forall|d: DepView|
                        d != dep@ ==> final(self).module_graph.has_dependency(d) == old(self).module_graph.has_dependency(d)
                    &&& forall|d: DepView|
                        d != dep@ && old(self).module_graph.has_dependency(d) ==> final(self).module_graph.dep_target(d) == old(self).module_graph.dep_target(d)
                },
                Msg::TaskFinished(m) => {
                    &&& r == active_task_count - 1
                    &&& final(self).module_graph.dep_records() == old(self).module_graph.dep_records()
                    &&& final(self).module_graph.contains_uri(m@.uri)
                    &&& final(self).module_graph.rec_at(m@.uri) == m@
                    &&& forall|u: Seq<char>|
                        u != m@.uri ==> final(self).module_graph.contains_uri(u) == old(self).module_graph.contains_uri(u)
                    &&& forall|u: Seq<char>|
                        u != m@.uri && old(self).module_graph.contains_uri(u) ==> final(self).module_graph.rec_at(u) == old(self).module_graph.rec_at(u)
                },
                Msg::TaskErrorEncountered(e) => {
                    &&& r == active_task_count - 1
                    &&& final(self).module_graph == old(self).module_graph
                },
            },
    {
        match msg {
            Msg::TaskFinished(module) => {
                self.module_graph.add_module(*module);
                active_task_count - 1
            },
            Msg::DependencyReference(dep, uri) => {
                self.module_graph.add_dependency(dep, uri);
                active_task_count
            },
            Msg::TaskErrorEncountered(()) => active_task_count - 1,
        }
    }

    /// Numbers every module reachable from the entries in the exact
    /// depth-first pop order `dfs_from` states: the traversal is seeded
    /// with the entry modules in entry order (the stack's last entry runs
    /// first), a module takes the next number when first popped — before
    /// its own dependencies are walked — and static dependencies are
    /// pushed in reverse declaration order so the first-declared unvisited
    /// one is numbered immediately after its importer. The numbering is
    /// thereby a deterministic function of the graph and the ordered entry
    /// list, and deliberately not topological. Unreachable modules keep
    /// the unassigned sentinel; cycles are absorbed by the visited set.
    /// The returned ghost sequence is that numbering order.
    pub fn calc_exec_order(&mut self) -> (ord: Ghost<Seq<Seq<char>>>)
        requires
            old(self).wf(),
            old(self).module_graph.records().len() < UNASSIGNED_ORDER,
            forall|i: int|
                0 <= i < old(self).module_graph.records().len() ==> (#[trigger] old(self).module_graph.records()[i]).exec_order == UNASSIGNED_ORDER as int,
        ensures
            final(self).wf(),
            final(self).options == old(self).options,
            final(self).entries == old(self).entries,
            final(self).visited_module_uri == old(self).visited_module_uri,
            final(self).chunk_graph == old(self).chunk_graph,
            final(self).module_graph.dep_records() == old(self).module_graph.dep_records(),
            final(self).module_graph.records().len() == old(self).module_graph.records().len(),
            forall|i: int|
                0 <= i < old(self).module_graph.records().len() ==> {
                    &&& (#[trigger] final(self).module_graph.records()[i]).uri == old(self).module_graph.records()[i].uri
                    &&& final(self).module_graph.records()[i].source_type == old(self).module_graph.records()[i].source_type
                    &&& final(self).module_graph.records()[i].dependencies == old(self).module_graph.records()[i].dependencies
                },
            ord@ == crate::reachability::dfs_from(
                old(self).module_graph,
                static_targets(old(self).module_graph, entry_dep_views(old(self).entries@)),
                Seq::empty(),
            ),
            ord@.no_duplicates(),
            forall|v: Seq<char>|
                #[trigger] ord@.contains(v) <==> reachable_from(
                    old(self).module_graph,
                    static_targets(
                        old(self).module_graph,
                        entry_dep_views(old(self).entries@),
                    ),
                    v,
                ),
            forall|k: int|
                0 <= k < ord@.len() ==> final(self).module_graph.contains_uri(#[trigger] ord@[k])
                    && final(self).module_graph.rec_at(ord@[k]).exec_order == k,
            forall|i: int|
                0 <= i < final(self).module_graph.records().len() && !ord@.contains(
                    (#[trigger] final(self).module_graph.records()[i]).uri,
                ) ==> final(self).module_graph.records()[i].exec_order == UNASSIGNED_ORDER as int,
    {
        let ghost g0 = self.module_graph;
        let deps = self.entries_dependencies();
        let ghost dvs = entry_dep_views(self.entries@);
        let dn = deps.len();
        proof {
            assert(entry_dep_views(self.entries@) == self.entries@.map_values(
                |p: (String, EntryItem)|
                    DepView { importer: None, specifier: p.1.path@, kind: ResolveKind::Import },
            ));
            assert(deps@.map_values(|d: Dependency| d@).len() == deps@.len());
        }
        let mut seeds: Vec<String> = Vec::new();
        let mut i: usize = 0;
        while i < dn
            invariant
                self.module_graph.wf(),
                self.module_graph == g0,
                dn == deps@.len(),
                dn == self.entries@.len(),
                deps@.map_values(|d: Dependency| d@) == dvs,
                dvs == entry_dep_views(self.entries@),
                i <= dn,
                str_views(seeds@) == static_targets(g0, dvs.take(i as int)),
                forall|k: int|
                    0 <= k < seeds@.len() ==> g0.contains_uri(#[trigger] str_views(seeds@)[k]),
            decreases dn - i,
        {
            proof {
                assert(dvs.take(i + 1 as int).drop_last() =~= dvs.take(i as int));
                assert(dvs.take(i + 1 as int).last() == dvs[i as int]);
                lemma_entry_dep_views_index(self.entries@, i as int);
                assert(deps@[i as int]@ == dvs[i as int]);
                assert(dvs[i as int].kind == ResolveKind::Import);
            }
            let ghost old_seed_views = str_views(seeds@);
            match self.module_graph.module_by_dependency(&deps[i]) {
                Some(m) => {
                    let ghost target = g0.dep_target(dvs[i as int]);
                    proof {
                        let idx = uri_idx(g0.records(), target);
                        assert(g0.records()[idx].uri == target);
                        assert(m.uri@ == target);
                    }
                    seeds.push(m.uri.clone());
                    proof {
                        assert(str_views(seeds@) =~= old_seed_views.push(target));
                    }
                },
                None => {
                },
            }
            i = i + 1;
        }
        proof {
            assert(dvs.take(dn as int) =~= dvs);
        }
        let order = dfs_order(&self.module_graph, seeds);
        let ghost ov = str_views(order@);
        let ghost seed_views = static_targets(g0, dvs);
        let n = order.len();
        proof {
            crate::reachability::lemma_distinct_uris_bound(g0, ov);
        }
        let mut k: usize = 0;
        while k < n
            invariant
                old(self).wf(),
                self.options == old(self).options,
                self.entries == old(self).entries,
                self.visited_module_uri == old(self).visited_module_uri,
                self.chunk_graph == old(self).chunk_graph,
                self.module_graph.wf(),
                n == order@.len(),
                n == ov.len(),
                ov == str_views(order@),
                ov.no_duplicates(),
                n <= g0.records().len(),
                g0.records().len() < UNASSIGNED_ORDER,
                k <= n,
                forall|j: int| 0 <= j < n ==> g0.contains_uri(#[trigger] ov[j]),
                self.module_graph.records().len() == g0.records().len(),
                self.module_graph.dep_records() == g0.dep_records(),
                forall|i2: int|
                    0 <= i2 < g0.records().len() ==> {
                        &&& (#[trigger] self.module_graph.records()[i2]).uri
                            == g0.records()[i2].uri
                        &&& self.module_graph.records()[i2].source_type
                            == g0.records()[i2].source_type
                        &&& self.module_graph.records()[i2].dependencies
                            == g0.records()[i2].dependencies
                    },
                forall|j: int|
                    0 <= j < k ==> self.module_graph.contains_uri(#[trigger] ov[j])
                        && self.module_graph.rec_at(ov[j]).exec_order == j,
                forall|i2: int|
                    0 <= i2 < g0.records().len() && !ov.take(k as int).contains(
                        (#[trigger] self.module_graph.records()[i2]).uri,
                    ) ==> self.module_graph.records()[i2].exec_order
                        == g0.records()[i2].exec_order,
            decreases n - k,
        {
            let ghost pre = self.module_graph;
            proof {
                let i0 = uri_idx(g0.records(), ov[k as int]);
                assert(g0.records()[i0].uri == ov[k as int]);
                assert(self.module_graph.records()[i0].uri == ov[k as int]);
                assert(self.module_graph.contains_uri(ov[k as int]));
            }
            let p_opt = self.module_graph.module_by_uri_mut(order[k].as_str());
            match p_opt {
                Some(p) => {
                    p.exec_order = k;
                },
                None => {
                    proof {
                        assert(false);
                    }
                },
            }
            proof {
                let uidx = pre.uri_index(ov[k as int]);
                crate::module_graph::lemma_uri_idx(
                    pre.records(),
                    ov[k as int],
                    crate::module_graph::uri_idx(pre.records(), ov[k as int]),
                );
                assert(pre.records()[uidx].uri == ov[k as int]);
                assert(self.module_graph.records()[uidx].exec_order == k as int);
                assert(self.module_graph.records()[uidx].uri == ov[k as int]);
                assert forall|j: int|
                    0 <= j < k + 1 implies self.module_graph.contains_uri(#[trigger] ov[j])
                    && self.module_graph.rec_at(ov[j]).exec_order == j by {
                    if j < k as int {
                        let jdx = crate::module_graph::uri_idx(pre.records(), ov[j]);
                        crate::module_graph::lemma_uri_idx(pre.records(), ov[j], jdx);
                        assert(jdx != uidx);
                        assert(self.module_graph.records()[jdx] == pre.records()[jdx]);
                        crate::module_graph::lemma_uri_idx(
                            self.module_graph.records(),
                            ov[j],
                            jdx,
                        );
                    } else {
                        crate::module_graph::lemma_uri_idx(
                            self.module_graph.records(),
                            ov[j],
                            uidx,
                        );
                    }
                }
                assert(ov.take(k + 1 as int).drop_last() =~= ov.take(k as int));
                assert forall|i2: int|
                    0 <= i2 < g0.records().len() && !ov.take(k + 1 as int).contains(
                        (#[trigger] self.module_graph.records()[i2]).uri,
                    ) implies self.module_graph.records()[i2].exec_order
                    == g0.records()[i2].exec_order by {
                    assert(self.module_graph.records()[i2].uri == pre.records()[i2].uri);
                    if i2 != uidx {
                        assert(self.module_graph.records()[i2] == pre.records()[i2]);
                        assert(!ov.take(k as int).contains(pre.records()[i2].uri)) by {
                            if ov.take(k as int).contains(pre.records()[i2].uri) {
                                let w = choose|w: int|
                                    0 <= w < k as int && ov.take(k as int)[w] == pre.records()[i2].uri;
                                assert(ov.take(k + 1 as int)[w] == pre.records()[i2].uri);
                            }
                        }
                    } else {
                        assert(ov.take(k + 1 as int)[k as int] == ov[k as int]);
                        assert(false);
                    }
                }
            }
            k = k + 1;
        }
        proof {
            assert(ov.take(n as int) =~= ov);
            assert forall|v: Seq<char>| #[trigger]
                ov.contains(v) <==> reachable_from(g0, seed_views, v) by {
            }
            assert forall|i2: int|
                0 <= i2 < self.module_graph.records().len() && !ov.contains(
                    (#[trigger] self.module_graph.records()[i2]).uri,
                ) implies self.module_graph.records()[i2].exec_order == UNASSIGNED_ORDER as int by {
                assert(self.module_graph.records()[i2].exec_order
                    == g0.records()[i2].exec_order);
            }
        }
        Ghost(ov)
    }

    /// Partitions the closed module graph into the chunk graph, as
    /// `split_code` states it.
    pub fn seal(&mut self)
        requires
            old(self).wf(),
            old(self).chunk_graph.chunk_views().len() == 0,
        ensures
            final(self).wf(),
            final(self).options == old(self).options,
            final(self).entries == old(self).entries,
            final(self).visited_module_uri == old(self).visited_module_uri,
            final(self).module_graph == old(self).module_graph,
            ({
                let g = old(self).module_graph;
                let root = old(self).options.root@;
                let ev = crate::chunk_spliter::split_chunker::entry_uri_list(g, old(self).entries@);
                let ids = crate::chunk_spliter::split_chunker::chunk_id_list(root, ev);
                let cg = final(self).chunk_graph;
                &&& forall|x: Seq<char>| #[trigger] cg.has_id(x) ==> ids.contains(x)
                &&& forall|ci: int|
                    0 <= ci < ids.len() ==> (cg.has_id(#[trigger] ids[ci]) <==> exists|
                        u: Seq<char>,
                    |
                        crate::chunk_spliter::split_chunker::placed(g, root, ev, u, ci))
                &&& forall|ci: int, u: Seq<char>|
                    #![trigger cg.chunk_at(ids[ci]).members.contains(u)]
                    0 <= ci < ids.len() && cg.has_id(ids[ci]) ==> (cg.chunk_at(
                        ids[ci],
                    ).members.contains(u) <==> crate::chunk_spliter::split_chunker::placed(
                        g,
                        root,
                        ev,
                        u,
                        ci,
                    ))
                &&& forall|ci: int|
                    0 <= ci < ids.len() && cg.has_id(#[trigger] ids[ci]) ==> cg.chunk_at(
                        ids[ci],
                    ).kind is Entry && exists|j: int|
                        0 <= j < ev.len() && crate::chunk_spliter::split_chunker::anchor_of(
                            root,
                            ev,
                            j,
                        ) == ci && cg.chunk_at(ids[ci]).entry_uri == ev[j]
            }),
    {
        crate::chunk_spliter::split_chunker::split_code(self)
    }
}

} // verus!
