use vstd::prelude::*;

use crate::chunk_spliter::split_chunker::{anchor_of, cand, placed, redge};
use crate::module_graph::{lemma_uri_idx, static_targets, ModuleGraph};
use crate::reachability::{is_static_path, reaches};
use crate::resolve_module_job::{DepView, ResolveKind};

verus! {

/// Two graphs whose records differ at most by extra dynamic-import edges
/// at the end of some dependency lists, everything else equal.
pub open spec fn differ_by_dynamic_edges(g1: ModuleGraph, g2: ModuleGraph) -> bool {
    &&& g1.dep_records() == g2.dep_records()
    &&& g1.records().len() == g2.records().len()
    &&& forall|i: int|
        0 <= i < g1.records().len() ==> (#[trigger] g2.records()[i]).uri == g1.records()[i].uri
    &&& forall|i: int|
        0 <= i < g1.records().len() ==> ((#[trigger] g2.records()[i]).dependencies
            == g1.records()[i].dependencies || exists|d: DepView|
            d.kind == ResolveKind::DynamicImport && g2.records()[i].dependencies
                == g1.records()[i].dependencies.push(d))
}

/// However many dependencies resolve to one canonical uri, a well-formed
/// module graph holds exactly one record for it: any two record positions
/// carrying the same uri are the same position.
pub proof fn lemma_one_record_per_uri(g: ModuleGraph, i: int, j: int)
    requires
        g.wf(),
        0 <= i < g.records().len(),
        0 <= j < g.records().len(),
        g.records()[i].uri == g.records()[j].uri,
    ensures
        i == j,
{
    if i != j {
        if i < j {
            assert(g.records()[i].uri != g.records()[j].uri);
        } else {
            assert(g.records()[j].uri != g.records()[i].uri);
        }
    }
}

/// A module reachable from exactly one entry is placed in exactly that
/// entry's chunk and in no other.
pub proof fn lemma_single_entry_placement(
    g: ModuleGraph,
    root: Seq<char>,
    ev: Seq<Seq<char>>,
    u: Seq<char>,
    j: int,
)
    requires
        0 <= j < ev.len(),
        reaches(g, ev[j], u),
        forall|j2: int| 0 <= j2 < ev.len() && j2 != j ==> !reaches(g, #[trigger] ev[j2], u),
    ensures
        placed(g, root, ev, u, anchor_of(root, ev, j)),
        forall|ci: int| ci != anchor_of(root, ev, j) ==> !placed(g, root, ev, u, ci),
{
    let a = anchor_of(root, ev, j);
    assert(cand(g, root, ev, u, a)) by {
        assert(0 <= j < ev.len() && reaches(g, ev[j], u) && anchor_of(root, ev, j) == a);
    }
    assert forall|ci: int| cand(g, root, ev, u, ci) implies ci == a by {
        let j2 = choose|j2: int|
            0 <= j2 < ev.len() && reaches(g, ev[j2], u) && anchor_of(root, ev, j2) == ci;
        assert(j2 == j);
    }
    assert(placed(g, root, ev, u, a)) by {
        if exists|d: int| #[trigger] cand(g, root, ev, u, d) && d != a && redge(g, root, ev, a, d) {
            let d = choose|d: int|
                #[trigger] cand(g, root, ev, u, d) && d != a && redge(g, root, ev, a, d);
            assert(d == a);
        }
    }
}

/// A module reachable from two entries, where the second entry's chunk
/// relates onto the first's and not the other way round, is placed only in
/// the first entry's chunk: dominance pruning suppresses the duplicate.
pub proof fn lemma_dominance_pruning(
    g: ModuleGraph,
    root: Seq<char>,
    ev: Seq<Seq<char>>,
    u: Seq<char>,
    ja: int,
    jb: int,
)
    requires
        0 <= ja < ev.len(),
        0 <= jb < ev.len(),
        reaches(g, ev[ja], u),
        reaches(g, ev[jb], u),
        anchor_of(root, ev, ja) != anchor_of(root, ev, jb),
        redge(g, root, ev, anchor_of(root, ev, jb), anchor_of(root, ev, ja)),
        !redge(g, root, ev, anchor_of(root, ev, ja), anchor_of(root, ev, jb)),
        forall|j2: int|
            0 <= j2 < ev.len() && reaches(g, #[trigger] ev[j2], u) ==> anchor_of(root, ev, j2)
                == anchor_of(root, ev, ja) || anchor_of(root, ev, j2) == anchor_of(root, ev, jb),
    ensures
        placed(g, root, ev, u, anchor_of(root, ev, ja)),
        !placed(g, root, ev, u, anchor_of(root, ev, jb)),
        forall|ci: int|
            ci != anchor_of(root, ev, ja) && ci != anchor_of(root, ev, jb) ==> !placed(
                g,
                root,
                ev,
                u,
                ci,
            ),
{
    let a = anchor_of(root, ev, ja);
    let b = anchor_of(root, ev, jb);
    assert(cand(g, root, ev, u, a)) by {
        assert(0 <= ja < ev.len() && reaches(g, ev[ja], u) && anchor_of(root, ev, ja) == a);
    }
    assert(cand(g, root, ev, u, b)) by {
        assert(0 <= jb < ev.len() && reaches(g, ev[jb], u) && anchor_of(root, ev, jb) == b);
    }
    assert forall|ci: int| cand(g, root, ev, u, ci) implies ci == a || ci == b by {
        let j2 = choose|j2: int|
            0 <= j2 < ev.len() && reaches(g, ev[j2], u) && anchor_of(root, ev, j2) == ci;
    }
    assert(placed(g, root, ev, u, a)) by {
        if exists|d: int| #[trigger] cand(g, root, ev, u, d) && d != a && redge(g, root, ev, a, d) {
            let d = choose|d: int|
                #[trigger] cand(g, root, ev, u, d) && d != a && redge(g, root, ev, a, d);
            assert(d == b);
        }
    }
    assert(!placed(g, root, ev, u, b)) by {
        assert(cand(g, root, ev, u, a) && a != b && redge(g, root, ev, b, a));
    }
}

/// A dynamic-import edge never joins the eager traversal: appending one to
/// a module's dependency list leaves its resolved static targets exactly
/// as they were.
pub proof fn lemma_dynamic_edge_ignored(g: ModuleGraph, deps: Seq<DepView>, d: DepView)
    requires
        d.kind == ResolveKind::DynamicImport,
    ensures
        static_targets(g, deps.push(d)) == static_targets(g, deps),
{
    assert(deps.push(d).drop_last() =~= deps);
    assert(deps.push(d).last() == d);
}

/// Graphs with the same records and edges resolve any dependency list to
/// the same static targets.
proof fn lemma_targets_cong(g1: ModuleGraph, g2: ModuleGraph, ds: Seq<DepView>)
    requires
        g1.dep_records() == g2.dep_records(),
        forall|u: Seq<char>| #[trigger] g1.contains_uri(u) == g2.contains_uri(u),
    ensures
        static_targets(g1, ds) == static_targets(g2, ds),
    decreases ds.len(),
{
    if ds.len() > 0 {
        lemma_targets_cong(g1, g2, ds.drop_last());
    }
}

/// A dependency list with no dynamic-import edges.
pub open spec fn static_only(ds: Seq<DepView>) -> Seq<DepView> {
    ds.filter(|d: DepView| d.kind != ResolveKind::DynamicImport)
}

/// Deleting every dynamic-import edge from a dependency list leaves its
/// resolved static targets exactly as they were.
pub proof fn lemma_targets_ignore_dynamic(g: ModuleGraph, ds: Seq<DepView>)
    ensures
        static_targets(g, ds) == static_targets(g, static_only(ds)),
    decreases ds.len(),
{
    reveal_with_fuel(Seq::filter, 2);
    if ds.len() > 0 {
        lemma_targets_ignore_dynamic(g, ds.drop_last());
        let rest = ds.drop_last();
        let d = ds.last();
        if d.kind != ResolveKind::DynamicImport {
            assert(static_only(ds) == static_only(rest).push(d));
            assert(static_only(ds).drop_last() =~= static_only(rest));
            assert(static_only(ds).last() == d);
        } else {
            assert(static_only(ds) == static_only(rest));
        }
    } else {
        assert(static_only(ds) =~= ds);
    }
}

/// Two graphs with the same record uris have the same uri membership.
proof fn lemma_contains_same_uris(g1: ModuleGraph, g2: ModuleGraph)
    requires
        g1.records().len() == g2.records().len(),
        forall|i: int|
            0 <= i < g1.records().len() ==> (#[trigger] g2.records()[i]).uri
                == g1.records()[i].uri,
    ensures
        forall|u: Seq<char>| #[trigger] g1.contains_uri(u) == g2.contains_uri(u),
{
    assert forall|u: Seq<char>| #[trigger] g1.contains_uri(u) == g2.contains_uri(u) by {
        if g1.contains_uri(u) {
            let i = choose|i: int| 0 <= i < g1.records().len() && g1.records()[i].uri == u;
            assert(g2.records()[i].uri == u);
        }
        if g2.contains_uri(u) {
            let i = choose|i: int| 0 <= i < g2.records().len() && g2.records()[i].uri == u;
            assert(g1.records()[i].uri == u);
        }
    }
}

/// Graphs that agree on membership, edges and each module's resolved
/// static targets agree on reachability, candidacy, the chunk relation
/// and placement.
proof fn lemma_same_edges_same_chunks(
    g1: ModuleGraph,
    g2: ModuleGraph,
    root: Seq<char>,
    ev: Seq<Seq<char>>,
)
    requires
        forall|u: Seq<char>| #[trigger] g1.contains_uri(u) == g2.contains_uri(u),
        forall|u: Seq<char>, v: Seq<char>| #[trigger]
            crate::module_graph::static_edge(g1, u, v) == crate::module_graph::static_edge(
                g2,
                u,
                v,
            ),
        forall|m: Seq<char>| #[trigger]
            g1.contains_uri(m) ==> static_targets(g1, g1.rec_at(m).dependencies)
                == static_targets(g2, g2.rec_at(m).dependencies),
    ensures
        forall|a: Seq<char>, b: Seq<char>| #[trigger] reaches(g1, a, b) == reaches(g2, a, b),
        forall|u: Seq<char>, ci: int| #[trigger]
            cand(g1, root, ev, u, ci) == cand(g2, root, ev, u, ci),
        forall|c: int, d: int| #[trigger] redge(g1, root, ev, c, d) == redge(g2, root, ev, c, d),
        forall|u: Seq<char>, ci: int| #[trigger]
            placed(g1, root, ev, u, ci) == placed(g2, root, ev, u, ci),
{
    assert forall|a: Seq<char>, b: Seq<char>| #[trigger]
        reaches(g1, a, b) == reaches(g2, a, b) by {
        if reaches(g1, a, b) {
            let p = choose|p: Seq<Seq<char>>|
                is_static_path(g1, p) && p.first() == a && p.last() == b;
            assert(is_static_path(g2, p)) by {
                assert forall|i: int|
                    0 <= i < p.len() - 1 implies #[trigger] crate::module_graph::static_edge(
                    g2,
                    p[i],
                    p[i + 1],
                ) by {
                    assert(crate::module_graph::static_edge(g1, p[i], p[i + 1]));
                }
            }
        }
        if reaches(g2, a, b) {
            let p = choose|p: Seq<Seq<char>>|
                is_static_path(g2, p) && p.first() == a && p.last() == b;
            assert(is_static_path(g1, p)) by {
                assert forall|i: int|
                    0 <= i < p.len() - 1 implies #[trigger] crate::module_graph::static_edge(
                    g1,
                    p[i],
                    p[i + 1],
                ) by {
                    assert(crate::module_graph::static_edge(g2, p[i], p[i + 1]));
                }
            }
        }
    }
    assert forall|u: Seq<char>, ci: int| #[trigger]
        cand(g1, root, ev, u, ci) == cand(g2, root, ev, u, ci) by {
        if cand(g1, root, ev, u, ci) {
            let j = choose|j: int|
                0 <= j < ev.len() && reaches(g1, ev[j], u) && anchor_of(root, ev, j) == ci;
            assert(reaches(g2, ev[j], u));
        }
        if cand(g2, root, ev, u, ci) {
            let j = choose|j: int|
                0 <= j < ev.len() && reaches(g2, ev[j], u) && anchor_of(root, ev, j) == ci;
            assert(reaches(g1, ev[j], u));
        }
    }
    assert forall|c: int, d: int| #[trigger]
        redge(g1, root, ev, c, d) == redge(g2, root, ev, c, d) by {
        if redge(g1, root, ev, c, d) {
            let (m, j) = choose|m: Seq<char>, j: int|
                {
                    &&& g1.contains_uri(m)
                    &&& 0 <= j < ev.len()
                    &&& static_targets(g1, #[trigger] g1.rec_at(m).dependencies).contains(
                        #[trigger] ev[j],
                    )
                    &&& anchor_of(root, ev, j) == d
                    &&& cand(g1, root, ev, m, c)
                };
            assert(static_targets(g2, g2.rec_at(m).dependencies).contains(ev[j]));
            assert(redge(g2, root, ev, c, d));
        }
        if redge(g2, root, ev, c, d) {
            let (m, j) = choose|m: Seq<char>, j: int|
                {
                    &&& g2.contains_uri(m)
                    &&& 0 <= j < ev.len()
                    &&& static_targets(g2, #[trigger] g2.rec_at(m).dependencies).contains(
                        #[trigger] ev[j],
                    )
                    &&& anchor_of(root, ev, j) == d
                    &&& cand(g2, root, ev, m, c)
                };
            assert(g1.contains_uri(m));
            assert(static_targets(g1, g1.rec_at(m).dependencies).contains(ev[j]));
            assert(redge(g1, root, ev, c, d));
        }
    }
    assert forall|u: Seq<char>, ci: int| #[trigger]
        placed(g1, root, ev, u, ci) == placed(g2, root, ev, u, ci) by {
        if placed(g1, root, ev, u, ci) && !placed(g2, root, ev, u, ci) {
            let d = choose|d: int|
                #[trigger] cand(g2, root, ev, u, d) && d != ci && redge(g2, root, ev, ci, d);
            assert(cand(g1, root, ev, u, d) && redge(g1, root, ev, ci, d));
        }
        if placed(g2, root, ev, u, ci) && !placed(g1, root, ev, u, ci) {
            let d = choose|d: int|
                #[trigger] cand(g1, root, ev, u, d) && d != ci && redge(g1, root, ev, ci, d);
            assert(cand(g2, root, ev, u, d) && redge(g2, root, ev, ci, d));
        }
    }
}

/// One module's resolved static targets agree across two graphs that
/// differ at most by appended dynamic-import edges.
proof fn lemma_rec_targets_cong(g1: ModuleGraph, g2: ModuleGraph, m: Seq<char>)
    requires
        g1.wf(),
        crate::module_graph::uris_unique(g2.records()),
        differ_by_dynamic_edges(g1, g2),
        g1.contains_uri(m) || g2.contains_uri(m),
    ensures
        g1.contains_uri(m) && g2.contains_uri(m),
        static_targets(g1, g1.rec_at(m).dependencies) == static_targets(
            g2,
            g2.rec_at(m).dependencies,
        ),
{
    lemma_contains_same_uris(g1, g2);
    let i = if g1.contains_uri(m) {
        choose|i: int| 0 <= i < g1.records().len() && g1.records()[i].uri == m
    } else {
        choose|i: int| 0 <= i < g2.records().len() && g2.records()[i].uri == m
    };
    assert(g1.records()[i].uri == m && g2.records()[i].uri == m);
    lemma_uri_idx(g1.records(), m, i);
    lemma_uri_idx(g2.records(), m, i);
    let ds1 = g1.records()[i].dependencies;
    let ds2 = g2.records()[i].dependencies;
    lemma_targets_cong(g1, g2, ds1);
    if ds2 != ds1 {
        let d = choose|d: DepView|
            d.kind == ResolveKind::DynamicImport && g2.records()[i].dependencies
                == g1.records()[i].dependencies.push(d);
        lemma_dynamic_edge_ignored(g2, ds1, d);
    }
}

/// Uniqueness of uris carries over to a graph with the same uris.
proof fn lemma_uris_unique_same(g1: ModuleGraph, g2: ModuleGraph)
    requires
        crate::module_graph::uris_unique(g1.records()),
        g1.records().len() == g2.records().len(),
        forall|i: int|
            0 <= i < g1.records().len() ==> (#[trigger] g2.records()[i]).uri
                == g1.records()[i].uri,
    ensures
        crate::module_graph::uris_unique(g2.records()),
{
    assert forall|i: int, j: int|
        0 <= i < j < g2.records().len() implies g2.records()[i].uri != g2.records()[j].uri by {
        assert(g1.records()[i].uri != g1.records()[j].uri);
    }
}

/// Dynamic-import edges never affect candidacy, relation-graph edges, or
/// placement: a graph that differs only by such edges reaches the same
/// modules from every entry, earns the same chunk relations, and places
/// every module into exactly the same chunks.
pub proof fn lemma_dynamic_edges_invisible(
    g1: ModuleGraph,
    g2: ModuleGraph,
    root: Seq<char>,
    ev: Seq<Seq<char>>,
)
    requires
        g1.wf(),
        differ_by_dynamic_edges(g1, g2),
    ensures
        forall|a: Seq<char>, b: Seq<char>| #[trigger] reaches(g1, a, b) == reaches(g2, a, b),
        forall|u: Seq<char>, ci: int| #[trigger]
            cand(g1, root, ev, u, ci) == cand(g2, root, ev, u, ci),
        forall|c: int, d: int| #[trigger] redge(g1, root, ev, c, d) == redge(g2, root, ev, c, d),
        forall|u: Seq<char>, ci: int| #[trigger]
            placed(g1, root, ev, u, ci) == placed(g2, root, ev, u, ci),
{
    lemma_contains_same_uris(g1, g2);
    lemma_uris_unique_same(g1, g2);
    assert forall|u: Seq<char>, v: Seq<char>| #[trigger]
        crate::module_graph::static_edge(g1, u, v) == crate::module_graph::static_edge(
            g2,
            u,
            v,
        ) by {
        if g1.contains_uri(u) {
            lemma_rec_targets_cong(g1, g2, u);
        }
    }
    assert forall|m: Seq<char>| #[trigger]
        g1.contains_uri(m) implies static_targets(g1, g1.rec_at(m).dependencies)
        == static_targets(g2, g2.rec_at(m).dependencies) by {
        lemma_rec_targets_cong(g1, g2, m);
    }
    lemma_same_edges_same_chunks(g1, g2, root, ev);
}

/// The second graph is the first with every dynamic-import edge deleted
/// from every module's dependency list, everything else equal.
pub open spec fn strips_dynamic_edges(g1: ModuleGraph, g2: ModuleGraph) -> bool {
    &&& g1.dep_records() == g2.dep_records()
    &&& g1.records().len() == g2.records().len()
    &&& forall|i: int|
        0 <= i < g1.records().len() ==> (#[trigger] g2.records()[i]).uri == g1.records()[i].uri
    &&& forall|i: int|
        0 <= i < g1.records().len() ==> (#[trigger] g2.records()[i]).dependencies == static_only(
            g1.records()[i].dependencies,
        )
}

/// One module's resolved static targets survive deleting every
/// dynamic-import edge.
proof fn lemma_rec_targets_strip(g1: ModuleGraph, g2: ModuleGraph, m: Seq<char>)
    requires
        g1.wf(),
        strips_dynamic_edges(g1, g2),
        g1.contains_uri(m) || g2.contains_uri(m),
    ensures
        g1.contains_uri(m) && g2.contains_uri(m),
        static_targets(g1, g1.rec_at(m).dependencies) == static_targets(
            g2,
            g2.rec_at(m).dependencies,
        ),
{
    lemma_contains_same_uris(g1, g2);
    lemma_uris_unique_same(g1, g2);
    let i = if g1.contains_uri(m) {
        choose|i: int| 0 <= i < g1.records().len() && g1.records()[i].uri == m
    } else {
        choose|i: int| 0 <= i < g2.records().len() && g2.records()[i].uri == m
    };
    assert(g1.records()[i].uri == m && g2.records()[i].uri == m);
    lemma_uri_idx(g1.records(), m, i);
    lemma_uri_idx(g2.records(), m, i);
    let ds1 = g1.records()[i].dependencies;
    lemma_targets_ignore_dynamic(g1, ds1);
    lemma_targets_cong(g1, g2, static_only(ds1));
}

/// Deleting every dynamic-import edge from the module graph changes
/// nothing the chunk splitter sees: reachability, candidacy, the chunk
/// relation and placement — and with them the final chunk graph — are
/// exactly those of the full graph.
pub proof fn lemma_dynamic_edges_deleted(
    g1: ModuleGraph,
    g2: ModuleGraph,
    root: Seq<char>,
    ev: Seq<Seq<char>>,
)
    requires
        g1.wf(),
        strips_dynamic_edges(g1, g2),
    ensures
        forall|a: Seq<char>, b: Seq<char>| #[trigger] reaches(g1, a, b) == reaches(g2, a, b),
        forall|u: Seq<char>, ci: int| #[trigger]
            cand(g1, root, ev, u, ci) == cand(g2, root, ev, u, ci),
        forall|c: int, d: int| #[trigger] redge(g1, root, ev, c, d) == redge(g2, root, ev, c, d),
        forall|u: Seq<char>, ci: int| #[trigger]
            placed(g1, root, ev, u, ci) == placed(g2, root, ev, u, ci),
{
    lemma_contains_same_uris(g1, g2);
    lemma_uris_unique_same(g1, g2);
    assert forall|u: Seq<char>, v: Seq<char>| #[trigger]
        crate::module_graph::static_edge(g1, u, v) == crate::module_graph::static_edge(
            g2,
            u,
            v,
        ) by {
        if g1.contains_uri(u) {
            lemma_rec_targets_strip(g1, g2, u);
        }
    }
    assert forall|m: Seq<char>| #[trigger]
        g1.contains_uri(m) implies static_targets(g1, g1.rec_at(m).dependencies)
        == static_targets(g2, g2.rec_at(m).dependencies) by {
        lemma_rec_targets_strip(g1, g2, m);
    }
    lemma_same_edges_same_chunks(g1, g2, root, ev);
}

} // verus!
