use vstd::prelude::*;

use crate::chunk::{Chunk, ChunkKind};
use crate::complier::compilation::{entry_dep_views, lemma_entry_dep_views_index, Compilation};
use crate::module_graph::{static_targets, uri_idx, ModuleGraph};
use crate::options::optimization::ChunkIdAlgo;
use crate::reachability::{reaches, static_reachable};
use crate::resolve_module_job::{DepView, Dependency, ResolveKind};
use crate::utils::{
    contains_str, dec_str, ext_by_module_uri, named_chunk_id, str_views, usize_to_string,
};

verus! {

/// `s` with every repeated element dropped; the first occurrence stays.
pub open spec fn dedup(s: Seq<Seq<char>>) -> Seq<Seq<char>>
    decreases s.len(),
{
    if s.len() == 0 {
        Seq::empty()
    } else {
        let rest = dedup(s.drop_last());
        if s.drop_last().contains(s.last()) {
            rest
        } else {
            rest.push(s.last())
        }
    }
}

/// Deduplication keeps exactly the elements, each once.
pub proof fn lemma_dedup(s: Seq<Seq<char>>)
    ensures
        dedup(s).no_duplicates(),
        forall|v: Seq<char>| #[trigger] dedup(s).contains(v) <==> s.contains(v),
    decreases s.len(),
{
    if s.len() > 0 {
        lemma_dedup(s.drop_last());
        let rest = dedup(s.drop_last());
        if !s.drop_last().contains(s.last()) {
            assert(!rest.contains(s.last()));
            assert forall|i: int, j: int|
                0 <= i < dedup(s).len() && 0 <= j < dedup(s).len() && i != j implies dedup(s)[i]
                != dedup(s)[j] by {
                if i < rest.len() && j < rest.len() {
                    assert(rest.no_duplicates());
                } else if j == rest.len() {
                    if dedup(s)[i] == s.last() {
                        assert(rest[i] == s.last());
                        assert(rest.contains(s.last()));
                    }
                } else {
                    if dedup(s)[j] == s.last() {
                        assert(rest[j] == s.last());
                        assert(rest.contains(s.last()));
                    }
                }
            }
        }
        assert forall|v: Seq<char>| #[trigger] dedup(s).contains(v) <==> s.contains(v) by {
            if dedup(s).contains(v) {
                if rest.contains(v) {
                    assert(s.drop_last().contains(v));
                    let w = choose|w: int|
                        0 <= w < s.drop_last().len() && s.drop_last()[w] == v;
                    assert(s[w] == v);
                } else {
                    assert(v == s.last());
                    assert(s[s.len() - 1] == v);
                }
            }
            if s.contains(v) {
                let w = choose|w: int| 0 <= w < s.len() && s[w] == v;
                if w < s.len() - 1 {
                    assert(s.drop_last()[w] == v);
                    assert(rest.contains(v));
                    if !s.drop_last().contains(s.last()) {
                        let w2 = choose|w2: int| 0 <= w2 < rest.len() && rest[w2] == v;
                        assert(dedup(s)[w2] == v);
                    }
                } else {
                    if s.drop_last().contains(s.last()) {
                        assert(rest.contains(v));
                    } else {
                        assert(dedup(s)[dedup(s).len() - 1] == v);
                    }
                }
            }
        }
    }
}

/// The entry modules of a build: the resolved target of each entry
/// dependency that reached the graph, first occurrence of each.
pub open spec fn entry_uri_list(g: ModuleGraph, entries: Seq<(String, crate::options::entry::EntryItem)>) -> Seq<
    Seq<char>,
> {
    dedup(static_targets(g, entry_dep_views(entries)))
}

/// The distinct chunk ids of a build, in the order their entries first
/// earned them. Two entries whose paths flatten to one id share a chunk.
pub open spec fn chunk_id_list(root: Seq<char>, eus: Seq<Seq<char>>) -> Seq<Seq<char>> {
    dedup(eus.map_values(|e: Seq<char>| named_chunk_id(root, e)))
}

/// The chunk index an entry is anchored at: the position of its id.
pub open spec fn anchor_of(root: Seq<char>, eus: Seq<Seq<char>>, j: int) -> int {
    let ids = chunk_id_list(root, eus);
    choose|ci: int| 0 <= ci < ids.len() && ids[ci] == named_chunk_id(root, eus[j])
}

/// Chunk `ci` is a candidate for module `u`: some entry anchored at `ci`
/// statically reaches `u`.
pub open spec fn cand(
    g: ModuleGraph,
    root: Seq<char>,
    eus: Seq<Seq<char>>,
    u: Seq<char>,
    ci: int,
) -> bool {
    exists|j: int| 0 <= j < eus.len() && reaches(g, eus[j], u) && anchor_of(root, eus, j) == ci
}

/// The chunk relation: chunk `c` reaches chunk `d`'s entry module as an
/// ordinary dependency. Some module with candidate `c` has a static edge
/// to an entry anchored at `d`, with `c` and `d` distinct.
pub open spec fn redge(
    g: ModuleGraph,
    root: Seq<char>,
    eus: Seq<Seq<char>>,
    c: int,
    d: int,
) -> bool {
    c != d && exists|m: Seq<char>, j: int|
        {
            &&& g.contains_uri(m)
            &&& 0 <= j < eus.len()
            &&& static_targets(g, #[trigger] g.rec_at(m).dependencies).contains(#[trigger] eus[j])
            &&& anchor_of(root, eus, j) == d
            &&& cand(g, root, eus, m, c)
        }
}

/// Module `u` is placed in chunk `ci`: `ci` is a candidate, and no sibling
/// candidate `d` is related from `ci` — were it, everything `ci` provides
/// would already be loaded along with `d`'s chunk, so the copy in `ci`
/// would be redundant.
pub open spec fn placed(
    g: ModuleGraph,
    root: Seq<char>,
    eus: Seq<Seq<char>>,
    u: Seq<char>,
    ci: int,
) -> bool {
    &&& cand(g, root, eus, u, ci)
    &&& !exists|d: int| #[trigger] cand(g, root, eus, u, d) && d != ci && redge(g, root, eus, ci, d)
}

#[verifier::external_type_specification]
#[verifier::external_body]
pub struct ExDirected(petgraph::Directed);

#[verifier::external_type_specification]
#[verifier::external_body]
#[verifier::reject_recursive_types(N)]
#[verifier::reject_recursive_types(E)]
#[verifier::reject_recursive_types(Ty)]
#[verifier::reject_recursive_types(S)]
pub struct ExGraphMap<N, E, Ty, S>(petgraph::graphmap::GraphMap<N, E, Ty, S>) where S: std::hash::BuildHasher;

/// The directed edges a chunk relation graph holds, as pairs of chunk
/// indices.
pub uninterp spec fn relation_edges(g: petgraph::graphmap::DiGraphMap<usize, ()>) -> Set<
    (int, int),
>;

/// Relies on petgraph's `GraphMap::new`: a fresh graph has no edges.
#[verifier::external_body]
fn relation_graph_new() -> (g: petgraph::graphmap::DiGraphMap<usize, ()>)
    ensures
        relation_edges(g) == Set::<(int, int)>::empty(),
{
    petgraph::graphmap::DiGraphMap::new()
}

/// Relies on petgraph's `GraphMap::add_edge` on a directed graph: it adds
/// exactly the directed edge from `a` to `b`.
#[verifier::external_body]
fn relation_graph_add_edge(g: &mut petgraph::graphmap::DiGraphMap<usize, ()>, a: usize, b: usize)
    ensures
        relation_edges(*final(g)) == relation_edges(*old(g)).insert((a as int, b as int)),
{
    g.add_edge(a, b, ());
}

/// Relies on petgraph's `GraphMap::contains_edge` on a directed graph: it
/// answers whether the directed edge from `a` to `b` was added.
#[verifier::external_body]
fn relation_graph_contains_edge(
    g: &petgraph::graphmap::DiGraphMap<usize, ()>,
    a: usize,
    b: usize,
) -> (r: bool)
    ensures
        r == relation_edges(*g).contains((a as int, b as int)),
{
    g.contains_edge(a, b)
}

/// Whether `v` holds the number `x`.
fn contains_usize(v: &Vec<usize>, x: usize) -> (r: bool)
    ensures
        r == v@.contains(x),
{
    let n = v.len();
    let mut i: usize = 0;
    while i < n
        invariant
            n == v@.len(),
            i <= n,
            forall|j: int| 0 <= j < i ==> v@[j] != x,
        decreases n - i,
    {
        if v[i] == x {
            return true;
        }
        i = i + 1;
    }
    proof {
        if v@.contains(x) {
            let j = choose|j: int| 0 <= j < v@.len() && v@[j] == x;
            assert(v@[j] != x);
        }
    }
    false
}

/// The position of the string `s` in `v`, if any.
fn position_str(v: &Vec<String>, s: &str) -> (r: Option<usize>)
    ensures
        match r {
            Some(i) => i < v@.len() && str_views(v@)[i as int] == s@,
            None => !str_views(v@).contains(s@),
        },
{
    let n = v.len();
    let mut i: usize = 0;
    while i < n
        invariant
            n == v@.len(),
            i <= n,
            forall|j: int| 0 <= j < i ==> str_views(v@)[j] != s@,
        decreases n - i,
    {
        if crate::str_eq(v[i].as_str(), s) {
            proof {
                assert(str_views(v@)[i as int] == s@);
            }
            return Some(i);
        }
        i = i + 1;
    }
    proof {
        if str_views(v@).contains(s@) {
            let j = choose|j: int| 0 <= j < str_views(v@).len() && str_views(v@)[j] == s@;
            assert(str_views(v@)[j] != s@);
        }
    }
    None
}

/// The entry module uris of the build, each once, in entry order; every
/// one lies in the graph.
fn collect_entry_uris(compilation: &Compilation) -> (r: Vec<String>)
    requires
        compilation.wf(),
    ensures
        str_views(r@) == entry_uri_list(compilation.module_graph, compilation.entries@),
        str_views(r@).no_duplicates(),
        forall|k: int|
            0 <= k < r@.len() ==> compilation.module_graph.contains_uri(
                #[trigger] str_views(r@)[k],
            ),
{
    let g = &compilation.module_graph;
    let deps = compilation.entries_dependencies();
    let ghost dvs = entry_dep_views(compilation.entries@);
    let dn = deps.len();
    proof {
        assert(entry_dep_views(compilation.entries@) == compilation.entries@.map_values(
            |p: (String, crate::options::entry::EntryItem)|
                DepView { importer: None, specifier: p.1.path@, kind: ResolveKind::Import },
        ));
        assert(deps@.map_values(|d: Dependency| d@).len() == deps@.len());
    }
    let mut raw: Vec<String> = Vec::new();
    let mut i: usize = 0;
    while i < dn
        invariant
            compilation.wf(),
            dn == deps@.len(),
            dn == compilation.entries@.len(),
            deps@.map_values(|d: Dependency| d@) == dvs,
            dvs == entry_dep_views(compilation.entries@),
            i <= dn,
            str_views(raw@) == static_targets(compilation.module_graph, dvs.take(i as int)),
        decreases dn - i,
    {
        proof {
            assert(dvs.take(i + 1 as int).drop_last() =~= dvs.take(i as int));
            assert(dvs.take(i + 1 as int).last() == dvs[i as int]);
            assert(deps@[i as int]@ == dvs[i as int]);
            lemma_entry_dep_views_index(compilation.entries@, i as int);
        }
        let ghost old_views = str_views(raw@);
        match compilation.module_graph.module_by_dependency(&deps[i]) {
            Some(m) => {
                let ghost target = compilation.module_graph.dep_target(dvs[i as int]);
                proof {
                    let idx = uri_idx(compilation.module_graph.records(), target);
                    assert(compilation.module_graph.records()[idx].uri == target);
                    assert(m.uri@ == target);
                }
                raw.push(m.uri.clone());
                proof {
                    assert(str_views(raw@) =~= old_views.push(target));
                }
            },
            None => {
            },
        }
        i = i + 1;
    }
    proof {
        assert(dvs.take(dn as int) =~= dvs);
    }
    let ghost raw_views = str_views(raw@);
    let rn = raw.len();
    let mut out: Vec<String> = Vec::new();
    let mut k: usize = 0;
    while k < rn
        invariant
            rn == raw@.len(),
            raw_views == str_views(raw@),
            k <= rn,
            str_views(out@) == dedup(raw_views.take(k as int)),
        decreases rn - k,
    {
        proof {
            assert(raw_views.take(k + 1 as int).drop_last() =~= raw_views.take(k as int));
            assert(raw_views.take(k + 1 as int).last() == raw_views[k as int]);
        }
        let ghost old_out = str_views(out@);
        let present = contains_str(&out, raw[k].as_str());
        proof {
            lemma_dedup(raw_views.take(k as int));
            assert(present == raw_views.take(k as int).contains(raw_views[k as int]));
        }
        if !present {
            let u = raw[k].clone();
            out.push(u);
            proof {
                assert(str_views(out@) =~= old_out.push(raw_views[k as int]));
            }
        }
        k = k + 1;
    }
    proof {
        assert(raw_views.take(rn as int) =~= raw_views);
        lemma_dedup(raw_views);
        crate::module_graph::lemma_static_targets_contained(compilation.module_graph, dvs);
        assert forall|k2: int|
            0 <= k2 < out@.len() implies compilation.module_graph.contains_uri(
            #[trigger] str_views(out@)[k2],
        ) by {
            assert(str_views(out@).contains(str_views(out@)[k2]));
            assert(raw_views.contains(str_views(out@)[k2]));
            let w = choose|w: int| 0 <= w < raw_views.len() && raw_views[w] == str_views(out@)[k2];
            assert(compilation.module_graph.contains_uri(raw_views[w]));
        }
    }
    out
}

/// Generates chunk ids: from the entry module's path relative to the
/// project root, or by a running number, per the configured strategy.
pub struct ChunkIdGenerator {
    pub id: usize,
    pub chunk_id_algo: ChunkIdAlgo,
    pub root: String,
}

impl ChunkIdGenerator {
    pub fn gen_id(&mut self, module_uri: &str) -> (r: String)
        requires
            old(self).chunk_id_algo is Numeric ==> old(self).id < usize::MAX,
        ensures
            final(self).chunk_id_algo == old(self).chunk_id_algo,
            final(self).root == old(self).root,
            match old(self).chunk_id_algo {
                ChunkIdAlgo::Numeric => r@ == dec_str(old(self).id as nat) && final(self).id == old(self).id + 1,
                ChunkIdAlgo::Named => r@ == named_chunk_id(old(self).root@, module_uri@) && final(self).id == old(self).id,
            },
    {
        match self.chunk_id_algo {
            ChunkIdAlgo::Numeric => {
                let id = usize_to_string(self.id);
                self.id = self.id + 1;
                id
            },
            ChunkIdAlgo::Named => ext_by_module_uri(self.root.as_str(), module_uri),
        }
    }
}

/// With distinct chunk ids, the anchor of entry `j` is any index whose id
/// matches.
pub proof fn lemma_anchor_at(root: Seq<char>, ev: Seq<Seq<char>>, j: int, ci: int)
    requires
        0 <= j < ev.len(),
        0 <= ci < chunk_id_list(root, ev).len(),
        chunk_id_list(root, ev)[ci] == named_chunk_id(root, ev[j]),
    ensures
        anchor_of(root, ev, j) == ci,
        0 <= anchor_of(root, ev, j) < chunk_id_list(root, ev).len(),
{
    let ids = chunk_id_list(root, ev);
    lemma_dedup(ev.map_values(|e: Seq<char>| named_chunk_id(root, e)));
    let w = anchor_of(root, ev, j);
    if w != ci {
        assert(ids[w] == ids[ci]);
        assert(ids.no_duplicates());
    }
}

/// A directed chunk relation justified by the first `mi` module records:
/// some module among them, with candidate `c`, depends statically on an
/// entry anchored at `d`.
pub open spec fn redge_upto(
    g: ModuleGraph,
    root: Seq<char>,
    ev: Seq<Seq<char>>,
    mi: int,
    c: int,
    d: int,
) -> bool {
    c != d && exists|i: int, j: int|
        {
            &&& 0 <= i < mi
            &&& 0 <= j < ev.len()
            &&& static_targets(g, (#[trigger] g.records()[i]).dependencies).contains(
                #[trigger] ev[j],
            )
            &&& anchor_of(root, ev, j) == d
            &&& cand(g, root, ev, g.records()[i].uri, c)
        }
}

/// A directed chunk relation justified by record `mi`'s first `x`
/// resolved static targets.
pub open spec fn redge_mid(
    g: ModuleGraph,
    root: Seq<char>,
    ev: Seq<Seq<char>>,
    mi: int,
    x: int,
    c: int,
    d: int,
) -> bool {
    c != d && exists|t: int, j: int|
        #![trigger static_targets(g, g.records()[mi].dependencies)[t], ev[j]]
        {
            &&& 0 <= t < x
            &&& 0 <= j < ev.len()
            &&& static_targets(g, g.records()[mi].dependencies)[t] == ev[j]
            &&& anchor_of(root, ev, j) == d
            &&& cand(g, root, ev, g.records()[mi].uri, c)
        }
}

/// Justification grows with the record prefix.
pub proof fn lemma_redge_upto_mono(
    g: ModuleGraph,
    root: Seq<char>,
    ev: Seq<Seq<char>>,
    mi: int,
    c: int,
    d: int,
)
    requires
        redge_upto(g, root, ev, mi, c, d),
    ensures
        redge_upto(g, root, ev, mi + 1, c, d),
{
    let (i, j) = choose|i: int, j: int|
        {
            &&& 0 <= i < mi
            &&& 0 <= j < ev.len()
            &&& static_targets(g, (#[trigger] g.records()[i]).dependencies).contains(
                #[trigger] ev[j],
            )
            &&& anchor_of(root, ev, j) == d
            &&& cand(g, root, ev, g.records()[i].uri, c)
        };
    assert(0 <= i < mi + 1 && static_targets(g, g.records()[i].dependencies).contains(ev[j]));
}

/// Justification grows with the dependency prefix.
pub proof fn lemma_redge_mid_mono(
    g: ModuleGraph,
    root: Seq<char>,
    ev: Seq<Seq<char>>,
    mi: int,
    x: int,
    c: int,
    d: int,
)
    requires
        redge_mid(g, root, ev, mi, x, c, d),
    ensures
        redge_mid(g, root, ev, mi, x + 1, c, d),
{
    let (t, j) = choose|t: int, j: int|
        #![trigger static_targets(g, g.records()[mi].dependencies)[t], ev[j]]
        {
            &&& 0 <= t < x
            &&& 0 <= j < ev.len()
            &&& static_targets(g, g.records()[mi].dependencies)[t] == ev[j]
            &&& anchor_of(root, ev, j) == d
            &&& cand(g, root, ev, g.records()[mi].uri, c)
        };
    assert(0 <= t < x + 1 && static_targets(g, g.records()[mi].dependencies)[t] == ev[j]);
}

/// Justification by every record is exactly the chunk relation.
pub proof fn lemma_redge_full(g: ModuleGraph, root: Seq<char>, ev: Seq<Seq<char>>, c: int, d: int)
    requires
        g.wf(),
    ensures
        redge(g, root, ev, c, d) == redge_upto(g, root, ev, g.records().len() as int, c, d),
{
    let n = g.records().len() as int;
    if redge(g, root, ev, c, d) {
        let (m, j) = choose|m: Seq<char>, j: int|
            {
                &&& g.contains_uri(m)
                &&& 0 <= j < ev.len()
                &&& static_targets(g, #[trigger] g.rec_at(m).dependencies).contains(
                    #[trigger] ev[j],
                )
                &&& anchor_of(root, ev, j) == d
                &&& cand(g, root, ev, m, c)
            };
        let i = uri_idx(g.records(), m);
        crate::module_graph::lemma_uri_idx(g.records(), m, choose|i2: int|
            0 <= i2 < g.records().len() && g.records()[i2].uri == m);
        assert(g.records()[i].uri == m);
        assert(g.rec_at(m) == g.records()[i]);
        assert(redge_upto(g, root, ev, n, c, d));
    }
    if redge_upto(g, root, ev, n, c, d) {
        let (i, j) = choose|i: int, j: int|
            {
                &&& 0 <= i < n
                &&& 0 <= j < ev.len()
                &&& static_targets(g, (#[trigger] g.records()[i]).dependencies).contains(
                    #[trigger] ev[j],
                )
                &&& anchor_of(root, ev, j) == d
                &&& cand(g, root, ev, g.records()[i].uri, c)
            };
        let m = g.records()[i].uri;
        crate::module_graph::lemma_uri_idx(g.records(), m, i);
        assert(g.rec_at(m) == g.records()[i]);
        assert(redge(g, root, ev, c, d));
    }
}

/// Splits the closed module graph into chunks: one chunk per entry, every
/// module placed into each undominated candidate chunk, and empty chunks
/// pruned. Dynamic-import edges play no part anywhere: candidacy, the
/// relation graph and placement all walk static edges only.
#[verifier::rlimit(100)]
pub fn split_code(compilation: &mut Compilation)
    requires
        old(compilation).wf(),
        old(compilation).chunk_graph.chunk_views().len() == 0,
    ensures
        final(compilation).wf(),
        final(compilation).options == old(compilation).options,
        final(compilation).entries == old(compilation).entries,
        final(compilation).visited_module_uri == old(compilation).visited_module_uri,
        final(compilation).module_graph == old(compilation).module_graph,
        ({
            let g = old(compilation).module_graph;
            let root = old(compilation).options.root@;
            let ev = entry_uri_list(g, old(compilation).entries@);
            let ids = chunk_id_list(root, ev);
            let cg = final(compilation).chunk_graph;
            &&& forall|x: Seq<char>| #[trigger] cg.has_id(x) ==> ids.contains(x)
            &&& forall|ci: int|
                0 <= ci < ids.len() ==> (cg.has_id(#[trigger] ids[ci]) <==> exists|u: Seq<char>|
                    placed(g, root, ev, u, ci))
            &&& forall|ci: int, u: Seq<char>|
                #![trigger cg.chunk_at(ids[ci]).members.contains(u)]
                0 <= ci < ids.len() && cg.has_id(ids[ci]) ==> (cg.chunk_at(
                    ids[ci],
                ).members.contains(u) <==> placed(g, root, ev, u, ci))
            &&& forall|ci: int|
                0 <= ci < ids.len() && cg.has_id(#[trigger] ids[ci]) ==> cg.chunk_at(
                    ids[ci],
                ).kind is Entry && exists|j: int|
                    0 <= j < ev.len() && anchor_of(root, ev, j) == ci && cg.chunk_at(
                        ids[ci],
                    ).entry_uri == ev[j]
        }),
{
    let ghost g = old(compilation).module_graph;
    let ghost root = old(compilation).options.root@;
    let eus = collect_entry_uris(compilation);
    let ghost ev = str_views(eus@);
    let ghost ids_spec = chunk_id_list(root, ev);
    let en = eus.len();

    // Entry chunk creation: one chunk per distinct id; entries whose paths
    // flatten to an id already taken share that chunk.
    let mut gen = ChunkIdGenerator {
        id: 0,
        chunk_id_algo: ChunkIdAlgo::Named,
        root: compilation.options.root.clone(),
    };
    let mut ids: Vec<String> = Vec::new();
    let mut anchor: Vec<usize> = Vec::new();
    let ghost idf = |e: Seq<char>| named_chunk_id(root, e);
    let mut j: usize = 0;
    while j < en
        invariant
            old(compilation).wf(),
            compilation.options == old(compilation).options,
            compilation.entries == old(compilation).entries,
            compilation.visited_module_uri == old(compilation).visited_module_uri,
            compilation.module_graph == g,
            g == old(compilation).module_graph,
            root == old(compilation).options.root@,
            gen.chunk_id_algo is Named,
            gen.root@ == root,
            en == eus@.len(),
            ev == str_views(eus@),
            ev.no_duplicates(),
            idf == (|e: Seq<char>| named_chunk_id(root, e)),
            j <= en,
            str_views(ids@) == dedup(ev.map_values(idf).take(j as int)),
            anchor@.len() == j,
            forall|x: int|
                0 <= x < j ==> (#[trigger] anchor@[x]) < ids@.len() && str_views(
                    ids@,
                )[anchor@[x] as int] == named_chunk_id(root, ev[x]),
            compilation.chunk_graph.wf(),
            compilation.chunk_graph.chunk_views().len() == ids@.len(),
            forall|ci: int|
                0 <= ci < ids@.len() ==> {
                    &&& (#[trigger] compilation.chunk_graph.chunk_views()[ci]).id == str_views(
                        ids@,
                    )[ci]
                    &&& compilation.chunk_graph.chunk_views()[ci].members.len() == 0
                    &&& compilation.chunk_graph.chunk_views()[ci].kind is Entry
                    &&& exists|x: int|
                        0 <= x < j && (#[trigger] anchor@[x]) as int == ci
                            && compilation.chunk_graph.chunk_views()[ci].entry_uri == ev[x]
                },
        decreases en - j,
    {
        let id = gen.gen_id(eus[j].as_str());
        proof {
            let mapped = ev.map_values(idf);
            assert(mapped.take(j + 1 as int).drop_last() =~= mapped.take(j as int));
            assert(mapped.take(j + 1 as int).last() == mapped[j as int]);
            assert(mapped[j as int] == named_chunk_id(root, ev[j as int]));
            assert(id@ == named_chunk_id(root, ev[j as int]));
        }
        let ghost old_ids = str_views(ids@);
        let ghost old_anchor = anchor@;
        match position_str(&ids, id.as_str()) {
            Some(ci) => {
                anchor.push(ci);
                proof {
                    let mapped = ev.map_values(idf);
                    assert(old_ids.contains(mapped[j as int])) by {
                        assert(old_ids[ci as int] == mapped[j as int]);
                    }
                    lemma_dedup(mapped.take(j as int));
                    assert(mapped.take(j as int).contains(mapped.take(j + 1 as int).last()));
                    assert(str_views(ids@) == dedup(mapped.take(j + 1 as int)));
                    assert forall|ci2: int|
                        #![trigger compilation.chunk_graph.chunk_views()[ci2]]
                        0 <= ci2 < ids@.len() implies exists|x: int|
                        0 <= x < j + 1 && (#[trigger] anchor@[x]) as int == ci2
                            && compilation.chunk_graph.chunk_views()[ci2].entry_uri == ev[x] by {
                        let x0 = choose|x0: int|
                            0 <= x0 < j && (#[trigger] old_anchor[x0]) as int == ci2
                                && compilation.chunk_graph.chunk_views()[ci2].entry_uri == ev[x0];
                        assert(anchor@[x0] == old_anchor[x0]);
                    }
                }
            },
            None => {
                let ci = ids.len();
                anchor.push(ci);
                let entry_uri = eus[j].clone();
                let name = eus[j].clone();
                let chunk = Chunk::new(id.clone(), entry_uri, ChunkKind::Entry { name });
                proof {
                    assert(!compilation.chunk_graph.has_id(id@)) by {
                        if compilation.chunk_graph.has_id(id@) {
                            let w = choose|w: int|
                                0 <= w < compilation.chunk_graph.chunk_views().len()
                                    && compilation.chunk_graph.chunk_views()[w].id == id@;
                            assert(str_views(ids@)[w] == id@);
                            assert(str_views(ids@).contains(id@));
                        }
                    }
                    assert(!compilation.chunk_graph.has_entry(ev[j as int])) by {
                        if compilation.chunk_graph.has_entry(ev[j as int]) {
                            let w = choose|w: int|
                                0 <= w < compilation.chunk_graph.chunk_views().len()
                                    && compilation.chunk_graph.chunk_views()[w].entry_uri
                                    == ev[j as int];
                            let x = choose|x: int|
                                0 <= x < j && (#[trigger] anchor@[x]) as int == w
                                    && compilation.chunk_graph.chunk_views()[w].entry_uri == ev[x];
                            assert(ev[x] == ev[j as int]);
                            assert(ev.no_duplicates());
                        }
                    }
                }
                compilation.chunk_graph.add_chunk(chunk);
                ids.push(id);
                proof {
                    let mapped = ev.map_values(idf);
                    lemma_dedup(mapped.take(j as int));
                    assert(!mapped.take(j as int).contains(mapped.take(j + 1 as int).last())) by {
                        if mapped.take(j as int).contains(mapped[j as int]) {
                            assert(old_ids.contains(id@));
                            let w = choose|w: int|
                                0 <= w < old_ids.len() && old_ids[w] == id@;
                            assert(str_views(ids@)[w] == id@);
                        }
                    }
                    assert(str_views(ids@) =~= old_ids.push(id@));
                    assert(str_views(ids@) == dedup(mapped.take(j + 1 as int)));
                    assert forall|ci2: int|
                        0 <= ci2 < ids@.len() implies {
                        &&& (#[trigger] compilation.chunk_graph.chunk_views()[ci2]).id
                            == str_views(ids@)[ci2]
                        &&& compilation.chunk_graph.chunk_views()[ci2].members.len() == 0
                        &&& compilation.chunk_graph.chunk_views()[ci2].kind is Entry
                        &&& exists|x: int|
                            0 <= x < j + 1 && (#[trigger] anchor@[x]) as int == ci2
                                && compilation.chunk_graph.chunk_views()[ci2].entry_uri == ev[x]
                    } by {
                        if ci2 < old_ids.len() {
                            let x0 = choose|x0: int|
                                0 <= x0 < j && (#[trigger] old_anchor[x0]) as int == ci2
                                    && compilation.chunk_graph.chunk_views()[ci2].entry_uri
                                    == ev[x0];
                            assert(anchor@[x0] == old_anchor[x0]);
                        } else {
                            assert(compilation.chunk_graph.chunk_views()[ci2]
                                == compilation.chunk_graph.chunk_views().last());
                            assert((anchor@[j as int]) as int == ci2);
                        }
                    }
                }
            },
        }
        j = j + 1;
    }
    proof {
        assert(ev.map_values(idf).take(en as int) =~= ev.map_values(idf));
        assert(str_views(ids@) == ids_spec);
        lemma_dedup(ev.map_values(idf));
        assert forall|x: int| 0 <= x < en implies anchor_of(root, ev, x) == (
        #[trigger] anchor@[x]) as int by {
            lemma_anchor_at(root, ev, x, anchor@[x] as int);
        }
    }
    let ghost cg1 = compilation.chunk_graph;

    // Candidacy: per entry, the set of modules its chunk statically
    // reaches.
    let mut rlists: Vec<Vec<String>> = Vec::new();
    let mut j2: usize = 0;
    while j2 < en
        invariant
            g.wf(),
            compilation.module_graph == g,
            en == eus@.len(),
            ev == str_views(eus@),
            forall|k: int| 0 <= k < en ==> g.contains_uri(#[trigger] ev[k]),
            j2 <= en,
            rlists@.len() == j2,
            forall|x: int, u: Seq<char>|
                #![trigger str_views(rlists@[x]@).contains(u)]
                0 <= x < j2 ==> (str_views(rlists@[x]@).contains(u) <==> reaches(g, ev[x], u)),
        decreases en - j2,
    {
        proof {
            assert(ev[j2 as int] == eus@[j2 as int]@);
            assert(g.contains_uri(ev[j2 as int]));
        }
        let l = static_reachable(&compilation.module_graph, eus[j2].as_str());
        proof {
            assert forall|u: Seq<char>|
                str_views(l@).contains(u) implies reaches(g, ev[j2 as int], u) by {
                let w = choose|w: int| 0 <= w < str_views(l@).len() && str_views(l@)[w] == u;
            }
        }
        rlists.push(l);
        j2 = j2 + 1;
    }

    // Chunk relation graph: for every module, each static edge onto an
    // entry's anchor module relates each of the module's candidate chunks
    // to that anchor's chunk.
    let mut rg = relation_graph_new();
    let mods = compilation.module_graph.modules();
    let mn = mods.len();
    let mut mi: usize = 0;
    while mi < mn
        invariant
            g.wf(),
            compilation.module_graph == g,
            en == eus@.len(),
            ev == str_views(eus@),
            forall|k: int| 0 <= k < en ==> g.contains_uri(#[trigger] ev[k]),
            mn == mods@.len(),
            mn == g.records().len(),
            ev.no_duplicates(),
            forall|i: int| 0 <= i < mn ==> #[trigger] mods@[i]@ == g.records()[i],
            anchor@.len() == en,
            forall|x: int| 0 <= x < en ==> anchor_of(root, ev, x) == (#[trigger] anchor@[x]) as int,
            rlists@.len() == en,
            forall|x: int, u: Seq<char>|
                #![trigger str_views(rlists@[x]@).contains(u)]
                0 <= x < en ==> (str_views(rlists@[x]@).contains(u) <==> reaches(g, ev[x], u)),
            mi <= mn,
            forall|c: int, d: int| #[trigger]
                relation_edges(rg).contains((c, d)) <==> redge_upto(g, root, ev, mi as int, c, d),
        decreases mn - mi,
    {
        let dep_mods = mods[mi].depended_modules(&compilation.module_graph);
        let ghost ts = static_targets(g, g.records()[mi as int].dependencies);
        let ghost mu = g.records()[mi as int].uri;
        let m_uri: String = mods[mi].uri.clone();
        proof {
            assert(mods@[mi as int]@ == g.records()[mi as int]);
            assert(m_uri@ == mu);
            assert(ts == static_targets(g, mods@[mi as int]@.dependencies));
            crate::module_graph::lemma_static_targets_contained(
                g,
                g.records()[mi as int].dependencies,
            );
        }
        let tn = dep_mods.len();
        let mut x: usize = 0;
        while x < tn
            invariant
                g.wf(),
                compilation.module_graph == g,
                en == eus@.len(),
                ev == str_views(eus@),
                forall|k: int| 0 <= k < en ==> g.contains_uri(#[trigger] ev[k]),
                mn == g.records().len(),
                mi < mn,
                ev.no_duplicates(),
                anchor@.len() == en,
                forall|x2: int|
                    0 <= x2 < en ==> anchor_of(root, ev, x2) == (#[trigger] anchor@[x2]) as int,
                rlists@.len() == en,
                forall|x2: int, u: Seq<char>|
                    #![trigger str_views(rlists@[x2]@).contains(u)]
                    0 <= x2 < en ==> (str_views(rlists@[x2]@).contains(u) <==> reaches(g, ev[x2], u)),
                tn == dep_mods@.len(),
                tn == ts.len(),
                forall|k: int| 0 <= k < tn ==> #[trigger] dep_mods@[k]@ == g.rec_at(ts[k]),
                forall|k: int| 0 <= k < tn ==> g.contains_uri(#[trigger] ts[k]),
                ts == static_targets(g, g.records()[mi as int].dependencies),
                mu == g.records()[mi as int].uri,
                m_uri@ == mu,
                x <= tn,
                forall|c: int, d: int| #[trigger]
                    relation_edges(rg).contains((c, d)) <==> (redge_upto(g, root, ev, mi as int, c, d)
                        || redge_mid(g, root, ev, mi as int, x as int, c, d)),
            decreases tn - x,
        {
            let t: String = dep_mods[x].uri.clone();
            proof {
                assert(dep_mods@[x as int]@ == g.rec_at(ts[x as int]));
                let idx = uri_idx(g.records(), ts[x as int]);
                assert(g.records()[idx].uri == ts[x as int]);
                assert(t@ == ts[x as int]);
            }
            match position_str(&eus, t.as_str()) {
                Some(jj) => {
                    let d = anchor[jj];
                    proof {
                        assert(ev[jj as int] == ts[x as int]);
                        assert(anchor_of(root, ev, jj as int) == d as int);
                    }
                    let ghost pre_edges = relation_edges(rg);
                    let mut j3: usize = 0;
                    while j3 < en
                        invariant
                            g.wf(),
                            en == eus@.len(),
                            ev == str_views(eus@),
                            anchor@.len() == en,
                            forall|x2: int|
                                0 <= x2 < en ==> anchor_of(root, ev, x2) == (
                                #[trigger] anchor@[x2]) as int,
                            rlists@.len() == en,
                            forall|x2: int, u: Seq<char>|
                                #![trigger str_views(rlists@[x2]@).contains(u)]
                                0 <= x2 < en ==> (str_views(rlists@[x2]@).contains(u) <==> reaches(g, ev[x2], u)),
                            mu == g.records()[mi as int].uri,
                            m_uri@ == mu,
                            mi < mn,
                            mn == g.records().len(),
                            jj < en,
                            d == anchor@[jj as int],
                            j3 <= en,
                            forall|c2: int, d2: int| #[trigger]
                                relation_edges(rg).contains((c2, d2)) <==> (pre_edges.contains(
                                    (c2, d2),
                                ) || (d2 == d as int && c2 != d2 && exists|j4: int|
                                    0 <= j4 < j3 && reaches(g, #[trigger] ev[j4], mu) && (
                                    anchor@[j4] as int) == c2)),
                        decreases en - j3,
                    {
                        let keep = contains_str(&rlists[j3], m_uri.as_str());
                        let ghost before = relation_edges(rg);
                        let c = anchor[j3];
                        if keep && c != d {
                            relation_graph_add_edge(&mut rg, c, d);
                        }
                        proof {
                            assert forall|c2: int, d2: int| #[trigger]
                                relation_edges(rg).contains((c2, d2)) <==> (pre_edges.contains(
                                    (c2, d2),
                                ) || (d2 == d as int && c2 != d2 && exists|j4: int|
                                    0 <= j4 < j3 + 1 && reaches(g, #[trigger] ev[j4], mu) && (
                                    anchor@[j4] as int) == c2)) by {
                                if relation_edges(rg).contains((c2, d2)) {
                                    if before.contains((c2, d2)) {
                                        if !pre_edges.contains((c2, d2)) {
                                            let j4 = choose|j4: int|
                                                0 <= j4 < j3 && reaches(g, #[trigger] ev[j4], mu)
                                                    && (anchor@[j4] as int) == c2;
                                            assert(0 <= j4 < j3 + 1 && reaches(g, ev[j4], mu) && (
                                            anchor@[j4] as int) == c2);
                                        }
                                    } else {
                                        assert(keep && c != d);
                                        assert((c2, d2) == (c as int, d as int));
                                        assert(str_views(rlists@[j3 as int]@).contains(mu));
                                        assert(reaches(g, ev[j3 as int], mu));
                                        assert(0 <= (j3 as int) && (j3 as int) < j3 + 1 && reaches(
                                            g,
                                            ev[j3 as int],
                                            mu,
                                        ) && (anchor@[j3 as int] as int) == c2);
                                    }
                                }
                                if pre_edges.contains((c2, d2)) {
                                    assert(before.contains((c2, d2)));
                                    assert(relation_edges(rg).contains((c2, d2)));
                                }
                                if d2 == d as int && c2 != d2 && exists|j4: int|
                                    0 <= j4 < j3 + 1 && reaches(g, #[trigger] ev[j4], mu) && (
                                    anchor@[j4] as int) == c2 {
                                    let j4 = choose|j4: int|
                                        0 <= j4 < j3 + 1 && reaches(g, #[trigger] ev[j4], mu) && (
                                        anchor@[j4] as int) == c2;
                                    if j4 < j3 as int {
                                        assert(before.contains((c2, d2)));
                                        assert(relation_edges(rg).contains((c2, d2)));
                                    } else {
                                        assert(j4 == j3 as int);
                                        assert(str_views(rlists@[j3 as int]@).contains(mu));
                                        assert(keep);
                                        assert(c2 == c as int && c as int != d as int);
                                        assert(relation_edges(rg).contains((c as int, d as int)));
                                    }
                                }
                            }
                        }
                        j3 = j3 + 1;
                    }
                    proof {
                        assert forall|c2: int, d2: int| #[trigger]
                            relation_edges(rg).contains((c2, d2)) <==> (redge_upto(
                                g,
                                root,
                                ev,
                                mi as int,
                                c2,
                                d2,
                            ) || redge_mid(g, root, ev, mi as int, x + 1 as int, c2, d2)) by {
                            if relation_edges(rg).contains((c2, d2)) && pre_edges.contains(
                                (c2, d2),
                            ) && !redge_upto(g, root, ev, mi as int, c2, d2) {
                                lemma_redge_mid_mono(g, root, ev, mi as int, x as int, c2, d2);
                            }
                            if relation_edges(rg).contains((c2, d2)) && !pre_edges.contains(
                                (c2, d2),
                            ) {
                                let j4 = choose|j4: int|
                                    0 <= j4 < en && reaches(g, #[trigger] ev[j4], mu) && (
                                    anchor@[j4] as int) == c2;
                                assert(cand(g, root, ev, mu, c2)) by {
                                    assert(0 <= j4 < ev.len() && reaches(g, ev[j4], mu)
                                        && anchor_of(root, ev, j4) == c2);
                                }
                                assert(static_targets(
                                    g,
                                    g.records()[mi as int].dependencies,
                                )[x as int] == ev[jj as int]);
                                assert(redge_mid(g, root, ev, mi as int, x + 1 as int, c2, d2));
                            }
                            if redge_mid(g, root, ev, mi as int, x + 1 as int, c2, d2)
                                && !redge_mid(g, root, ev, mi as int, x as int, c2, d2) {
                                let (t2, j5) = choose|t2: int, j5: int|
                                    0 <= t2 < x + 1 && 0 <= j5 < ev.len() && static_targets(
                                        g,
                                        g.records()[mi as int].dependencies,
                                    )[t2] == ev[j5] && anchor_of(root, ev, j5) == d2 && cand(
                                        g,
                                        root,
                                        ev,
                                        g.records()[mi as int].uri,
                                        c2,
                                    );
                                assert(t2 == x as int);
                                assert(ev[j5] == ts[x as int] && ev[jj as int] == ts[x as int]);
                                assert(j5 == jj as int) by {
                                    if j5 != jj as int {
                                        assert(ev.no_duplicates());
                                    }
                                }
                                assert(d2 == d as int);
                                let j6 = choose|j6: int|
                                    0 <= j6 < ev.len() && reaches(g, #[trigger] ev[j6], mu)
                                        && anchor_of(root, ev, j6) == c2;
                                assert(str_views((rlists@[j6])@).contains(mu));
                                assert(relation_edges(rg).contains((c2, d2))) by {
                                    assert(0 <= j6 < en && reaches(g, ev[j6], mu) && (
                                    anchor@[j6] as int) == c2);
                                }
                            }
                        }
                    }
                },
                None => {
                    proof {
                        assert forall|c2: int, d2: int| #[trigger]
                            relation_edges(rg).contains((c2, d2)) <==> (redge_upto(
                                g,
                                root,
                                ev,
                                mi as int,
                                c2,
                                d2,
                            ) || redge_mid(g, root, ev, mi as int, x + 1 as int, c2, d2)) by {
                            if relation_edges(rg).contains((c2, d2)) && !redge_upto(
                                g,
                                root,
                                ev,
                                mi as int,
                                c2,
                                d2,
                            ) {
                                lemma_redge_mid_mono(g, root, ev, mi as int, x as int, c2, d2);
                            }
                            if redge_mid(g, root, ev, mi as int, x + 1 as int, c2, d2)
                                && !redge_mid(g, root, ev, mi as int, x as int, c2, d2) {
                                let (t2, j5) = choose|t2: int, j5: int|
                                    0 <= t2 < x + 1 && 0 <= j5 < ev.len() && static_targets(
                                        g,
                                        g.records()[mi as int].dependencies,
                                    )[t2] == ev[j5] && anchor_of(root, ev, j5) == d2 && cand(
                                        g,
                                        root,
                                        ev,
                                        g.records()[mi as int].uri,
                                        c2,
                                    );
                                assert(t2 == x as int);
                                assert(ev[j5] == ts[x as int]);
                                assert(str_views(eus@)[j5] == ts[x as int]);
                                assert(str_views(eus@).contains(ts[x as int]));
                            }
                        }
                    }
                },
            }
            x = x + 1;
        }
        proof {
            assert forall|c2: int, d2: int| #[trigger]
                relation_edges(rg).contains((c2, d2)) <==> redge_upto(
                    g,
                    root,
                    ev,
                    mi + 1 as int,
                    c2,
                    d2,
                ) by {
                if relation_edges(rg).contains((c2, d2)) {
                    if redge_upto(g, root, ev, mi as int, c2, d2) {
                        lemma_redge_upto_mono(g, root, ev, mi as int, c2, d2);
                    }
                    if redge_mid(g, root, ev, mi as int, tn as int, c2, d2) {
                        let (t2, j5) = choose|t2: int, j5: int|
                            0 <= t2 < tn as int && 0 <= j5 < ev.len() && static_targets(
                                g,
                                g.records()[mi as int].dependencies,
                            )[t2] == ev[j5] && anchor_of(root, ev, j5) == d2 && cand(
                                g,
                                root,
                                ev,
                                g.records()[mi as int].uri,
                                c2,
                            );
                        assert(static_targets(
                            g,
                            g.records()[mi as int].dependencies,
                        ).contains(ev[j5]));
                        assert(redge_upto(g, root, ev, mi + 1 as int, c2, d2));
                    }
                }
                if redge_upto(g, root, ev, mi + 1 as int, c2, d2) && !redge_upto(
                    g,
                    root,
                    ev,
                    mi as int,
                    c2,
                    d2,
                ) {
                    let (i5, j5) = choose|i5: int, j5: int|
                        {
                            &&& 0 <= i5 < mi + 1
                            &&& 0 <= j5 < ev.len()
                            &&& static_targets(
                                g,
                                (#[trigger] g.records()[i5]).dependencies,
                            ).contains(#[trigger] ev[j5])
                            &&& anchor_of(root, ev, j5) == d2
                            &&& cand(g, root, ev, g.records()[i5].uri, c2)
                        };
                    assert(i5 == mi as int);
                    let t2 = choose|t2: int|
                        0 <= t2 < ts.len() && ts[t2] == ev[j5];
                    assert(redge_mid(g, root, ev, mi as int, tn as int, c2, d2));
                }
            }
        }
        mi = mi + 1;
    }
    proof {
        assert forall|c2: int, d2: int| #[trigger]
            relation_edges(rg).contains((c2, d2)) <==> redge(g, root, ev, c2, d2) by {
            lemma_redge_full(g, root, ev, c2, d2);
        }
    }

    // Placement with dominance pruning: each module goes into every
    // candidate chunk that is not related onto a sibling candidate.
    let mut mi2: usize = 0;
    while mi2 < mn
        invariant
            g.wf(),
            compilation.module_graph == g,
            old(compilation).wf(),
            compilation.options == old(compilation).options,
            compilation.entries == old(compilation).entries,
            compilation.visited_module_uri == old(compilation).visited_module_uri,
            g == old(compilation).module_graph,
            root == old(compilation).options.root@,
            en == eus@.len(),
            ev == str_views(eus@),
            ids_spec == str_views(ids@),
            mn == mods@.len(),
            mn == g.records().len(),
            forall|i: int| 0 <= i < mn ==> #[trigger] mods@[i]@ == g.records()[i],
            anchor@.len() == en,
            forall|x2: int|
                0 <= x2 < en ==> anchor_of(root, ev, x2) == (#[trigger] anchor@[x2]) as int && (
                #[trigger] anchor@[x2]) < ids@.len(),
            rlists@.len() == en,
            forall|x2: int, u: Seq<char>|
                #![trigger str_views(rlists@[x2]@).contains(u)]
                0 <= x2 < en ==> (str_views(rlists@[x2]@).contains(u) <==> reaches(g, ev[x2], u)),
            forall|c2: int, d2: int| #[trigger]
                relation_edges(rg).contains((c2, d2)) <==> redge(g, root, ev, c2, d2),
            mi2 <= mn,
            compilation.chunk_graph.wf(),
            compilation.chunk_graph.chunk_views().len() == ids@.len(),
            forall|ci: int|
                0 <= ci < ids@.len() ==> {
                    &&& (#[trigger] compilation.chunk_graph.chunk_views()[ci]).id
                        == ids_spec[ci]
                    &&& compilation.chunk_graph.chunk_views()[ci].kind is Entry
                    &&& exists|x2: int|
                        0 <= x2 < en && (#[trigger] anchor@[x2]) as int == ci
                            && compilation.chunk_graph.chunk_views()[ci].entry_uri == ev[x2]
                },
            forall|ci: int, u: Seq<char>|
                #![trigger compilation.chunk_graph.chunk_views()[ci].members.contains(u)]
                0 <= ci < ids@.len() ==> ((compilation.chunk_graph.chunk_views()[ci]).members.contains(
                    u,
                ) <==> exists|i: int|
                    0 <= i < mi2 && (#[trigger] g.records()[i]).uri == u && placed(
                        g,
                        root,
                        ev,
                        u,
                        ci,
                    )),
        decreases mn - mi2,
    {
        let u_str: String = mods[mi2].uri.clone();
        let ghost mu = g.records()[mi2 as int].uri;
        proof {
            assert(mods@[mi2 as int]@ == g.records()[mi2 as int]);
            assert(u_str@ == mu);
        }
        let mut clist: Vec<usize> = Vec::new();
        let mut j4: usize = 0;
        while j4 < en
            invariant
                g.wf(),
                en == eus@.len(),
                ev == str_views(eus@),
                anchor@.len() == en,
                forall|x2: int|
                    0 <= x2 < en ==> anchor_of(root, ev, x2) == (#[trigger] anchor@[x2]) as int && (
                    #[trigger] anchor@[x2]) < ids@.len(),
                rlists@.len() == en,
                forall|x2: int, u: Seq<char>|
                    #![trigger str_views(rlists@[x2]@).contains(u)]
                    0 <= x2 < en ==> (str_views(rlists@[x2]@).contains(u) <==> reaches(g, ev[x2], u)),
                u_str@ == mu,
                j4 <= en,
                clist@.no_duplicates(),
                forall|cu: usize|
                    clist@.contains(cu) <==> exists|j5: int|
                        0 <= j5 < j4 && reaches(g, #[trigger] ev[j5], mu) && anchor@[j5] == cu,
                forall|k: int| 0 <= k < clist@.len() ==> (#[trigger] clist@[k]) < ids@.len(),
            decreases en - j4,
        {
            if contains_str(&rlists[j4], u_str.as_str()) {
                let c = anchor[j4];
                if !contains_usize(&clist, c) {
                    let ghost old_clist = clist@;
                    clist.push(c);
                    proof {
                        assert(clist@ =~= old_clist.push(c));
                        assert forall|cu: usize|
                            clist@.contains(cu) <==> exists|j5: int|
                                0 <= j5 < j4 + 1 && reaches(g, #[trigger] ev[j5], mu)
                                    && anchor@[j5] == cu by {
                            if clist@.contains(cu) {
                                if old_clist.contains(cu) {
                                } else {
                                    assert(clist@.last() == cu);
                                    assert(cu == c);
                                    assert(0 <= (j4 as int) && (j4 as int) < j4 + 1 && reaches(g, ev[j4 as int], mu)
                                        && anchor@[j4 as int] == cu);
                                }
                            }
                            if exists|j5: int|
                                0 <= j5 < j4 + 1 && reaches(g, #[trigger] ev[j5], mu)
                                    && anchor@[j5] == cu {
                                let j5 = choose|j5: int|
                                    0 <= j5 < j4 + 1 && reaches(g, #[trigger] ev[j5], mu)
                                        && anchor@[j5] == cu;
                                if j5 < j4 as int {
                                    assert(old_clist.contains(cu));
                                    let w = choose|w: int|
                                        0 <= w < old_clist.len() && old_clist[w] == cu;
                                    assert(clist@[w] == cu);
                                } else {
                                    assert(clist@.last() == cu);
                                }
                            }
                        }
                    }
                } else {
                    proof {
                        assert forall|cu: usize|
                            clist@.contains(cu) <==> exists|j5: int|
                                0 <= j5 < j4 + 1 && reaches(g, #[trigger] ev[j5], mu)
                                    && anchor@[j5] == cu by {
                            if exists|j5: int|
                                0 <= j5 < j4 + 1 && reaches(g, #[trigger] ev[j5], mu)
                                    && anchor@[j5] == cu {
                                let j5 = choose|j5: int|
                                    0 <= j5 < j4 + 1 && reaches(g, #[trigger] ev[j5], mu)
                                        && anchor@[j5] == cu;
                                if j5 == j4 as int {
                                    assert(clist@.contains(anchor@[j4 as int]));
                                }
                            }
                        }
                    }
                }
            } else {
                proof {
                    assert forall|cu: usize|
                        clist@.contains(cu) <==> exists|j5: int|
                            0 <= j5 < j4 + 1 && reaches(g, #[trigger] ev[j5], mu) && anchor@[j5]
                                == cu by {
                        if exists|j5: int|
                            0 <= j5 < j4 + 1 && reaches(g, #[trigger] ev[j5], mu) && anchor@[j5]
                                == cu {
                            let j5 = choose|j5: int|
                                0 <= j5 < j4 + 1 && reaches(g, #[trigger] ev[j5], mu)
                                    && anchor@[j5] == cu;
                            assert(j5 != j4 as int);
                        }
                    }
                }
            }
            j4 = j4 + 1;
        }
        proof {
            assert forall|ci: int| #[trigger]
                cand(g, root, ev, mu, ci) <==> exists|cu: usize|
                    clist@.contains(cu) && cu as int == ci by {
                if cand(g, root, ev, mu, ci) {
                    let j5 = choose|j5: int|
                        0 <= j5 < ev.len() && reaches(g, ev[j5], mu) && anchor_of(root, ev, j5)
                            == ci;
                    assert(anchor@[j5] as int == ci);
                    assert(clist@.contains(anchor@[j5]));
                }
                if exists|cu: usize| clist@.contains(cu) && cu as int == ci {
                    let cu = choose|cu: usize| clist@.contains(cu) && cu as int == ci;
                    let j5 = choose|j5: int|
                        0 <= j5 < en && reaches(g, #[trigger] ev[j5], mu) && anchor@[j5] == cu;
                    assert(0 <= j5 < ev.len() && reaches(g, ev[j5], mu) && anchor_of(root, ev, j5)
                        == ci);
                }
            }
        }
        let cn = clist.len();
        let mut t: usize = 0;
        while t < cn
            invariant
                g.wf(),
                compilation.module_graph == g,
                old(compilation).wf(),
                compilation.options == old(compilation).options,
                compilation.entries == old(compilation).entries,
                compilation.visited_module_uri == old(compilation).visited_module_uri,
                g == old(compilation).module_graph,
                root == old(compilation).options.root@,
                en == eus@.len(),
                ev == str_views(eus@),
                ids_spec == str_views(ids@),
                mn == g.records().len(),
                mi2 < mn,
                mu == g.records()[mi2 as int].uri,
                u_str@ == mu,
                cn == clist@.len(),
                clist@.no_duplicates(),
                forall|ci: int| #[trigger]
                    cand(g, root, ev, mu, ci) <==> exists|cu: usize|
                        clist@.contains(cu) && cu as int == ci,
                forall|k: int| 0 <= k < cn ==> (#[trigger] clist@[k]) < ids@.len(),
                forall|c2: int, d2: int| #[trigger]
                    relation_edges(rg).contains((c2, d2)) <==> redge(g, root, ev, c2, d2),
                t <= cn,
                compilation.chunk_graph.wf(),
                compilation.chunk_graph.chunk_views().len() == ids@.len(),
                forall|ci: int|
                    0 <= ci < ids@.len() ==> {
                        &&& (#[trigger] compilation.chunk_graph.chunk_views()[ci]).id
                            == ids_spec[ci]
                        &&& compilation.chunk_graph.chunk_views()[ci].kind is Entry
                        &&& exists|x2: int|
                            0 <= x2 < en && (#[trigger] anchor@[x2]) as int == ci
                                && compilation.chunk_graph.chunk_views()[ci].entry_uri == ev[x2]
                    },
                forall|ci: int, u: Seq<char>|
                    #![trigger compilation.chunk_graph.chunk_views()[ci].members.contains(u)]
                    0 <= ci < ids@.len() ==> ((compilation.chunk_graph.chunk_views()[ci]).members.contains(u)
                        <==> (exists|i: int|
                        0 <= i < mi2 && (#[trigger] g.records()[i]).uri == u && placed(
                            g,
                            root,
                            ev,
                            u,
                            ci,
                        )) || (u == mu && placed(g, root, ev, mu, ci) && exists|k: int|
                        0 <= k < t && (#[trigger] clist@[k]) as int == ci)),
        decreases cn - t,
        {
            let c = clist[t];
            let mut dom = false;
            let mut t2: usize = 0;
            while t2 < cn
                invariant
                    cn == clist@.len(),
                    forall|c2: int, d2: int| #[trigger]
                        relation_edges(rg).contains((c2, d2)) <==> redge(g, root, ev, c2, d2),
                    t < cn,
                    c == clist@[t as int],
                    t2 <= cn,
                    dom == exists|k: int|
                        0 <= k < t2 && (#[trigger] clist@[k]) != c && redge(
                            g,
                            root,
                            ev,
                            c as int,
                            clist@[k] as int,
                        ),
                decreases cn - t2,
            {
                if clist[t2] != c {
                    if relation_graph_contains_edge(&rg, c, clist[t2]) {
                        dom = true;
                    }
                }
                t2 = t2 + 1;
            }
            proof {
                assert(dom ==> !placed(g, root, ev, mu, c as int)) by {
                    if dom {
                        let k = choose|k: int|
                            0 <= k < cn as int && (#[trigger] clist@[k]) != c && redge(
                                g,
                                root,
                                ev,
                                c as int,
                                clist@[k] as int,
                            );
                        assert(clist@.contains(clist@[k]));
                        assert(cand(g, root, ev, mu, clist@[k] as int) && clist@[k] as int
                            != c as int && redge(g, root, ev, c as int, clist@[k] as int));
                    }
                }
                assert(!dom && cand(g, root, ev, mu, c as int) ==> placed(
                    g,
                    root,
                    ev,
                    mu,
                    c as int,
                )) by {
                    if !dom {
                        assert forall|d2: int| #[trigger]
                            cand(g, root, ev, mu, d2) && d2 != c as int implies !redge(
                            g,
                            root,
                            ev,
                            c as int,
                            d2,
                        ) by {
                            let cu = choose|cu: usize| clist@.contains(cu) && cu as int == d2;
                            let k = choose|k: int| 0 <= k < clist@.len() && clist@[k] == cu;
                            assert(!(0 <= k < cn as int && (#[trigger] clist@[k]) != c && redge(
                                g,
                                root,
                                ev,
                                c as int,
                                clist@[k] as int,
                            )));
                        }
                    }
                }
            }
            let ghost pre_cg = compilation.chunk_graph;
            if !dom {
                proof {
                    assert(clist@.contains(clist@[t as int]));
                    assert(cand(g, root, ev, mu, c as int));
                    assert(placed(g, root, ev, mu, c as int));
                    assert(compilation.chunk_graph.has_id(ids_spec[c as int])) by {
                        assert(compilation.chunk_graph.chunk_views()[c as int].id
                            == ids_spec[c as int]);
                    }
                    crate::chunk_graph::lemma_chunk_idx(
                        compilation.chunk_graph.chunk_views(),
                        ids_spec[c as int],
                        c as int,
                    );
                }
                let uri_clone = u_str.clone();
                proof {
                    assert(uri_clone@ == mu);
                    assert(ids@[c as int]@ == ids_spec[c as int]);
                }
                match compilation.chunk_graph.chunk_by_id_mut(ids[c].as_str()) {
                    Some(ch) => {
                        proof {
                            assert((*ch)@ == pre_cg.chunk_views()[c as int]);
                            assert((*ch)@.members.no_duplicates());
                        }
                        ch.insert_module(uri_clone);
                    },
                    None => {
                        proof {
                            assert(false);
                        }
                    },
                }
                proof {
                    let now_mems = compilation.chunk_graph.chunk_views()[c as int].members;
                    if !pre_cg.chunk_views()[c as int].members.contains(mu) {
                        assert(now_mems == pre_cg.chunk_views()[c as int].members.push(mu));
                        assert(now_mems[now_mems.len() - 1] == mu);
                    } else {
                        let w = choose|w: int|
                            0 <= w < pre_cg.chunk_views()[c as int].members.len()
                                && pre_cg.chunk_views()[c as int].members[w] == mu;
                        assert(now_mems[w] == mu);
                    }
                    assert(compilation.chunk_graph.chunk_views()[c as int].members.contains(mu));
                    assert(compilation.chunk_graph.wf()) by {
                        assert(compilation.chunk_graph.entry_pairs() == pre_cg.entry_pairs());
                        assert forall|ci: int|
                            0 <= ci < compilation.chunk_graph.chunk_views().len() implies {
                            &&& (#[trigger] compilation.chunk_graph.chunk_views()[ci]).id
                                == pre_cg.chunk_views()[ci].id
                            &&& compilation.chunk_graph.chunk_views()[ci].entry_uri
                                == pre_cg.chunk_views()[ci].entry_uri
                            &&& compilation.chunk_graph.chunk_views()[ci].members.no_duplicates()
                        } by {
                            if ci != c as int {
                                assert(compilation.chunk_graph.chunk_views()[ci]
                                    == pre_cg.chunk_views()[ci]);
                            }
                        }
                    }
                }
            }
            proof {
                assert forall|ci: int, u: Seq<char>|
                    #![trigger compilation.chunk_graph.chunk_views()[ci].members.contains(u)]
                    0 <= ci < ids@.len() implies ((compilation.chunk_graph.chunk_views()[ci]).members.contains(u)
                    <==> (exists|i: int|
                    0 <= i < mi2 && (#[trigger] g.records()[i]).uri == u && placed(
                        g,
                        root,
                        ev,
                        u,
                        ci,
                    )) || (u == mu && placed(g, root, ev, mu, ci) && exists|k: int|
                    0 <= k < t + 1 && (#[trigger] clist@[k]) as int == ci)) by {
                    let pre_mems = pre_cg.chunk_views()[ci].members;
                    let now_mems = compilation.chunk_graph.chunk_views()[ci].members;
                    if ci == c as int && !dom {
                        if u == mu {
                            assert(now_mems.contains(mu));
                            assert(placed(g, root, ev, mu, ci));
                            assert(0 <= (t as int) && (t as int) < t + 1 && clist@[t as int] as int
                                == ci);
                        } else {
                            if now_mems.contains(u) {
                                let w = choose|w: int|
                                    0 <= w < now_mems.len() && now_mems[w] == u;
                                if w < pre_mems.len() {
                                    assert(pre_mems[w] == u);
                                    assert(pre_mems.contains(u));
                                } else {
                                    assert(now_mems[w] == mu);
                                }
                            }
                            if pre_mems.contains(u) {
                                let w = choose|w: int|
                                    0 <= w < pre_mems.len() && pre_mems[w] == u;
                                assert(now_mems[w] == u);
                                assert(now_mems.contains(u));
                            }
                            if exists|k: int|
                                0 <= k < t + 1 && (#[trigger] clist@[k]) as int == ci {
                            }
                        }
                    } else {
                        assert(compilation.chunk_graph.chunk_views()[ci]
                            == pre_cg.chunk_views()[ci]);
                        if u == mu && placed(g, root, ev, mu, ci) && exists|k: int|
                            0 <= k < t + 1 && (#[trigger] clist@[k]) as int == ci {
                            let k = choose|k: int|
                                0 <= k < t + 1 && (#[trigger] clist@[k]) as int == ci;
                            if k == t as int {
                                assert(ci == c as int);
                                assert(dom);
                                assert(!placed(g, root, ev, mu, ci));
                            }
                        }
                    }
                }
            }
            t = t + 1;
        }
        proof {
            assert forall|ci: int, u: Seq<char>|
                #![trigger compilation.chunk_graph.chunk_views()[ci].members.contains(u)]
                0 <= ci < ids@.len() implies ((compilation.chunk_graph.chunk_views()[ci]).members.contains(u) <==> (
                exists|i: int|
                    0 <= i < mi2 + 1 && (#[trigger] g.records()[i]).uri == u && placed(
                        g,
                        root,
                        ev,
                        u,
                        ci,
                    ))) by {
                if compilation.chunk_graph.chunk_views()[ci].members.contains(u) {
                    if u == mu && placed(g, root, ev, mu, ci) {
                        assert(0 <= (mi2 as int) && (mi2 as int) < mi2 + 1 && g.records()[mi2 as int].uri == mu);
                    }
                }
                if exists|i: int|
                    0 <= i < mi2 + 1 && (#[trigger] g.records()[i]).uri == u && placed(
                        g,
                        root,
                        ev,
                        u,
                        ci,
                    ) {
                    let i = choose|i: int|
                        0 <= i < mi2 + 1 && (#[trigger] g.records()[i]).uri == u && placed(
                            g,
                            root,
                            ev,
                            u,
                            ci,
                        );
                    if i == mi2 as int {
                        assert(u == mu);
                        let cu = choose|cu: usize| clist@.contains(cu) && cu as int == ci;
                        let k = choose|k: int| 0 <= k < clist@.len() && clist@[k] == cu;
                        assert(0 <= k < cn as int && (clist@[k]) as int == ci);
                    }
                }
            }
        }
        mi2 = mi2 + 1;
    }

    // Orphan pruning: a chunk no module was placed into disappears.
    let idn = ids.len();
    proof {
        lemma_dedup(ev.map_values(idf));
        assert forall|ci: int|
            0 <= ci < idn implies compilation.chunk_graph.has_id(#[trigger] ids_spec[ci]) by {
            assert(compilation.chunk_graph.chunk_views()[ci].id == ids_spec[ci]);
        }
        assert forall|x: Seq<char>| #[trigger]
            compilation.chunk_graph.has_id(x) implies ids_spec.contains(x) by {
            let w = choose|w: int|
                0 <= w < compilation.chunk_graph.chunk_views().len()
                    && compilation.chunk_graph.chunk_views()[w].id == x;
            assert(ids_spec[w] == x);
        }
        assert forall|ci: int|
            0 <= ci < idn implies compilation.chunk_graph.chunk_at(#[trigger] ids_spec[ci])
            == compilation.chunk_graph.chunk_views()[ci] by {
            crate::chunk_graph::lemma_chunk_idx(
                compilation.chunk_graph.chunk_views(),
                ids_spec[ci],
                ci,
            );
        }
    }
    let mut ci2: usize = 0;
    while ci2 < idn
        invariant
            g.wf(),
            compilation.module_graph == g,
            old(compilation).wf(),
            compilation.options == old(compilation).options,
            compilation.entries == old(compilation).entries,
            compilation.visited_module_uri == old(compilation).visited_module_uri,
            g == old(compilation).module_graph,
            root == old(compilation).options.root@,
            ev == entry_uri_list(g, old(compilation).entries@),
            idn == ids@.len(),
            ids_spec == str_views(ids@),
            ids_spec.no_duplicates(),
            mn == g.records().len(),
            ci2 <= idn,
            compilation.chunk_graph.wf(),
            forall|x: Seq<char>| #[trigger]
                compilation.chunk_graph.has_id(x) ==> ids_spec.contains(x),
            forall|ci: int|
                ci2 <= ci < idn ==> compilation.chunk_graph.has_id(#[trigger] ids_spec[ci]),
            forall|ci: int|
                0 <= ci < ci2 ==> (compilation.chunk_graph.has_id(#[trigger] ids_spec[ci]) <==> exists|u: Seq<char>| placed(g, root, ev, u, ci)),
            forall|ci: int, u: Seq<char>|
                #![trigger compilation.chunk_graph.chunk_at(ids_spec[ci]).members.contains(u)]
                0 <= ci < idn && compilation.chunk_graph.has_id(ids_spec[ci]) ==> (
                compilation.chunk_graph.chunk_at(ids_spec[ci]).members.contains(u) <==> (exists|
                    i: int,
                |
                    0 <= i < mn && (#[trigger] g.records()[i]).uri == u && placed(
                        g,
                        root,
                        ev,
                        u,
                        ci,
                    ))),
            forall|ci: int|
                0 <= ci < idn && compilation.chunk_graph.has_id(#[trigger] ids_spec[ci])
                    ==> compilation.chunk_graph.chunk_at(ids_spec[ci]).kind is Entry && exists|
                    x2: int,
                |
                    0 <= x2 < ev.len() && anchor_of(root, ev, x2) == ci
                        && compilation.chunk_graph.chunk_at(ids_spec[ci]).entry_uri == ev[x2],
        decreases idn - ci2,
    {
        proof {
            assert(ids@[ci2 as int]@ == ids_spec[ci2 as int]);
        }
        let is_empty: bool = match compilation.chunk_graph.chunk_by_id(ids[ci2].as_str()) {
            Some(ch) => {
                proof {
                    assert(ch@.members.len() == ch.module_uris@.len());
                }
                ch.module_uris.len() == 0
            },
            None => {
                proof {
                    assert(false);
                }
                false
            },
        };
        if is_empty {
            let ghost pre_pr = compilation.chunk_graph;
            proof {
                assert(pre_pr.chunk_at(ids_spec[ci2 as int]).members.len() == 0);
            }
            let removed = compilation.chunk_graph.remove_by_id(ids[ci2].as_str());
            proof {
                assert forall|ci: int|
                    0 <= ci < ci2 + 1 implies (compilation.chunk_graph.has_id(
                    #[trigger] ids_spec[ci],
                ) <==> exists|u: Seq<char>| placed(g, root, ev, u, ci)) by {
                    if ci < ci2 as int {
                        assert(ids_spec[ci] != ids_spec[ci2 as int]);
                    } else {
                        assert(!compilation.chunk_graph.has_id(ids_spec[ci2 as int]));
                        if exists|u: Seq<char>| placed(g, root, ev, u, ci2 as int) {
                            let u = choose|u: Seq<char>| placed(g, root, ev, u, ci2 as int);
                            assert(cand(g, root, ev, u, ci2 as int));
                            let j5 = choose|j5: int|
                                0 <= j5 < ev.len() && reaches(g, ev[j5], u) && anchor_of(
                                    root,
                                    ev,
                                    j5,
                                ) == ci2 as int;
                            crate::reachability::lemma_reaches_contained(g, ev[j5], u);
                            let i = uri_idx(g.records(), u);
                            assert(g.records()[i].uri == u);
                            assert(pre_pr.chunk_at(ids_spec[ci2 as int]).members.contains(u));
                            assert(false);
                        }
                    }
                }
            }
        } else {
            proof {
                assert(compilation.chunk_graph.chunk_at(
                    ids_spec[ci2 as int],
                ).members.len() > 0);
                let u = compilation.chunk_graph.chunk_at(ids_spec[ci2 as int]).members[0];
                assert(compilation.chunk_graph.chunk_at(
                    ids_spec[ci2 as int],
                ).members.contains(u));
                let i = choose|i: int|
                    0 <= i < mn as int && (#[trigger] g.records()[i]).uri == u && placed(
                        g,
                        root,
                        ev,
                        u,
                        ci2 as int,
                    );
                assert(exists|u2: Seq<char>| placed(g, root, ev, u2, ci2 as int));
            }
        }
        ci2 = ci2 + 1;
    }
    proof {
        assert forall|ci: int, u: Seq<char>|
            #![trigger compilation.chunk_graph.chunk_at(ids_spec[ci]).members.contains(u)]
            0 <= ci < ids_spec.len() && compilation.chunk_graph.has_id(
                ids_spec[ci],
            ) implies (compilation.chunk_graph.chunk_at(ids_spec[ci]).members.contains(u)
            <==> placed(g, root, ev, u, ci)) by {
            if placed(g, root, ev, u, ci) {
                let j5 = choose|j5: int|
                    0 <= j5 < ev.len() && reaches(g, ev[j5], u) && anchor_of(root, ev, j5) == ci;
                crate::reachability::lemma_reaches_contained(g, ev[j5], u);
                let i = uri_idx(g.records(), u);
                assert(g.records()[i].uri == u);
            }
        }
    }
}

} // verus!
