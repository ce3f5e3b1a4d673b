use vstd::prelude::*;
use vstd::seq_lib::*;
use vstd::set_lib::lemma_len_subset;

use crate::module::ModuleGraphModule;
use crate::module_graph::{
    lemma_static_edge_contained, lemma_static_targets_contained, static_edge,
    static_targets, ModuleGraph,
};
use crate::utils::{contains_str, str_views};

verus! {

/// A walk through the graph along static edges, given by the uris of its
/// nodes.
pub open spec fn is_static_path(g: ModuleGraph, p: Seq<Seq<char>>) -> bool {
    &&& p.len() >= 1
    &&& g.contains_uri(p[0])
    &&& forall|i: int| 0 <= i < p.len() - 1 ==> #[trigger] static_edge(g, p[i], p[i + 1])
}

/// Module `to` is reachable from module `from` along static edges. A module
/// reaches itself.
pub open spec fn reaches(g: ModuleGraph, from: Seq<char>, to: Seq<char>) -> bool {
    exists|p: Seq<Seq<char>>| is_static_path(g, p) && p.first() == from && p.last() == to
}

/// Every module of the graph reaches itself.
pub proof fn lemma_reaches_self(g: ModuleGraph, u: Seq<char>)
    requires
        g.contains_uri(u),
    ensures
        reaches(g, u, u),
{
    let p: Seq<Seq<char>> = seq![u];
    assert(is_static_path(g, p) && p.first() == u && p.last() == u);
}

/// Reachability extends along a static edge.
pub proof fn lemma_reaches_step(g: ModuleGraph, a: Seq<char>, b: Seq<char>, c: Seq<char>)
    requires
        reaches(g, a, b),
        static_edge(g, b, c),
    ensures
        reaches(g, a, c),
{
    let p = choose|p: Seq<Seq<char>>| is_static_path(g, p) && p.first() == a && p.last() == b;
    let q = p.push(c);
    assert forall|i: int| 0 <= i < q.len() - 1 implies #[trigger] static_edge(g, q[i], q[i + 1]) by {
        if i < p.len() - 1 {
            assert(q[i] == p[i] && q[i + 1] == p[i + 1]);
        } else {
            assert(q[i] == b && q[i + 1] == c);
        }
    }
    assert(is_static_path(g, q) && q.first() == a && q.last() == c);
}

/// The end of any static path from `entry` lies in every set of uris that
/// holds `entry` and is closed under static edges.
pub proof fn lemma_closed_covers(
    g: ModuleGraph,
    entry: Seq<char>,
    s: Seq<Seq<char>>,
    p: Seq<Seq<char>>,
)
    requires
        s.contains(entry),
        forall|u: Seq<char>, v: Seq<char>|
            s.contains(u) && #[trigger] static_edge(g, u, v) ==> s.contains(v),
        is_static_path(g, p),
        p.first() == entry,
    ensures
        s.contains(p.last()),
    decreases p.len(),
{
    if p.len() == 1 {
    } else {
        let q = p.drop_last();
        assert(is_static_path(g, q));
        lemma_closed_covers(g, entry, s, q);
        let i0 = p.len() - 2;
        assert(static_edge(g, p[i0], p[i0 + 1]));
        assert(s.contains(p[i0]) && p.last() == p[i0 + 1]);
    }
}

/// A sequence of distinct uris that all lie in the graph is no longer than
/// the graph's record list.
pub proof fn lemma_distinct_uris_bound(g: ModuleGraph, vs: Seq<Seq<char>>)
    requires
        vs.no_duplicates(),
        forall|k: int| 0 <= k < vs.len() ==> g.contains_uri(#[trigger] vs[k]),
    ensures
        vs.len() <= g.records().len(),
{
    broadcast use vstd::seq_lib::seq_to_set_is_finite;
    broadcast use vstd::set::group_set_axioms;

    let uris = g.records().map_values(|r: crate::module::ModuleView| r.uri);
    vs.unique_seq_to_set();
    uris.lemma_cardinality_of_set();
    assert forall|u: Seq<char>| vs.to_set().contains(u) implies uris.to_set().contains(u) by {
        let k = choose|k: int| 0 <= k < vs.len() && vs[k] == u;
        assert(g.contains_uri(vs[k]));
        let i = choose|i: int| 0 <= i < g.records().len() && g.records()[i].uri == u;
        assert(uris[i] == u);
    }
    lemma_len_subset(vs.to_set(), uris.to_set());
}

/// Module `u` is reachable from some seed of `seeds`.
pub open spec fn reachable_from(g: ModuleGraph, seeds: Seq<Seq<char>>, u: Seq<char>) -> bool {
    exists|i: int| 0 <= i < seeds.len() && reaches(g, seeds[i], u)
}

/// Whatever is reachable lies in the graph.
pub proof fn lemma_reaches_contained(g: ModuleGraph, a: Seq<char>, b: Seq<char>)
    requires
        reaches(g, a, b),
    ensures
        g.contains_uri(b),
    decreases 0int,
{
    let p = choose|p: Seq<Seq<char>>| is_static_path(g, p) && p.first() == a && p.last() == b;
    lemma_path_contained(g, p);
}

proof fn lemma_path_contained(g: ModuleGraph, p: Seq<Seq<char>>)
    requires
        is_static_path(g, p),
    ensures
        g.contains_uri(p.last()),
    decreases p.len(),
{
    if p.len() == 1 {
    } else {
        let i0 = p.len() - 2;
        assert(static_edge(g, p[i0], p[i0 + 1]));
        lemma_static_edge_contained(g, p[i0], p[i0 + 1]);
    }
}

/// Membership in either of two uri lists.
pub open spec fn in_either(a: Seq<Seq<char>>, b: Seq<Seq<char>>, v: Seq<char>) -> bool {
    a.contains(v) || b.contains(v)
}

/// A well-formed depth-first traversal state: the graph is well-formed,
/// the visited list is a duplicate-free list of its uris, and the work
/// stack holds its uris.
pub open spec fn dfs_wf(g: ModuleGraph, stack: Seq<Seq<char>>, visited: Seq<Seq<char>>) -> bool {
    &&& g.wf()
    &&& visited.no_duplicates()
    &&& forall|k: int| 0 <= k < visited.len() ==> g.contains_uri(#[trigger] visited[k])
    &&& forall|k: int| 0 <= k < stack.len() ==> g.contains_uri(#[trigger] stack[k])
}

/// The depth-first visit order itself, as a function of the graph, the
/// work stack and what is already visited: the stack's last element is
/// taken first; a fresh module is emitted at once — before its own
/// dependencies are walked — and its static targets are pushed in reverse
/// declaration order, so the first-declared unvisited dependency comes
/// next; a module seen before is skipped. This is the numbering scheme
/// the execution-order assigner reproduces.
pub open spec fn dfs_from(
    g: ModuleGraph,
    stack: Seq<Seq<char>>,
    visited: Seq<Seq<char>>,
) -> Seq<Seq<char>>
    decreases g.records().len() - visited.len(), stack.len()
        when dfs_wf(g, stack, visited)
        via dfs_from_decreases
{
    if stack.len() == 0 {
        Seq::empty()
    } else {
        let u = stack.last();
        let rest = stack.drop_last();
        if visited.contains(u) {
            dfs_from(g, rest, visited)
        } else {
            let ts = static_targets(g, g.rec_at(u).dependencies);
            seq![u] + dfs_from(g, rest + ts.reverse(), visited.push(u))
        }
    }
}

#[via_fn]
proof fn dfs_from_decreases(g: ModuleGraph, stack: Seq<Seq<char>>, visited: Seq<Seq<char>>) {
    lemma_distinct_uris_bound(g, visited);
    if stack.len() > 0 {
        let u = stack.last();
        if !visited.contains(u) {
            assert(stack[stack.len() - 1] == u);
            assert(visited.push(u).no_duplicates()) by {
                assert forall|a: int, b: int|
                    0 <= a < visited.push(u).len() && 0 <= b < visited.push(u).len() && a
                        != b implies visited.push(u)[a] != visited.push(u)[b] by {
                    if a < visited.len() && b < visited.len() {
                        assert(visited.no_duplicates());
                    } else if b == visited.len() {
                        if visited[a] == u {
                            assert(visited.contains(u));
                        }
                    } else {
                        if visited[b] == u {
                            assert(visited.contains(u));
                        }
                    }
                }
            }
            lemma_distinct_uris_bound(g, visited.push(u));
        }
    }
}

/// The uris of all modules reachable from the seed list, each exactly once,
/// in the depth-first discovery order `dfs_from` states: seeds are taken
/// from the back of the list first, and a module's dependencies are pushed
/// in reverse declaration order so the first-declared is visited next. The
/// order is thereby a deterministic function of the graph and the seed
/// list.
#[verifier::rlimit(80)]
pub fn dfs_order(g: &ModuleGraph, seeds: Vec<String>) -> (r: Vec<String>)
    requires
        g.wf(),
        forall|k: int| 0 <= k < seeds@.len() ==> g.contains_uri(#[trigger] str_views(seeds@)[k]),
    ensures
        str_views(r@).no_duplicates(),
        forall|k: int|
            0 <= k < r@.len() ==> g.contains_uri(#[trigger] str_views(r@)[k]) && reachable_from(
                *g,
                str_views(seeds@),
                str_views(r@)[k],
            ),
        forall|v: Seq<char>|
            reachable_from(*g, str_views(seeds@), v) ==> str_views(r@).contains(v),
        str_views(r@) == dfs_from(*g, str_views(seeds@), Seq::empty()),
{
    let ghost sv = str_views(seeds@);
    let mut stack: Vec<String> = seeds;
    let mut order: Vec<String> = Vec::new();
    proof {
        assert forall|k: int|
            0 <= k < stack@.len() implies g.contains_uri(#[trigger] str_views(stack@)[k])
            && reachable_from(*g, sv, str_views(stack@)[k]) by {
            lemma_reaches_self(*g, str_views(stack@)[k]);
        }
        assert(str_views(order@) =~= Seq::<Seq<char>>::empty());
        assert(dfs_from(*g, sv, Seq::empty()) =~= str_views(order@) + dfs_from(
            *g,
            str_views(stack@),
            str_views(order@),
        ));
    }
    while stack.len() > 0
        invariant
            g.wf(),
            str_views(order@).no_duplicates(),
            forall|k: int|
                0 <= k < order@.len() ==> g.contains_uri(#[trigger] str_views(order@)[k])
                    && reachable_from(*g, sv, str_views(order@)[k]),
            forall|k: int|
                0 <= k < stack@.len() ==> g.contains_uri(#[trigger] str_views(stack@)[k])
                    && reachable_from(*g, sv, str_views(stack@)[k]),
            forall|k: int|
                0 <= k < sv.len() ==> in_either(
                    str_views(order@),
                    str_views(stack@),
                    #[trigger] sv[k],
                ),
            forall|k: int, v: Seq<char>|
                0 <= k < order@.len() && #[trigger] static_edge(*g, str_views(order@)[k], v)
                    ==> in_either(str_views(order@), str_views(stack@), v),
            order@.len() <= g.records().len(),
            dfs_from(*g, sv, Seq::empty()) == str_views(order@) + dfs_from(
                *g,
                str_views(stack@),
                str_views(order@),
            ),
        decreases g.records().len() - order@.len(), stack@.len(),
    {
        let ghost old_order = str_views(order@);
        let ghost old_stack = str_views(stack@);
        let u: String = match stack.pop() {
            Some(u) => u,
            None => {
                proof {
                    assert(false);
                }
                vstd::pervasive::unreached()
            },
        };
        let ghost uv = u@;
        proof {
            assert(old_stack[old_stack.len() - 1] == uv);
            assert(str_views(stack@) =~= old_stack.drop_last());
        }
        if !contains_str(&order, u.as_str()) {
            proof {
                lemma_distinct_uris_bound(*g, old_order.push(uv));
            }
            let m: &ModuleGraphModule = match g.module_by_uri(u.as_str()) {
                Some(m) => m,
                None => {
                    proof {
                        assert(false);
                    }
                    vstd::pervasive::unreached()
                },
            };
            let dep_mods = m.depended_modules(g);
            let ghost ts = static_targets(*g, m@.dependencies);
            proof {
                assert(m@ == g.rec_at(uv));
                lemma_static_targets_contained(*g, m@.dependencies);
            }
            order.push(u);
            let ghost mid_stack = str_views(stack@);
            proof {
                assert(mid_stack =~= old_stack.drop_last());
                assert(str_views(order@) =~= old_order.push(uv));
                assert(ts.skip(ts.len() as int) =~= Seq::<Seq<char>>::empty());
                assert(str_views(stack@) =~= mid_stack + ts.skip(ts.len() as int).reverse());
                assert forall|v: Seq<char>|
                    in_either(old_order, mid_stack, v) implies in_either(
                    str_views(order@),
                    str_views(stack@),
                    v,
                ) by {
                    if old_order.contains(v) {
                        let wi = choose|wi: int| 0 <= wi < old_order.len() && old_order[wi] == v;
                        assert(str_views(order@)[wi] == v);
                    }
                }
            }
            let dn = dep_mods.len();
            let mut j: usize = dn;
            while j > 0
                invariant
                    g.wf(),
                    g.contains_uri(uv),
                    ts == static_targets(*g, g.rec_at(uv).dependencies),
                    reachable_from(*g, sv, uv),
                    dn == dep_mods@.len(),
                    dn == ts.len(),
                    forall|k: int| 0 <= k < dn ==> #[trigger] dep_mods@[k]@ == g.rec_at(ts[k]),
                    forall|k: int| 0 <= k < dn ==> g.contains_uri(#[trigger] ts[k]),
                    j <= dn,
                    str_views(order@) == old_order.push(uv),
                    str_views(order@).no_duplicates(),
                    forall|k: int|
                        0 <= k < order@.len() ==> g.contains_uri(#[trigger] str_views(order@)[k])
                            && reachable_from(*g, sv, str_views(order@)[k]),
                    forall|k: int|
                        0 <= k < stack@.len() ==> g.contains_uri(#[trigger] str_views(stack@)[k])
                            && reachable_from(*g, sv, str_views(stack@)[k]),
                    forall|v: Seq<char>|
                        in_either(old_order, mid_stack, v) ==> in_either(
                            str_views(order@),
                            str_views(stack@),
                            v,
                        ),
                    forall|k: int| j <= k < dn ==> str_views(stack@).contains(#[trigger] ts[k]),
                    order@.len() <= g.records().len(),
                    str_views(stack@) == mid_stack + ts.skip(j as int).reverse(),
                decreases j,
            {
                j = j - 1;
                let v: String = dep_mods[j].uri.clone();
                proof {
                    assert(dep_mods@[j as int]@ == g.rec_at(ts[j as int]));
                    let idx = crate::module_graph::uri_idx(g.records(), ts[j as int]);
                    assert(g.records()[idx].uri == ts[j as int]);
                    assert(v@ == ts[j as int]);
                    assert(ts.contains(v@));
                    assert(static_edge(*g, uv, v@));
                    lemma_reaches_self(*g, uv);
                }
                let ghost pre_stack = str_views(stack@);
                stack.push(v);
                proof {
                    assert(str_views(stack@) =~= pre_stack.push(ts[j as int]));
                    assert(str_views(stack@) =~= mid_stack + ts.skip(j as int).reverse()) by {
                        assert(pre_stack == mid_stack + ts.skip(j + 1 as int).reverse());
                        assert forall|x: int|
                            0 <= x < ts.skip(j as int).reverse().len() implies #[trigger] ts.skip(
                            j as int,
                        ).reverse()[x] == ts[dn - 1 - x] by {
                            assert(ts.skip(j as int).reverse()[x] == ts.skip(j as int)[dn - j - 1
                                - x]);
                        }
                        assert forall|x: int|
                            0 <= x < ts.skip(j + 1 as int).reverse().len() implies #[trigger] ts.skip(
                            j + 1 as int,
                        ).reverse()[x] == ts[dn - 1 - x] by {
                            assert(ts.skip(j + 1 as int).reverse()[x] == ts.skip(j + 1 as int)[dn
                                - j - 2 - x]);
                        }
                    }
                    let si = choose|si: int| 0 <= si < sv.len() && reaches(*g, sv[si], uv);
                    lemma_reaches_step(*g, sv[si], uv, ts[j as int]);
                    assert forall|w: Seq<char>|
                        in_either(old_order, mid_stack, w) implies in_either(
                        str_views(order@),
                        str_views(stack@),
                        w,
                    ) by {
                        if pre_stack.contains(w) {
                            let wi = choose|wi: int|
                                0 <= wi < pre_stack.len() && pre_stack[wi] == w;
                            assert(str_views(stack@)[wi] == w);
                        }
                    }
                    assert forall|k: int|
                        j <= k < dn implies str_views(stack@).contains(#[trigger] ts[k]) by {
                        if k == j {
                            assert(str_views(stack@)[str_views(stack@).len() - 1] == ts[k]);
                        } else {
                            let wi = choose|wi: int|
                                0 <= wi < pre_stack.len() && pre_stack[wi] == ts[k];
                            assert(str_views(stack@)[wi] == ts[k]);
                        }
                    }
                }
            }
            proof {
                assert forall|k: int, v: Seq<char>|
                    0 <= k < order@.len() && #[trigger] static_edge(
                        *g,
                        str_views(order@)[k],
                        v,
                    ) implies in_either(str_views(order@), str_views(stack@), v) by {
                    if k < old_order.len() {
                        assert(in_either(old_order, old_stack, v));
                        if old_order.contains(v) {
                            let wi = choose|wi: int|
                                0 <= wi < old_order.len() && old_order[wi] == v;
                            assert(str_views(order@)[wi] == v);
                        } else {
                            let wi = choose|wi: int|
                                0 <= wi < old_stack.len() && old_stack[wi] == v;
                            if wi < old_stack.len() - 1 {
                                assert(mid_stack[wi] == v);
                                assert(in_either(old_order, mid_stack, v));
                            } else {
                                assert(v == uv);
                                assert(str_views(order@)[old_order.len() as int] == v);
                            }
                        }
                    } else {
                        assert(str_views(order@)[k] == uv);
                        let ts0 = static_targets(*g, g.rec_at(uv).dependencies);
                        let wi = choose|wi: int| 0 <= wi < ts0.len() && ts0[wi] == v;
                        assert(str_views(stack@).contains(ts0[wi]));
                    }
                }
                assert forall|k: int|
                    0 <= k < sv.len() implies in_either(
                    str_views(order@),
                    str_views(stack@),
                    #[trigger] sv[k],
                ) by {
                    if old_order.contains(sv[k]) {
                        let wi = choose|wi: int|
                            0 <= wi < old_order.len() && old_order[wi] == sv[k];
                        assert(str_views(order@)[wi] == sv[k]);
                    } else {
                        let wi = choose|wi: int|
                            0 <= wi < old_stack.len() && old_stack[wi] == sv[k];
                        if wi < old_stack.len() - 1 {
                            assert(mid_stack[wi] == sv[k]);
                            assert(in_either(old_order, mid_stack, sv[k]));
                        } else {
                            assert(sv[k] == uv);
                            assert(str_views(order@)[old_order.len() as int] == sv[k]);
                        }
                    }
                }
                assert(ts.skip(0) =~= ts);
                assert(str_views(stack@) =~= mid_stack + ts.reverse());
                assert(dfs_wf(*g, old_stack, old_order));
                assert(!old_order.contains(uv));
                assert(dfs_from(*g, old_stack, old_order) == seq![uv] + dfs_from(
                    *g,
                    old_stack.drop_last() + ts.reverse(),
                    old_order.push(uv),
                ));
                assert(old_order + dfs_from(*g, old_stack, old_order) =~= str_views(order@)
                    + dfs_from(*g, str_views(stack@), str_views(order@)));
            }
        } else {
            proof {
                assert forall|k: int, v: Seq<char>|
                    0 <= k < order@.len() && #[trigger] static_edge(
                        *g,
                        str_views(order@)[k],
                        v,
                    ) implies in_either(str_views(order@), str_views(stack@), v) by {
                    assert(in_either(old_order, old_stack, v));
                    if !old_order.contains(v) {
                        let wi = choose|wi: int| 0 <= wi < old_stack.len() && old_stack[wi] == v;
                        if wi < old_stack.len() - 1 {
                            assert(str_views(stack@)[wi] == v);
                        } else {
                            assert(v == uv);
                            assert(old_order.contains(uv));
                        }
                    }
                }
                assert forall|k: int|
                    0 <= k < sv.len() implies in_either(
                    str_views(order@),
                    str_views(stack@),
                    #[trigger] sv[k],
                ) by {
                    if !old_order.contains(sv[k]) {
                        let wi = choose|wi: int|
                            0 <= wi < old_stack.len() && old_stack[wi] == sv[k];
                        if wi < old_stack.len() - 1 {
                            assert(str_views(stack@)[wi] == sv[k]);
                        } else {
                            assert(sv[k] == uv);
                            assert(old_order.contains(uv));
                        }
                    }
                }
                assert(dfs_wf(*g, old_stack, old_order));
                assert(old_order.contains(uv));
                assert(dfs_from(*g, old_stack, old_order) == dfs_from(
                    *g,
                    old_stack.drop_last(),
                    old_order,
                ));
            }
        }
    }
    proof {
        assert(str_views(stack@).len() == 0);
        assert forall|v: Seq<char>|
            reachable_from(*g, sv, v) implies str_views(order@).contains(v) by {
            let si = choose|si: int| 0 <= si < sv.len() && reaches(*g, sv[si], v);
            let p = choose|p: Seq<Seq<char>>|
                is_static_path(*g, p) && p.first() == sv[si] && p.last() == v;
            assert(in_either(str_views(order@), str_views(stack@), sv[si]));
            assert(str_views(order@).contains(sv[si]));
            assert forall|a: Seq<char>, b: Seq<char>|
                str_views(order@).contains(a) && #[trigger] static_edge(
                    *g,
                    a,
                    b,
                ) implies str_views(order@).contains(b) by {
                let k = choose|k: int|
                    0 <= k < str_views(order@).len() && str_views(order@)[k] == a;
                assert(static_edge(*g, str_views(order@)[k], b));
                assert(in_either(str_views(order@), str_views(stack@), b));
            }
            lemma_closed_covers(*g, sv[si], str_views(order@), p);
        }
        assert(str_views(stack@) =~= Seq::<Seq<char>>::empty());
        assert(dfs_wf(*g, str_views(stack@), str_views(order@)));
        assert(dfs_from(*g, str_views(stack@), str_views(order@)) == Seq::<Seq<char>>::empty());
        assert(str_views(order@) =~= dfs_from(*g, sv, Seq::empty()));
    }
    order
}

/// The uris of all modules reachable from `entry` along static edges, each
/// exactly once, discovered breadth-first; the entry stands first.
pub fn static_reachable(g: &ModuleGraph, entry: &str) -> (r: Vec<String>)
    requires
        g.wf(),
        g.contains_uri(entry@),
    ensures
        str_views(r@).no_duplicates(),
        r@.len() >= 1 && str_views(r@)[0] == entry@,
        forall|k: int| 0 <= k < r@.len() ==> reaches(*g, entry@, #[trigger] str_views(r@)[k]),
        forall|v: Seq<char>| reaches(*g, entry@, v) ==> str_views(r@).contains(v),
{
    let mut order: Vec<String> = Vec::new();
    order.push(entry.to_owned());
    let mut i: usize = 0;
    proof {
        lemma_reaches_self(*g, entry@);
        assert(str_views(order@) =~= seq![entry@]);
    }
    while i < order.len()
        invariant
            g.wf(),
            g.contains_uri(entry@),
            i <= order@.len(),
            order@.len() >= 1,
            str_views(order@).no_duplicates(),
            str_views(order@)[0] == entry@,
            forall|k: int|
                0 <= k < order@.len() ==> g.contains_uri(#[trigger] str_views(order@)[k])
                    && reaches(*g, entry@, str_views(order@)[k]),
            forall|k: int, v: Seq<char>|
                0 <= k < i && #[trigger] static_edge(*g, str_views(order@)[k], v) ==> str_views(
                    order@,
                ).contains(v),
            order@.len() <= g.records().len(),
        decreases g.records().len() - i,
    {
        let u: String = order[i].clone();
        let ghost uv = u@;
        proof {
            assert(str_views(order@)[i as int] == uv);
        }
        let m: &ModuleGraphModule = match g.module_by_uri(u.as_str()) {
            Some(m) => m,
            None => {
                proof {
                    assert(false);
                }
                vstd::pervasive::unreached()
            },
        };
        let dep_mods = m.depended_modules(g);
        let ghost ts = static_targets(*g, m@.dependencies);
        proof {
            assert(m@ == g.rec_at(uv));
            lemma_static_targets_contained(*g, m@.dependencies);
        }
        let dn = dep_mods.len();
        let mut j: usize = 0;
        while j < dn
            invariant
                g.wf(),
                g.contains_uri(entry@),
                dn == dep_mods@.len(),
                dn == ts.len(),
                g.contains_uri(uv),
                ts == static_targets(*g, g.rec_at(uv).dependencies),
                forall|k: int| 0 <= k < dn ==> #[trigger] dep_mods@[k]@ == g.rec_at(ts[k]),
                forall|k: int| 0 <= k < dn ==> g.contains_uri(#[trigger] ts[k]),
                j <= dn,
                i < order@.len(),
                order@.len() >= 1,
                str_views(order@).no_duplicates(),
                str_views(order@)[0] == entry@,
                str_views(order@)[i as int] == uv,
                forall|k: int|
                    0 <= k < order@.len() ==> g.contains_uri(#[trigger] str_views(order@)[k])
                        && reaches(*g, entry@, str_views(order@)[k]),
                forall|k: int, v: Seq<char>|
                    0 <= k < i && #[trigger] static_edge(*g, str_views(order@)[k], v) ==> str_views(
                        order@,
                    ).contains(v),
                forall|k: int| 0 <= k < j ==> str_views(order@).contains(#[trigger] ts[k]),
                order@.len() <= g.records().len(),
            decreases dn - j,
        {
            let v: String = dep_mods[j].uri.clone();
            proof {
                assert(dep_mods@[j as int]@ == g.rec_at(ts[j as int]));
                assert(v@ == g.rec_at(ts[j as int]).uri);
                let idx = crate::module_graph::uri_idx(g.records(), ts[j as int]);
                assert(g.records()[idx].uri == ts[j as int]);
                assert(v@ == ts[j as int]);
                assert(ts.contains(v@));
                assert(static_edge(*g, uv, v@));
            }
            let ghost old_views = str_views(order@);
            if !contains_str(&order, v.as_str()) {
                proof {
                    lemma_distinct_uris_bound(*g, old_views.push(v@));
                    lemma_reaches_step(*g, entry@, uv, v@);
                }
                order.push(v);
                proof {
                    assert(str_views(order@) =~= old_views.push(v@));
                    assert(str_views(order@)[order@.len() - 1] == ts[j as int]);
                    assert forall|k: int, w: Seq<char>|
                        0 <= k < i && #[trigger] static_edge(
                            *g,
                            str_views(order@)[k],
                            w,
                        ) implies str_views(order@).contains(w) by {
                        assert(str_views(order@)[k] == old_views[k]);
                        assert(old_views.contains(w));
                        let widx = choose|widx: int|
                            0 <= widx < old_views.len() && old_views[widx] == w;
                        assert(str_views(order@)[widx] == w);
                    }
                }
            }
            proof {
                assert forall|k: int|
                    0 <= k < j + 1 implies str_views(order@).contains(#[trigger] ts[k]) by {
                    if k < j {
                        let widx = choose|widx: int|
                            0 <= widx < old_views.len() && old_views[widx] == ts[k];
                        assert(str_views(order@)[widx] == ts[k]);
                    } else {
                        if old_views.contains(v@) {
                            let widx = choose|widx: int|
                                0 <= widx < old_views.len() && old_views[widx] == v@;
                            assert(str_views(order@)[widx] == ts[k]);
                        } else {
                            assert(str_views(order@)[order@.len() - 1] == ts[k]);
                        }
                    }
                }
            }
            j = j + 1;
        }
        proof {
            assert forall|v: Seq<char>| #[trigger]
                static_edge(*g, uv, v) implies str_views(order@).contains(v) by {
                let k = choose|k: int| 0 <= k < ts.len() && ts[k] == v;
                assert(str_views(order@).contains(ts[k]));
            }
        }
        i = i + 1;
    }
    proof {
        assert forall|v: Seq<char>| reaches(*g, entry@, v) implies str_views(order@).contains(
            v,
        ) by {
            let p = choose|p: Seq<Seq<char>>|
                is_static_path(*g, p) && p.first() == entry@ && p.last() == v;
            assert(str_views(order@).contains(entry@));
            lemma_closed_covers(*g, entry@, str_views(order@), p);
        }
    }
    order
}

} // verus!
