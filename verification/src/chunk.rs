use vstd::prelude::*;

use crate::module::ModuleGraphModule;
use crate::module_graph::ModuleGraph;
use crate::utils::str_views;

verus! {

/// Whether a chunk anchors a requested entry or was split off.
#[derive(Debug)]
pub enum ChunkKind {
    Entry { name: String },
    Normal,
}

/// The mathematical value of a `ChunkKind`.
pub ghost enum ChunkKindView {
    Entry { name: Seq<char> },
    Normal,
}

impl View for ChunkKind {
    type V = ChunkKindView;

    open spec fn view(&self) -> ChunkKindView {
        match self {
            ChunkKind::Entry { name } => ChunkKindView::Entry { name: name@ },
            ChunkKind::Normal => ChunkKindView::Normal,
        }
    }
}

impl ChunkKind {
    pub fn is_entry(&self) -> (r: bool)
        ensures
            r == (self@ is Entry),
    {
        matches!(self, ChunkKind::Entry { .. })
    }

    pub fn is_normal(&self) -> (r: bool)
        ensures
            r == (self@ is Normal),
    {
        matches!(self, ChunkKind::Normal)
    }
}

/// The mathematical value of a `Chunk`: its id, the uri of the entry module
/// it is anchored at, the uris of its member modules (each at most once),
/// and its kind.
pub ghost struct ChunkView {
    pub id: Seq<char>,
    pub entry_uri: Seq<char>,
    pub members: Seq<Seq<char>>,
    pub kind: ChunkKindView,
}

/// One deliverable output chunk: a set of member module uris anchored at an
/// entry module.
#[derive(Debug)]
pub struct Chunk {
    pub id: String,
    pub entry_uri: String,
    pub module_uris: Vec<String>,
    pub kind: ChunkKind,
}

impl View for Chunk {
    type V = ChunkView;

    open spec fn view(&self) -> ChunkView {
        ChunkView {
            id: self.id@,
            entry_uri: self.entry_uri@,
            members: str_views(self.module_uris@),
            kind: self.kind@,
        }
    }
}

/// Inserting a fresh uri into a duplicate-free uri list keeps it
/// duplicate-free.
proof fn lemma_insert_distinct(vs: Seq<Seq<char>>, pos: int, u: Seq<char>)
    requires
        0 <= pos <= vs.len(),
        forall|a: int, b: int| 0 <= a < b < vs.len() ==> vs[a] != vs[b],
        !vs.contains(u),
    ensures
        forall|a: int, b: int|
            0 <= a < b < vs.insert(pos, u).len() ==> vs.insert(pos, u)[a] != vs.insert(pos, u)[b],
{
    let w = vs.insert(pos, u);
    assert forall|a: int, b: int| 0 <= a < b < w.len() implies w[a] != w[b] by {
        if a == pos {
            if w[b] == u {
                assert(vs[b - 1] == u);
                assert(vs.contains(u));
            }
        } else if b == pos {
            if w[a] == u {
                assert(vs[a] == u);
                assert(vs.contains(u));
            }
        } else {
            let a0 = if a < pos {
                a
            } else {
                a - 1
            };
            let b0 = if b < pos {
                b
            } else {
                b - 1
            };
            assert(w[a] == vs[a0] && w[b] == vs[b0]);
            assert(vs[a0] != vs[b0]);
        }
    }
}

impl Chunk {
    /// Membership is a set: no member uri occurs twice.
    pub open spec fn wf(self) -> bool {
        self@.members.no_duplicates()
    }

    /// A fresh chunk with no members.
    pub fn new(id: String, entry_uri: String, kind: ChunkKind) -> (r: Self)
        ensures
            r@ == (ChunkView {
                id: id@,
                entry_uri: entry_uri@,
                members: Seq::empty(),
                kind: kind@,
            }),
            r.wf(),
    {
        let r = Self { id, entry_uri, module_uris: Vec::new(), kind };
        proof {
            assert(r@.members =~= Seq::<Seq<char>>::empty());
        }
        r
    }

    /// The chunk's member modules that exist in the graph, ordered by
    /// their execution order, each member once.
    #[verifier::rlimit(100)]
    pub fn ordered_module<'a>(&self, module_graph: &'a ModuleGraph) -> (r: Vec<
        &'a ModuleGraphModule,
    >)
        requires
            self.wf(),
            module_graph.wf(),
        ensures
            forall|a: int, b: int|
                0 <= a < b < r@.len() ==> r@[a]@.exec_order <= r@[b]@.exec_order,
            forall|a: int, b: int| 0 <= a < b < r@.len() ==> r@[a]@.uri != r@[b]@.uri,
            forall|k: int|
                0 <= k < r@.len() ==> self@.members.contains(#[trigger] r@[k]@.uri)
                    && module_graph.contains_uri(r@[k]@.uri) && r@[k]@ == module_graph.rec_at(
                    r@[k]@.uri,
                ),
            forall|u: Seq<char>|
                self@.members.contains(u) && module_graph.contains_uri(u) ==> exists|k: int|
                    0 <= k < r@.len() && (#[trigger] r@[k])@.uri == u,
    {
        let ghost members = self@.members;
        let n = self.module_uris.len();
        let mut out: Vec<&'a ModuleGraphModule> = Vec::new();
        let mut i: usize = 0;
        while i < n
            invariant
                self.wf(),
                module_graph.wf(),
                members == self@.members,
                n == self.module_uris@.len(),
                n == members.len(),
                i <= n,
                forall|a: int, b: int|
                    0 <= a < b < out@.len() ==> out@[a]@.exec_order <= out@[b]@.exec_order,
                forall|k: int|
                    0 <= k < out@.len() ==> members.take(i as int).contains(
                        #[trigger] out@[k]@.uri,
                    ) && module_graph.contains_uri(out@[k]@.uri) && out@[k]@
                        == module_graph.rec_at(out@[k]@.uri),
                forall|u: Seq<char>|
                    members.take(i as int).contains(u) && module_graph.contains_uri(u)
                        ==> exists|k: int| 0 <= k < out@.len() && (#[trigger] out@[k])@.uri == u,
                forall|a: int, b: int| 0 <= a < b < out@.len() ==> out@[a]@.uri != out@[b]@.uri,
            decreases n - i,
        {
            proof {
                assert(members[i as int] == self.module_uris@[i as int]@);
            }
            match module_graph.module_by_uri(self.module_uris[i].as_str()) {
                Some(m) => {
                    let ghost old_out = out@;
                    let mut pos: usize = 0;
                    let on = out.len();
                    while pos < on && out[pos].exec_order <= m.exec_order
                        invariant
                            on == out@.len(),
                            pos <= on,
                            out@ == old_out,
                            forall|k: int| 0 <= k < pos ==> out@[k].exec_order <= m.exec_order,
                        decreases on - pos,
                    {
                        pos = pos + 1;
                    }
                    out.insert(pos, m);
                    proof {
                        assert(out@ =~= old_out.insert(pos as int, m));
                        assert(members.take(i + 1 as int).drop_last() =~= members.take(i as int));
                        assert(members.take(i + 1 as int)[i as int] == members[i as int]);
                        assert forall|a: int, b: int|
                            0 <= a < b < out@.len() implies out@[a]@.exec_order
                            <= out@[b]@.exec_order by {
                            if a < pos as int && b > pos as int {
                                assert(out@[a] == old_out[a] && out@[b] == old_out[b - 1]);
                            } else if b == pos as int {
                                assert(out@[a] == old_out[a]);
                            } else if a == pos as int && b > pos as int {
                                assert(out@[b] == old_out[b - 1]);
                                assert(!(old_out[b - 1].exec_order <= m.exec_order) || b - 1
                                    >= pos as int);
                            }
                        }
                        assert forall|u: Seq<char>|
                            members.take(i + 1 as int).contains(u) && module_graph.contains_uri(
                                u,
                            ) implies exists|k: int| 0 <= k < out@.len() && (#[trigger] out@[k])@.uri == u by {
                            if members.take(i as int).contains(u) {
                                let k = choose|k: int|
                                    0 <= k < old_out.len() && old_out[k]@.uri == u;
                                if k < pos as int {
                                    assert(out@[k]@.uri == u);
                                } else {
                                    assert(out@[k + 1]@.uri == u);
                                }
                            } else {
                                crate::utils::lemma_take_contains(members, i + 1 as int, u);
                                crate::utils::lemma_take_contains(members, i as int, u);
                                let w = choose|w: int| 0 <= w < i + 1 && members[w] == u;
                                assert(w == i as int);
                                assert(out@[pos as int]@.uri == u);
                            }
                        }
                        assert forall|k: int|
                            0 <= k < out@.len() implies members.take(i + 1 as int).contains(
                            #[trigger] out@[k]@.uri,
                        ) && module_graph.contains_uri(out@[k]@.uri) && out@[k]@
                            == module_graph.rec_at(out@[k]@.uri) by {
                            if k != pos as int {
                                let k0 = if k < pos as int {
                                    k
                                } else {
                                    k - 1
                                };
                                assert(out@[k] == old_out[k0]);
                                let w = choose|w: int|
                                    0 <= w < members.take(i as int).len() && members.take(
                                        i as int,
                                    )[w] == old_out[k0]@.uri;
                                assert(members.take(i + 1 as int)[w] == old_out[k0]@.uri);
                            } else {
                                assert(out@[k] == m);
                                assert(members.take(i + 1 as int)[i as int] == m@.uri);
                            }
                        }
                        let vs = old_out.map_values(|m2: &ModuleGraphModule| m2@.uri);
                        assert(!vs.contains(m@.uri)) by {
                            if vs.contains(m@.uri) {
                                let k = choose|k: int| 0 <= k < vs.len() && vs[k] == m@.uri;
                                assert(old_out[k]@.uri == m@.uri);
                                let w = choose|w: int|
                                    0 <= w < members.take(i as int).len() && members.take(
                                        i as int,
                                    )[w] == old_out[k]@.uri;
                                assert(members[w] == members[i as int]);
                                assert(members.no_duplicates());
                            }
                        }
                        lemma_insert_distinct(vs, pos as int, m@.uri);
                        assert(out@.map_values(|m2: &ModuleGraphModule| m2@.uri) =~= vs.insert(
                            pos as int,
                            m@.uri,
                        ));
                        assert forall|a: int, b: int|
                            0 <= a < b < out@.len() implies out@[a]@.uri != out@[b]@.uri by {
                            let ws = vs.insert(pos as int, m@.uri);
                            assert(out@.map_values(|m2: &ModuleGraphModule| m2@.uri)[a]
                                == out@[a]@.uri);
                            assert(out@.map_values(|m2: &ModuleGraphModule| m2@.uri)[b]
                                == out@[b]@.uri);
                            assert(ws[a] != ws[b]);
                        }
                    }
                },
                None => {
                    proof {
                        assert(members.take(i + 1 as int).drop_last() =~= members.take(i as int));
                        assert forall|u: Seq<char>|
                            members.take(i + 1 as int).contains(u) && module_graph.contains_uri(
                                u,
                            ) implies exists|k: int| 0 <= k < out@.len() && (#[trigger] out@[k])@.uri == u by {
                            crate::utils::lemma_take_contains(members, i + 1 as int, u);
                            let w = choose|w: int| 0 <= w < i + 1 && members[w] == u;
                            if w == i as int {
                                assert(!module_graph.contains_uri(u));
                            } else {
                                assert(members.take(i as int)[w] == u);
                            }
                        }
                        assert forall|k: int|
                            0 <= k < out@.len() implies members.take(i + 1 as int).contains(
                            #[trigger] out@[k]@.uri,
                        ) by {
                            let w = choose|w: int|
                                0 <= w < members.take(i as int).len() && members.take(i as int)[w]
                                    == out@[k]@.uri;
                            assert(members.take(i + 1 as int)[w] == out@[k]@.uri);
                        }
                    }
                },
            }
            i = i + 1;
        }
        proof {
            assert(members.take(n as int) =~= members);
        }
        out
    }

    /// Adds a module to the chunk; a uri already present is not added
    /// again.
    pub fn insert_module(&mut self, uri: String)
        requires
            old(self).wf(),
        ensures
            final(self).wf(),
            final(self)@.id == old(self)@.id,
            final(self)@.entry_uri == old(self)@.entry_uri,
            final(self)@.kind == old(self)@.kind,
            old(self)@.members.contains(uri@) ==> final(self)@.members == old(self)@.members,
            !old(self)@.members.contains(uri@) ==> final(self)@.members == old(
                self,
            )@.members.push(uri@),
    {
        if !crate::utils::contains_str(&self.module_uris, uri.as_str()) {
            let ghost old_members = self@.members;
            let ghost uv = uri@;
            self.module_uris.push(uri);
            proof {
                assert(self@.members =~= old_members.push(uv));
            }
        }
    }
}

} // verus!
