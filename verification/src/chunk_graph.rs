use vstd::prelude::*;

use crate::chunk::{Chunk, ChunkView};
use crate::str_eq;

verus! {

/// No two chunks share an id.
pub open spec fn chunk_ids_unique(r: Seq<ChunkView>) -> bool {
    forall|i: int, j: int| 0 <= i < j < r.len() ==> r[i].id != r[j].id
}

/// No two chunks share an entry uri.
pub open spec fn chunk_entries_unique(r: Seq<ChunkView>) -> bool {
    forall|i: int, j: int| 0 <= i < j < r.len() ==> r[i].entry_uri != r[j].entry_uri
}

/// Some chunk has id `id`.
pub open spec fn has_chunk_id(r: Seq<ChunkView>, id: Seq<char>) -> bool {
    exists|i: int| 0 <= i < r.len() && r[i].id == id
}

/// The index of the chunk with id `id`.
pub open spec fn chunk_idx(r: Seq<ChunkView>, id: Seq<char>) -> int {
    choose|i: int| 0 <= i < r.len() && r[i].id == id
}

/// The chunk with id `id`.
pub open spec fn chunk_rec(r: Seq<ChunkView>, id: Seq<char>) -> ChunkView {
    r[chunk_idx(r, id)]
}

/// With unique ids, the chunk of an id is the one at any index carrying it.
pub proof fn lemma_chunk_idx(r: Seq<ChunkView>, id: Seq<char>, i: int)
    requires
        chunk_ids_unique(r),
        0 <= i < r.len(),
        r[i].id == id,
    ensures
        has_chunk_id(r, id),
        chunk_idx(r, id) == i,
        chunk_rec(r, id) == r[i],
{
    assert(has_chunk_id(r, id));
    let j = chunk_idx(r, id);
    if j != i {
        if j < i {
            assert(r[j].id != r[i].id);
        } else {
            assert(r[i].id != r[j].id);
        }
    }
}

/// The store of output chunks, indexed by chunk id and by the uri of the
/// entry module each chunk is anchored at. The two indexes always change
/// together.
#[derive(Debug)]
pub struct ChunkGraph {
    id_to_chunk: Vec<Chunk>,
    split_module_point_uri_to_chunk_id: Vec<(String, String)>,
}

impl ChunkGraph {
    /// All chunks, in insertion order.
    pub closed spec fn chunk_views(self) -> Seq<ChunkView> {
        self.id_to_chunk@.map_values(|c: Chunk| c@)
    }

    /// The entry-uri index, as pairs of entry uri and chunk id.
    pub closed spec fn entry_pairs(self) -> Seq<(Seq<char>, Seq<char>)> {
        self.split_module_point_uri_to_chunk_id@.map_values(
            |p: (String, String)| (p.0@, p.1@),
        )
    }

    /// The store's invariant: ids and entry uris are unique, each chunk's
    /// membership is a set, and the entry-uri index mirrors the chunk list.
    pub open spec fn wf(self) -> bool {
        &&& chunk_ids_unique(self.chunk_views())
        &&& chunk_entries_unique(self.chunk_views())
        &&& forall|i: int|
            0 <= i < self.chunk_views().len() ==> (#[trigger] self.chunk_views()[i]).members.no_duplicates()
        &&& self.entry_pairs().len() == self.chunk_views().len()
        &&& forall|i: int|
            0 <= i < self.entry_pairs().len() ==> #[trigger] self.entry_pairs()[i] == (
            self.chunk_views()[i].entry_uri,
            self.chunk_views()[i].id,
        )
    }

    pub open spec fn has_id(self, id: Seq<char>) -> bool {
        has_chunk_id(self.chunk_views(), id)
    }

    pub open spec fn idx_of_id(self, id: Seq<char>) -> int {
        chunk_idx(self.chunk_views(), id)
    }

    pub open spec fn chunk_at(self, id: Seq<char>) -> ChunkView {
        chunk_rec(self.chunk_views(), id)
    }

    /// Some chunk is anchored at entry uri `u`.
    pub open spec fn has_entry(self, u: Seq<char>) -> bool {
        exists|i: int| 0 <= i < self.chunk_views().len() && self.chunk_views()[i].entry_uri == u
    }

    /// The chunk anchored at entry uri `u`.
    pub open spec fn chunk_of_entry(self, u: Seq<char>) -> ChunkView {
        self.chunk_views()[choose|i: int|
            0 <= i < self.chunk_views().len() && self.chunk_views()[i].entry_uri == u]
    }

    pub fn new() -> (r: Self)
        ensures
            r.chunk_views() == Seq::<ChunkView>::empty(),
            r.wf(),
    {
        let r = ChunkGraph {
            id_to_chunk: Vec::new(),
            split_module_point_uri_to_chunk_id: Vec::new(),
        };
        proof {
            assert(r.chunk_views() =~= Seq::<ChunkView>::empty());
            assert(r.entry_pairs() =~= Seq::<(Seq<char>, Seq<char>)>::empty());
        }
        r
    }

    /// The position of the chunk with `id`, if one exists.
    fn find_id_index(&self, id: &str) -> (r: Option<usize>)
        ensures
            match r {
                Some(i) => i < self.chunk_views().len() && self.chunk_views()[i as int].id == id@,
                None => !self.has_id(id@),
            },
    {
        let n = self.id_to_chunk.len();
        let mut i: usize = 0;
        while i < n
            invariant
                n == self.chunk_views().len(),
                i <= n,
                forall|j: int| 0 <= j < i ==> self.chunk_views()[j].id != id@,
            decreases n - i,
        {
            if str_eq(self.id_to_chunk[i].id.as_str(), id) {
                return Some(i);
            }
            i = i + 1;
        }
        None
    }

    /// Adds a fresh chunk under both indexes.
    pub fn add_chunk(&mut self, chunk: Chunk)
        requires
            old(self).wf(),
            chunk.wf(),
            !old(self).has_id(chunk@.id),
            !old(self).has_entry(chunk@.entry_uri),
        ensures
            final(self).wf(),
            final(self).chunk_views() == old(self).chunk_views().push(chunk@),
            final(self).has_id(chunk@.id),
            final(self).chunk_at(chunk@.id) == chunk@,
            final(self).has_entry(chunk@.entry_uri),
            forall|x: Seq<char>|
                x != chunk@.id ==> final(self).has_id(x) == old(self).has_id(x),
            forall|x: Seq<char>|
                x != chunk@.id && old(self).has_id(x) ==> final(self).chunk_at(x) == old(
                    self,
                ).chunk_at(x),
    {
        let ghost old_views = self.chunk_views();
        let ghost cv = chunk@;
        self.split_module_point_uri_to_chunk_id.push((chunk.entry_uri.clone(), chunk.id.clone()));
        self.id_to_chunk.push(chunk);
        proof {
            assert(self.chunk_views() =~= old_views.push(cv));
            assert(self.entry_pairs() =~= old(self).entry_pairs().push((cv.entry_uri, cv.id)));
            assert forall|i: int, j: int|
                0 <= i < j < self.chunk_views().len() implies self.chunk_views()[i].id
                != self.chunk_views()[j].id by {
                if j < old_views.len() {
                    assert(old_views[i].id != old_views[j].id);
                } else {
                    assert(old_views[i].id != cv.id);
                }
            }
            assert forall|i: int, j: int|
                0 <= i < j < self.chunk_views().len() implies self.chunk_views()[i].entry_uri
                != self.chunk_views()[j].entry_uri by {
                if j < old_views.len() {
                    assert(old_views[i].entry_uri != old_views[j].entry_uri);
                } else {
                    assert(old_views[i].entry_uri != cv.entry_uri);
                }
            }
            lemma_chunk_idx(self.chunk_views(), cv.id, old_views.len() as int);
            assert forall|x: Seq<char>|
                x != cv.id implies final(self).has_id(x) == old(self).has_id(x) by {
                if has_chunk_id(self.chunk_views(), x) {
                    let k = choose|k: int|
                        0 <= k < self.chunk_views().len() && self.chunk_views()[k].id == x;
                    assert(old_views[k].id == x);
                }
                if has_chunk_id(old_views, x) {
                    let k = choose|k: int| 0 <= k < old_views.len() && old_views[k].id == x;
                    assert(self.chunk_views()[k].id == x);
                }
            }
            assert forall|x: Seq<char>|
                x != cv.id && old(self).has_id(x) implies final(self).chunk_at(x) == old(
                self,
            ).chunk_at(x) by {
                let k = chunk_idx(old_views, x);
                lemma_chunk_idx(old_views, x, k);
                lemma_chunk_idx(self.chunk_views(), x, k);
            }
        }
    }

    /// The chunk with `id`, if one exists.
    pub fn chunk_by_id(&self, id: &str) -> (r: Option<&Chunk>)
        requires
            self.wf(),
        ensures
            match r {
                Some(c) => self.has_id(id@) && c@ == self.chunk_at(id@),
                None => !self.has_id(id@),
            },
    {
        match self.find_id_index(id) {
            Some(i) => {
                proof {
                    lemma_chunk_idx(self.chunk_views(), id@, i as int);
                }
                Some(&self.id_to_chunk[i])
            },
            None => None,
        }
    }

    /// Mutable access to the chunk with `id`, if one exists. The caller's
    /// writes through the result become an update of that one chunk.
    pub fn chunk_by_id_mut(&mut self, id: &str) -> (r: Option<&mut Chunk>)
        requires
            old(self).wf(),
        ensures
            match r {
                Some(p) => {
                    &&& old(self).has_id(id@)
                    &&& (*p)@ == old(self).chunk_at(id@)
                    &&& final(self).chunk_views().len() == old(self).chunk_views().len()
                    &&& final(self).chunk_views()[old(self).idx_of_id(id@)] == (*final(p))@
                    &&& forall|k: int|
                        0 <= k < old(self).chunk_views().len() && k != old(self).idx_of_id(id@)
                            ==> final(self).chunk_views()[k] == old(self).chunk_views()[k]
                    &&& final(self).entry_pairs() == old(self).entry_pairs()
                },
                None => !old(self).has_id(id@) && *final(self) == *old(self),
            },
    {
        let ghost old_views = self.chunk_views();
        match self.find_id_index(id) {
            Some(i) => {
                proof {
                    lemma_chunk_idx(old_views, id@, i as int);
                }
                Some(&mut self.id_to_chunk[i])
            },
            None => None,
        }
    }

    /// Removes the chunk with `id` from both indexes and returns it.
    pub fn remove_by_id(&mut self, id: &str) -> (r: Option<Chunk>)
        requires
            old(self).wf(),
        ensures
            final(self).wf(),
            match r {
                Some(c) => {
                    &&& old(self).has_id(id@)
                    &&& c@ == old(self).chunk_at(id@)
                    &&& final(self).chunk_views() == old(self).chunk_views().remove(
                        old(self).idx_of_id(id@),
                    )
                    &&& !final(self).has_id(id@)
                    &&& !final(self).has_entry(c@.entry_uri)
                    &&& forall|x: Seq<char>|
                        x != id@ ==> final(self).has_id(x) == old(self).has_id(x)
                    &&& forall|x: Seq<char>|
                        x != id@ && old(self).has_id(x) ==> final(self).chunk_at(x) == old(
                            self,
                        ).chunk_at(x)
                },
                None => !old(self).has_id(id@) && *final(self) == *old(self),
            },
    {
        let ghost old_views = self.chunk_views();
        match self.find_id_index(id) {
            Some(i) => {
                proof {
                    lemma_chunk_idx(old_views, id@, i as int);
                }
                let c = self.id_to_chunk.remove(i);
                self.split_module_point_uri_to_chunk_id.remove(i);
                proof {
                    let iv = i as int;
                    assert(self.chunk_views() =~= old_views.remove(iv));
                    assert(self.entry_pairs() =~= old(self).entry_pairs().remove(iv));
                    assert forall|x: Seq<char>|
                        x != id@ && has_chunk_id(self.chunk_views(), x) implies has_chunk_id(
                        old_views,
                        x,
                    ) by {
                        let k = choose|k: int|
                            0 <= k < self.chunk_views().len() && self.chunk_views()[k].id == x;
                        if k < iv {
                            assert(old_views[k].id == x);
                        } else {
                            assert(old_views[k + 1].id == x);
                        }
                    }
                    assert forall|x: Seq<char>|
                        x != id@ && has_chunk_id(old_views, x) implies has_chunk_id(
                        self.chunk_views(),
                        x,
                    ) && chunk_rec(self.chunk_views(), x) == chunk_rec(old_views, x) by {
                        let k = chunk_idx(old_views, x);
                        lemma_chunk_idx(old_views, x, k);
                        if k < iv {
                            assert(self.chunk_views()[k].id == x);
                            lemma_chunk_idx(self.chunk_views(), x, k);
                        } else {
                            assert(self.chunk_views()[k - 1].id == x);
                            lemma_chunk_idx(self.chunk_views(), x, k - 1);
                        }
                    }
                    if has_chunk_id(self.chunk_views(), id@) {
                        let k = choose|k: int|
                            0 <= k < self.chunk_views().len() && self.chunk_views()[k].id == id@;
                        if k < iv {
                            assert(old_views[k].id == id@);
                            assert(old_views[k].id != old_views[iv].id);
                        } else {
                            assert(old_views[k + 1].id == id@);
                            assert(old_views[iv].id != old_views[k + 1].id);
                        }
                    }
                    let cv = old_views[iv];
                    if exists|k: int|
                        0 <= k < self.chunk_views().len() && self.chunk_views()[k].entry_uri
                            == cv.entry_uri {
                        let k = choose|k: int|
                            0 <= k < self.chunk_views().len() && self.chunk_views()[k].entry_uri
                                == cv.entry_uri;
                        if k < iv {
                            assert(old_views[k].entry_uri != old_views[iv].entry_uri);
                        } else {
                            assert(old_views[iv].entry_uri != old_views[k + 1].entry_uri);
                        }
                    }
                }
                Some(c)
            },
            None => None,
        }
    }

    /// All chunks, in insertion order.
    pub fn chunks(&self) -> (r: Vec<&Chunk>)
        ensures
            r@.len() == self.chunk_views().len(),
            forall|i: int| 0 <= i < r@.len() ==> #[trigger] r@[i]@ == self.chunk_views()[i],
    {
        let n = self.id_to_chunk.len();
        let mut out: Vec<&Chunk> = Vec::new();
        let mut i: usize = 0;
        while i < n
            invariant
                n == self.chunk_views().len(),
                n == self.id_to_chunk@.len(),
                i <= n,
                out@.len() == i,
                forall|j: int| 0 <= j < i ==> #[trigger] out@[j]@ == self.chunk_views()[j],
            decreases n - i,
        {
            out.push(&self.id_to_chunk[i]);
            i = i + 1;
        }
        out
    }

    /// The chunk anchored at entry uri `uri`, if one exists: the entry-uri
    /// index followed by the id index.
    pub fn chunk_by_spit_module_point(&self, uri: &str) -> (r: Option<&Chunk>)
        requires
            self.wf(),
        ensures
            match r {
                Some(c) => self.has_entry(uri@) && c@ == self.chunk_of_entry(uri@),
                None => !self.has_entry(uri@),
            },
    {
        let n = self.split_module_point_uri_to_chunk_id.len();
        let mut i: usize = 0;
        while i < n
            invariant
                self.wf(),
                n == self.entry_pairs().len(),
                i <= n,
                forall|j: int| 0 <= j < i ==> self.entry_pairs()[j].0 != uri@,
            decreases n - i,
        {
            if str_eq(self.split_module_point_uri_to_chunk_id[i].0.as_str(), uri) {
                proof {
                    assert(self.entry_pairs()[i as int].0 == uri@);
                    assert(self.chunk_views()[i as int].entry_uri == uri@);
                    let k = choose|k: int|
                        0 <= k < self.chunk_views().len() && self.chunk_views()[k].entry_uri
                            == uri@;
                    if k < i as int {
                        assert(self.chunk_views()[k].entry_uri != self.chunk_views()[i as int].entry_uri);
                    } else if k > i as int {
                        assert(self.chunk_views()[i as int].entry_uri != self.chunk_views()[k].entry_uri);
                    }
                }
                return Some(&self.id_to_chunk[i]);
            }
            proof {
                if self.chunk_views()[i as int].entry_uri == uri@ {
                    assert(self.entry_pairs()[i as int].0 == uri@);
                }
            }
            i = i + 1;
        }
        proof {
            if self.has_entry(uri@) {
                let k = choose|k: int|
                    0 <= k < self.chunk_views().len() && self.chunk_views()[k].entry_uri == uri@;
                assert(self.entry_pairs()[k].0 == uri@);
            }
        }
        None
    }
}

impl Default for ChunkGraph {
    fn default() -> (r: Self)
        ensures
            r.chunk_views() == Seq::<ChunkView>::empty(),
            r.wf(),
    {
        ChunkGraph::new()
    }
}

} // verus!
