//! Common graph types and graph components.
//!
//! A `Graph` owns the set of live vertices and one `AdjacencyList`.
//! Identifiers are issued monotonically starting at 0 and are never
//! reused, even after deletion; the adjacency list keeps one slot per
//! identifier ever issued, so every issued id stays a valid slot index.

use vstd::prelude::*;

verus! {

/// A node of the graph, identified by a unique non-negative integer.
///
/// `pre` and `post` are unused placeholders, reserved for a future
/// numbering scheme such as depth-first discovery and finish times;
/// no current operation touches them.
#[derive(Clone, Copy)]
pub struct Vertex {
    id: usize,
    pub pre: Option<usize>,
    pub post: Option<usize>,
}

impl Vertex {
    /// The identifier this vertex was created with.
    pub closed spec fn spec_id(&self) -> usize {
        self.id
    }

    /// The `pre` placeholder, as contracts see it.
    pub closed spec fn spec_pre(&self) -> Option<usize> {
        self.pre
    }

    /// The `post` placeholder, as contracts see it.
    pub closed spec fn spec_post(&self) -> Option<usize> {
        self.post
    }

    pub fn id(&self) -> (id: usize)
        ensures
            id == self.spec_id(),
    {
        self.id
    }
}

impl PartialEq for Vertex {
    /// Vertex equality is equality of identifiers alone.
    fn eq(&self, other: &Vertex) -> (r: bool)
    {
        self.id == other.id
    }
}

impl vstd::std_specs::cmp::PartialEqSpecImpl for Vertex {
    open spec fn obeys_eq_spec() -> bool {
        true
    }

    open spec fn eq_spec(&self, other: &Vertex) -> bool {
        self.spec_id() == other.spec_id()
    }
}

/// A directed edge record: the destination endpoint, the source being
/// implicit in where the record would be held. Present for parity with
/// the vertex record; no current operation builds one.
pub struct Edge {
    #[allow(dead_code)]
    endpoint: Vertex,
}

/// Per-source ordered sequences of destination ids, indexed by source id.
///
/// Slot `s` holds the destinations of the edges added with source `s`,
/// in insertion order, duplicates and self-loops included. Destinations
/// are stored unchecked: nothing demands that they name a live vertex.
pub struct AdjacencyList {
    vertices: Vec<Vec<usize>>,
}

impl View for AdjacencyList {
    type V = Seq<Seq<usize>>;

    closed spec fn view(&self) -> Seq<Seq<usize>> {
        self.vertices@.map(|i: int, slot: Vec<usize>| slot@)
    }
}

impl AdjacencyList {
    pub fn new() -> (list: AdjacencyList)
        ensures
            list@.len() == 0,
    {
        AdjacencyList { vertices: Vec::new() }
    }

    /// The number of slots, one per identifier ever issued.
    pub fn size(&self) -> (n: usize)
        ensures
            n == self@.len(),
    {
        self.vertices.len()
    }

    /// Append `dst` to the slot of `src`.
    pub fn add_edge(&mut self, src: &usize, dst: &usize)
        requires
            *src < old(self)@.len(),
        ensures
            final(self)@ == old(self)@.update(*src as int, old(self)@[*src as int].push(*dst)),
    {
        self.vertices[*src].push(*dst);
        proof {
            assert(self@ =~= old(self)@.update(*src as int, old(self)@[*src as int].push(*dst)));
        }
    }

    /// Clear the slot of `v` to the empty sequence.
    pub fn delete_vertex(&mut self, v: &usize)
        requires
            *v < old(self)@.len(),
        ensures
            final(self)@ == old(self)@.update(*v as int, Seq::<usize>::empty()),
    {
        self.vertices[*v] = Vec::new();
        proof {
            assert(self@ =~= old(self)@.update(*v as int, Seq::<usize>::empty()));
        }
    }

    /// A read-only view of the slot of `src`.
    pub fn get_adjacent_vertices(&self, src: usize) -> (adjacent: &Vec<usize>)
        requires
            src < self@.len(),
        ensures
            adjacent@ == self@[src as int],
    {
        &self.vertices[src]
    }
}

/// The identifiers of a stored vertex sequence, in storage order.
pub open spec fn ids_of(s: Seq<Vertex>) -> Seq<usize> {
    s.map(|i: int, vtx: Vertex| vtx.spec_id())
}

/// The stored vertex sequence with every record carrying id `v` removed;
/// the relative order of the remaining records is kept.
pub open spec fn vertices_without(s: Seq<Vertex>, v: usize) -> Seq<Vertex>
    decreases s.len(),
{
    if s.len() == 0 {
        Seq::empty()
    } else {
        let rest = vertices_without(s.drop_last(), v);
        if s.last().spec_id() == v {
            rest
        } else {
            rest.push(s.last())
        }
    }
}

/// Every record of `vertices_without(s, v)` is a record of `s`, and
/// strictly increasing ids survive the removal.
proof fn lemma_vertices_without_wf(s: Seq<Vertex>, v: usize)
    requires
        forall|i: int, j: int|
            0 <= i < j < s.len() ==> ids_of(s)[i] < ids_of(s)[j],
    ensures
        forall|i: int| 0 <= i < vertices_without(s, v).len()
            ==> s.contains(#[trigger] vertices_without(s, v)[i]),
        forall|i: int, j: int|
            0 <= i < j < vertices_without(s, v).len()
                ==> ids_of(vertices_without(s, v))[i] < ids_of(vertices_without(s, v))[j],
    decreases s.len(),
{
    if s.len() > 0 {
        let prefix = s.drop_last();
        let rest = vertices_without(prefix, v);
        assert forall|i: int, j: int|
            0 <= i < j < prefix.len() implies ids_of(prefix)[i] < ids_of(prefix)[j] by {
            assert(ids_of(s)[i] < ids_of(s)[j]);
            assert(ids_of(prefix)[i] == ids_of(s)[i]);
            assert(ids_of(prefix)[j] == ids_of(s)[j]);
        }
        lemma_vertices_without_wf(prefix, v);
        assert forall|i: int| 0 <= i < vertices_without(s, v).len()
            implies s.contains(#[trigger] vertices_without(s, v)[i]) by {
            if i < rest.len() {
                assert(prefix.contains(rest[i]));
                let w = choose|w: int| 0 <= w < prefix.len() && #[trigger] prefix[w] == rest[i];
                assert(s[w] == rest[i]);
                assert(s.contains(s[w]));
            } else {
                assert(vertices_without(s, v)[i] == s.last());
                assert(s.contains(s[s.len() - 1]));
            }
        }
        assert forall|i: int, j: int|
            0 <= i < j < vertices_without(s, v).len()
                implies ids_of(vertices_without(s, v))[i]
                    < ids_of(vertices_without(s, v))[j] by {
            let r = vertices_without(s, v);
            assert(ids_of(r)[i] == r[i].spec_id());
            assert(ids_of(r)[j] == r[j].spec_id());
            if j < rest.len() {
                assert(ids_of(rest)[i] < ids_of(rest)[j]);
                assert(ids_of(rest)[i] == rest[i].spec_id());
                assert(ids_of(rest)[j] == rest[j].spec_id());
            } else {
                // j names the kept last record; r[i] comes from the prefix,
                // whose ids all lie below the last id.
                assert(r[j] == s.last());
                assert(prefix.contains(rest[i]));
                let w = choose|w: int| 0 <= w < prefix.len() && #[trigger] prefix[w] == rest[i];
                assert(ids_of(s)[w] < ids_of(s)[s.len() - 1]);
                assert(ids_of(s)[w] == s[w].spec_id());
                assert(ids_of(s)[s.len() - 1] == s.last().spec_id());
            }
        }
    }
}

/// Removing id `v` shortens the sequence by one exactly when some record
/// carries `v`, provided ids are distinct.
proof fn lemma_vertices_without_len(s: Seq<Vertex>, v: usize)
    requires
        forall|i: int, j: int|
            0 <= i < j < s.len() ==> ids_of(s)[i] < ids_of(s)[j],
    ensures
        vertices_without(s, v).len() == if ids_of(s).contains(v) {
            s.len() - 1
        } else {
            s.len() as int
        },
    decreases s.len(),
{
    if s.len() == 0 {
        assert(!ids_of(s).contains(v));
    } else {
        let prefix = s.drop_last();
        assert forall|i: int, j: int|
            0 <= i < j < prefix.len() implies ids_of(prefix)[i] < ids_of(prefix)[j] by {
            assert(ids_of(s)[i] < ids_of(s)[j]);
        }
        lemma_vertices_without_len(prefix, v);
        if s.last().spec_id() == v {
            // No prefix record can also carry v: ids are strictly increasing.
            if ids_of(prefix).contains(v) {
                let l = choose|l: int|
                    0 <= l < ids_of(prefix).len() && #[trigger] ids_of(prefix)[l] == v;
                assert(ids_of(s)[l] == ids_of(prefix)[l]);
                assert(ids_of(s)[l] < ids_of(s)[s.len() - 1]);
                assert(ids_of(s)[s.len() - 1] == v);
                assert(false);
            }
            assert(ids_of(s)[s.len() - 1] == v);
            assert(ids_of(s).contains(v));
        } else {
            assert(ids_of(s)[s.len() - 1] == s.last().spec_id());
            if ids_of(prefix).contains(v) {
                let l = choose|l: int|
                    0 <= l < ids_of(prefix).len() && #[trigger] ids_of(prefix)[l] == v;
                assert(ids_of(s)[l] == v);
                assert(ids_of(s).contains(v));
            }
            if ids_of(s).contains(v) {
                let l = choose|l: int|
                    0 <= l < ids_of(s).len() && #[trigger] ids_of(s)[l] == v;
                assert(l < prefix.len());
                assert(ids_of(prefix)[l] == v);
                assert(ids_of(prefix).contains(v));
            }
        }
    }
}

/// A live id `u` survives the removal of `v` exactly when `u != v`.
proof fn lemma_vertices_without_contains(s: Seq<Vertex>, v: usize, u: usize)
    ensures
        ids_of(vertices_without(s, v)).contains(u) <==> (ids_of(s).contains(u) && u != v),
    decreases s.len(),
{
    if s.len() == 0 {
        assert(!ids_of(s).contains(u));
        assert(!ids_of(vertices_without(s, v)).contains(u));
    } else {
        let prefix = s.drop_last();
        let rest = vertices_without(prefix, v);
        lemma_vertices_without_contains(prefix, v, u);
        let r = vertices_without(s, v);
        if ids_of(r).contains(u) {
            let l = choose|l: int| 0 <= l < ids_of(r).len() && #[trigger] ids_of(r)[l] == u;
            assert(r[l].spec_id() == u);
            if s.last().spec_id() == v {
                assert(ids_of(rest)[l] == u);
                assert(ids_of(rest).contains(u));
            } else if l < rest.len() {
                assert(ids_of(rest)[l] == u);
                assert(ids_of(rest).contains(u));
            } else {
                assert(r[l] == s.last());
                assert(u != v);
                assert(ids_of(s)[s.len() - 1] == u);
                assert(ids_of(s).contains(u));
            }
            if ids_of(rest).contains(u) {
                let w = choose|w: int|
                    0 <= w < ids_of(rest).len() && #[trigger] ids_of(rest)[w] == u;
                assert(ids_of(prefix).contains(u) && u != v);
                let p = choose|p: int|
                    0 <= p < ids_of(prefix).len() && #[trigger] ids_of(prefix)[p] == u;
                assert(ids_of(s)[p] == u);
                assert(ids_of(s).contains(u));
            }
        }
        if ids_of(s).contains(u) && u != v {
            let l = choose|l: int| 0 <= l < ids_of(s).len() && #[trigger] ids_of(s)[l] == u;
            if l < prefix.len() {
                assert(ids_of(prefix)[l] == u);
                assert(ids_of(prefix).contains(u));
                assert(ids_of(rest).contains(u));
                let w = choose|w: int|
                    0 <= w < ids_of(rest).len() && #[trigger] ids_of(rest)[w] == u;
                if s.last().spec_id() == v {
                    assert(ids_of(r)[w] == u);
                    assert(ids_of(r).contains(u));
                } else {
                    assert(r[w] == rest[w]);
                    assert(ids_of(r)[w] == u);
                    assert(ids_of(r).contains(u));
                }
            } else {
                assert(s[l] == s.last());
                assert(s.last().spec_id() == u);
                assert(r[r.len() - 1] == s.last());
                assert(ids_of(r)[r.len() - 1] == u);
                assert(ids_of(r).contains(u));
            }
        }
    }
}

/// The total number of destination entries over all slots: the edge count.
pub open spec fn total_len(slots: Seq<Seq<usize>>) -> nat
    decreases slots.len(),
{
    if slots.len() == 0 {
        0
    } else {
        total_len(slots.drop_last()) + slots.last().len()
    }
}

proof fn lemma_total_len_take_step(slots: Seq<Seq<usize>>, i: int)
    requires
        0 <= i < slots.len(),
    ensures
        total_len(slots.take(i + 1)) == total_len(slots.take(i)) + slots[i].len(),
{
    assert(slots.take(i + 1).drop_last() =~= slots.take(i));
    assert(slots.take(i + 1).last() == slots[i]);
}

proof fn lemma_total_len_uniform(slots: Seq<Seq<usize>>, m: nat)
    requires
        forall|k: int| 0 <= k < slots.len() ==> #[trigger] slots[k].len() == m,
    ensures
        total_len(slots) == slots.len() * m,
    decreases slots.len(),
{
    if slots.len() > 0 {
        let prefix = slots.drop_last();
        assert forall|k: int| 0 <= k < prefix.len() implies #[trigger] prefix[k].len() == m by {
            assert(slots[k].len() == m);
        }
        lemma_total_len_uniform(prefix, m);
        assert(slots[slots.len() - 1].len() == m);
        assert((slots.len() - 1) * m + m == slots.len() * m) by (nonlinear_arith);
    }
}

proof fn lemma_total_len_take_le(slots: Seq<Seq<usize>>, i: int)
    requires
        0 <= i <= slots.len(),
    ensures
        total_len(slots.take(i)) <= total_len(slots),
    decreases slots.len() - i,
{
    if i == slots.len() {
        assert(slots.take(i) =~= slots);
    } else {
        lemma_total_len_take_step(slots, i);
        lemma_total_len_take_le(slots, i + 1);
    }
}

/// The live vertex set plus the adjacency store.
///
/// `next_id` counts the identifiers issued so far; it never decreases
/// and an id is never reused, so a deleted id keeps its (cleared) slot.
pub struct Graph {
    pub name: String,
    next_id: usize,
    pub vertices: Vec<Vertex>,
    pub adjacency_list: AdjacencyList,
}

impl Graph {
    /// The identifiers of the live vertices, in storage order.
    pub closed spec fn ids(&self) -> Seq<usize> {
        ids_of(self.vertices@)
    }

    /// One destination sequence per identifier ever issued.
    pub closed spec fn slots(&self) -> Seq<Seq<usize>> {
        self.adjacency_list@
    }

    /// The next identifier to be issued.
    pub closed spec fn spec_next_id(&self) -> usize {
        self.next_id
    }

    /// The live vertex records, in storage order, as contracts see them.
    pub closed spec fn spec_vertices(&self) -> Seq<Vertex> {
        self.vertices@
    }

    /// The label string, as contracts see it.
    pub closed spec fn spec_name(&self) -> Seq<char> {
        self.name@
    }

    /// Well-formedness: one slot stands for every id issued so far, and
    /// live ids are strictly increasing in storage order — hence unique,
    /// below `next_id`, and ordered by insertion (deletion keeps the
    /// relative order of the survivors).
    pub open spec fn wf(&self) -> bool {
        &&& self.slots().len() == self.spec_next_id()
        &&& forall|i: int, j: int|
            0 <= i < j < self.ids().len() ==> self.ids()[i] < self.ids()[j]
        &&& forall|i: int| 0 <= i < self.ids().len() ==> #[trigger] self.ids()[i] < self.spec_next_id()
    }

    pub fn new() -> (graph: Graph)
        ensures
            graph.wf(),
            graph.spec_next_id() == 0,
            graph.ids().len() == 0,
            graph.slots().len() == 0,
            graph.spec_vertices().len() == 0,
            graph.spec_name().len() == 0,
    {
        Graph { name: String::new(), next_id: 0, vertices: Vec::new(), adjacency_list: AdjacencyList::new() }
    }

    /// Append one vertex carrying the next identifier, give it an empty
    /// adjacency slot, and advance the identifier counter.
    pub fn add_vertex(&mut self)
        requires
            old(self).wf(),
            old(self).spec_next_id() < usize::MAX,
        ensures
            final(self).wf(),
            final(self).spec_next_id() == old(self).spec_next_id() + 1,
            final(self).ids() == old(self).ids().push(old(self).spec_next_id()),
            final(self).slots() == old(self).slots().push(Seq::<usize>::empty()),
            final(self).spec_vertices().len() == old(self).spec_vertices().len() + 1,
            final(self).spec_vertices().drop_last() == old(self).spec_vertices(),
            final(self).spec_vertices().last().spec_id() == old(self).spec_next_id(),
            final(self).spec_vertices().last().spec_pre() == None::<usize>,
            final(self).spec_vertices().last().spec_post() == None::<usize>,
            final(self).spec_name() == old(self).spec_name(),
    {
        self.vertices.push(Vertex { id: self.next_id, pre: None, post: None });
        assert(self.next_id == self.adjacency_list.vertices.len());
        self.adjacency_list.vertices.push(Vec::new());
        self.next_id = self.next_id + 1;
        proof {
            assert(self.ids() =~= old(self).ids().push(old(self).spec_next_id()));
            assert(self.slots() =~= old(self).slots().push(Seq::<usize>::empty()));
            assert(self.vertices@.drop_last() =~= old(self).vertices@);
        }
    }

    /// Append `dst` to the slot of `src`. The destination is stored
    /// unchecked: it need not name a live vertex.
    pub fn add_edge(&mut self, src: &usize, dst: &usize)
        requires
            old(self).wf(),
            *src < old(self).spec_next_id(),
        ensures
            final(self).wf(),
            final(self).slots() == old(self).slots().update(
                *src as int,
                old(self).slots()[*src as int].push(*dst),
            ),
            final(self).spec_vertices() == old(self).spec_vertices(),
            final(self).ids() == old(self).ids(),
            final(self).spec_next_id() == old(self).spec_next_id(),
            final(self).spec_name() == old(self).spec_name(),
    {
        self.adjacency_list.add_edge(src, dst);
        proof {
            assert forall|i: int, j: int|
                0 <= i < j < self.ids().len() implies self.ids()[i] < self.ids()[j] by {
                assert(old(self).ids()[i] < old(self).ids()[j]);
            }
            assert forall|i: int|
                0 <= i < self.ids().len() implies #[trigger] self.ids()[i] < self.spec_next_id() by {
                assert(old(self).ids()[i] < old(self).spec_next_id());
            }
        }
    }

    /// Issue `n_vertices` fresh identifiers, one vertex each, and hand
    /// back a mutable handle to the graph so that calls can be chained.
    pub fn add_vertices(&mut self, n_vertices: usize) -> (graph: &mut Graph)
        requires
            old(self).wf(),
            old(self).spec_next_id() + n_vertices <= usize::MAX,
        ensures
            graph.wf(),
            graph.spec_next_id() == old(self).spec_next_id() + n_vertices,
            graph.ids() == old(self).ids() + Seq::new(
                n_vertices as nat,
                |k: int| (old(self).spec_next_id() + k) as usize,
            ),
            graph.slots() == old(self).slots() + Seq::new(
                n_vertices as nat,
                |k: int| Seq::<usize>::empty(),
            ),
            graph.spec_vertices().len() == old(self).spec_vertices().len() + n_vertices,
            graph.spec_vertices().take(old(self).spec_vertices().len() as int)
                == old(self).spec_vertices(),
            forall|k: int|
                old(self).spec_vertices().len() <= k < graph.spec_vertices().len()
                    ==> (#[trigger] graph.spec_vertices()[k]).spec_pre() == None::<usize>
                        && graph.spec_vertices()[k].spec_post() == None::<usize>,
            graph.spec_name() == old(self).spec_name(),
            *final(self) == *final(graph),
    {
        for idx in 0..n_vertices
            invariant
                self.wf(),
                old(self).spec_next_id() + n_vertices <= usize::MAX,
                self.spec_next_id() == old(self).spec_next_id() + idx,
                self.ids() == old(self).ids() + Seq::new(
                    idx as nat,
                    |k: int| (old(self).spec_next_id() + k) as usize,
                ),
                self.slots() == old(self).slots() + Seq::new(
                    idx as nat,
                    |k: int| Seq::<usize>::empty(),
                ),
                self.spec_vertices().len() == old(self).spec_vertices().len() + idx,
                self.spec_vertices().take(old(self).spec_vertices().len() as int)
                    == old(self).spec_vertices(),
                forall|k: int|
                    old(self).spec_vertices().len() <= k < self.spec_vertices().len()
                        ==> (#[trigger] self.spec_vertices()[k]).spec_pre() == None::<usize>
                            && self.spec_vertices()[k].spec_post() == None::<usize>,
                self.spec_name() == old(self).spec_name(),
        {
            let ghost prev = *self;
            self.add_vertex();
            proof {
                assert(self.ids() =~= old(self).ids() + Seq::new(
                    (idx + 1) as nat,
                    |k: int| (old(self).spec_next_id() + k) as usize,
                ));
                assert(self.slots() =~= old(self).slots() + Seq::new(
                    (idx + 1) as nat,
                    |k: int| Seq::<usize>::empty(),
                ));
                assert(self.spec_vertices().take(old(self).spec_vertices().len() as int)
                    =~= old(self).spec_vertices());
                assert(self.spec_vertices().drop_last() == prev.spec_vertices());
                assert forall|k: int|
                    old(self).spec_vertices().len() <= k < self.spec_vertices().len()
                        implies (#[trigger] self.spec_vertices()[k]).spec_pre() == None::<usize>
                            && self.spec_vertices()[k].spec_post() == None::<usize> by {
                    if k < self.spec_vertices().len() - 1 {
                        assert(self.spec_vertices()[k] == self.spec_vertices().drop_last()[k]);
                        assert(prev.spec_vertices()[k].spec_pre() == None::<usize>);
                        assert(prev.spec_vertices()[k].spec_post() == None::<usize>);
                    } else {
                        assert(self.spec_vertices()[k] == self.spec_vertices().last());
                    }
                }
            }
        }
        self
    }

    /// Add one edge for every ordered pair of currently-live vertices,
    /// self-loops included: each live slot is extended by the whole live
    /// id sequence, in storage order; slots of deleted ids are untouched.
    /// Hands back a mutable handle to the graph for chaining.
    pub fn fully_connect(&mut self) -> (graph: &mut Graph)
        requires
            old(self).wf(),
        ensures
            graph.wf(),
            graph.slots().len() == old(self).slots().len(),
            forall|k: usize|
                k < old(self).slots().len() ==> #[trigger] graph.slots()[k as int] == (
                    if old(self).ids().contains(k) {
                        old(self).slots()[k as int] + old(self).ids()
                    } else {
                        old(self).slots()[k as int]
                    }),
            graph.spec_vertices() == old(self).spec_vertices(),
            graph.ids() == old(self).ids(),
            graph.spec_next_id() == old(self).spec_next_id(),
            graph.spec_name() == old(self).spec_name(),
            *final(self) == *final(graph),
    {
        let ghost ids0 = old(self).ids();
        let n = self.vertices.len();
        for i in 0..n
            invariant
                self.wf(),
                ids0 == old(self).ids(),
                n == self.spec_vertices().len(),
                self.spec_vertices() == old(self).spec_vertices(),
                self.spec_next_id() == old(self).spec_next_id(),
                self.spec_name() == old(self).spec_name(),
                self.slots().len() == old(self).slots().len(),
                forall|k: usize|
                    k < old(self).slots().len() ==> #[trigger] self.slots()[k as int] == (
                        if ids0.take(i as int).contains(k) {
                            old(self).slots()[k as int] + ids0
                        } else {
                            old(self).slots()[k as int]
                        }),
        {
            let vertex1 = self.vertices[i].id();
            proof {
                assert(self.ids() == ids0);
                assert(ids0[i as int] == vertex1);
                assert(self.ids()[i as int] < self.spec_next_id());
            }
            let ghost mid = *self;
            for j in 0..n
                invariant
                    self.wf(),
                    i < n,
                    vertex1 == ids0[i as int],
                    vertex1 < self.slots().len(),
                    ids0 == old(self).ids(),
                    n == self.spec_vertices().len(),
                    self.spec_vertices() == old(self).spec_vertices(),
                    self.spec_next_id() == old(self).spec_next_id(),
                    self.spec_name() == old(self).spec_name(),
                    self.slots().len() == mid.slots().len(),
                    self.slots()[vertex1 as int] == mid.slots()[vertex1 as int] + ids0.take(j as int),
                    forall|k: int|
                        0 <= k < self.slots().len() && k != vertex1
                            ==> #[trigger] self.slots()[k] == mid.slots()[k],
            {
                let vertex2 = self.vertices[j].id();
                proof {
                    assert(ids0[j as int] == vertex2);
                    assert(self.slots()[vertex1 as int] == mid.slots()[vertex1 as int] + ids0.take(j as int));
                }
                let ghost before = *self;
                self.add_edge(&vertex1, &vertex2);
                proof {
                    assert(self.slots()[vertex1 as int] =~= mid.slots()[vertex1 as int] + ids0.take(j as int + 1));
                    assert forall|k: int|
                        0 <= k < self.slots().len() && k != vertex1
                            implies #[trigger] self.slots()[k] == mid.slots()[k] by {
                        assert(self.slots()[k] == before.slots()[k]);
                    }
                }
            }
            proof {
                assert(ids0.take(n as int) =~= ids0);
                assert(self.slots()[vertex1 as int] == mid.slots()[vertex1 as int] + ids0);
                // The slot of `vertex1` was untouched by the earlier outer
                // iterations: ids are strictly increasing, so `vertex1` is
                // not among the first `i` ids.
                if ids0.take(i as int).contains(vertex1) {
                    let l = choose|l: int|
                        0 <= l < ids0.take(i as int).len() && #[trigger] ids0.take(i as int)[l] == vertex1;
                    assert(ids0[l] == vertex1);
                    assert(self.ids() == ids0);
                    assert(self.ids()[l] < self.ids()[i as int]);
                    assert(false);
                }
                assert(mid.slots()[vertex1 as int] == old(self).slots()[vertex1 as int]);
                assert forall|k: usize|
                    k < old(self).slots().len() implies #[trigger] self.slots()[k as int] == (
                        if ids0.take(i as int + 1).contains(k) {
                            old(self).slots()[k as int] + ids0
                        } else {
                            old(self).slots()[k as int]
                        }) by {
                    if k == vertex1 {
                        assert(ids0.take(i as int + 1)[i as int] == vertex1);
                        assert(ids0.take(i as int + 1).contains(vertex1));
                    } else {
                        assert(self.slots()[k as int] == mid.slots()[k as int]);
                        if ids0.take(i as int + 1).contains(k) {
                            let l = choose|l: int|
                                0 <= l < ids0.take(i as int + 1).len()
                                    && #[trigger] ids0.take(i as int + 1)[l] == k;
                            assert(ids0[l] == k);
                            assert(l != i);
                            assert(ids0.take(i as int)[l] == k);
                            assert(ids0.take(i as int).contains(k));
                        }
                        if ids0.take(i as int).contains(k) {
                            let l = choose|l: int|
                                0 <= l < ids0.take(i as int).len() && #[trigger] ids0.take(i as int)[l] == k;
                            assert(ids0.take(i as int + 1)[l] == k);
                            assert(ids0.take(i as int + 1).contains(k));
                        }
                    }
                }
            }
        }
        proof {
            assert(ids0.take(n as int) =~= ids0);
            assert forall|k: usize|
                k < old(self).slots().len() implies #[trigger] self.slots()[k as int] == (
                    if ids0.contains(k) {
                        old(self).slots()[k as int] + ids0
                    } else {
                        old(self).slots()[k as int]
                    }) by {
                assert(self.slots()[k as int] == (
                    if ids0.take(n as int).contains(k) {
                        old(self).slots()[k as int] + ids0
                    } else {
                        old(self).slots()[k as int]
                    }));
            }
        }
        self
    }

    /// The number of live vertices.
    pub fn count_vertices(&self) -> (n: usize)
        ensures
            n == self.ids().len(),
    {
        self.vertices.len()
    }

    /// The total number of stored edges: the sum of the slot lengths over
    /// every slot, the cleared slots of deleted vertices included.
    pub fn count_edges(&self) -> (n: usize)
        requires
            total_len(self.slots()) <= usize::MAX,
        ensures
            n == total_len(self.slots()),
    {
        let mut total: usize = 0;
        let n_slots = self.adjacency_list.vertices.len();
        for i in 0..n_slots
            invariant
                n_slots == self.slots().len(),
                total_len(self.slots()) <= usize::MAX,
                total == total_len(self.slots().take(i as int)),
        {
            proof {
                lemma_total_len_take_step(self.slots(), i as int);
                lemma_total_len_take_le(self.slots(), i + 1);
                assert(self.slots()[i as int] == self.adjacency_list.vertices@[i as int]@);
            }
            total = total + self.adjacency_list.vertices[i].len();
        }
        proof {
            assert(self.slots().take(n_slots as int) =~= self.slots());
        }
        total
    }

    /// Remove the vertex carrying `v` from the live set — silently a
    /// no-op on that set when no live vertex carries `v` — and clear the
    /// adjacency slot of `v`. Edges pointing into `v` from other slots
    /// are kept and dangle; this asymmetry is deliberate.
    pub fn delete_vertex(&mut self, v: &usize)
        requires
            old(self).wf(),
            *v < old(self).spec_next_id(),
        ensures
            final(self).wf(),
            final(self).spec_vertices() == vertices_without(old(self).spec_vertices(), *v),
            final(self).slots() == old(self).slots().update(*v as int, Seq::<usize>::empty()),
            final(self).spec_next_id() == old(self).spec_next_id(),
            final(self).spec_name() == old(self).spec_name(),
            final(self).ids().len() == if old(self).ids().contains(*v) {
                old(self).ids().len() - 1
            } else {
                old(self).ids().len() as int
            },
            forall|u: usize|
                #[trigger] final(self).ids().contains(u)
                    <==> (old(self).ids().contains(u) && u != *v),
    {
        let mut kept: Vec<Vertex> = Vec::new();
        let n = self.vertices.len();
        for i in 0..n
            invariant
                n == self.spec_vertices().len(),
                self == old(self),
                kept@ == vertices_without(self.spec_vertices().take(i as int), *v),
        {
            let vtx = self.vertices[i];
            proof {
                assert(self.spec_vertices().take(i as int + 1).drop_last()
                    =~= self.spec_vertices().take(i as int));
                assert(self.spec_vertices().take(i as int + 1).last()
                    == self.spec_vertices()[i as int]);
            }
            if vtx.id() != *v {
                kept.push(vtx);
            }
        }
        proof {
            assert(self.spec_vertices().take(n as int) =~= self.spec_vertices());
        }
        self.vertices = kept;
        self.adjacency_list.delete_vertex(v);
        proof {
            let s0 = old(self).spec_vertices();
            assert forall|i: int, j: int|
                0 <= i < j < s0.len() implies ids_of(s0)[i] < ids_of(s0)[j] by {
                assert(old(self).ids()[i] < old(self).ids()[j]);
            }
            lemma_vertices_without_wf(s0, *v);
            lemma_vertices_without_len(s0, *v);
            let r = vertices_without(s0, *v);
            assert forall|i: int, j: int|
                0 <= i < j < self.ids().len() implies self.ids()[i] < self.ids()[j] by {
                assert(ids_of(r)[i] < ids_of(r)[j]);
            }
            assert forall|i: int|
                0 <= i < self.ids().len() implies #[trigger] self.ids()[i] < self.spec_next_id() by {
                assert(s0.contains(r[i]));
                let w = choose|w: int| 0 <= w < s0.len() && #[trigger] s0[w] == r[i];
                assert(old(self).ids()[w] < old(self).spec_next_id());
                assert(old(self).ids()[w] == s0[w].spec_id());
                assert(self.ids()[i] == r[i].spec_id());
            }
            assert forall|u: usize|
                #[trigger] self.ids().contains(u)
                    <==> (old(self).ids().contains(u) && u != *v) by {
                lemma_vertices_without_contains(s0, *v, u);
            }
            if old(self).ids().contains(*v) {
                assert(ids_of(s0).contains(*v));
            } else {
                assert(!ids_of(s0).contains(*v));
            }
        }
    }

    /// A read-only view of the slot of `v`, dangling destinations and
    /// duplicates included, in insertion order.
    pub fn get_adjacent_vertices(&self, v: usize) -> (adjacent: &Vec<usize>)
        requires
            v < self.slots().len(),
        ensures
            adjacent@ == self.slots()[v as int],
    {
        self.adjacency_list.get_adjacent_vertices(v)
    }

    /// Linear scan of the live vertex set: the vertex carrying `id`,
    /// or `None` when no live vertex carries it.
    pub fn get_vertex(&self, id: &usize) -> (vertex: Option<&Vertex>)
        ensures
            match vertex {
                Some(vtx) => vtx.spec_id() == *id && self.spec_vertices().contains(*vtx),
                None => !self.ids().contains(*id),
            },
    {
        let n = self.vertices.len();
        for i in 0..n
            invariant
                n == self.vertices@.len(),
                forall|k: int| 0 <= k < i ==> #[trigger] self.ids()[k] != *id,
        {
            if self.vertices[i].id() == *id {
                proof {
                    assert(self.vertices@.contains(self.vertices@[i as int]));
                }
                return Some(&self.vertices[i]);
            }
            proof {
                assert(self.ids()[i as int] == self.vertices@[i as int].spec_id());
            }
        }
        proof {
            assert forall|k: int| 0 <= k < self.ids().len() implies self.ids()[k] != *id by {
            }
        }
        None
    }
}

/// Law: a run of `n` vertex insertions into a fresh graph leaves exactly
/// `n` live vertices, whose ids are 0, 1, ..., n-1 in storage order, so
/// every id below `n` is live at exactly one position.
///
/// The premises are what `Graph::new` ensures of `fresh` and what
/// `add_vertices(n)` ensures of `grown`.
pub proof fn lemma_fresh_vertex_ids(fresh: Graph, grown: Graph, n: usize)
    requires
        fresh.ids().len() == 0,
        fresh.spec_next_id() == 0,
        grown.ids() == fresh.ids() + Seq::new(
            n as nat,
            |k: int| (fresh.spec_next_id() + k) as usize,
        ),
    ensures
        grown.ids().len() == n,
        forall|i: int| 0 <= i < n ==> #[trigger] grown.ids()[i] == i as usize,
        forall|w: usize| w < n ==> grown.ids().contains(w),
        forall|i: int, j: int|
            0 <= i < j < grown.ids().len() ==> grown.ids()[i] != grown.ids()[j],
{
    assert(grown.ids() =~= Seq::new(n as nat, |k: int| k as usize));
    assert forall|w: usize| w < n implies grown.ids().contains(w) by {
        assert(grown.ids()[w as int] == w);
    }
}

/// Law: queries mutate nothing. `count_edges` and `get_adjacent_vertices`
/// take the graph by shared reference, so the state both calls read is one
/// and the same value; their contracts determine each result from that
/// value alone, so repeated calls without an intervening mutation return
/// identical results.
pub proof fn lemma_queries_repeatable(
    g: Graph,
    v: usize,
    edges1: usize,
    edges2: usize,
    adjacent1: Seq<usize>,
    adjacent2: Seq<usize>,
)
    requires
        edges1 == total_len(g.slots()),
        edges2 == total_len(g.slots()),
        v < g.slots().len(),
        adjacent1 == g.slots()[v as int],
        adjacent2 == g.slots()[v as int],
    ensures
        edges1 == edges2,
        adjacent1 == adjacent2,
{
}

/// Law: fully connecting a freshly grown batch of `n` vertices stores
/// exactly `n * n` edges, self-loops included.
///
/// The premises are what `new` plus `add_vertices(n)` ensure of `grown`
/// and what `fully_connect` then ensures of `connected`.
pub proof fn lemma_fully_connect_edge_count(grown: Graph, connected: Graph, n: usize)
    requires
        grown.ids() == Seq::new(n as nat, |k: int| k as usize),
        grown.slots().len() == n,
        forall|k: int| 0 <= k < grown.slots().len() ==> #[trigger] grown.slots()[k].len() == 0,
        connected.slots().len() == grown.slots().len(),
        forall|k: usize|
            k < grown.slots().len() ==> #[trigger] connected.slots()[k as int] == (
                if grown.ids().contains(k) {
                    grown.slots()[k as int] + grown.ids()
                } else {
                    grown.slots()[k as int]
                }),
    ensures
        total_len(connected.slots()) == n * n,
{
    assert forall|k: int|
        0 <= k < connected.slots().len() implies #[trigger] connected.slots()[k].len() == n by {
        let w = k as usize;
        assert(grown.ids()[k] == w);
        assert(grown.ids().contains(w));
        assert(connected.slots()[w as int] == grown.slots()[w as int] + grown.ids());
    }
    lemma_total_len_uniform(connected.slots(), n as nat);
}

/// Law: deleting a live vertex removes exactly that vertex from the live
/// set, clears its outgoing slot, and leaves every other slot untouched —
/// edges aimed at the deleted id survive in their source's slot as
/// dangling entries.
///
/// The premises are `delete_vertex`'s precondition plus what it ensures
/// of `after`, for a `v` that is live in `before`.
pub proof fn lemma_delete_live_vertex(before: Graph, after: Graph, v: usize)
    requires
        before.wf(),
        v < before.spec_next_id(),
        before.ids().contains(v),
        after.spec_vertices() == vertices_without(before.spec_vertices(), v),
        after.slots() == before.slots().update(v as int, Seq::<usize>::empty()),
    ensures
        after.ids().len() == before.ids().len() - 1,
        after.slots()[v as int].len() == 0,
        forall|k: int|
            0 <= k < before.slots().len() && k != v
                ==> #[trigger] after.slots()[k] == before.slots()[k],
        forall|u: usize|
            #[trigger] after.ids().contains(u) <==> (before.ids().contains(u) && u != v),
{
    let s0 = before.spec_vertices();
    assert forall|i: int, j: int|
        0 <= i < j < s0.len() implies ids_of(s0)[i] < ids_of(s0)[j] by {
        assert(before.ids()[i] < before.ids()[j]);
    }
    lemma_vertices_without_len(s0, v);
    assert(ids_of(s0).contains(v));
    assert forall|u: usize|
        #[trigger] after.ids().contains(u) <==> (before.ids().contains(u) && u != v) by {
        lemma_vertices_without_contains(s0, v, u);
    }
}

/// Law: destinations land in their source's slot in call order, nothing
/// is reordered and duplicates are preserved: appending first `d1`, then
/// `d2` (possibly equal), to the slot of `src` extends exactly that slot
/// by `[d1, d2]`.
///
/// The premises are what two consecutive `add_edge(src, _)` calls ensure.
pub proof fn lemma_edge_insertion_order(
    g0: Graph,
    g1: Graph,
    g2: Graph,
    src: usize,
    d1: usize,
    d2: usize,
)
    requires
        src < g0.slots().len(),
        g1.slots() == g0.slots().update(src as int, g0.slots()[src as int].push(d1)),
        g2.slots() == g1.slots().update(src as int, g1.slots()[src as int].push(d2)),
    ensures
        g2.slots().len() == g0.slots().len(),
        g2.slots()[src as int] == g0.slots()[src as int] + seq![d1, d2],
        forall|k: int|
            0 <= k < g0.slots().len() && k != src
                ==> #[trigger] g2.slots()[k] == g0.slots()[k],
{
    assert(g2.slots()[src as int] =~= g0.slots()[src as int] + seq![d1, d2]);
}

} // verus!
