//! The adjacency store and the mutation engine.
//!
//! Vertices are held sorted by id, each with its forward adjacency (edge
//! groups sorted by target id) and its reverse index (the sorted set of
//! source ids with at least one edge in). Well-formedness ties the two
//! directions together and keeps the allocator counter above every live id.

use vstd::prelude::*;
use vstd::std_specs::cmp::PartialEqSpec;

verus! {

/// All parallel edges from one vertex to the target `to`, as an ordered
/// list of optional labels. A group is never kept empty.
pub struct EdgeGroup<E> {
    pub to: usize,
    pub labels: Vec<Option<E>>,
}

/// One vertex: its id, its optional label, its forward adjacency
/// (sorted by target id) and its reverse index (sorted source ids).
pub struct Vertex<V, E> {
    pub id: usize,
    pub label: Option<V>,
    pub targets: Vec<EdgeGroup<E>>,
    pub sources: Vec<usize>,
}

/// A directed labeled multigraph: vertices sorted by id, and the highest
/// id the allocator has issued since the last compaction.
pub struct Graph<V, E> {
    pub vertices: Vec<Vertex<V, E>>,
    pub last_vertex_id: usize,
}

/// The recoverable failures: referencing an absent vertex, or removing an
/// edge label with no matching occurrence. The graph is left unchanged.
#[derive(Clone, Copy, PartialEq, Eq, Structural, Debug)]
pub enum GraphError {
    VertexNotFound,
    EdgeNotFound,
}

/// Mathematical image of an edge group.
#[verifier::ext_equal]
pub struct GroupModel<E> {
    pub to: int,
    pub labels: Seq<Option<E>>,
}

/// Mathematical image of a vertex.
#[verifier::ext_equal]
pub struct VertexModel<V, E> {
    pub id: int,
    pub label: Option<V>,
    pub targets: Seq<GroupModel<E>>,
    pub sources: Seq<int>,
}

/// Mathematical image of the whole graph.
#[verifier::ext_equal]
pub struct GraphModel<V, E> {
    pub verts: Seq<VertexModel<V, E>>,
    pub last: int,
}

impl<E> View for EdgeGroup<E> {
    type V = GroupModel<E>;

    open spec fn view(&self) -> GroupModel<E> {
        GroupModel { to: self.to as int, labels: self.labels@ }
    }
}

impl<V, E> View for Vertex<V, E> {
    type V = VertexModel<V, E>;

    open spec fn view(&self) -> VertexModel<V, E> {
        VertexModel {
            id: self.id as int,
            label: self.label,
            targets: self.targets@.map_values(|g: EdgeGroup<E>| g@),
            sources: self.sources@.map_values(|s: usize| s as int),
        }
    }
}

impl<V, E> View for Graph<V, E> {
    type V = GraphModel<V, E>;

    open spec fn view(&self) -> GraphModel<V, E> {
        GraphModel {
            verts: self.vertices@.map_values(|v: Vertex<V, E>| v@),
            last: self.last_vertex_id as int,
        }
    }
}

/// A strictly increasing sequence of integers.
pub open spec fn sorted_strict(s: Seq<int>) -> bool {
    forall|i: int, j: int| 0 <= i < j < s.len() ==> s[i] < s[j]
}

/// The ids of the vertices, in storage order.
pub open spec fn ids_of<V, E>(g: GraphModel<V, E>) -> Seq<int> {
    g.verts.map_values(|v: VertexModel<V, E>| v.id)
}

/// Whether a vertex with id `x` is present.
pub open spec fn has_id<V, E>(g: GraphModel<V, E>, x: int) -> bool {
    exists|i: int| 0 <= i < g.verts.len() && g.verts[i].id == x
}

/// The index of the vertex with id `x` (unique when the ids are sorted).
pub open spec fn idx_of<V, E>(g: GraphModel<V, E>, x: int) -> int {
    choose|i: int| 0 <= i < g.verts.len() && g.verts[i].id == x
}

/// Whether `v` has an edge group towards `to`.
pub open spec fn has_group<V, E>(v: VertexModel<V, E>, to: int) -> bool {
    exists|j: int| 0 <= j < v.targets.len() && v.targets[j].to == to
}

/// The index of the group towards `to` (unique when the groups are sorted).
pub open spec fn group_idx<V, E>(v: VertexModel<V, E>, to: int) -> int {
    choose|j: int| 0 <= j < v.targets.len() && v.targets[j].to == to
}

/// The ordered list of labels of the parallel edges `from -> to`;
/// empty when either vertex or the group is absent.
pub open spec fn label_seq<V, E>(g: GraphModel<V, E>, from: int, to: int) -> Seq<Option<E>> {
    if has_id(g, from) && has_group(g.verts[idx_of(g, from)], to) {
        let v = g.verts[idx_of(g, from)];
        v.targets[group_idx(v, to)].labels
    } else {
        Seq::empty()
    }
}

/// Well-formedness of one vertex within the graph: groups sorted by target
/// id, no group empty, every referenced id live, sources sorted.
pub open spec fn vertex_wf<V, E>(g: GraphModel<V, E>, v: VertexModel<V, E>) -> bool {
    &&& sorted_strict(v.targets.map_values(|t: GroupModel<E>| t.to))
    &&& sorted_strict(v.sources)
    &&& forall|j: int| 0 <= j < v.targets.len() ==> (#[trigger] v.targets[j]).labels.len() > 0
    &&& forall|j: int| 0 <= j < v.targets.len() ==> has_id(g, (#[trigger] v.targets[j]).to)
    &&& forall|j: int| 0 <= j < v.sources.len() ==> has_id(g, #[trigger] v.sources[j])
}

/// The reverse index is exactly in sync with the forward adjacency:
/// `k` has a group towards `m` if and only if `k`'s id is in `m`'s sources.
pub open spec fn sync_wf<V, E>(g: GraphModel<V, E>) -> bool {
    forall|k: int, m: int|
        0 <= k < g.verts.len() && 0 <= m < g.verts.len() ==> (has_group(
            #[trigger] g.verts[k],
            (#[trigger] g.verts[m]).id,
        ) <==> g.verts[m].sources.contains(g.verts[k].id))
}

/// The store's invariant: ids strictly sorted (hence unique), every vertex
/// well formed, forward and reverse indices in sync, and the allocator
/// counter at or above every live id.
pub open spec fn wf<V, E>(g: GraphModel<V, E>) -> bool {
    &&& sorted_strict(ids_of(g))
    &&& forall|i: int| 0 <= i < g.verts.len() ==> vertex_wf(g, #[trigger] g.verts[i])
    &&& sync_wf(g)
    &&& forall|i: int| 0 <= i < g.verts.len() ==> (#[trigger] g.verts[i]).id <= g.last
    &&& g.last >= 0
}

impl<V, E> Graph<V, E> {
    /// Creates an empty graph; the allocator starts at zero.
    pub fn new() -> (g: Self)
        ensures
            g@.verts =~= Seq::<VertexModel<V, E>>::empty(),
            g@.last == 0,
            wf(g@),
    {
        let g = Graph { vertices: Vec::new(), last_vertex_id: 0 };
        proof {
            assert(g@.verts =~= Seq::<VertexModel<V, E>>::empty());
        }
        g
    }

    /// Allocates the next id, records the labeled vertex with no edges,
    /// and returns the new id, strictly above every id issued before.
    pub fn add_vertex(&mut self, label: V) -> (id: usize)
        requires
            wf(old(self)@),
            old(self)@.last < usize::MAX,
        ensures
            wf(final(self)@),
            id == old(self)@.last + 1,
            final(self)@.last == id,
            final(self)@.verts =~= old(self)@.verts.push(
                VertexModel {
                    id: id as int,
                    label: Some(label),
                    targets: Seq::empty(),
                    sources: Seq::empty(),
                },
            ),
    {
        self.last_vertex_id = self.last_vertex_id + 1;
        let v = Vertex {
            id: self.last_vertex_id,
            label: Some(label),
            targets: Vec::new(),
            sources: Vec::new(),
        };
        proof {
            assert(v@.targets =~= Seq::<GroupModel<E>>::empty());
            assert(v@.sources =~= Seq::<int>::empty());
        }
        self.vertices.push(v);
        proof {
            let gv = self@;
            let ov = old(self)@;
            assert(gv.verts =~= ov.verts.push(v@));
            assert forall|i: int| 0 <= i < gv.verts.len() implies vertex_wf(
                gv,
                #[trigger] gv.verts[i],
            ) by {
                if i < ov.verts.len() {
                    assert(vertex_wf(ov, ov.verts[i]));
                    assert forall|j: int| 0 <= j < gv.verts[i].targets.len() implies has_id(
                        gv,
                        (#[trigger] gv.verts[i].targets[j]).to,
                    ) by {
                        let x = ov.verts[i].targets[j].to;
                        let w = choose|w: int| 0 <= w < ov.verts.len() && ov.verts[w].id == x;
                        assert(gv.verts[w].id == x);
                    }
                    assert forall|j: int| 0 <= j < gv.verts[i].sources.len() implies has_id(
                        gv,
                        #[trigger] gv.verts[i].sources[j],
                    ) by {
                        let x = ov.verts[i].sources[j];
                        let w = choose|w: int| 0 <= w < ov.verts.len() && ov.verts[w].id == x;
                        assert(gv.verts[w].id == x);
                    }
                }
            }
            assert(sorted_strict(ids_of(gv))) by {
                assert forall|i: int, j: int| 0 <= i < j < ids_of(gv).len() implies ids_of(gv)[i]
                    < ids_of(gv)[j] by {
                    if j < ov.verts.len() {
                        assert(ids_of(ov)[i] < ids_of(ov)[j]);
                    } else {
                        assert(ids_of(gv)[i] == ov.verts[i].id);
                        assert(ov.verts[i].id <= ov.last);
                    }
                }
            }
            assert(sync_wf(gv)) by {
                assert forall|k: int, m: int|
                    0 <= k < gv.verts.len() && 0 <= m < gv.verts.len() implies (has_group(
                    #[trigger] gv.verts[k],
                    (#[trigger] gv.verts[m]).id,
                ) <==> gv.verts[m].sources.contains(gv.verts[k].id)) by {
                    if k < ov.verts.len() && m < ov.verts.len() {
                        assert(has_group(ov.verts[k], ov.verts[m].id) <==> ov.verts[
                            m
                        ].sources.contains(ov.verts[k].id));
                    } else if k < ov.verts.len() && m == ov.verts.len() {
                        assert(!has_group(gv.verts[k], gv.verts[m].id)) by {
                            if has_group(gv.verts[k], gv.verts[m].id) {
                                let j = group_idx(gv.verts[k], gv.verts[m].id);
                                assert(has_id(ov, ov.verts[k].targets[j].to));
                                let w = choose|w: int|
                                    0 <= w < ov.verts.len() && ov.verts[w].id == ov.verts[
                                        k
                                    ].targets[j].to;
                                assert(ov.verts[w].id <= ov.last);
                            }
                        }
                    } else if k == ov.verts.len() {
                        assert(!has_group(gv.verts[k], gv.verts[m].id));
                        if m < ov.verts.len() {
                            assert(!gv.verts[m].sources.contains(gv.verts[k].id)) by {
                                if gv.verts[m].sources.contains(gv.verts[k].id) {
                                    let j = choose|j: int|
                                        0 <= j < ov.verts[m].sources.len() && ov.verts[
                                            m
                                        ].sources[j] == gv.verts[k].id;
                                    assert(has_id(ov, ov.verts[m].sources[j]));
                                    let w = choose|w: int|
                                        0 <= w < ov.verts.len() && ov.verts[w].id == ov.verts[
                                            m
                                        ].sources[j];
                                    assert(ov.verts[w].id <= ov.last);
                                }
                            }
                        }
                    }
                }
            }
        }
        self.last_vertex_id
    }

    /// Returns the storage index of the vertex with id `x`, when present.
    fn find_vertex(&self, x: usize) -> (r: Option<usize>)
        requires
            wf(self@),
        ensures
            match r {
                Some(i) => i < self@.verts.len() && self@.verts[i as int].id == x && has_id(
                    self@,
                    x as int,
                ) && idx_of(self@, x as int) == i,
                None => !has_id(self@, x as int),
            },
    {
        let n = self.vertices.len();
        let mut i: usize = 0;
        while i < n
            invariant
                wf(self@),
                n == self@.verts.len(),
                i <= n,
                forall|k: int| 0 <= k < i ==> (#[trigger] self@.verts[k]).id != x,
            decreases n - i,
        {
            if self.vertices[i].id == x {
                proof {
                    let gv = self@;
                    assert(has_id(gv, x as int));
                    let c = idx_of(gv, x as int);
                    assert(ids_of(gv)[c] == gv.verts[c].id);
                    assert(ids_of(gv)[i as int] == gv.verts[i as int].id);
                    if c != i {
                        assert(ids_of(gv)[c] != ids_of(gv)[i as int]);
                    }
                }
                return Some(i);
            }
            i = i + 1;
        }
        None
    }
}

/// Equal values in a strictly sorted sequence share the index.
pub proof fn lemma_sorted_at(s: Seq<int>, i: int, j: int)
    requires
        sorted_strict(s),
        0 <= i < s.len(),
        0 <= j < s.len(),
        s[i] == s[j],
    ensures
        i == j,
{
    if i < j {
        assert(s[i] < s[j]);
    }
    if j < i {
        assert(s[j] < s[i]);
    }
}

/// The vertex found at index `i` is the one `idx_of` names for its id.
pub proof fn lemma_idx_at<V, E>(g: GraphModel<V, E>, i: int)
    requires
        sorted_strict(ids_of(g)),
        0 <= i < g.verts.len(),
    ensures
        has_id(g, g.verts[i].id),
        idx_of(g, g.verts[i].id) == i,
{
    assert(has_id(g, g.verts[i].id));
    let c = idx_of(g, g.verts[i].id);
    assert(ids_of(g)[c] == g.verts[c].id);
    assert(ids_of(g)[i] == g.verts[i].id);
    lemma_sorted_at(ids_of(g), c, i);
}

/// The group found at index `j` is the one `group_idx` names for its target.
pub proof fn lemma_group_at<V, E>(v: VertexModel<V, E>, j: int)
    requires
        sorted_strict(v.targets.map_values(|t: GroupModel<E>| t.to)),
        0 <= j < v.targets.len(),
    ensures
        has_group(v, v.targets[j].to),
        group_idx(v, v.targets[j].to) == j,
{
    assert(has_group(v, v.targets[j].to));
    let c = group_idx(v, v.targets[j].to);
    let tos = v.targets.map_values(|t: GroupModel<E>| t.to);
    assert(tos[c] == v.targets[c].to);
    assert(tos[j] == v.targets[j].to);
    lemma_sorted_at(tos, c, j);
}

/// Two graphs with the same id sequence hold the same ids.
pub proof fn lemma_same_ids<V, E>(g1: GraphModel<V, E>, g2: GraphModel<V, E>)
    requires
        ids_of(g1) =~= ids_of(g2),
    ensures
        forall|x: int| has_id(g1, x) <==> has_id(g2, x),
{
    assert(g1.verts.len() == ids_of(g1).len());
    assert(g2.verts.len() == ids_of(g2).len());
    assert forall|x: int| has_id(g1, x) <==> has_id(g2, x) by {
        if has_id(g1, x) {
            let i = choose|i: int| 0 <= i < g1.verts.len() && g1.verts[i].id == x;
            assert(ids_of(g1)[i] == g1.verts[i].id);
            assert(ids_of(g2)[i] == g2.verts[i].id);
            assert(g2.verts[i].id == x);
        }
        if has_id(g2, x) {
            let i = choose|i: int| 0 <= i < g2.verts.len() && g2.verts[i].id == x;
            assert(ids_of(g2)[i] == g2.verts[i].id);
            assert(ids_of(g1)[i] == g1.verts[i].id);
            assert(g1.verts[i].id == x);
        }
    }
}

/// Inserting a value between the smaller and the larger part keeps a
/// sequence strictly sorted.
pub proof fn lemma_insert_sorted(s: Seq<int>, p: int, x: int)
    requires
        sorted_strict(s),
        0 <= p <= s.len(),
        forall|k: int| 0 <= k < p ==> s[k] < x,
        forall|k: int| p <= k < s.len() ==> s[k] > x,
    ensures
        sorted_strict(s.insert(p, x)),
{
    s.insert_ensures(p, x);
    let t = s.insert(p, x);
    assert forall|i: int, j: int| 0 <= i < j < t.len() implies t[i] < t[j] by {
        assert(t[i] == if i < p { s[i] } else if i == p { x } else { s[i - 1] });
        assert(t[j] == if j < p { s[j] } else if j == p { x } else { s[j - 1] });
    }
}

/// What the inserted sequence contains: the old values and the new one.
pub proof fn lemma_insert_contains(s: Seq<int>, p: int, x: int, y: int)
    requires
        0 <= p <= s.len(),
    ensures
        s.insert(p, x).contains(y) <==> (s.contains(y) || x == y),
{
    s.insert_ensures(p, x);
    let t = s.insert(p, x);
    if t.contains(y) {
        let i = choose|i: int| 0 <= i < t.len() && t[i] == y;
        if i < p {
            assert(s[i] == y);
        } else if i > p {
            assert(s[i - 1] == y);
        }
    }
    if s.contains(y) {
        let i = choose|i: int| 0 <= i < s.len() && s[i] == y;
        if i < p {
            assert(t[i] == y);
        } else {
            assert(t[i + 1] == y);
        }
    }
    if x == y {
        assert(t[p] == y);
    }
}

/// Replacing the label list of an existing edge group with another
/// non-empty list keeps the store well formed and changes exactly that
/// pair's label list.
proof fn lemma_set_group_labels<V, E>(
    ov: GraphModel<V, E>,
    nv: GraphModel<V, E>,
    fi: int,
    j: int,
    ls: Seq<Option<E>>,
)
    requires
        wf(ov),
        0 <= fi < ov.verts.len(),
        0 <= j < ov.verts[fi].targets.len(),
        ls.len() > 0,
        nv.last == ov.last,
        nv.verts =~~= ov.verts.update(
            fi,
            VertexModel {
                id: ov.verts[fi].id,
                label: ov.verts[fi].label,
                targets: ov.verts[fi].targets.update(
                    j,
                    GroupModel { to: ov.verts[fi].targets[j].to, labels: ls },
                ),
                sources: ov.verts[fi].sources,
            },
        ),
    ensures
        wf(nv),
        ids_of(nv) =~= ids_of(ov),
        forall|i: int|
            0 <= i < ov.verts.len() ==> (#[trigger] nv.verts[i]).id == ov.verts[i].id
                && nv.verts[i].label == ov.verts[i].label,
        label_seq(nv, ov.verts[fi].id, ov.verts[fi].targets[j].to) == ls,
        forall|a: int, b: int|
            !(a == ov.verts[fi].id && b == ov.verts[fi].targets[j].to) ==> #[trigger] label_seq(
                nv,
                a,
                b,
            ) == label_seq(ov, a, b),
{
    let from = ov.verts[fi].id;
    let to = ov.verts[fi].targets[j].to;
    let otos = ov.verts[fi].targets.map_values(|t: GroupModel<E>| t.to);
    let ntos = nv.verts[fi].targets.map_values(|t: GroupModel<E>| t.to);
    assert(ids_of(nv) =~= ids_of(ov));
    lemma_same_ids(nv, ov);
    assert(vertex_wf(ov, ov.verts[fi]));
    assert(ntos =~= otos);
    assert forall|k: int|
        0 <= k < nv.verts.len() implies #[trigger] has_group(nv.verts[k], to) == has_group(
        ov.verts[k],
        to,
    ) by {
        if k != fi {
            assert(nv.verts[k] == ov.verts[k]);
        } else {
            if has_group(ov.verts[k], to) {
                let w = group_idx(ov.verts[k], to);
                assert(nv.verts[k].targets[w].to == to);
            }
            if has_group(nv.verts[k], to) {
                let w = group_idx(nv.verts[k], to);
                assert(ov.verts[k].targets[w].to == to);
            }
        }
    }
    assert forall|k: int, y: int|
        0 <= k < nv.verts.len() && y != to implies #[trigger] has_group(nv.verts[k], y)
        == has_group(ov.verts[k], y) by {
        if k == fi {
            if has_group(ov.verts[k], y) {
                let w = group_idx(ov.verts[k], y);
                assert(nv.verts[k].targets[w].to == y);
            }
            if has_group(nv.verts[k], y) {
                let w = group_idx(nv.verts[k], y);
                assert(ov.verts[k].targets[w].to == y);
            }
        } else {
            assert(nv.verts[k] == ov.verts[k]);
        }
    }
    assert forall|i: int| 0 <= i < nv.verts.len() implies vertex_wf(nv, #[trigger] nv.verts[i]) by {
        assert(vertex_wf(ov, ov.verts[i]));
        if i != fi {
            assert(nv.verts[i] == ov.verts[i]);
            assert(sorted_strict(nv.verts[i].targets.map_values(|t: GroupModel<E>| t.to)));
        } else {
            assert(sorted_strict(ntos));
        }
        assert forall|w: int| 0 <= w < nv.verts[i].targets.len() implies has_id(
            nv,
            (#[trigger] nv.verts[i].targets[w]).to,
        ) && nv.verts[i].targets[w].labels.len() > 0 by {
            if i == fi {
                assert(ov.verts[i].targets[w].labels.len() > 0);
                assert(has_id(ov, ov.verts[i].targets[w].to));
                assert(nv.verts[i].targets[w].to == ov.verts[i].targets[w].to);
            }
        }
        assert forall|w: int| 0 <= w < nv.verts[i].sources.len() implies has_id(
            nv,
            #[trigger] nv.verts[i].sources[w],
        ) by {
            if i == fi {
                assert(has_id(ov, ov.verts[i].sources[w]));
            }
        }
    }
    assert(sync_wf(nv)) by {
        assert forall|k: int, m: int|
            0 <= k < nv.verts.len() && 0 <= m < nv.verts.len() implies (has_group(
            #[trigger] nv.verts[k],
            (#[trigger] nv.verts[m]).id,
        ) <==> nv.verts[m].sources.contains(nv.verts[k].id)) by {
            assert(has_group(nv.verts[k], nv.verts[m].id) == has_group(
                ov.verts[k],
                ov.verts[m].id,
            ));
            assert(nv.verts[m].sources == ov.verts[m].sources);
            assert(nv.verts[k].id == ov.verts[k].id);
            assert(has_group(ov.verts[k], ov.verts[m].id) <==> ov.verts[m].sources.contains(
                ov.verts[k].id,
            ));
        }
    }
    lemma_idx_at(ov, fi);
    lemma_idx_at(nv, fi);
    lemma_group_at(ov.verts[fi], j);
    lemma_group_at(nv.verts[fi], j);
    assert(label_seq(nv, from, to) == nv.verts[fi].targets[j].labels);
    assert(label_seq(ov, from, to) == ov.verts[fi].targets[j].labels);
    assert forall|a: int, b: int|
        !(a == from && b == to) implies #[trigger] label_seq(nv, a, b) == label_seq(ov, a, b) by {
        if has_id(ov, a) {
            let i = idx_of(ov, a);
            lemma_idx_at(ov, i);
            lemma_idx_at(nv, i);
            assert(idx_of(nv, a) == i);
            if i != fi {
                assert(nv.verts[i] == ov.verts[i]);
            } else {
                assert(a == from);
                assert(b != to);
                if has_group(ov.verts[i], b) {
                    let w = group_idx(ov.verts[i], b);
                    lemma_group_at(ov.verts[i], w);
                    assert(nv.verts[i].targets[w].to == b);
                    lemma_group_at(nv.verts[i], w);
                    assert(nv.verts[i].targets[w].labels == ov.verts[i].targets[w].labels);
                }
            }
        } else {
            assert(!has_id(nv, a));
        }
    }
}

/// Creating a new edge group, with its reverse-index entry, keeps the
/// store well formed and changes exactly that pair's label list.
proof fn lemma_add_edge_insert<V, E>(
    ov: GraphModel<V, E>,
    nv: GraphModel<V, E>,
    fi: int,
    ti: int,
    j: int,
    p: int,
    label: Option<E>,
)
    requires
        wf(ov),
        0 <= fi < ov.verts.len(),
        0 <= ti < ov.verts.len(),
        0 <= j <= ov.verts[fi].targets.len(),
        0 <= p <= ov.verts[ti].sources.len(),
        forall|k: int| 0 <= k < j ==> (#[trigger] ov.verts[fi].targets[k]).to < ov.verts[ti].id,
        forall|k: int|
            j <= k < ov.verts[fi].targets.len() ==> (#[trigger] ov.verts[fi].targets[k]).to
                > ov.verts[ti].id,
        forall|k: int| 0 <= k < p ==> (#[trigger] ov.verts[ti].sources[k]) < ov.verts[fi].id,
        p < ov.verts[ti].sources.len() ==> ov.verts[ti].sources[p] >= ov.verts[fi].id,
        nv.last == ov.last,
        nv.verts.len() == ov.verts.len(),
        forall|i: int| 0 <= i < ov.verts.len() && i != fi && i != ti ==> #[trigger] nv.verts[i]
            == ov.verts[i],
        nv.verts[fi].id == ov.verts[fi].id,
        nv.verts[fi].label == ov.verts[fi].label,
        nv.verts[ti].id == ov.verts[ti].id,
        nv.verts[ti].label == ov.verts[ti].label,
        nv.verts[fi].targets =~~= ov.verts[fi].targets.insert(
            j,
            GroupModel { to: ov.verts[ti].id, labels: seq![label] },
        ),
        nv.verts[ti].sources =~= ov.verts[ti].sources.insert(p, ov.verts[fi].id),
        fi != ti ==> nv.verts[fi].sources == ov.verts[fi].sources,
        fi != ti ==> nv.verts[ti].targets == ov.verts[ti].targets,
    ensures
        wf(nv),
        ids_of(nv) =~= ids_of(ov),
        forall|i: int|
            0 <= i < ov.verts.len() ==> (#[trigger] nv.verts[i]).id == ov.verts[i].id
                && nv.verts[i].label == ov.verts[i].label,
        label_seq(nv, ov.verts[fi].id, ov.verts[ti].id) =~= label_seq(
            ov,
            ov.verts[fi].id,
            ov.verts[ti].id,
        ).push(label),
        forall|a: int, b: int|
            !(a == ov.verts[fi].id && b == ov.verts[ti].id) ==> #[trigger] label_seq(nv, a, b)
                == label_seq(ov, a, b),
{
    let from = ov.verts[fi].id;
    let to = ov.verts[ti].id;
    let newg = GroupModel { to, labels: seq![label] };
    let otos = ov.verts[fi].targets.map_values(|t: GroupModel<E>| t.to);
    let ntos = nv.verts[fi].targets.map_values(|t: GroupModel<E>| t.to);
    ov.verts[fi].targets.insert_ensures(j, newg);
    ov.verts[ti].sources.insert_ensures(p, from);
    assert(ids_of(nv) =~= ids_of(ov));
    lemma_same_ids(nv, ov);
    assert(vertex_wf(ov, ov.verts[fi]));
    assert(vertex_wf(ov, ov.verts[ti]));
    // the group was absent, so by the sync invariant `from` was not in
    // `to`'s reverse index
    assert(!has_group(ov.verts[fi], to)) by {
        if has_group(ov.verts[fi], to) {
            let w = group_idx(ov.verts[fi], to);
        }
    }
    assert(!ov.verts[ti].sources.contains(from));
    assert forall|k: int|
        p <= k < ov.verts[ti].sources.len() implies (#[trigger] ov.verts[ti].sources[k])
        > from by {
        if ov.verts[ti].sources[k] == from {
            assert(ov.verts[ti].sources.contains(from));
        }
        if k > p {
            assert(ov.verts[ti].sources[p] < ov.verts[ti].sources[k]);
        }
    }
    assert(ntos =~= otos.insert(j, to)) by {
        otos.insert_ensures(j, to);
        assert forall|k: int| 0 <= k < ntos.len() implies ntos[k] == otos.insert(j, to)[k] by {
            assert(ntos[k] == nv.verts[fi].targets[k].to);
        }
    }
    lemma_insert_sorted(otos, j, to);
    assert(sorted_strict(ntos));
    lemma_insert_sorted(ov.verts[ti].sources, p, from);
    assert(sorted_strict(nv.verts[ti].sources));
    // how group membership changed: only the pair (from, to) gained a group
    assert forall|k: int, y: int|
        0 <= k < nv.verts.len() implies #[trigger] has_group(nv.verts[k], y) == (has_group(
        ov.verts[k],
        y,
    ) || (k == fi && y == to)) by {
        if k != fi {
            assert(nv.verts[k].targets == ov.verts[k].targets);
            if has_group(ov.verts[k], y) {
                let w = group_idx(ov.verts[k], y);
                assert(nv.verts[k].targets[w].to == y);
            }
            if has_group(nv.verts[k], y) {
                let w = group_idx(nv.verts[k], y);
                assert(ov.verts[k].targets[w].to == y);
            }
        } else {
            if has_group(ov.verts[k], y) {
                let w = group_idx(ov.verts[k], y);
                if w < j {
                    assert(nv.verts[k].targets[w].to == y);
                } else {
                    assert(nv.verts[k].targets[w + 1].to == y);
                }
            }
            if y == to {
                assert(nv.verts[k].targets[j].to == to);
            }
            if has_group(nv.verts[k], y) && y != to {
                let w = group_idx(nv.verts[k], y);
                assert(nv.verts[k].targets[w].to == y);
                if w < j {
                    assert(ov.verts[k].targets[w].to == y);
                } else if w == j {
                    assert(nv.verts[k].targets[w].to == to);
                } else {
                    assert(ov.verts[k].targets[w - 1].to == y);
                }
            }
        }
    }
    // how reverse membership changed: only `to`'s sources gained `from`
    assert forall|m: int, y: int|
        0 <= m < nv.verts.len() implies #[trigger] nv.verts[m].sources.contains(y) == (ov.verts[
        m
    ].sources.contains(y) || (m == ti && y == from)) by {
        if m != ti {
            assert(nv.verts[m].sources == ov.verts[m].sources);
        } else {
            lemma_insert_contains(ov.verts[m].sources, p, from, y);
        }
    }
    assert forall|i: int| 0 <= i < nv.verts.len() implies vertex_wf(nv, #[trigger] nv.verts[i]) by {
        assert(vertex_wf(ov, ov.verts[i]));
        if i != fi {
            assert(nv.verts[i].targets == ov.verts[i].targets);
            assert(sorted_strict(nv.verts[i].targets.map_values(|t: GroupModel<E>| t.to)));
        }
        if i != ti {
            assert(nv.verts[i].sources == ov.verts[i].sources);
        }
        assert forall|w: int| 0 <= w < nv.verts[i].targets.len() implies has_id(
            nv,
            (#[trigger] nv.verts[i].targets[w]).to,
        ) && nv.verts[i].targets[w].labels.len() > 0 by {
            if i == fi {
                if w < j {
                    assert(nv.verts[i].targets[w] == ov.verts[i].targets[w]);
                    assert(has_id(ov, ov.verts[i].targets[w].to));
                } else if w == j {
                    assert(nv.verts[i].targets[w] == newg);
                    assert(has_id(ov, to));
                } else {
                    assert(nv.verts[i].targets[w] == ov.verts[i].targets[w - 1]);
                    assert(has_id(ov, ov.verts[i].targets[w - 1].to));
                }
            } else {
                assert(has_id(ov, ov.verts[i].targets[w].to));
            }
        }
        assert forall|w: int| 0 <= w < nv.verts[i].sources.len() implies has_id(
            nv,
            #[trigger] nv.verts[i].sources[w],
        ) by {
            if i == ti {
                if w < p {
                    assert(nv.verts[i].sources[w] == ov.verts[i].sources[w]);
                    assert(has_id(ov, ov.verts[i].sources[w]));
                } else if w == p {
                    assert(nv.verts[i].sources[w] == from);
                    assert(has_id(ov, from));
                } else {
                    assert(nv.verts[i].sources[w] == ov.verts[i].sources[w - 1]);
                    assert(has_id(ov, ov.verts[i].sources[w - 1]));
                }
            } else {
                assert(has_id(ov, ov.verts[i].sources[w]));
            }
        }
    }
    assert(sync_wf(nv)) by {
        assert forall|k: int, m: int|
            0 <= k < nv.verts.len() && 0 <= m < nv.verts.len() implies (has_group(
            #[trigger] nv.verts[k],
            (#[trigger] nv.verts[m]).id,
        ) <==> nv.verts[m].sources.contains(nv.verts[k].id)) by {
            let idk = ov.verts[k].id;
            let idm = ov.verts[m].id;
            assert(has_group(nv.verts[k], idm) == (has_group(ov.verts[k], idm) || (k == fi && idm
                == to)));
            assert(nv.verts[m].sources.contains(idk) == (ov.verts[m].sources.contains(idk) || (m
                == ti && idk == from)));
            if idm == to {
                lemma_idx_at(ov, m);
                lemma_idx_at(ov, ti);
                assert(m == ti);
            }
            if idk == from {
                lemma_idx_at(ov, k);
                lemma_idx_at(ov, fi);
                assert(k == fi);
            }
        }
    }
    lemma_idx_at(ov, fi);
    lemma_idx_at(nv, fi);
    lemma_group_at(nv.verts[fi], j);
    assert(label_seq(nv, from, to) == nv.verts[fi].targets[j].labels);
    assert(label_seq(ov, from, to) == Seq::<Option<E>>::empty());
    assert(label_seq(nv, from, to) =~= label_seq(ov, from, to).push(label));
    assert forall|a: int, b: int|
        !(a == from && b == to) implies #[trigger] label_seq(nv, a, b) == label_seq(ov, a, b) by {
        if has_id(ov, a) {
            let i = idx_of(ov, a);
            lemma_idx_at(ov, i);
            lemma_idx_at(nv, i);
            assert(idx_of(nv, a) == i);
            assert(has_group(nv.verts[i], b) == (has_group(ov.verts[i], b) || (i == fi && b
                == to)));
            if i == fi && b == to {
            } else if has_group(ov.verts[i], b) {
                let w = group_idx(ov.verts[i], b);
                lemma_group_at(ov.verts[i], w);
                if i != fi {
                    assert(nv.verts[i].targets[w].to == b);
                    lemma_group_at(nv.verts[i], w);
                    assert(nv.verts[i].targets[w].labels == ov.verts[i].targets[w].labels);
                } else {
                    if w < j {
                        assert(nv.verts[i].targets[w] == ov.verts[i].targets[w]);
                        lemma_group_at(nv.verts[i], w);
                        assert(nv.verts[i].targets[w].labels == ov.verts[i].targets[w].labels);
                    } else {
                        assert(nv.verts[i].targets[w + 1] == ov.verts[i].targets[w]);
                        lemma_group_at(nv.verts[i], w + 1);
                        assert(nv.verts[i].targets[w + 1].labels == ov.verts[i].targets[w].labels);
                    }
                }
            }
        } else {
            assert(!has_id(nv, a));
        }
    }
}

/// Removing an index from a strictly sorted sequence keeps it strictly
/// sorted.
pub proof fn lemma_remove_sorted(s: Seq<int>, p: int)
    requires
        sorted_strict(s),
        0 <= p < s.len(),
    ensures
        sorted_strict(s.remove(p)),
{
    s.remove_ensures(p);
    let t = s.remove(p);
    assert forall|i: int, j: int| 0 <= i < j < t.len() implies t[i] < t[j] by {
        assert(t[i] == if i < p { s[i] } else { s[i + 1] });
        assert(t[j] == if j < p { s[j] } else { s[j + 1] });
    }
}

/// Removing the one index holding a value from a strictly sorted sequence
/// removes exactly that value.
pub proof fn lemma_remove_contains(s: Seq<int>, p: int, y: int)
    requires
        sorted_strict(s),
        0 <= p < s.len(),
    ensures
        s.remove(p).contains(y) <==> (s.contains(y) && y != s[p]),
{
    s.remove_ensures(p);
    let t = s.remove(p);
    if t.contains(y) {
        let i = choose|i: int| 0 <= i < t.len() && t[i] == y;
        if i < p {
            assert(s[i] == y);
            if y == s[p] {
                lemma_sorted_at(s, i, p);
            }
        } else {
            assert(s[i + 1] == y);
            if y == s[p] {
                lemma_sorted_at(s, i + 1, p);
            }
        }
    }
    if s.contains(y) && y != s[p] {
        let i = choose|i: int| 0 <= i < s.len() && s[i] == y;
        if i < p {
            assert(t[i] == y);
        } else {
            assert(i != p);
            assert(t[i - 1] == y);
        }
    }
}

/// Deleting an edge group together with its reverse-index entry keeps the
/// store well formed and empties exactly that pair's label list.
proof fn lemma_remove_group<V, E>(ov: GraphModel<V, E>, nv: GraphModel<V, E>, fi: int, ti: int, j: int, p: int)
    requires
        wf(ov),
        0 <= fi < ov.verts.len(),
        0 <= ti < ov.verts.len(),
        0 <= j < ov.verts[fi].targets.len(),
        ov.verts[fi].targets[j].to == ov.verts[ti].id,
        0 <= p < ov.verts[ti].sources.len(),
        ov.verts[ti].sources[p] == ov.verts[fi].id,
        nv.last == ov.last,
        nv.verts.len() == ov.verts.len(),
        forall|i: int| 0 <= i < ov.verts.len() && i != fi && i != ti ==> #[trigger] nv.verts[i]
            == ov.verts[i],
        nv.verts[fi].id == ov.verts[fi].id,
        nv.verts[fi].label == ov.verts[fi].label,
        nv.verts[ti].id == ov.verts[ti].id,
        nv.verts[ti].label == ov.verts[ti].label,
        nv.verts[fi].targets =~~= ov.verts[fi].targets.remove(j),
        nv.verts[ti].sources =~= ov.verts[ti].sources.remove(p),
        fi != ti ==> nv.verts[fi].sources == ov.verts[fi].sources,
        fi != ti ==> nv.verts[ti].targets == ov.verts[ti].targets,
    ensures
        wf(nv),
        ids_of(nv) =~= ids_of(ov),
        forall|i: int|
            0 <= i < ov.verts.len() ==> (#[trigger] nv.verts[i]).id == ov.verts[i].id
                && nv.verts[i].label == ov.verts[i].label,
        label_seq(nv, ov.verts[fi].id, ov.verts[ti].id) =~= Seq::<Option<E>>::empty(),
        forall|a: int, b: int|
            !(a == ov.verts[fi].id && b == ov.verts[ti].id) ==> #[trigger] label_seq(nv, a, b)
                == label_seq(ov, a, b),
{
    let from = ov.verts[fi].id;
    let to = ov.verts[ti].id;
    let otos = ov.verts[fi].targets.map_values(|t: GroupModel<E>| t.to);
    let ntos = nv.verts[fi].targets.map_values(|t: GroupModel<E>| t.to);
    ov.verts[fi].targets.remove_ensures(j);
    ov.verts[ti].sources.remove_ensures(p);
    assert(ids_of(nv) =~= ids_of(ov));
    lemma_same_ids(nv, ov);
    assert(vertex_wf(ov, ov.verts[fi]));
    assert(vertex_wf(ov, ov.verts[ti]));
    assert(ntos =~= otos.remove(j)) by {
        otos.remove_ensures(j);
        assert forall|k: int| 0 <= k < ntos.len() implies ntos[k] == otos.remove(j)[k] by {
            assert(ntos[k] == nv.verts[fi].targets[k].to);
        }
    }
    lemma_remove_sorted(otos, j);
    assert(sorted_strict(ntos));
    lemma_remove_sorted(ov.verts[ti].sources, p);
    assert(sorted_strict(nv.verts[ti].sources));
    // how group membership changed: only the pair (from, to) lost its group
    assert forall|k: int, y: int|
        0 <= k < nv.verts.len() implies #[trigger] has_group(nv.verts[k], y) == (has_group(
        ov.verts[k],
        y,
    ) && !(k == fi && y == to)) by {
        if k != fi {
            assert(nv.verts[k].targets == ov.verts[k].targets);
            if has_group(ov.verts[k], y) {
                let w = group_idx(ov.verts[k], y);
                assert(nv.verts[k].targets[w].to == y);
            }
            if has_group(nv.verts[k], y) {
                let w = group_idx(nv.verts[k], y);
                assert(ov.verts[k].targets[w].to == y);
            }
        } else {
            if has_group(nv.verts[k], y) {
                let w = group_idx(nv.verts[k], y);
                assert(ntos[w] == y);
                if w < j {
                    assert(ov.verts[k].targets[w].to == y);
                    if y == to {
                        lemma_sorted_at(otos, w, j);
                    }
                } else {
                    assert(ov.verts[k].targets[w + 1].to == y);
                    if y == to {
                        lemma_sorted_at(otos, w + 1, j);
                    }
                }
            }
            if has_group(ov.verts[k], y) && y != to {
                let w = group_idx(ov.verts[k], y);
                if w < j {
                    assert(nv.verts[k].targets[w].to == y);
                } else {
                    assert(w != j) by {
                        assert(otos[w] == y);
                        assert(otos[j] == to);
                    }
                    assert(nv.verts[k].targets[w - 1].to == y);
                }
            }
        }
    }
    // how reverse membership changed: only `to`'s sources lost `from`
    assert forall|m: int, y: int|
        0 <= m < nv.verts.len() implies #[trigger] nv.verts[m].sources.contains(y) == (ov.verts[
        m
    ].sources.contains(y) && !(m == ti && y == from)) by {
        if m != ti {
            assert(nv.verts[m].sources == ov.verts[m].sources);
        } else {
            lemma_remove_contains(ov.verts[m].sources, p, y);
            if ov.verts[m].sources.contains(from) {
            }
        }
    }
    assert forall|i: int| 0 <= i < nv.verts.len() implies vertex_wf(nv, #[trigger] nv.verts[i]) by {
        assert(vertex_wf(ov, ov.verts[i]));
        if i != fi {
            assert(nv.verts[i].targets == ov.verts[i].targets);
            assert(sorted_strict(nv.verts[i].targets.map_values(|t: GroupModel<E>| t.to)));
        }
        if i != ti {
            assert(nv.verts[i].sources == ov.verts[i].sources);
        }
        assert forall|w: int| 0 <= w < nv.verts[i].targets.len() implies has_id(
            nv,
            (#[trigger] nv.verts[i].targets[w]).to,
        ) && nv.verts[i].targets[w].labels.len() > 0 by {
            if i == fi {
                if w < j {
                    assert(nv.verts[i].targets[w] == ov.verts[i].targets[w]);
                    assert(has_id(ov, ov.verts[i].targets[w].to));
                } else {
                    assert(nv.verts[i].targets[w] == ov.verts[i].targets[w + 1]);
                    assert(has_id(ov, ov.verts[i].targets[w + 1].to));
                }
            } else {
                assert(has_id(ov, ov.verts[i].targets[w].to));
            }
        }
        assert forall|w: int| 0 <= w < nv.verts[i].sources.len() implies has_id(
            nv,
            #[trigger] nv.verts[i].sources[w],
        ) by {
            if i == ti {
                if w < p {
                    assert(nv.verts[i].sources[w] == ov.verts[i].sources[w]);
                    assert(has_id(ov, ov.verts[i].sources[w]));
                } else {
                    assert(nv.verts[i].sources[w] == ov.verts[i].sources[w + 1]);
                    assert(has_id(ov, ov.verts[i].sources[w + 1]));
                }
            } else {
                assert(has_id(ov, ov.verts[i].sources[w]));
            }
        }
    }
    assert(sync_wf(nv)) by {
        assert forall|k: int, m: int|
            0 <= k < nv.verts.len() && 0 <= m < nv.verts.len() implies (has_group(
            #[trigger] nv.verts[k],
            (#[trigger] nv.verts[m]).id,
        ) <==> nv.verts[m].sources.contains(nv.verts[k].id)) by {
            let idk = ov.verts[k].id;
            let idm = ov.verts[m].id;
            assert(has_group(nv.verts[k], idm) == (has_group(ov.verts[k], idm) && !(k == fi && idm
                == to)));
            assert(nv.verts[m].sources.contains(idk) == (ov.verts[m].sources.contains(idk) && !(m
                == ti && idk == from)));
            if idm == to {
                lemma_idx_at(ov, m);
                lemma_idx_at(ov, ti);
                assert(m == ti);
            }
            if idk == from {
                lemma_idx_at(ov, k);
                lemma_idx_at(ov, fi);
                assert(k == fi);
            }
        }
    }
    lemma_idx_at(ov, fi);
    lemma_idx_at(nv, fi);
    assert(label_seq(nv, from, to) =~= Seq::<Option<E>>::empty()) by {
        assert(!has_group(nv.verts[fi], to));
    }
    assert forall|a: int, b: int|
        !(a == from && b == to) implies #[trigger] label_seq(nv, a, b) == label_seq(ov, a, b) by {
        if has_id(ov, a) {
            let i = idx_of(ov, a);
            lemma_idx_at(ov, i);
            lemma_idx_at(nv, i);
            assert(idx_of(nv, a) == i);
            assert(has_group(nv.verts[i], b) == (has_group(ov.verts[i], b) && !(i == fi && b
                == to)));
            if has_group(ov.verts[i], b) && !(i == fi && b == to) {
                let w = group_idx(ov.verts[i], b);
                lemma_group_at(ov.verts[i], w);
                if i != fi {
                    assert(nv.verts[i].targets[w].to == b);
                    lemma_group_at(nv.verts[i], w);
                    assert(nv.verts[i].targets[w].labels == ov.verts[i].targets[w].labels);
                } else {
                    assert(w != j) by {
                        assert(otos[w] == b);
                        assert(otos[j] == to);
                    }
                    if w < j {
                        assert(nv.verts[i].targets[w] == ov.verts[i].targets[w]);
                        lemma_group_at(nv.verts[i], w);
                        assert(nv.verts[i].targets[w].labels == ov.verts[i].targets[w].labels);
                    } else {
                        assert(nv.verts[i].targets[w - 1] == ov.verts[i].targets[w]);
                        lemma_group_at(nv.verts[i], w - 1);
                        assert(nv.verts[i].targets[w - 1].labels == ov.verts[i].targets[w].labels);
                    }
                }
            }
        } else {
            assert(!has_id(nv, a));
        }
    }
}

impl<V, E> Graph<V, E> {
    /// Appends one parallel edge `from -> to` with the given optional label,
    /// creating the edge group and the reverse-index entry when this is the
    /// first edge of the pair; fails without state change when either
    /// endpoint is absent.
    pub fn add_edge_label(&mut self, from_id: &usize, to_id: &usize, label: Option<E>) -> (r:
        Result<(), GraphError>)
        requires
            wf(old(self)@),
        ensures
            wf(final(self)@),
            final(self)@.last == old(self)@.last,
            ids_of(final(self)@) =~= ids_of(old(self)@),
            r is Ok <==> has_id(old(self)@, *from_id as int) && has_id(old(self)@, *to_id as int),
            r is Err ==> r == Err::<(), GraphError>(GraphError::VertexNotFound) && *final(self)
                == *old(self),
            forall|i: int|
                0 <= i < old(self)@.verts.len() ==> (#[trigger] final(self)@.verts[i]).id == old(
                    self,
                )@.verts[i].id && final(self)@.verts[i].label == old(self)@.verts[i].label,
            r is Ok ==> label_seq(final(self)@, *from_id as int, *to_id as int) =~= label_seq(
                old(self)@,
                *from_id as int,
                *to_id as int,
            ).push(label),
            forall|a: int, b: int|
                !(a == *from_id as int && b == *to_id as int) ==> #[trigger] label_seq(
                    final(self)@,
                    a,
                    b,
                ) == label_seq(old(self)@, a, b),
    {
        let from: usize = *from_id;
        let to: usize = *to_id;
        let fi: usize = match self.find_vertex(from) {
            Some(i) => i,
            None => {
                return Err(GraphError::VertexNotFound);
            },
        };
        let ti: usize = match self.find_vertex(to) {
            Some(i) => i,
            None => {
                return Err(GraphError::VertexNotFound);
            },
        };
        let ghost ov = self@;
        let n = self.vertices[fi].targets.len();
        let mut j: usize = 0;
        while j < n && self.vertices[fi].targets[j].to < to
            invariant
                fi < self.vertices@.len(),
                n == self.vertices@[fi as int].targets@.len(),
                j <= n,
                forall|k: int|
                    0 <= k < j ==> (#[trigger] self.vertices@[fi as int].targets@[k]).to < to,
            decreases n - j,
        {
            j = j + 1;
        }
        proof {
            assert(forall|k: int|
                0 <= k < j ==> (#[trigger] ov.verts[fi as int].targets[k]).to < to as int);
        }
        if j < n && self.vertices[fi].targets[j].to == to {
            proof {
                assert(ov.verts[fi as int].targets[j as int].to == to as int);
            }
            self.vertices[fi].targets[j].labels.push(label);
            proof {
                let nv = self@;
                assert(nv.verts[fi as int].targets =~= ov.verts[fi as int].targets.update(
                    j as int,
                    GroupModel {
                        to: ov.verts[fi as int].targets[j as int].to,
                        labels: ov.verts[fi as int].targets[j as int].labels.push(label),
                    },
                ));
                assert(nv.verts =~~= ov.verts.update(
                    fi as int,
                    VertexModel {
                        id: ov.verts[fi as int].id,
                        label: ov.verts[fi as int].label,
                        targets: ov.verts[fi as int].targets.update(
                            j as int,
                            GroupModel {
                                to: ov.verts[fi as int].targets[j as int].to,
                                labels: ov.verts[fi as int].targets[j as int].labels.push(label),
                            },
                        ),
                        sources: ov.verts[fi as int].sources,
                    },
                ));
                lemma_set_group_labels(
                    ov,
                    nv,
                    fi as int,
                    j as int,
                    ov.verts[fi as int].targets[j as int].labels.push(label),
                );
                lemma_idx_at(ov, fi as int);
                lemma_group_at(ov.verts[fi as int], j as int);
                assert(label_seq(ov, from as int, to as int) == ov.verts[fi as int].targets[
                    j as int
                ].labels);
            }
            Ok(())
        } else {
            proof {
                assert(vertex_wf(ov, ov.verts[fi as int]));
                let tos = ov.verts[fi as int].targets.map_values(|t: GroupModel<E>| t.to);
                assert forall|k: int|
                    j <= k < n implies (#[trigger] ov.verts[fi as int].targets[k]).to
                    > to as int by {
                    assert(tos[k] == ov.verts[fi as int].targets[k].to);
                    if k > j {
                        assert(tos[j as int] == ov.verts[fi as int].targets[j as int].to);
                        assert(tos[j as int] < tos[k]);
                        assert(ov.verts[fi as int].targets[j as int].to >= to as int);
                    }
                }
            }
            let mut labels: Vec<Option<E>> = Vec::new();
            labels.push(label);
            proof {
                assert(labels@ =~= seq![label]);
            }
            self.vertices[fi].targets.insert(j, EdgeGroup { to, labels });
            let m = self.vertices[ti].sources.len();
            let mut p: usize = 0;
            while p < m && self.vertices[ti].sources[p] < from
                invariant
                    ti < self.vertices@.len(),
                    m == self.vertices@[ti as int].sources@.len(),
                    p <= m,
                    forall|k: int|
                        0 <= k < p ==> (#[trigger] self.vertices@[ti as int].sources@[k]) < from,
                decreases m - p,
            {
                p = p + 1;
            }
            proof {
                assert(self@.verts[ti as int].sources =~= ov.verts[ti as int].sources);
                assert(forall|k: int|
                    0 <= k < p ==> (#[trigger] ov.verts[ti as int].sources[k]) < from as int);
                if p < m {
                    assert(self.vertices@[ti as int].sources@[p as int] >= from);
                    assert(ov.verts[ti as int].sources[p as int] >= from as int);
                }
            }
            self.vertices[ti].sources.insert(p, from);
            proof {
                let nv = self@;
                assert(nv.verts.len() == ov.verts.len());
                assert(nv.verts[fi as int].targets =~~= ov.verts[fi as int].targets.insert(
                    j as int,
                    GroupModel { to: to as int, labels: seq![label] },
                ));
                assert(nv.verts[ti as int].sources =~= ov.verts[ti as int].sources.insert(
                    p as int,
                    ov.verts[fi as int].id,
                ));
                lemma_add_edge_insert(ov, nv, fi as int, ti as int, j as int, p as int, label);
            }
            Ok(())
        }
    }

    /// Appends `label` to the parallel edges `from -> to`, never
    /// deduplicating; fails without state change when either endpoint is
    /// absent.
    pub fn add_edge(&mut self, from_id: &usize, to_id: &usize, label: E) -> (r: Result<
        (),
        GraphError,
    >)
        requires
            wf(old(self)@),
        ensures
            wf(final(self)@),
            final(self)@.last == old(self)@.last,
            ids_of(final(self)@) =~= ids_of(old(self)@),
            r is Ok <==> has_id(old(self)@, *from_id as int) && has_id(old(self)@, *to_id as int),
            r is Err ==> r == Err::<(), GraphError>(GraphError::VertexNotFound) && *final(self)
                == *old(self),
            forall|i: int|
                0 <= i < old(self)@.verts.len() ==> (#[trigger] final(self)@.verts[i]).id == old(
                    self,
                )@.verts[i].id && final(self)@.verts[i].label == old(self)@.verts[i].label,
            r is Ok ==> label_seq(final(self)@, *from_id as int, *to_id as int) =~= label_seq(
                old(self)@,
                *from_id as int,
                *to_id as int,
            ).push(Some(label)),
            forall|a: int, b: int|
                !(a == *from_id as int && b == *to_id as int) ==> #[trigger] label_seq(
                    final(self)@,
                    a,
                    b,
                ) == label_seq(old(self)@, a, b),
    {
        self.add_edge_label(from_id, to_id, Some(label))
    }
}

/// The result of a swap-style removal at index `i`: the last element
/// takes the removed one's place and the length shrinks by one.
pub open spec fn swap_removed<T>(s: Seq<T>, i: int) -> Seq<T> {
    s.update(i, s[s.len() - 1]).drop_last()
}

/// Whether an optional edge label holds a value equal to `label`.
pub open spec fn opt_matches<E: PartialEqSpec>(x: Option<E>, label: E) -> bool {
    match x {
        Some(e) => e.eq_spec(&label),
        None => false,
    }
}

/// Whether some list entry holds a value equal to `label`.
pub open spec fn has_match<E: PartialEqSpec>(s: Seq<Option<E>>, label: E) -> bool {
    exists|i: int| 0 <= i < s.len() && opt_matches(s[i], label)
}

/// The first list index holding a value equal to `label`.
pub open spec fn first_match<E: PartialEqSpec>(s: Seq<Option<E>>, label: E) -> int {
    choose|i: int|
        0 <= i < s.len() && opt_matches(s[i], label) && (forall|k: int|
            0 <= k < i ==> !opt_matches(#[trigger] s[k], label))
}

impl<V, E> Graph<V, E> {
    /// Removes the first occurrence of `label` among the parallel edges
    /// `from -> to` by a swap-style removal (the relative order of the
    /// remaining occurrences is not preserved); deletes the edge group and
    /// its reverse-index entry when the last occurrence goes. Fails without
    /// state change when an endpoint, the pair, or a matching occurrence is
    /// absent.
    pub fn remove_edge(&mut self, from_id: &usize, to_id: &usize, label: E) -> (r: Result<
        (),
        GraphError,
    >) where E: PartialEq
        requires
            wf(old(self)@),
        ensures
            wf(final(self)@),
            final(self)@.last == old(self)@.last,
            ids_of(final(self)@) =~= ids_of(old(self)@),
            forall|i: int|
                0 <= i < old(self)@.verts.len() ==> (#[trigger] final(self)@.verts[i]).id == old(
                    self,
                )@.verts[i].id && final(self)@.verts[i].label == old(self)@.verts[i].label,
            r is Err ==> *final(self) == *old(self),
            !(has_id(old(self)@, *from_id as int) && has_id(old(self)@, *to_id as int)) ==> r
                == Err::<(), GraphError>(GraphError::VertexNotFound),
            has_id(old(self)@, *from_id as int) && has_id(old(self)@, *to_id as int) && label_seq(
                old(self)@,
                *from_id as int,
                *to_id as int,
            ).len() == 0 ==> r == Err::<(), GraphError>(GraphError::EdgeNotFound),
            forall|a: int, b: int|
                !(a == *from_id as int && b == *to_id as int) ==> #[trigger] label_seq(
                    final(self)@,
                    a,
                    b,
                ) == label_seq(old(self)@, a, b),
            r is Ok ==> exists|i: int|
                0 <= i < label_seq(old(self)@, *from_id as int, *to_id as int).len() && label_seq(
                    final(self)@,
                    *from_id as int,
                    *to_id as int,
                ) =~= swap_removed(
                    label_seq(old(self)@, *from_id as int, *to_id as int),
                    i,
                ),
            E::obeys_eq_spec() && has_id(old(self)@, *from_id as int) && has_id(
                old(self)@,
                *to_id as int,
            ) ==> {
                let s = label_seq(old(self)@, *from_id as int, *to_id as int);
                &&& (r is Ok <==> has_match(s, label))
                &&& !has_match(s, label) ==> r == Err::<(), GraphError>(GraphError::EdgeNotFound)
                &&& has_match(s, label) ==> label_seq(
                    final(self)@,
                    *from_id as int,
                    *to_id as int,
                ) =~= swap_removed(s, first_match(s, label))
            },
    {
        let from: usize = *from_id;
        let to: usize = *to_id;
        let fi: usize = match self.find_vertex(from) {
            Some(i) => i,
            None => {
                return Err(GraphError::VertexNotFound);
            },
        };
        let ti: usize = match self.find_vertex(to) {
            Some(i) => i,
            None => {
                return Err(GraphError::VertexNotFound);
            },
        };
        let ghost ov = self@;
        proof {
            lemma_idx_at(ov, fi as int);
            lemma_idx_at(ov, ti as int);
        }
        let n = self.vertices[fi].targets.len();
        let mut j: usize = 0;
        while j < n && self.vertices[fi].targets[j].to != to
            invariant
                fi < self.vertices@.len(),
                n == self.vertices@[fi as int].targets@.len(),
                j <= n,
                forall|k: int|
                    0 <= k < j ==> (#[trigger] self.vertices@[fi as int].targets@[k]).to != to,
            decreases n - j,
        {
            j = j + 1;
        }
        if j == n {
            proof {
                assert(!has_group(ov.verts[fi as int], to as int)) by {
                    if has_group(ov.verts[fi as int], to as int) {
                        let w = group_idx(ov.verts[fi as int], to as int);
                        assert(ov.verts[fi as int].targets[w].to == to as int);
                        assert(self.vertices@[fi as int].targets@[w].to == to);
                    }
                }
                assert(label_seq(ov, from as int, to as int).len() == 0);
            }
            return Err(GraphError::EdgeNotFound);
        }
        proof {
            assert(ov.verts[fi as int].targets[j as int].to == to as int);
            lemma_group_at(ov.verts[fi as int], j as int);
            assert(label_seq(ov, from as int, to as int) == ov.verts[fi as int].targets[
                j as int
            ].labels);
        }
        let ghost s = ov.verts[fi as int].targets[j as int].labels;
        let ll = self.vertices[fi].targets[j].labels.len();
        let mut idx: usize = 0;
        let mut found = false;
        while idx < ll && !found
            invariant
                fi < self.vertices@.len(),
                j < self.vertices@[fi as int].targets@.len(),
                self@ == ov,
                s == ov.verts[fi as int].targets[j as int].labels,
                ll == s.len(),
                idx <= ll,
                forall|k: int|
                    0 <= k < idx ==> (E::obeys_eq_spec() ==> !opt_matches(#[trigger] s[k], label)),
                found ==> idx < ll && (E::obeys_eq_spec() ==> opt_matches(s[idx as int], label)),
            decreases ll - idx, (if found { 0int } else { 1int }),
        {
            let hit = match &self.vertices[fi].targets[j].labels[idx] {
                Some(e) => *e == label,
                None => false,
            };
            if hit {
                found = true;
            } else {
                idx = idx + 1;
            }
        }
        if !found {
            proof {
                if E::obeys_eq_spec() {
                    assert(!has_match(s, label));
                }
            }
            return Err(GraphError::EdgeNotFound);
        }
        proof {
            if E::obeys_eq_spec() {
                assert(has_match(s, label));
                let f = first_match(s, label);
                assert(0 <= f < s.len() && opt_matches(s[f], label) && (forall|k: int|
                    0 <= k < f ==> !opt_matches(#[trigger] s[k], label)));
                if f < idx {
                    assert(!opt_matches(s[f], label));
                }
                if idx < f {
                    assert(!opt_matches(s[idx as int], label));
                }
                assert(first_match(s, label) == idx as int);
            }
        }
        self.vertices[fi].targets[j].labels.swap_remove(idx);
        if self.vertices[fi].targets[j].labels.len() == 0 {
            self.vertices[fi].targets.remove(j);
            let m = self.vertices[ti].sources.len();
            proof {
                assert(has_group(ov.verts[fi as int], to as int));
                assert(ov.verts[ti as int].sources.contains(from as int));
            }
            let mut p: usize = 0;
            while p < m && self.vertices[ti].sources[p] != from
                invariant
                    ti < self.vertices@.len(),
                    m == self.vertices@[ti as int].sources@.len(),
                    self@.verts[ti as int].sources == ov.verts[ti as int].sources,
                    p <= m,
                    forall|k: int|
                        0 <= k < p ==> (#[trigger] self.vertices@[ti as int].sources@[k]) != from,
                decreases m - p,
            {
                p = p + 1;
            }
            proof {
                assert(p < m) by {
                    if p == m {
                        let w = choose|w: int|
                            0 <= w < ov.verts[ti as int].sources.len() && ov.verts[
                                ti as int
                            ].sources[w] == from as int;
                        assert(self.vertices@[ti as int].sources@[w] != from);
                    }
                }
                assert(ov.verts[ti as int].sources[p as int] == from as int);
            }
            self.vertices[ti].sources.remove(p);
            proof {
                let nv = self@;
                assert(nv.verts.len() == ov.verts.len());
                assert(nv.verts[fi as int].targets =~~= ov.verts[fi as int].targets.remove(
                    j as int,
                ));
                assert(nv.verts[ti as int].sources =~= ov.verts[ti as int].sources.remove(
                    p as int,
                ));
                lemma_remove_group(ov, nv, fi as int, ti as int, j as int, p as int);
                assert(s.len() == 1);
                assert(label_seq(nv, from as int, to as int) =~= swap_removed(s, idx as int));
            }
        } else {
            proof {
                let nv = self@;
                assert(nv.verts[fi as int].targets =~= ov.verts[fi as int].targets.update(
                    j as int,
                    GroupModel {
                        to: ov.verts[fi as int].targets[j as int].to,
                        labels: swap_removed(s, idx as int),
                    },
                ));
                assert(nv.verts =~~= ov.verts.update(
                    fi as int,
                    VertexModel {
                        id: ov.verts[fi as int].id,
                        label: ov.verts[fi as int].label,
                        targets: ov.verts[fi as int].targets.update(
                            j as int,
                            GroupModel {
                                to: ov.verts[fi as int].targets[j as int].to,
                                labels: swap_removed(s, idx as int),
                            },
                        ),
                        sources: ov.verts[fi as int].sources,
                    },
                ));
                lemma_set_group_labels(ov, nv, fi as int, j as int, swap_removed(s, idx as int));
            }
        }
        Ok(())
    }
}

/// A vertex as it stands after vertex `x` is purged: the edge group
/// towards `x` (if any) and the reverse-index entry for `x` (if any) are
/// gone, everything else is untouched.
pub open spec fn strip_id<V, E>(v: VertexModel<V, E>, x: int) -> VertexModel<V, E> {
    VertexModel {
        id: v.id,
        label: v.label,
        targets: if has_group(v, x) {
            v.targets.remove(group_idx(v, x))
        } else {
            v.targets
        },
        sources: if v.sources.contains(x) {
            v.sources.remove(v.sources.index_of(x))
        } else {
            v.sources
        },
    }
}

/// Purging a vertex and stripping every other vertex of the edges and
/// reverse entries towards it keeps the store well formed and leaves no
/// trace of the removed id.
proof fn lemma_remove_vertex<V, E>(ov: GraphModel<V, E>, nv: GraphModel<V, E>, rm: int, x: int)
    requires
        wf(ov),
        0 <= rm < ov.verts.len(),
        ov.verts[rm].id == x,
        nv.last == ov.last,
        nv.verts.len() == ov.verts.len() - 1,
        forall|i: int| 0 <= i < rm ==> #[trigger] nv.verts[i] =~~= strip_id(ov.verts[i], x),
        forall|i: int|
            rm <= i < nv.verts.len() ==> #[trigger] nv.verts[i] =~~= strip_id(ov.verts[i + 1], x),
    ensures
        wf(nv),
        !has_id(nv, x),
        forall|y: int| y != x ==> (has_id(nv, y) <==> has_id(ov, y)),
        forall|i: int, j: int|
            0 <= i < nv.verts.len() && 0 <= j < nv.verts[i].targets.len() ==> (
            #[trigger] nv.verts[i].targets[j]).to != x,
        forall|i: int| 0 <= i < nv.verts.len() ==> !(#[trigger] nv.verts[i]).sources.contains(x),
        forall|a: int, b: int|
            a != x && b != x ==> #[trigger] label_seq(nv, a, b) == label_seq(ov, a, b),
        forall|b: int| #[trigger] label_seq(nv, x, b) == Seq::<Option<E>>::empty(),
        forall|a: int| #[trigger] label_seq(nv, a, x) == Seq::<Option<E>>::empty(),
        forall|i: int|
            0 <= i < rm ==> (#[trigger] nv.verts[i]).id == ov.verts[i].id && nv.verts[i].label
                == ov.verts[i].label,
        forall|i: int|
            rm <= i < nv.verts.len() ==> (#[trigger] nv.verts[i]).id == ov.verts[i + 1].id
                && nv.verts[i].label == ov.verts[i + 1].label,
{
    let oldids = ids_of(ov);
    let shift = |i: int| if i < rm { i } else { i + 1 };
    assert forall|i: int| 0 <= i < nv.verts.len() implies #[trigger] nv.verts[i] =~~= strip_id(
        ov.verts[shift(i)],
        x,
    ) && nv.verts[i].id == ov.verts[shift(i)].id && nv.verts[i].label == ov.verts[
        shift(i)
    ].label by {
        if i < rm {
            assert(nv.verts[i] =~~= strip_id(ov.verts[i], x));
        } else {
            assert(nv.verts[i] =~~= strip_id(ov.verts[i + 1], x));
        }
    }
    assert(ids_of(nv) =~= oldids.remove(rm)) by {
        oldids.remove_ensures(rm);
        assert forall|k: int| 0 <= k < ids_of(nv).len() implies ids_of(nv)[k] == oldids.remove(
            rm,
        )[k] by {
            assert(ids_of(nv)[k] == nv.verts[k].id);
            assert(oldids[shift(k)] == ov.verts[shift(k)].id);
        }
    }
    lemma_remove_sorted(oldids, rm);
    assert(sorted_strict(ids_of(nv)));
    assert forall|i: int| 0 <= i < ov.verts.len() && i != rm implies (#[trigger] ov.verts[i]).id
        != x by {
        if ov.verts[i].id == x {
            assert(oldids[i] == x);
            assert(oldids[rm] == x);
            lemma_sorted_at(oldids, i, rm);
        }
    }
    assert(!has_id(nv, x)) by {
        if has_id(nv, x) {
            let i = choose|i: int| 0 <= i < nv.verts.len() && nv.verts[i].id == x;
            assert(ov.verts[shift(i)].id == x);
        }
    }
    assert forall|y: int| y != x implies (has_id(nv, y) <==> has_id(ov, y)) by {
        if has_id(ov, y) {
            let i = choose|i: int| 0 <= i < ov.verts.len() && ov.verts[i].id == y;
            assert(i != rm);
            if i < rm {
                assert(nv.verts[i].id == y);
            } else {
                assert(nv.verts[i - 1].id == y);
            }
        }
        if has_id(nv, y) {
            let i = choose|i: int| 0 <= i < nv.verts.len() && nv.verts[i].id == y;
            assert(ov.verts[shift(i)].id == y);
        }
    }
    // what stripping does to one vertex's groups and sources
    assert forall|i: int, y: int|
        0 <= i < nv.verts.len() implies #[trigger] has_group(nv.verts[i], y) == (has_group(
        ov.verts[shift(i)],
        y,
    ) && y != x) by {
        let v = ov.verts[shift(i)];
        assert(vertex_wf(ov, v));
        let tos = v.targets.map_values(|t: GroupModel<E>| t.to);
        if has_group(v, x) {
            let gi = group_idx(v, x);
            v.targets.remove_ensures(gi);
            if has_group(nv.verts[i], y) {
                let w = group_idx(nv.verts[i], y);
                if w < gi {
                    assert(nv.verts[i].targets[w] == v.targets[w]);
                    if y == x {
                        assert(tos[w] == x && tos[gi] == x);
                        lemma_sorted_at(tos, w, gi);
                    }
                } else {
                    assert(nv.verts[i].targets[w] == v.targets[w + 1]);
                    if y == x {
                        assert(tos[w + 1] == x && tos[gi] == x);
                        lemma_sorted_at(tos, w + 1, gi);
                    }
                }
            }
            if has_group(v, y) && y != x {
                let w = group_idx(v, y);
                assert(w != gi) by {
                    assert(v.targets[w].to == y);
                }
                if w < gi {
                    assert(nv.verts[i].targets[w].to == y);
                } else {
                    assert(nv.verts[i].targets[w - 1].to == y);
                }
            }
        } else {
            assert(nv.verts[i].targets == v.targets);
            if has_group(v, y) {
                let w = group_idx(v, y);
                assert(nv.verts[i].targets[w].to == y);
                if y == x {
                    assert(has_group(v, x));
                }
            }
            if has_group(nv.verts[i], y) {
                let w = group_idx(nv.verts[i], y);
                assert(v.targets[w].to == y);
                if y == x {
                    assert(has_group(v, x));
                }
            }
        }
    }
    assert forall|i: int, y: int|
        0 <= i < nv.verts.len() implies #[trigger] nv.verts[i].sources.contains(y) == (ov.verts[
        shift(i)
    ].sources.contains(y) && y != x) by {
        let v = ov.verts[shift(i)];
        assert(vertex_wf(ov, v));
        if v.sources.contains(x) {
            let si = v.sources.index_of(x);
            assert(v.sources[si] == x);
            lemma_remove_contains(v.sources, si, y);
        } else {
            assert(nv.verts[i].sources == v.sources);
        }
    }
    assert forall|i: int| 0 <= i < nv.verts.len() implies vertex_wf(nv, #[trigger] nv.verts[i]) by {
        let v = ov.verts[shift(i)];
        assert(vertex_wf(ov, v));
        let tos = v.targets.map_values(|t: GroupModel<E>| t.to);
        let ntos = nv.verts[i].targets.map_values(|t: GroupModel<E>| t.to);
        if has_group(v, x) {
            let gi = group_idx(v, x);
            v.targets.remove_ensures(gi);
            assert(ntos =~= tos.remove(gi)) by {
                tos.remove_ensures(gi);
                assert forall|k: int| 0 <= k < ntos.len() implies ntos[k] == tos.remove(gi)[k] by {
                    assert(ntos[k] == nv.verts[i].targets[k].to);
                }
            }
            lemma_remove_sorted(tos, gi);
        } else {
            assert(nv.verts[i].targets == v.targets);
            assert(ntos =~= tos);
        }
        assert(sorted_strict(ntos));
        if v.sources.contains(x) {
            let si = v.sources.index_of(x);
            assert(v.sources[si] == x);
            lemma_remove_sorted(v.sources, si);
        }
        assert(sorted_strict(nv.verts[i].sources));
        assert forall|w: int| 0 <= w < nv.verts[i].targets.len() implies has_id(
            nv,
            (#[trigger] nv.verts[i].targets[w]).to,
        ) && nv.verts[i].targets[w].labels.len() > 0 by {
            let y = nv.verts[i].targets[w].to;
            assert(ntos[w] == y);
            lemma_group_at(nv.verts[i], w);
            assert(has_group(nv.verts[i], y));
            assert(has_group(v, y) && y != x);
            let ow = group_idx(v, y);
            lemma_group_at(v, ow);
            if has_group(v, x) {
                let gi = group_idx(v, x);
                v.targets.remove_ensures(gi);
                if w < gi {
                    assert(nv.verts[i].targets[w] == v.targets[w]);
                } else {
                    assert(nv.verts[i].targets[w] == v.targets[w + 1]);
                }
            } else {
                assert(nv.verts[i].targets[w] == v.targets[w]);
            }
            assert(has_id(ov, y));
            assert(has_id(nv, y));
        }
        assert forall|w: int| 0 <= w < nv.verts[i].sources.len() implies has_id(
            nv,
            #[trigger] nv.verts[i].sources[w],
        ) by {
            let y = nv.verts[i].sources[w];
            assert(nv.verts[i].sources.contains(y));
            assert(v.sources.contains(y) && y != x);
            assert(has_id(ov, y)) by {
                let ow = choose|ow: int| 0 <= ow < v.sources.len() && v.sources[ow] == y;
                assert(has_id(ov, v.sources[ow]));
            }
            assert(has_id(nv, y));
        }
    }
    assert(sync_wf(nv)) by {
        assert forall|k: int, m: int|
            0 <= k < nv.verts.len() && 0 <= m < nv.verts.len() implies (has_group(
            #[trigger] nv.verts[k],
            (#[trigger] nv.verts[m]).id,
        ) <==> nv.verts[m].sources.contains(nv.verts[k].id)) by {
            let idk = ov.verts[shift(k)].id;
            let idm = ov.verts[shift(m)].id;
            assert(idm != x && idk != x);
            assert(has_group(nv.verts[k], idm) == (has_group(ov.verts[shift(k)], idm) && idm
                != x));
            assert(nv.verts[m].sources.contains(idk) == (ov.verts[shift(m)].sources.contains(idk)
                && idk != x));
            assert(has_group(ov.verts[shift(k)], idm) <==> ov.verts[shift(m)].sources.contains(
                idk,
            ));
        }
    }
    assert forall|i: int, j: int|
        0 <= i < nv.verts.len() && 0 <= j < nv.verts[i].targets.len() implies (
    #[trigger] nv.verts[i].targets[j]).to != x by {
        lemma_group_at(nv.verts[i], j);
        assert(has_group(nv.verts[i], nv.verts[i].targets[j].to));
    }
    assert forall|a: int, b: int|
        a != x && b != x implies #[trigger] label_seq(nv, a, b) == label_seq(ov, a, b) by {
        if has_id(ov, a) {
            let oi = idx_of(ov, a);
            lemma_idx_at(ov, oi);
            assert(oi != rm);
            let ni = if oi < rm { oi } else { oi - 1 };
            assert(nv.verts[ni].id == a);
            lemma_idx_at(nv, ni);
            assert(idx_of(nv, a) == ni);
            let v = ov.verts[oi];
            assert(shift(ni) == oi);
            assert(has_group(nv.verts[ni], b) == (has_group(v, b) && b != x));
            if has_group(v, b) {
                let w = group_idx(v, b);
                lemma_group_at(v, w);
                if has_group(v, x) {
                    let gi = group_idx(v, x);
                    v.targets.remove_ensures(gi);
                    assert(w != gi) by {
                        assert(v.targets[w].to == b);
                    }
                    if w < gi {
                        assert(nv.verts[ni].targets[w] == v.targets[w]);
                        lemma_group_at(nv.verts[ni], w);
                    } else {
                        assert(nv.verts[ni].targets[w - 1] == v.targets[w]);
                        lemma_group_at(nv.verts[ni], w - 1);
                    }
                } else {
                    assert(nv.verts[ni].targets == v.targets);
                    lemma_group_at(nv.verts[ni], w);
                }
            }
        } else {
            assert(!has_id(nv, a));
        }
    }
    assert forall|b: int| #[trigger] label_seq(nv, x, b) == Seq::<Option<E>>::empty() by {
        assert(!has_id(nv, x));
    }
    assert forall|a: int| #[trigger] label_seq(nv, a, x) == Seq::<Option<E>>::empty() by {
        if has_id(nv, a) {
            let i = idx_of(nv, a);
            lemma_idx_at(nv, i);
            assert(!has_group(nv.verts[i], x));
        }
    }
}

impl<V, E> Graph<V, E> {
    /// Removes the vertex with id `id` together with every edge incident
    /// to it in either direction; other vertices keep their ids. Fails
    /// without state change when the id is absent.
    pub fn remove_vertex(&mut self, id: &usize) -> (r: Result<(), GraphError>)
        requires
            wf(old(self)@),
        ensures
            wf(final(self)@),
            final(self)@.last == old(self)@.last,
            r is Err ==> r == Err::<(), GraphError>(GraphError::VertexNotFound) && *final(self)
                == *old(self),
            r is Ok <==> has_id(old(self)@, *id as int),
            !has_id(final(self)@, *id as int),
            forall|y: int| y != *id as int ==> (has_id(final(self)@, y) <==> has_id(old(self)@, y)),
            forall|i: int, j: int|
                0 <= i < final(self)@.verts.len() && 0 <= j < final(self)@.verts[i].targets.len()
                    ==> (#[trigger] final(self)@.verts[i].targets[j]).to != *id as int,
            forall|i: int|
                0 <= i < final(self)@.verts.len() ==> !(
                #[trigger] final(self)@.verts[i]).sources.contains(*id as int),
            forall|a: int, b: int|
                a != *id as int && b != *id as int ==> #[trigger] label_seq(final(self)@, a, b)
                    == label_seq(old(self)@, a, b),
            r is Ok ==> final(self)@.verts.len() == old(self)@.verts.len() - 1,
            r is Ok ==> forall|i: int|
                0 <= i < idx_of(old(self)@, *id as int) ==> (#[trigger] final(self)@.verts[i]).id
                    == old(self)@.verts[i].id && final(self)@.verts[i].label
                    == old(self)@.verts[i].label,
            r is Ok ==> forall|i: int|
                idx_of(old(self)@, *id as int) <= i < final(self)@.verts.len() ==> (
                #[trigger] final(self)@.verts[i]).id == old(self)@.verts[i + 1].id
                    && final(self)@.verts[i].label == old(self)@.verts[i + 1].label,
    {
        let x: usize = *id;
        let rm: usize = match self.find_vertex(x) {
            Some(i) => i,
            None => {
                proof {
                    assert(!has_id(self@, x as int));
                }
                return Err(GraphError::VertexNotFound);
            },
        };
        let ghost ov = self@;
        self.vertices.remove(rm);
        let ghost mid = self@;
        proof {
            assert(mid.verts =~= ov.verts.remove(rm as int));
            ov.verts.remove_ensures(rm as int);
        }
        let len = self.vertices.len();
        let mut i: usize = 0;
        while i < len
            invariant
                wf(ov),
                (rm as int) < ov.verts.len(),
                ov.verts[rm as int].id == x as int,
                len == ov.verts.len() - 1,
                self@.verts.len() == len,
                self@.last == ov.last,
                i <= len,
                forall|k: int|
                    0 <= k < i ==> #[trigger] self@.verts[k] =~~= strip_id(
                        ov.verts[(if k < rm as int { k } else { k + 1 })],
                        x as int,
                    ),
                forall|k: int|
                    i <= k < len ==> #[trigger] self@.verts[k] == ov.verts[(if k < rm as int {
                        k
                    } else {
                        k + 1
                    })],
            decreases len - i,
        {
            let ghost pre = self@;
            let ghost oi = if (i as int) < rm as int { i as int } else { i as int + 1 };
            let ghost v = ov.verts[oi];
            proof {
                assert(self@.verts[i as int] == v);
                assert(vertex_wf(ov, v));
            }
            let n = self.vertices[i].targets.len();
            let mut j: usize = 0;
            while j < n && self.vertices[i].targets[j].to != x
                invariant
                    i < self.vertices@.len(),
                    n == self.vertices@[i as int].targets@.len(),
                    j <= n,
                    forall|k: int|
                        0 <= k < j ==> (#[trigger] self.vertices@[i as int].targets@[k]).to != x,
                decreases n - j,
            {
                j = j + 1;
            }
            if j < n {
                proof {
                    assert(v.targets[j as int].to == x as int);
                    lemma_group_at(v, j as int);
                    assert(has_group(v, x as int));
                    assert(group_idx(v, x as int) == j as int);
                }
                self.vertices[i].targets.remove(j);
            } else {
                proof {
                    assert(!has_group(v, x as int)) by {
                        if has_group(v, x as int) {
                            let w = group_idx(v, x as int);
                            assert(self.vertices@[i as int].targets@[w].to == x);
                        }
                    }
                }
            }
            let m = self.vertices[i].sources.len();
            let mut p: usize = 0;
            while p < m && self.vertices[i].sources[p] != x
                invariant
                    i < self.vertices@.len(),
                    m == self.vertices@[i as int].sources@.len(),
                    p <= m,
                    forall|k: int|
                        0 <= k < p ==> (#[trigger] self.vertices@[i as int].sources@[k]) != x,
                decreases m - p,
            {
                p = p + 1;
            }
            if p < m {
                proof {
                    assert(v.sources[p as int] == x as int);
                    assert(v.sources.contains(x as int));
                    let w = v.sources.index_of(x as int);
                    assert(v.sources[w] == x as int);
                    lemma_sorted_at(v.sources, w, p as int);
                    assert(v.sources.index_of(x as int) == p as int);
                }
                self.vertices[i].sources.remove(p);
            } else {
                proof {
                    assert(!v.sources.contains(x as int)) by {
                        if v.sources.contains(x as int) {
                            let w = choose|w: int|
                                0 <= w < v.sources.len() && v.sources[w] == x as int;
                            assert(self.vertices@[i as int].sources@[w] != x);
                        }
                    }
                }
            }
            proof {
                assert forall|k: int| 0 <= k < len && k != i as int implies self@.verts[k]
                    == pre.verts[k] by {
                    assert(self@.verts[k] == self.vertices@[k]@);
                    assert(pre.verts[k] == self.vertices@[k]@);
                }
                assert(self@.verts[i as int] =~~= strip_id(v, x as int));
                assert forall|k: int| 0 <= k <= i as int implies #[trigger] self@.verts[k] =~~=
                    strip_id(ov.verts[(if k < rm as int { k } else { k + 1 })], x as int) by {
                    if k < i as int {
                        assert(self@.verts[k] == pre.verts[k]);
                        assert(pre.verts[k] =~~= strip_id(
                            ov.verts[(if k < rm as int { k } else { k + 1 })],
                            x as int,
                        ));
                    }
                }
                assert forall|k: int| (i as int) < k < len implies #[trigger] self@.verts[k]
                    == ov.verts[(if k < rm as int { k } else { k + 1 })] by {
                    assert(self@.verts[k] == pre.verts[k]);
                    assert(pre.verts[k] == ov.verts[(if k < rm as int { k } else { k + 1 })]);
                }
            }
            i = i + 1;
        }
        proof {
            lemma_remove_vertex(ov, self@, rm as int, x as int);
        }
        Ok(())
    }
}

/// One edge group as the compactor renumbers it: the target id becomes
/// the target's rank (position among the sorted live ids) plus one.
pub open spec fn fit_group<V, E>(g: GraphModel<V, E>, t: GroupModel<E>) -> GroupModel<E> {
    GroupModel { to: idx_of(g, t.to) + 1, labels: t.labels }
}

/// One vertex as the compactor renumbers it.
pub open spec fn fit_vertex<V, E>(g: GraphModel<V, E>, v: VertexModel<V, E>) -> VertexModel<
    V,
    E,
> {
    VertexModel {
        id: idx_of(g, v.id) + 1,
        label: v.label,
        targets: v.targets.map_values(|t: GroupModel<E>| fit_group(g, t)),
        sources: v.sources.map_values(|y: int| idx_of(g, y) + 1),
    }
}

/// The whole graph after compaction: every id replaced by its rank plus
/// one, labels untouched, and the allocator counter reset to the number
/// of live vertices.
pub open spec fn fit_model<V, E>(g: GraphModel<V, E>) -> GraphModel<V, E> {
    GraphModel {
        verts: g.verts.map_values(|v: VertexModel<V, E>| fit_vertex(g, v)),
        last: g.verts.len() as int,
    }
}

/// Compaction of a well-formed store yields a well-formed store whose ids
/// are exactly 1 through the number of vertices, in order.
pub proof fn lemma_fit_wf<V, E>(g: GraphModel<V, E>)
    requires
        wf(g),
    ensures
        wf(fit_model(g)),
        fit_model(g).verts.len() == g.verts.len(),
        forall|i: int|
            0 <= i < g.verts.len() ==> (#[trigger] fit_model(g).verts[i]).id == i + 1
                && fit_model(g).verts[i].label == g.verts[i].label,
{
    let h = fit_model(g);
    let n = g.verts.len() as int;
    assert forall|i: int| 0 <= i < n implies (#[trigger] h.verts[i]).id == i + 1 by {
        lemma_idx_at(g, i);
    }
    assert(sorted_strict(ids_of(h))) by {
        assert forall|i: int, j: int| 0 <= i < j < n implies ids_of(h)[i] < ids_of(h)[j] by {
            assert(ids_of(h)[i] == h.verts[i].id);
            assert(ids_of(h)[j] == h.verts[j].id);
        }
    }
    assert forall|x: int| 0 <= x < n implies idx_of(g, g.verts[x].id) == x by {
        lemma_idx_at(g, x);
    }
    assert forall|i: int| 0 <= i < n implies vertex_wf(h, #[trigger] h.verts[i]) by {
        let v = g.verts[i];
        let fv = h.verts[i];
        assert(vertex_wf(g, v));
        let tos = v.targets.map_values(|t: GroupModel<E>| t.to);
        let ntos = fv.targets.map_values(|t: GroupModel<E>| t.to);
        assert forall|a: int, b: int| 0 <= a < b < ntos.len() implies ntos[a] < ntos[b] by {
            assert(ntos[a] == idx_of(g, v.targets[a].to) + 1);
            assert(ntos[b] == idx_of(g, v.targets[b].to) + 1);
            assert(tos[a] == v.targets[a].to);
            assert(tos[b] == v.targets[b].to);
            assert(tos[a] < tos[b]);
            let wa = idx_of(g, v.targets[a].to);
            let wb = idx_of(g, v.targets[b].to);
            assert(has_id(g, v.targets[a].to));
            assert(has_id(g, v.targets[b].to));
            assert(g.verts[wa].id == v.targets[a].to);
            assert(g.verts[wb].id == v.targets[b].to);
            if wa >= wb {
                assert(ids_of(g)[wb] <= ids_of(g)[wa]);
                assert(g.verts[wb].id <= g.verts[wa].id);
            }
        }
        assert(sorted_strict(ntos));
        assert forall|a: int, b: int|
            0 <= a < b < fv.sources.len() implies fv.sources[a] < fv.sources[b] by {
            assert(fv.sources[a] == idx_of(g, v.sources[a]) + 1);
            assert(fv.sources[b] == idx_of(g, v.sources[b]) + 1);
            assert(v.sources[a] < v.sources[b]);
            let wa = idx_of(g, v.sources[a]);
            let wb = idx_of(g, v.sources[b]);
            assert(has_id(g, v.sources[a]));
            assert(has_id(g, v.sources[b]));
            assert(g.verts[wa].id == v.sources[a]);
            assert(g.verts[wb].id == v.sources[b]);
            if wa >= wb {
                assert(ids_of(g)[wb] <= ids_of(g)[wa]);
            }
        }
        assert(sorted_strict(fv.sources));
        assert forall|w: int| 0 <= w < fv.targets.len() implies has_id(
            h,
            (#[trigger] fv.targets[w]).to,
        ) && fv.targets[w].labels.len() > 0 by {
            assert(v.targets[w].labels.len() > 0);
            assert(fv.targets[w].labels == v.targets[w].labels);
            assert(has_id(g, v.targets[w].to));
            let y = idx_of(g, v.targets[w].to);
            assert(g.verts[y].id == v.targets[w].to);
            assert(h.verts[y].id == y + 1);
            assert(fv.targets[w].to == y + 1);
        }
        assert forall|w: int| 0 <= w < fv.sources.len() implies has_id(
            h,
            #[trigger] fv.sources[w],
        ) by {
            assert(has_id(g, v.sources[w]));
            let y = idx_of(g, v.sources[w]);
            assert(g.verts[y].id == v.sources[w]);
            assert(h.verts[y].id == y + 1);
        }
    }
    assert(sync_wf(h)) by {
        assert forall|k: int, m: int|
            0 <= k < n && 0 <= m < n implies (has_group(#[trigger] h.verts[k], (#[trigger] h.verts[m]).id)
            <==> h.verts[m].sources.contains(h.verts[k].id)) by {
            assert(h.verts[m].id == m + 1);
            assert(h.verts[k].id == k + 1);
            assert(has_group(h.verts[k], m + 1) <==> has_group(g.verts[k], g.verts[m].id)) by {
                if has_group(g.verts[k], g.verts[m].id) {
                    let w = group_idx(g.verts[k], g.verts[m].id);
                    assert(h.verts[k].targets[w].to == idx_of(g, g.verts[k].targets[w].to) + 1);
                    assert(idx_of(g, g.verts[m].id) == m);
                    assert(h.verts[k].targets[w].to == m + 1);
                }
                if has_group(h.verts[k], m + 1) {
                    let w = group_idx(h.verts[k], m + 1);
                    assert(h.verts[k].targets[w].to == m + 1);
                    assert(h.verts[k].targets[w].to == idx_of(g, g.verts[k].targets[w].to) + 1);
                    let y = g.verts[k].targets[w].to;
                    assert(vertex_wf(g, g.verts[k]));
                    assert(has_id(g, y));
                    assert(idx_of(g, y) == m);
                    assert(g.verts[m].id == y);
                }
            }
            assert(h.verts[m].sources.contains(k + 1) <==> g.verts[m].sources.contains(
                g.verts[k].id,
            )) by {
                if g.verts[m].sources.contains(g.verts[k].id) {
                    let w = choose|w: int|
                        0 <= w < g.verts[m].sources.len() && g.verts[m].sources[w] == g.verts[
                            k
                        ].id;
                    assert(h.verts[m].sources[w] == idx_of(g, g.verts[m].sources[w]) + 1);
                    assert(idx_of(g, g.verts[k].id) == k);
                }
                if h.verts[m].sources.contains(k + 1) {
                    let w = choose|w: int|
                        0 <= w < h.verts[m].sources.len() && h.verts[m].sources[w] == k + 1;
                    assert(h.verts[m].sources[w] == idx_of(g, g.verts[m].sources[w]) + 1);
                    let y = g.verts[m].sources[w];
                    assert(vertex_wf(g, g.verts[m]));
                    assert(has_id(g, y));
                    assert(idx_of(g, y) == k);
                    assert(g.verts[k].id == y);
                }
            }
        }
    }
    assert forall|i: int| 0 <= i < n implies (#[trigger] h.verts[i]).id <= h.last by {
        assert(h.verts[i].id == i + 1);
    }
}

/// The first position of `x` in a vector of ids.
fn pos_of(ids: &Vec<usize>, x: usize) -> (r: usize)
    requires
        exists|w: int| 0 <= w < ids@.len() && ids@[w] == x,
    ensures
        r < ids@.len(),
        ids@[r as int] == x,
{
    let n = ids.len();
    let mut p: usize = 0;
    while p < n && ids[p] != x
        invariant
            n == ids@.len(),
            p <= n,
            exists|w: int| 0 <= w < ids@.len() && ids@[w] == x,
            forall|k: int| 0 <= k < p ==> ids@[k] != x,
        decreases n - p,
    {
        p = p + 1;
    }
    proof {
        if p == n {
            let w = choose|w: int| 0 <= w < ids@.len() && ids@[w] == x;
            assert(ids@[w] != x);
        }
    }
    p
}

impl<V, E> Graph<V, E> {
    /// The compaction plan: each live id paired with the dense id it is
    /// about to receive, namely its rank among the sorted live ids plus one.
    pub fn get_new_ids_after_fit(&self) -> (r: Vec<(usize, usize)>)
        requires
            wf(self@),
        ensures
            r@.len() == self@.verts.len(),
            forall|k: int|
                0 <= k < r@.len() ==> (#[trigger] r@[k]).0 == self@.verts[k].id && r@[k].1 == k
                    + 1,
    {
        let n = self.vertices.len();
        let mut r: Vec<(usize, usize)> = Vec::new();
        let mut i: usize = 0;
        while i < n
            invariant
                wf(self@),
                n == self@.verts.len(),
                i <= n,
                r@.len() == i,
                forall|k: int|
                    0 <= k < i ==> (#[trigger] r@[k]).0 == self@.verts[k].id && r@[k].1 == k + 1,
            decreases n - i,
        {
            proof {
                assert(self@.verts[i as int].id <= self@.last);
                assert(self@.last <= usize::MAX);
            }
            r.push((self.vertices[i].id, i + 1));
            i = i + 1;
        }
        r
    }

    /// Renumbers all live vertices to the dense range starting at one,
    /// preserving their relative order, rewriting every forward and
    /// reverse reference, and resetting the allocator counter to the
    /// number of live vertices. Labels are untouched.
    pub fn fit(&mut self)
        requires
            wf(old(self)@),
        ensures
            wf(final(self)@),
            final(self)@ =~~= fit_model(old(self)@),
            final(self)@.verts.len() == old(self)@.verts.len(),
            forall|i: int|
                0 <= i < old(self)@.verts.len() ==> (#[trigger] final(self)@.verts[i]).id == i + 1
                    && final(self)@.verts[i].label == old(self)@.verts[i].label,
    {
        let ghost ov = self@;
        let n = self.vertices.len();
        let mut old_ids: Vec<usize> = Vec::new();
        let mut c: usize = 0;
        while c < n
            invariant
                self@ == ov,
                wf(ov),
                n == ov.verts.len(),
                c <= n,
                old_ids@.len() == c,
                forall|k: int| 0 <= k < c ==> #[trigger] old_ids@[k] == ov.verts[k].id,
            decreases n - c,
        {
            old_ids.push(self.vertices[c].id);
            c = c + 1;
        }
        let mut i: usize = 0;
        while i < n
            invariant
                wf(ov),
                n == ov.verts.len(),
                i <= n,
                n <= usize::MAX,
                self@.verts.len() == n,
                self@.last == ov.last,
                old_ids@.len() == n,
                forall|k: int| 0 <= k < n ==> #[trigger] old_ids@[k] == ov.verts[k].id,
                forall|k: int|
                    0 <= k < i ==> #[trigger] self@.verts[k] =~~= fit_vertex(ov, ov.verts[k]),
                forall|k: int| i <= k < n ==> #[trigger] self@.verts[k] == ov.verts[k],
            decreases n - i,
        {
            let ghost pre = self@;
            let ghost v = ov.verts[i as int];
            proof {
                assert(vertex_wf(ov, v));
            }
            self.vertices[i].id = i + 1;
            proof {
                assert(pre.verts[i as int] == ov.verts[i as int]);
                assert(self@.verts[i as int].targets == pre.verts[i as int].targets);
                assert(self@.verts[i as int].sources == pre.verts[i as int].sources);
                assert(self@.verts[i as int].label == pre.verts[i as int].label);
                assert(self@.verts[i as int].targets == v.targets);
                assert(self@.verts[i as int].sources == v.sources);
                assert(self@.verts[i as int].label == v.label);
                assert forall|k: int|
                    0 <= k < self@.verts.len() && k != i as int implies #[trigger] self@.verts[k]
                    == pre.verts[k] by {
                    assert(self@.verts[k] == self.vertices@[k]@);
                    assert(pre.verts[k] == self.vertices@[k]@);
                }
            }
            let tn = self.vertices[i].targets.len();
            let mut j: usize = 0;
            while j < tn
                invariant
                    wf(ov),
                    self@.verts.len() == n,
                    i < n,
                    v == ov.verts[i as int],
                    vertex_wf(ov, v),
                    n == ov.verts.len(),
                    old_ids@.len() == n,
                    forall|k: int| 0 <= k < n ==> #[trigger] old_ids@[k] == ov.verts[k].id,
                    tn == v.targets.len(),
                    j <= tn,
                    self@.verts[i as int].targets.len() == tn,
                    forall|k: int|
                        0 <= k < j ==> #[trigger] self@.verts[i as int].targets[k] =~~= fit_group(
                            ov,
                            v.targets[k],
                        ),
                    forall|k: int|
                        j <= k < tn ==> #[trigger] self@.verts[i as int].targets[k]
                            == v.targets[k],
                    forall|k: int|
                        0 <= k < self@.verts.len() && k != i as int ==> #[trigger] self@.verts[k]
                            == pre.verts[k],
                    self@.verts[i as int].id == i + 1,
                    self@.verts[i as int].label == v.label,
                    self@.verts[i as int].sources == v.sources,
                    self@.last == ov.last,
                decreases tn - j,
            {
                let ghost mid = self@;
                let to = self.vertices[i].targets[j].to;
                proof {
                    assert(self@.verts[i as int].targets[j as int] == v.targets[j as int]);
                    assert(v.targets[j as int].to == to as int);
                    assert(has_id(ov, to as int));
                    let w = choose|w: int| 0 <= w < ov.verts.len() && ov.verts[w].id == to as int;
                    assert(old_ids@[w] == to);
                }
                let p = pos_of(&old_ids, to);
                self.vertices[i].targets[j].to = p + 1;
                proof {
                    lemma_idx_at(ov, p as int);
                    assert(idx_of(ov, to as int) == p as int);
                    assert(self@.verts[i as int].targets[j as int] =~~= fit_group(
                        ov,
                        v.targets[j as int],
                    ));
                    assert forall|k: int|
                        0 <= k < self@.verts.len() && k != i as int implies #[trigger] self@.verts[k]
                        == mid.verts[k] by {
                        assert(self@.verts[k] == self.vertices@[k]@);
                        assert(mid.verts[k] == self.vertices@[k]@);
                    }
                    assert forall|k: int|
                        0 <= k < tn && k != j as int implies #[trigger] self@.verts[
                        i as int
                    ].targets[k] == mid.verts[i as int].targets[k] by {
                        assert(self@.verts[i as int].targets[k] == self.vertices@[
                            i as int
                        ].targets@[k]@);
                        assert(mid.verts[i as int].targets[k] == self.vertices@[
                            i as int
                        ].targets@[k]@);
                    }
                }
                j = j + 1;
            }
            let sn = self.vertices[i].sources.len();
            let mut q: usize = 0;
            while q < sn
                invariant
                    wf(ov),
                    self@.verts.len() == n,
                    i < n,
                    v == ov.verts[i as int],
                    vertex_wf(ov, v),
                    n == ov.verts.len(),
                    old_ids@.len() == n,
                    forall|k: int| 0 <= k < n ==> #[trigger] old_ids@[k] == ov.verts[k].id,
                    sn == v.sources.len(),
                    q <= sn,
                    self@.verts[i as int].sources.len() == sn,
                    forall|k: int|
                        0 <= k < q ==> #[trigger] self@.verts[i as int].sources[k] == idx_of(
                            ov,
                            v.sources[k],
                        ) + 1,
                    forall|k: int|
                        q <= k < sn ==> #[trigger] self@.verts[i as int].sources[k]
                            == v.sources[k],
                    forall|k: int|
                        0 <= k < self@.verts.len() && k != i as int ==> #[trigger] self@.verts[k]
                            == pre.verts[k],
                    self@.verts[i as int].id == i + 1,
                    self@.verts[i as int].label == v.label,
                    self@.verts[i as int].targets =~~= v.targets.map_values(
                        |t: GroupModel<E>| fit_group(ov, t),
                    ),
                    self@.last == ov.last,
                decreases sn - q,
            {
                let ghost mid = self@;
                let y = self.vertices[i].sources[q];
                proof {
                    assert(self@.verts[i as int].sources[q as int] == v.sources[q as int]);
                    assert(v.sources[q as int] == y as int);
                    assert(has_id(ov, y as int));
                    let w = choose|w: int| 0 <= w < ov.verts.len() && ov.verts[w].id == y as int;
                    assert(old_ids@[w] == y);
                }
                let p = pos_of(&old_ids, y);
                proof {
                    lemma_idx_at(ov, p as int);
                    assert(idx_of(ov, y as int) == p as int);
                }
                self.vertices[i].sources[q] = p + 1;
                proof {
                    assert(self@.verts[i as int].sources[q as int] == idx_of(
                        ov,
                        v.sources[q as int],
                    ) + 1);
                    assert forall|k: int|
                        0 <= k < self@.verts.len() && k != i as int implies #[trigger] self@.verts[k]
                        == mid.verts[k] by {
                        assert(self@.verts[k] == self.vertices@[k]@);
                        assert(mid.verts[k] == self.vertices@[k]@);
                    }
                    assert forall|k: int|
                        0 <= k < sn && k != q as int implies #[trigger] self@.verts[
                        i as int
                    ].sources[k] == mid.verts[i as int].sources[k] by {
                        assert(self@.verts[i as int].sources[k] == self.vertices@[
                            i as int
                        ].sources@[k] as int);
                        assert(mid.verts[i as int].sources[k] == self.vertices@[
                            i as int
                        ].sources@[k] as int);
                    }
                }
                q = q + 1;
            }
            proof {
                assert(self@.verts[i as int] =~~= fit_vertex(ov, v)) by {
                    assert(self@.verts[i as int].sources =~= v.sources.map_values(
                        |y: int| idx_of(ov, y) + 1,
                    ));
                    lemma_idx_at(ov, i as int);
                }
                assert forall|k: int|
                    0 <= k < n && k != i as int implies #[trigger] self@.verts[k]
                    == pre.verts[k] by {
                    assert(self@.verts[k] == self.vertices@[k]@);
                    assert(pre.verts[k] == self.vertices@[k]@);
                }
            }
            i = i + 1;
        }
        self.last_vertex_id = n;
        proof {
            lemma_fit_wf(ov);
            assert(self@.verts =~~= fit_model(ov).verts) by {
                assert forall|k: int| 0 <= k < n implies self@.verts[k] =~~= fit_model(
                    ov,
                ).verts[k] by {
                    assert(self@.verts[k] =~~= fit_vertex(ov, ov.verts[k]));
                }
            }
            assert(self@ =~~= fit_model(ov));
        }
    }
}

/// The label of the vertex with id `y`, or nothing when absent.
pub open spec fn label_of<V, E>(g: GraphModel<V, E>, y: int) -> Option<V> {
    if has_id(g, y) {
        g.verts[idx_of(g, y)].label
    } else {
        None
    }
}

/// Inserting a fresh isolated vertex at its sorted position keeps the
/// store well formed and changes nothing else.
proof fn lemma_insert_vertex<V, E>(
    ov: GraphModel<V, E>,
    nv: GraphModel<V, E>,
    p: int,
    x: int,
    lab: Option<V>,
)
    requires
        wf(ov),
        0 <= p <= ov.verts.len(),
        x >= 0,
        !has_id(ov, x),
        forall|k: int| 0 <= k < p ==> (#[trigger] ov.verts[k]).id < x,
        forall|k: int| p <= k < ov.verts.len() ==> (#[trigger] ov.verts[k]).id > x,
        nv.verts =~~= ov.verts.insert(
            p,
            VertexModel { id: x, label: lab, targets: Seq::empty(), sources: Seq::empty() },
        ),
        nv.last == if x > ov.last {
            x
        } else {
            ov.last
        },
    ensures
        wf(nv),
        forall|y: int| has_id(nv, y) <==> (has_id(ov, y) || y == x),
        label_of(nv, x) == lab,
        forall|y: int| y != x ==> #[trigger] label_of(nv, y) == label_of(ov, y),
        forall|a: int, b: int| #[trigger] label_seq(nv, a, b) == label_seq(ov, a, b),
{
    let newv = VertexModel { id: x, label: lab, targets: Seq::<GroupModel<E>>::empty(), sources: Seq::<int>::empty() };
    ov.verts.insert_ensures(p, newv);
    assert(ids_of(nv) =~= ids_of(ov).insert(p, x)) by {
        ids_of(ov).insert_ensures(p, x);
        assert forall|k: int| 0 <= k < ids_of(nv).len() implies ids_of(nv)[k] == ids_of(
            ov,
        ).insert(p, x)[k] by {
            assert(ids_of(nv)[k] == nv.verts[k].id);
            if k < p {
                assert(nv.verts[k] == ov.verts[k]);
                assert(ids_of(ov)[k] == ov.verts[k].id);
            } else if k > p {
                assert(nv.verts[k] == ov.verts[k - 1]);
                assert(ids_of(ov)[k - 1] == ov.verts[k - 1].id);
            }
        }
    }
    assert(sorted_strict(ids_of(nv))) by {
        lemma_insert_sorted(ids_of(ov), p, x);
    }
    assert forall|y: int| has_id(nv, y) <==> (has_id(ov, y) || y == x) by {
        if has_id(ov, y) {
            let i = choose|i: int| 0 <= i < ov.verts.len() && ov.verts[i].id == y;
            if i < p {
                assert(nv.verts[i].id == y);
            } else {
                assert(nv.verts[i + 1].id == y);
            }
        }
        if y == x {
            assert(nv.verts[p].id == x);
        }
        if has_id(nv, y) && y != x {
            let i = choose|i: int| 0 <= i < nv.verts.len() && nv.verts[i].id == y;
            if i < p {
                assert(ov.verts[i].id == y);
            } else if i == p {
                assert(nv.verts[p].id == x);
            } else {
                assert(ov.verts[i - 1].id == y);
            }
        }
    }
    assert forall|k: int, y: int|
        0 <= k < nv.verts.len() implies #[trigger] has_group(nv.verts[k], y) == (if k == p {
        false
    } else {
        has_group(ov.verts[(if k < p { k } else { k - 1 })], y)
    }) by {
        if k == p {
            if has_group(nv.verts[k], y) {
                let w = group_idx(nv.verts[k], y);
            }
        } else {
            let o = if k < p { k } else { k - 1 };
            assert(nv.verts[k] == ov.verts[o]);
        }
    }
    assert forall|i: int| 0 <= i < nv.verts.len() implies vertex_wf(nv, #[trigger] nv.verts[i]) by {
        if i == p {
            assert(nv.verts[i] == newv);
            assert(sorted_strict(newv.targets.map_values(|t: GroupModel<E>| t.to))) by {
                assert(newv.targets.map_values(|t: GroupModel<E>| t.to).len() == 0);
            }
        } else {
            let o = if i < p { i } else { i - 1 };
            assert(nv.verts[i] == ov.verts[o]);
            assert(vertex_wf(ov, ov.verts[o]));
            assert forall|w: int| 0 <= w < nv.verts[i].targets.len() implies has_id(
                nv,
                (#[trigger] nv.verts[i].targets[w]).to,
            ) by {
                assert(has_id(ov, ov.verts[o].targets[w].to));
            }
            assert forall|w: int| 0 <= w < nv.verts[i].sources.len() implies has_id(
                nv,
                #[trigger] nv.verts[i].sources[w],
            ) by {
                assert(has_id(ov, ov.verts[o].sources[w]));
            }
        }
    }
    assert(sync_wf(nv)) by {
        assert forall|k: int, m: int|
            0 <= k < nv.verts.len() && 0 <= m < nv.verts.len() implies (has_group(
            #[trigger] nv.verts[k],
            (#[trigger] nv.verts[m]).id,
        ) <==> nv.verts[m].sources.contains(nv.verts[k].id)) by {
            if k == p {
                assert(!has_group(nv.verts[k], nv.verts[m].id));
                if m != p {
                    let om = if m < p { m } else { m - 1 };
                    assert(nv.verts[m] == ov.verts[om]);
                    assert(!ov.verts[om].sources.contains(x)) by {
                        if ov.verts[om].sources.contains(x) {
                            let w = choose|w: int|
                                0 <= w < ov.verts[om].sources.len() && ov.verts[om].sources[w]
                                    == x;
                            assert(has_id(ov, ov.verts[om].sources[w]));
                        }
                    }
                } else {
                    assert(nv.verts[m].sources.len() == 0);
                }
            } else {
                let ok = if k < p { k } else { k - 1 };
                if m == p {
                    assert(nv.verts[m].sources.len() == 0);
                    assert(!has_group(ov.verts[ok], x)) by {
                        if has_group(ov.verts[ok], x) {
                            let w = group_idx(ov.verts[ok], x);
                            assert(has_id(ov, ov.verts[ok].targets[w].to));
                        }
                    }
                } else {
                    let om = if m < p { m } else { m - 1 };
                    assert(nv.verts[k] == ov.verts[ok]);
                    assert(nv.verts[m] == ov.verts[om]);
                    assert(has_group(ov.verts[ok], ov.verts[om].id) <==> ov.verts[
                        om
                    ].sources.contains(ov.verts[ok].id));
                }
            }
        }
    }
    assert forall|i: int| 0 <= i < nv.verts.len() implies (#[trigger] nv.verts[i]).id
        <= nv.last by {
        if i != p {
            let o = if i < p { i } else { i - 1 };
            assert(nv.verts[i] == ov.verts[o]);
            assert(ov.verts[o].id <= ov.last);
        }
    }
    assert(label_of(nv, x) == lab) by {
        lemma_idx_at(nv, p);
    }
    assert forall|y: int| y != x implies #[trigger] label_of(nv, y) == label_of(ov, y) by {
        if has_id(ov, y) {
            let i = idx_of(ov, y);
            lemma_idx_at(ov, i);
            let ni = if i < p { i } else { i + 1 };
            assert(nv.verts[ni].id == y);
            lemma_idx_at(nv, ni);
        }
    }
    assert forall|a: int, b: int| #[trigger] label_seq(nv, a, b) == label_seq(ov, a, b) by {
        if has_id(ov, a) {
            let i = idx_of(ov, a);
            lemma_idx_at(ov, i);
            let ni = if i < p { i } else { i + 1 };
            assert(nv.verts[ni] == ov.verts[i]);
            lemma_idx_at(nv, ni);
            assert(idx_of(nv, a) == ni);
        } else if a == x {
            lemma_idx_at(nv, p);
            assert(idx_of(nv, x) == p);
            assert(!has_group(nv.verts[p], b));
        } else {
            assert(!has_id(nv, a));
        }
    }
}

impl<V, E> Graph<V, E> {
    /// Records a vertex under the given id: a present vertex keeps its
    /// edges and takes the new label (a later record overrides an earlier
    /// one), an absent one is created isolated; the allocator counter is
    /// raised to the id when needed.
    pub fn upsert_vertex(&mut self, id: usize, label: Option<V>)
        requires
            wf(old(self)@),
        ensures
            wf(final(self)@),
            forall|y: int| has_id(final(self)@, y) <==> (has_id(old(self)@, y) || y == id as int),
            label_of(final(self)@, id as int) == label,
            forall|y: int|
                y != id as int ==> #[trigger] label_of(final(self)@, y) == label_of(old(self)@, y),
            forall|a: int, b: int| #[trigger] label_seq(final(self)@, a, b) == label_seq(
                old(self)@,
                a,
                b,
            ),
            final(self)@.last == if id as int > old(self)@.last {
                id as int
            } else {
                old(self)@.last
            },
    {
        let ghost ov = self@;
        let n = self.vertices.len();
        let mut p: usize = 0;
        while p < n && self.vertices[p].id < id
            invariant
                self@ == ov,
                n == ov.verts.len(),
                p <= n,
                forall|k: int| 0 <= k < p ==> (#[trigger] ov.verts[k]).id < id,
            decreases n - p,
        {
            p = p + 1;
        }
        if p < n && self.vertices[p].id == id {
            proof {
                lemma_idx_at(ov, p as int);
            }
            self.vertices[p].label = label;
            proof {
                let nv = self@;
                assert(nv.verts =~~= ov.verts.update(
                    p as int,
                    VertexModel {
                        id: ov.verts[p as int].id,
                        label: label,
                        targets: ov.verts[p as int].targets,
                        sources: ov.verts[p as int].sources,
                    },
                ));
                assert(ids_of(nv) =~= ids_of(ov));
                lemma_same_ids(nv, ov);
                assert forall|k: int, y: int|
                    0 <= k < nv.verts.len() implies #[trigger] has_group(nv.verts[k], y)
                    == has_group(ov.verts[k], y) by {
                    assert(nv.verts[k].targets == ov.verts[k].targets);
                    if has_group(nv.verts[k], y) {
                        let w = group_idx(nv.verts[k], y);
                        assert(ov.verts[k].targets[w].to == y);
                    }
                    if has_group(ov.verts[k], y) {
                        let w = group_idx(ov.verts[k], y);
                        assert(nv.verts[k].targets[w].to == y);
                    }
                }
                assert forall|i: int| 0 <= i < nv.verts.len() implies vertex_wf(
                    nv,
                    #[trigger] nv.verts[i],
                ) by {
                    assert(vertex_wf(ov, ov.verts[i]));
                    assert(nv.verts[i].targets == ov.verts[i].targets);
                    assert(nv.verts[i].sources == ov.verts[i].sources);
                }
                assert(sync_wf(nv)) by {
                    assert forall|k: int, m: int|
                        0 <= k < nv.verts.len() && 0 <= m < nv.verts.len() implies (has_group(
                        #[trigger] nv.verts[k],
                        (#[trigger] nv.verts[m]).id,
                    ) <==> nv.verts[m].sources.contains(nv.verts[k].id)) by {
                        assert(has_group(ov.verts[k], ov.verts[m].id) <==> ov.verts[
                            m
                        ].sources.contains(ov.verts[k].id));
                    }
                }
                assert(label_of(nv, id as int) == label) by {
                    lemma_idx_at(nv, p as int);
                }
                assert forall|y: int| y != id as int implies #[trigger] label_of(nv, y)
                    == label_of(ov, y) by {
                    if has_id(ov, y) {
                        let i = idx_of(ov, y);
                        lemma_idx_at(ov, i);
                        lemma_idx_at(nv, i);
                        assert(i != p as int);
                        assert(nv.verts[i] == ov.verts[i]);
                    }
                }
                assert forall|a: int, b: int| #[trigger] label_seq(nv, a, b) == label_seq(
                    ov,
                    a,
                    b,
                ) by {
                    if has_id(ov, a) {
                        let i = idx_of(ov, a);
                        lemma_idx_at(ov, i);
                        lemma_idx_at(nv, i);
                        assert(nv.verts[i].targets == ov.verts[i].targets);
                        if has_group(ov.verts[i], b) {
                            let w = group_idx(ov.verts[i], b);
                            lemma_group_at(ov.verts[i], w);
                            assert(nv.verts[i].targets[w].to == b);
                            lemma_group_at(nv.verts[i], w);
                        }
                    } else {
                        assert(!has_id(nv, a));
                    }
                }
            }
        } else {
            proof {
                assert(!has_id(ov, id as int)) by {
                    if has_id(ov, id as int) {
                        let w = idx_of(ov, id as int);
                        lemma_idx_at(ov, w);
                        if w < p as int {
                            assert(ov.verts[w].id < id);
                        } else if p < n {
                            assert(ids_of(ov)[p as int] <= ids_of(ov)[w]);
                            assert(ov.verts[p as int].id <= ov.verts[w].id);
                        }
                    }
                }
                assert forall|k: int| p as int <= k < n implies (#[trigger] ov.verts[k]).id
                    > id by {
                    assert(ids_of(ov)[p as int] <= ids_of(ov)[k]);
                    assert(ov.verts[p as int].id <= ov.verts[k].id);
                    assert(ov.verts[p as int].id >= id);
                    assert(ov.verts[k].id != id);
                }
            }
            let mut targets: Vec<EdgeGroup<E>> = Vec::new();
            let mut sources: Vec<usize> = Vec::new();
            let v = Vertex { id, label, targets, sources };
            proof {
                assert(v@.targets =~= Seq::<GroupModel<E>>::empty());
                assert(v@.sources =~= Seq::<int>::empty());
            }
            self.vertices.insert(p, v);
            if id > self.last_vertex_id {
                self.last_vertex_id = id;
            }
            proof {
                let nv = self@;
                assert(nv.verts =~~= ov.verts.insert(
                    p as int,
                    VertexModel {
                        id: id as int,
                        label: label,
                        targets: Seq::empty(),
                        sources: Seq::empty(),
                    },
                ));
                lemma_insert_vertex(ov, nv, p as int, id as int, label);
            }
        }
    }
}

/// Compaction is idempotent: compacting a well-formed store twice gives
/// exactly the result of compacting it once.
pub proof fn lemma_fit_idempotent<V, E>(g: GraphModel<V, E>)
    requires
        wf(g),
    ensures
        fit_model(fit_model(g)) =~~= fit_model(g),
{
    let h = fit_model(g);
    lemma_fit_wf(g);
    let n = h.verts.len();
    assert forall|y: int| 1 <= y <= n implies has_id(h, y) && idx_of(h, y) == y - 1 by {
        assert(h.verts[y - 1].id == y);
        lemma_idx_at(h, y - 1);
    }
    assert forall|i: int| 0 <= i < n implies #[trigger] fit_model(h).verts[i] =~~= h.verts[i] by {
        let v = h.verts[i];
        assert(fit_model(h).verts[i] == fit_vertex(h, v));
        assert(vertex_wf(h, v));
        assert(idx_of(h, v.id) == i);
        assert forall|w: int| 0 <= w < v.targets.len() implies #[trigger] fit_group(
            h,
            v.targets[w],
        ) =~= v.targets[w] by {
            let y = v.targets[w].to;
            assert(has_id(h, y));
            let q = choose|q: int| 0 <= q < h.verts.len() && h.verts[q].id == y;
            assert(h.verts[q].id == q + 1);
            assert(idx_of(h, y) == y - 1);
        }
        assert(fit_vertex(h, v).targets =~= v.targets);
        assert forall|w: int| 0 <= w < v.sources.len() implies idx_of(h, #[trigger] v.sources[w])
            + 1 == v.sources[w] by {
            let y = v.sources[w];
            assert(has_id(h, y));
            let q = choose|q: int| 0 <= q < h.verts.len() && h.verts[q].id == y;
            assert(h.verts[q].id == q + 1);
            assert(idx_of(h, y) == y - 1);
        }
        assert(fit_vertex(h, v).sources =~= v.sources);
    }
    assert(fit_model(h).verts =~~= h.verts);
}

/// Insertion monotonicity: the id the next insertion returns, one above
/// the allocator counter, is strictly greater than every live id.
pub proof fn lemma_insertion_monotone<V, E>(g: GraphModel<V, E>)
    requires
        wf(g),
    ensures
        forall|i: int| 0 <= i < g.verts.len() ==> (#[trigger] g.verts[i]).id < g.last + 1,
{
}

/// Deletion safety: in a well-formed store an absent id is referenced
/// nowhere — no surviving edge points at it in either direction, and its
/// label lists read as empty — so the mutations, whose success conditions
/// demand a live id, treat it as not found.
pub proof fn lemma_deletion_safety<V, E>(g: GraphModel<V, E>, x: int)
    requires
        wf(g),
        !has_id(g, x),
    ensures
        forall|i: int, j: int|
            0 <= i < g.verts.len() && 0 <= j < g.verts[i].targets.len() ==> (
            #[trigger] g.verts[i].targets[j]).to != x,
        forall|i: int| 0 <= i < g.verts.len() ==> !(#[trigger] g.verts[i]).sources.contains(x),
        forall|b: int| #[trigger] label_seq(g, x, b) == Seq::<Option<E>>::empty(),
        forall|a: int| #[trigger] label_seq(g, a, x) == Seq::<Option<E>>::empty(),
{
    assert forall|i: int, j: int|
        0 <= i < g.verts.len() && 0 <= j < g.verts[i].targets.len() implies (
    #[trigger] g.verts[i].targets[j]).to != x by {
        assert(vertex_wf(g, g.verts[i]));
        assert(has_id(g, g.verts[i].targets[j].to));
    }
    assert forall|i: int|
        0 <= i < g.verts.len() implies !(#[trigger] g.verts[i]).sources.contains(x) by {
        if g.verts[i].sources.contains(x) {
            let w = choose|w: int| 0 <= w < g.verts[i].sources.len() && g.verts[i].sources[w] == x;
            assert(vertex_wf(g, g.verts[i]));
            assert(has_id(g, g.verts[i].sources[w]));
        }
    }
    assert forall|a: int| #[trigger] label_seq(g, a, x) == Seq::<Option<E>>::empty() by {
        if has_id(g, a) {
            let i = idx_of(g, a);
            lemma_idx_at(g, i);
            assert(!has_group(g.verts[i], x)) by {
                if has_group(g.verts[i], x) {
                    let w = group_idx(g.verts[i], x);
                    assert(g.verts[i].targets[w].to != x);
                }
            }
        }
    }
}

/// The label list after appending the same label `k` times over.
pub open spec fn pushed<E>(s: Seq<Option<E>>, lab: Option<E>, k: nat) -> Seq<Option<E>>
    decreases k,
{
    if k == 0 {
        s
    } else {
        pushed(s, lab, (k - 1) as nat).push(lab)
    }
}

/// Multiplicity preservation: appending the same labeled edge `k` times
/// grows the pair's label list by exactly `k` occurrences of that label,
/// and the serializer writes one line per occurrence in list order.
pub proof fn lemma_multiplicity<E>(s: Seq<Option<E>>, lab: Option<E>, k: nat)
    ensures
        pushed(s, lab, k).len() == s.len() + k,
        pushed(s, lab, k).to_multiset().count(lab) == s.to_multiset().count(lab) + k,
    decreases k,
{
    s.to_multiset_ensures();
    if k > 0 {
        lemma_multiplicity(s, lab, (k - 1) as nat);
        pushed(s, lab, (k - 1) as nat).to_multiset_ensures();
    }
}

/// Every (from, to, labels) edge group, flattened in storage order.
pub open spec fn flat_groups<V, E>(vs: Seq<VertexModel<V, E>>) -> Seq<(int, int, Seq<Option<E>>)>
    decreases vs.len(),
{
    if vs.len() == 0 {
        Seq::empty()
    } else {
        flat_groups(vs.drop_last()) + vs.last().targets.map_values(
            |t: GroupModel<E>| (vs.last().id, t.to, t.labels),
        )
    }
}

impl<V, E> Graph<V, E> {
    /// Every live vertex as an (id, label) pair, in ascending id order.
    pub fn get_vertices_vec(&self) -> (r: Vec<(usize, &Option<V>)>)
        ensures
            r@.len() == self@.verts.len(),
            forall|i: int|
                0 <= i < r@.len() ==> (#[trigger] r@[i]).0 == self@.verts[i].id && *r@[i].1
                    == self@.verts[i].label,
    {
        let n = self.vertices.len();
        let mut r: Vec<(usize, &Option<V>)> = Vec::new();
        let mut i: usize = 0;
        while i < n
            invariant
                n == self@.verts.len(),
                i <= n,
                r@.len() == i,
                forall|k: int|
                    0 <= k < i ==> (#[trigger] r@[k]).0 == self@.verts[k].id && *r@[k].1
                        == self@.verts[k].label,
            decreases n - i,
        {
            r.push((self.vertices[i].id, &self.vertices[i].label));
            i = i + 1;
        }
        r
    }

    /// Every edge group as a (from, to, labels) triple, grouped by source
    /// vertex in ascending id order and by target within each source.
    pub fn get_edges_vec(&self) -> (r: Vec<(usize, usize, &Vec<Option<E>>)>)
        ensures
            r@.map_values(
                |e: (usize, usize, &Vec<Option<E>>)| (e.0 as int, e.1 as int, e.2@),
            ) =~= flat_groups(self@.verts),
    {
        let n = self.vertices.len();
        let mut r: Vec<(usize, usize, &Vec<Option<E>>)> = Vec::new();
        let ghost f = |e: (usize, usize, &Vec<Option<E>>)| (e.0 as int, e.1 as int, e.2@);
        let mut i: usize = 0;
        while i < n
            invariant
                n == self@.verts.len(),
                i <= n,
                r@.map_values(
                    |e: (usize, usize, &Vec<Option<E>>)| (e.0 as int, e.1 as int, e.2@),
                ) =~= flat_groups(self@.verts.take(i as int)),
            decreases n - i,
        {
            let from = self.vertices[i].id;
            let tn = self.vertices[i].targets.len();
            let mut j: usize = 0;
            while j < tn
                invariant
                    i < n,
                    n == self@.verts.len(),
                    from == self@.verts[i as int].id,
                    tn == self@.verts[i as int].targets.len(),
                    j <= tn,
                    r@.map_values(
                        |e: (usize, usize, &Vec<Option<E>>)| (e.0 as int, e.1 as int, e.2@),
                    ) =~= flat_groups(self@.verts.take(i as int)) + self@.verts[
                        i as int
                    ].targets.take(j as int).map_values(
                        |t: GroupModel<E>| (self@.verts[i as int].id, t.to, t.labels),
                    ),
                decreases tn - j,
            {
                let ghost pre = r@;
                r.push((from, self.vertices[i].targets[j].to, &self.vertices[i].targets[j].labels));
                proof {
                    let m = |e: (usize, usize, &Vec<Option<E>>)| (e.0 as int, e.1 as int, e.2@);
                    assert(r@.map_values(m) =~= pre.map_values(m).push(
                        (
                            from as int,
                            self@.verts[i as int].targets[j as int].to,
                            self@.verts[i as int].targets[j as int].labels,
                        ),
                    ));
                    assert(self@.verts[i as int].targets.take(j as int + 1).drop_last()
                        =~= self@.verts[i as int].targets.take(j as int));
                    assert(r@.map_values(m) =~= flat_groups(self@.verts.take(i as int))
                        + self@.verts[i as int].targets.take(j as int + 1).map_values(
                        |t: GroupModel<E>| (self@.verts[i as int].id, t.to, t.labels),
                    ));
                }
                j = j + 1;
            }
            proof {
                let vs = self@.verts.take(i as int + 1);
                assert(vs.drop_last() =~= self@.verts.take(i as int));
                assert(vs.last() == self@.verts[i as int]);
                assert(self@.verts[i as int].targets.take(tn as int) =~= self@.verts[
                    i as int
                ].targets);
            }
            i = i + 1;
        }
        proof {
            assert(self@.verts.take(n as int) =~= self@.verts);
        }
        r
    }
}

} // verus!
